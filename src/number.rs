//! Fixed-point decimal numbers and their text form.
//!
//! A number is an `i128` counting billionths: `6.2` is held as `6_200_000_000`.
//! Every value that the calculator stores or computes lies within
//! `-UNIT_LIMIT ..= UNIT_LIMIT`.
use vstd::prelude::*;

verus! {

/// Number of fractional decimal digits a value carries.
pub const FRACTION_DIGITS: usize = 9;

/// Units per whole number (ten to the power `FRACTION_DIGITS`).
pub const SCALE: u128 = 1_000_000_000;

/// Largest magnitude, in units, of any value (one quintillion whole numbers).
pub const UNIT_LIMIT: u128 = 1_000_000_000_000_000_000_000_000_000;

/// Largest integer part that can still be scaled without leaving the range.
pub const WHOLE_LIMIT: u128 = 1_000_000_000_000_000_000;

pub open spec fn in_range(v: int) -> bool {
    -(UNIT_LIMIT as int) <= v <= UNIT_LIMIT as int
}

pub open spec fn abs(v: int) -> nat {
    if v < 0 {
        (-v) as nat
    } else {
        v as nat
    }
}

pub open spec fn pow10(n: nat) -> nat
    decreases n,
{
    if n == 0 {
        1
    } else {
        10 * pow10((n - 1) as nat)
    }
}

pub open spec fn is_digit(c: char) -> bool {
    '0' <= c <= '9'
}

pub open spec fn digit_value(c: char) -> nat {
    (c as int - '0' as int) as nat
}

pub open spec fn digit_char(d: nat) -> char {
    (d + '0' as int) as char
}

pub open spec fn all_digits(s: Seq<char>) -> bool {
    forall|i: int| 0 <= i < s.len() ==> is_digit(#[trigger] s[i])
}

/// The value of a string of decimal digits, most significant first.
pub open spec fn digits_value(s: Seq<char>) -> nat
    decreases s.len(),
{
    if s.len() == 0 {
        0
    } else {
        10 * digits_value(s.drop_last()) + digit_value(s.last())
    }
}

/// Whether a numeral starts with a minus sign.
pub open spec fn is_negative_text(s: Seq<char>) -> bool {
    s.len() > 0 && s[0] == '-'
}

/// The numeral without its sign.
pub open spec fn unsigned_text(s: Seq<char>) -> Seq<char> {
    if is_negative_text(s) {
        s.drop_first()
    } else {
        s
    }
}

/// The digits before the decimal point.
pub open spec fn whole_text(b: Seq<char>) -> Seq<char> {
    match b.index_of_first('.') {
        Some(k) => b.take(k),
        None => b,
    }
}

/// The digits after the decimal point (empty where there is no point).
pub open spec fn fraction_text(b: Seq<char>) -> Seq<char> {
    match b.index_of_first('.') {
        Some(k) => b.skip(k + 1),
        None => Seq::empty(),
    }
}

/// The fraction digits that count: the first `FRACTION_DIGITS` of them.
pub open spec fn kept_fraction(f: Seq<char>) -> Seq<char> {
    if f.len() > FRACTION_DIGITS {
        f.take(FRACTION_DIGITS as int)
    } else {
        f
    }
}

/// The magnitude, in units, of an unsigned numeral with a well-formed shape;
/// fraction digits past the last unit are dropped (truncation toward zero).
pub open spec fn magnitude_of(b: Seq<char>) -> nat {
    let w = whole_text(b);
    let f = kept_fraction(fraction_text(b));
    (digits_value(w) * SCALE + digits_value(f) * pow10((FRACTION_DIGITS - f.len()) as nat)) as nat
}

/// The value of a numeral: an optional `-`, then digits with at most one `.`
/// among them and at least one digit in all. Fraction digits beyond
/// `FRACTION_DIGITS` are truncated, so `0.0000000001` reads as zero. `None`
/// for any other text and for a magnitude beyond `UNIT_LIMIT`.
pub open spec fn parse_spec(s: Seq<char>) -> Option<int> {
    let b = unsigned_text(s);
    let w = whole_text(b);
    let f = fraction_text(b);
    if !all_digits(w) || !all_digits(f) || (w.len() == 0 && f.len() == 0) {
        None
    } else if magnitude_of(b) > UNIT_LIMIT {
        None
    } else if is_negative_text(s) {
        Some(-(magnitude_of(b) as int))
    } else {
        Some(magnitude_of(b) as int)
    }
}

/// The decimal digits of `n`, without leading zeros ("0" for zero).
pub open spec fn natural_text(n: nat) -> Seq<char>
    decreases n,
{
    if n < 10 {
        seq![digit_char(n)]
    } else {
        natural_text(n / 10).push(digit_char(n % 10))
    }
}

/// The last `w` decimal digits of `n`, zero-padded on the left.
pub open spec fn padded_text(n: nat, w: nat) -> Seq<char>
    decreases w,
{
    if w == 0 {
        Seq::empty()
    } else {
        padded_text(n / 10, (w - 1) as nat).push(digit_char(n % 10))
    }
}

pub open spec fn strip_zeros(s: Seq<char>) -> Seq<char>
    decreases s.len(),
{
    if s.len() > 0 && s.last() == '0' {
        strip_zeros(s.drop_last())
    } else {
        s
    }
}

/// The fractional part of a magnitude: empty when it is zero, else a point
/// and the digits with trailing zeros removed.
pub open spec fn fraction_part_text(frac: nat) -> Seq<char> {
    if frac == 0 {
        Seq::empty()
    } else {
        seq!['.'] + strip_zeros(padded_text(frac, FRACTION_DIGITS as nat))
    }
}

/// The text of a value: a minus sign for negative values, the whole part,
/// and the fraction with trailing zeros removed (`6.2`, `6`, `-0.5`).
pub open spec fn format_spec(v: int) -> Seq<char> {
    let m = abs(v);
    let sign = if v < 0 {
        seq!['-']
    } else {
        Seq::empty()
    };
    sign + natural_text(m / (SCALE as nat)) + fraction_part_text(m % (SCALE as nat))
}

pub proof fn lemma_pow10_positive(n: nat)
    ensures
        pow10(n) >= 1,
    decreases n,
{
    if n > 0 {
        lemma_pow10_positive((n - 1) as nat);
    }
}

proof fn lemma_pow10_add(a: nat, b: nat)
    ensures
        pow10(a) * pow10(b) == pow10(a + b),
    decreases a,
{
    if a > 0 {
        lemma_pow10_add((a - 1) as nat, b);
        assert(pow10(a) * pow10(b) == 10 * (pow10((a - 1) as nat) * pow10(b))) by (nonlinear_arith)
            requires
                pow10(a) == 10 * pow10((a - 1) as nat),
        ;
        assert(pow10(a + b) == 10 * pow10((a + b - 1) as nat));
        assert((a + b - 1) as nat == ((a - 1) as nat + b) as nat);
    } else {
        assert(pow10(a) == 1);
    }
}

proof fn lemma_pow10_scale()
    ensures
        pow10(FRACTION_DIGITS as nat) == SCALE,
{
    reveal_with_fuel(pow10, 10);
}

proof fn lemma_digits_value_prefix(s: Seq<char>, j: int)
    requires
        0 <= j <= s.len(),
    ensures
        digits_value(s) >= digits_value(s.take(j)),
    decreases s.len(),
{
    if j < s.len() {
        assert(s.drop_last().take(j) =~= s.take(j));
        lemma_digits_value_prefix(s.drop_last(), j);
    } else {
        assert(s.take(j) =~= s);
    }
}

proof fn lemma_digits_value_bound(s: Seq<char>)
    requires
        all_digits(s),
    ensures
        digits_value(s) < pow10(s.len()),
    decreases s.len(),
{
    if s.len() > 0 {
        lemma_digits_value_bound(s.drop_last());
    }
}

fn char_digit(c: char) -> (r: u128)
    requires
        is_digit(c),
    ensures
        r == digit_value(c),
        r < 10,
{
    ((c as u32) - ('0' as u32)) as u128
}

fn digit_to_char(d: u128) -> (r: char)
    requires
        d < 10,
    ensures
        r == digit_char(d as nat),
        is_digit(r),
{
    if d == 0 {
        '0'
    } else if d == 1 {
        '1'
    } else if d == 2 {
        '2'
    } else if d == 3 {
        '3'
    } else if d == 4 {
        '4'
    } else if d == 5 {
        '5'
    } else if d == 6 {
        '6'
    } else if d == 7 {
        '7'
    } else if d == 8 {
        '8'
    } else {
        '9'
    }
}

proof fn lemma_split_at_point(b: Seq<char>, k: int)
    requires
        0 <= k <= b.len(),
        forall|j: int| 0 <= j < k ==> b[j] != '.',
        k == b.len() || b[k] == '.',
    ensures
        whole_text(b) =~= b.take(k),
        k < b.len() ==> fraction_text(b) =~= b.skip(k + 1),
        k == b.len() ==> fraction_text(b) =~= Seq::<char>::empty(),
{
    b.index_of_first_ensures('.');
    if k < b.len() {
        assert(b.contains('.'));
    }
}

/// Index of the first `.` at or after `from`, or the length of `s`.
fn find_point(s: &Vec<char>, from: usize) -> (r: usize)
    requires
        from <= s.len(),
    ensures
        from <= r <= s.len(),
        forall|j: int| from <= j < r ==> s@[j] != '.',
        r == s.len() || s@[r as int] == '.',
{
    let mut i = from;
    while i < s.len() && s[i] != '.'
        invariant
            from <= i <= s.len(),
            forall|j: int| from <= j < i ==> s@[j] != '.',
        decreases s.len() - i,
    {
        i = i + 1;
    }
    i
}

/// The value of the digits `s[from..to]`, where all are digits and the value
/// does not exceed `bound`.
fn read_digits(s: &Vec<char>, from: usize, to: usize, bound: u128) -> (r: Option<u128>)
    requires
        from <= to <= s.len(),
        bound <= WHOLE_LIMIT,
    ensures
        r.is_some() == (all_digits(s@.subrange(from as int, to as int)) && digits_value(
            s@.subrange(from as int, to as int),
        ) <= bound),
        r.is_some() ==> r.unwrap() == digits_value(s@.subrange(from as int, to as int)),
{
    let ghost sub = s@.subrange(from as int, to as int);
    let mut i = from;
    let mut acc: u128 = 0;
    while i < to
        invariant
            from <= i <= to <= s.len(),
            bound <= WHOLE_LIMIT,
            sub == s@.subrange(from as int, to as int),
            all_digits(s@.subrange(from as int, i as int)),
            acc == digits_value(s@.subrange(from as int, i as int)),
            acc <= bound,
        decreases to - i,
    {
        let c = s[i];
        if !('0' <= c && c <= '9') {
            proof {
                assert(sub[i - from] == c);
            }
            return None;
        }
        let ghost prev = s@.subrange(from as int, i as int);
        acc = acc * 10 + char_digit(c);
        i = i + 1;
        proof {
            assert(s@.subrange(from as int, i as int).drop_last() =~= prev);
        }
        if acc > bound {
            proof {
                assert(sub.take(i - from) =~= s@.subrange(from as int, i as int));
                lemma_digits_value_prefix(sub, i - from);
            }
            return None;
        }
    }
    proof {
        assert(sub =~= s@.subrange(from as int, i as int));
    }
    Some(acc)
}

fn pow10_exec(n: usize) -> (r: u128)
    requires
        n <= FRACTION_DIGITS,
    ensures
        r == pow10(n as nat),
        r <= SCALE,
{
    let mut r: u128 = 1;
    let mut k: usize = 0;
    while k < n
        invariant
            k <= n <= FRACTION_DIGITS,
            r == pow10(k as nat),
        decreases n - k,
    {
        proof {
            assert(pow10(k as nat) <= 100_000_000) by {
                reveal_with_fuel(pow10, 10);
            }
        }
        r = r * 10;
        k = k + 1;
    }
    proof {
        assert(pow10(n as nat) <= SCALE) by {
            reveal_with_fuel(pow10, 10);
        }
    }
    r
}

/// Whether `s[from..to]` holds digits only.
fn check_digits(s: &Vec<char>, from: usize, to: usize) -> (r: bool)
    requires
        from <= to <= s.len(),
    ensures
        r == all_digits(s@.subrange(from as int, to as int)),
{
    let mut i = from;
    while i < to
        invariant
            from <= i <= to <= s.len(),
            all_digits(s@.subrange(from as int, i as int)),
        decreases to - i,
    {
        let c = s[i];
        if !('0' <= c && c <= '9') {
            proof {
                assert(s@.subrange(from as int, to as int)[i - from] == c);
            }
            return false;
        }
        i = i + 1;
        proof {
            assert forall|j: int| 0 <= j < i - from implies is_digit(
                #[trigger] s@.subrange(from as int, i as int)[j],
            ) by {
                if j < i - 1 - from {
                    assert(s@.subrange(from as int, i as int)[j] == s@.subrange(
                        from as int,
                        i - 1,
                    )[j]);
                }
            }
        }
    }
    true
}

/// Reads a numeral into units; `None` where `parse_spec` has no value.
#[verifier::rlimit(40)]
pub fn parse_number(s: &Vec<char>) -> (r: Option<i128>)
    ensures
        r.is_some() == parse_spec(s@).is_some(),
        r.is_some() ==> r.unwrap() as int == parse_spec(s@).unwrap(),
        r.is_some() ==> in_range(r.unwrap() as int),
{
    let ghost sv = s@;
    let n = s.len();
    let neg = n > 0 && s[0] == '-';
    let start: usize = if neg {
        1
    } else {
        0
    };
    let ghost b = unsigned_text(sv);
    assert(b =~= sv.subrange(start as int, n as int));
    let point = find_point(s, start);
    proof {
        assert forall|j: int| 0 <= j < point - start implies b[j] != '.' by {
            assert(b[j] == sv[start + j]);
        }
        if point < n {
            assert(b[point - start] == '.');
        }
        lemma_split_at_point(b, point - start);
        assert(whole_text(b) =~= sv.subrange(start as int, point as int));
        if point < n {
            assert(fraction_text(b) =~= sv.subrange(point + 1, n as int));
        }
    }
    let whole = match read_digits(s, start, point, WHOLE_LIMIT) {
        Some(w) => w,
        None => {
            proof {
                if all_digits(whole_text(b)) {
                    lemma_pow10_positive(
                        (FRACTION_DIGITS - kept_fraction(fraction_text(b)).len()) as nat,
                    );
                    assert(digits_value(whole_text(b)) * SCALE >= digits_value(whole_text(b))
                        * 1_000_000_000) by (nonlinear_arith);
                }
            }
            return None;
        },
    };
    let frac_from: usize = if point < n {
        point + 1
    } else {
        n
    };
    proof {
        assert(fraction_text(b) =~= sv.subrange(frac_from as int, n as int));
    }
    if point == start && frac_from == n {
        return None;
    }
    let kept: usize = if n - frac_from > FRACTION_DIGITS {
        FRACTION_DIGITS
    } else {
        n - frac_from
    };
    let keep_to = frac_from + kept;
    let ghost f = fraction_text(b);
    proof {
        assert(kept_fraction(f) =~= sv.subrange(frac_from as int, keep_to as int));
    }
    let frac = match read_digits(s, frac_from, keep_to, SCALE) {
        Some(x) => x,
        None => {
            proof {
                let kf = kept_fraction(f);
                if all_digits(kf) {
                    lemma_digits_value_bound(kf);
                    assert(pow10(kept as nat) <= SCALE) by {
                        reveal_with_fuel(pow10, 10);
                    }
                } else {
                    let i = choose|i: int| 0 <= i < kf.len() && !is_digit(#[trigger] kf[i]);
                    assert(f[i] == kf[i]);
                }
            }
            return None;
        },
    };
    if !check_digits(s, keep_to, n) {
        proof {
            let i = choose|i: int|
                0 <= i < n - keep_to && !is_digit(#[trigger] sv.subrange(keep_to as int, n as int)[i]);
            assert(f[kept + i] == sv.subrange(keep_to as int, n as int)[i]);
        }
        return None;
    }
    proof {
        let kf = kept_fraction(f);
        lemma_digits_value_bound(kf);
        assert forall|i: int| 0 <= i < f.len() implies is_digit(#[trigger] f[i]) by {
            if i < kept {
                assert(f[i] == kf[i]);
            } else {
                assert(f[i] == sv.subrange(keep_to as int, n as int)[i - kept]);
            }
        }
    }
    let p = pow10_exec(FRACTION_DIGITS - kept);
    proof {
        lemma_pow10_add(kept as nat, (FRACTION_DIGITS - kept) as nat);
        lemma_pow10_scale();
        assert(frac * p < SCALE) by (nonlinear_arith)
            requires
                frac < pow10(kept as nat),
                pow10(kept as nat) * p == SCALE,
        ;
        assert(whole * SCALE <= UNIT_LIMIT) by (nonlinear_arith)
            requires
                whole <= WHOLE_LIMIT,
        ;
    }
    let total: u128 = whole * SCALE + frac * p;
    if total > UNIT_LIMIT {
        return None;
    }
    if neg {
        Some(-(total as i128))
    } else {
        Some(total as i128)
    }
}

fn natural_chars(n: u128) -> (r: Vec<char>)
    ensures
        r@ == natural_text(n as nat),
{
    let mut cur = n;
    let mut acc: Vec<char> = Vec::new();
    while cur >= 10
        invariant
            natural_text(n as nat) == natural_text(cur as nat) + acc@,
        decreases cur,
    {
        let ghost old_acc = acc@;
        let d = digit_to_char(cur % 10);
        acc.insert(0, d);
        proof {
            assert(natural_text(cur as nat) == natural_text((cur / 10) as nat).push(d));
            assert(natural_text((cur / 10) as nat).push(d) + old_acc =~= natural_text(
                (cur / 10) as nat,
            ) + acc@);
        }
        cur = cur / 10;
    }
    let ghost old_acc = acc@;
    let d = digit_to_char(cur);
    acc.insert(0, d);
    proof {
        assert(natural_text(cur as nat) == seq![d]);
        assert(seq![d] + old_acc =~= acc@);
    }
    acc
}

fn padded_chars(n: u128, w: usize) -> (r: Vec<char>)
    ensures
        r@ == padded_text(n as nat, w as nat),
{
    let mut cur = n;
    let mut k = w;
    let mut acc: Vec<char> = Vec::new();
    while k > 0
        invariant
            padded_text(n as nat, w as nat) == padded_text(cur as nat, k as nat) + acc@,
        decreases k,
    {
        let ghost old_acc = acc@;
        let d = digit_to_char(cur % 10);
        acc.insert(0, d);
        proof {
            assert(padded_text(cur as nat, k as nat) == padded_text(
                (cur / 10) as nat,
                (k - 1) as nat,
            ).push(d));
            assert(padded_text((cur / 10) as nat, (k - 1) as nat).push(d) + old_acc
                =~= padded_text((cur / 10) as nat, (k - 1) as nat) + acc@);
        }
        cur = cur / 10;
        k = k - 1;
    }
    proof {
        assert(padded_text(cur as nat, 0) + acc@ =~= acc@);
    }
    acc
}

fn strip_trailing_zeros(s: &mut Vec<char>)
    ensures
        final(s)@ == strip_zeros(old(s)@),
{
    while s.len() > 0 && s[s.len() - 1] == '0'
        invariant
            strip_zeros(old(s)@) == strip_zeros(s@),
        decreases s.len(),
    {
        let ghost before = s@;
        s.pop();
        proof {
            assert(s@ =~= before.drop_last());
        }
    }
}

/// The text of a value in units, as `format_spec` gives it.
pub fn format_chars(value: i128) -> (r: Vec<char>)
    requires
        in_range(value as int),
    ensures
        r@ == format_spec(value as int),
{
    let m: u128 = if value < 0 {
        (-value) as u128
    } else {
        value as u128
    };
    let mut out: Vec<char> = Vec::new();
    if value < 0 {
        out.push('-');
    }
    let mut whole = natural_chars(m / SCALE);
    out.append(&mut whole);
    let frac = m % SCALE;
    if frac != 0 {
        let mut digits = padded_chars(frac, FRACTION_DIGITS);
        strip_trailing_zeros(&mut digits);
        out.push('.');
        out.append(&mut digits);
    }
    proof {
        let sign = if value < 0 {
            seq!['-']
        } else {
            Seq::<char>::empty()
        };
        assert(m == abs(value as int));
        assert(out@ =~= sign + natural_text(m as nat / (SCALE as nat)) + fraction_part_text(
            m as nat % (SCALE as nat),
        ));
    }
    out
}

/// Relies on std's `FromIterator<char>` for `String`: collecting chars in order.
#[verifier::external_body]
pub(crate) fn chars_to_string(chars: &Vec<char>) -> (r: String)
    ensures
        r@ == chars@,
{
    chars.iter().collect()
}

/// The text of a value in units: whole part, then the fraction without
/// trailing zeros (`6.2`, `6`).
pub fn format_number(value: i128) -> (r: String)
    requires
        in_range(value as int),
    ensures
        r@ == format_spec(value as int),
{
    chars_to_string(&format_chars(value))
}

/// No text that `format_spec` gives holds more than one decimal point.
pub proof fn lemma_format_one_point(v: int)
    ensures
        forall|i: int, j: int|
            0 <= i < format_spec(v).len() && 0 <= j < format_spec(v).len() && #[trigger] format_spec(
                v,
            )[i] == '.' && #[trigger] format_spec(v)[j] == '.' ==> i == j,
{
    let m = abs(v);
    let sign = if v < 0 {
        seq!['-']
    } else {
        Seq::<char>::empty()
    };
    let head = sign + natural_text(m / (SCALE as nat));
    lemma_natural_text_digits(m / (SCALE as nat));
    assert(forall|i: int| 0 <= i < head.len() ==> head[i] != '.');
    let frac = m % (SCALE as nat);
    if frac != 0 {
        let d = padded_text(frac, FRACTION_DIGITS as nat);
        lemma_padded_text_digits(frac, FRACTION_DIGITS as nat);
        lemma_strip_zeros_prefix(d);
        let tail = strip_zeros(d);
        assert(forall|i: int| 0 <= i < tail.len() ==> tail[i] == d[i]);
        assert(forall|i: int| 0 <= i < tail.len() ==> tail[i] != '.');
    }
    assert(format_spec(v) =~= head + fraction_part_text(frac));
}

pub proof fn lemma_natural_text_digits(n: nat)
    ensures
        all_digits(natural_text(n)),
    decreases n,
{
    if n >= 10 {
        lemma_natural_text_digits(n / 10);
    }
}

proof fn lemma_padded_text_digits(n: nat, w: nat)
    ensures
        all_digits(padded_text(n, w)),
    decreases w,
{
    if w > 0 {
        lemma_padded_text_digits(n / 10, (w - 1) as nat);
    }
}

proof fn lemma_strip_zeros_prefix(s: Seq<char>)
    ensures
        strip_zeros(s).len() <= s.len(),
        forall|i: int| 0 <= i < strip_zeros(s).len() ==> strip_zeros(s)[i] == s[i],
    decreases s.len(),
{
    if s.len() > 0 && s.last() == '0' {
        lemma_strip_zeros_prefix(s.drop_last());
        assert forall|i: int| 0 <= i < strip_zeros(s).len() implies strip_zeros(s)[i] == s[i] by {
            assert(s.drop_last()[i] == s[i]);
        }
    }
}

proof fn lemma_digit_char_value(d: nat)
    requires
        d < 10,
    ensures
        is_digit(digit_char(d)),
        digit_value(digit_char(d)) == d,
{
}

proof fn lemma_natural_text_value(n: nat)
    ensures
        natural_text(n).len() > 0,
        all_digits(natural_text(n)),
        digits_value(natural_text(n)) == n,
    decreases n,
{
    if n < 10 {
        lemma_digit_char_value(n);
        assert(seq![digit_char(n)].drop_last() =~= Seq::<char>::empty());
        assert(digits_value(Seq::<char>::empty()) == 0);
        assert(digits_value(natural_text(n)) == 10 * digits_value(Seq::<char>::empty())
            + digit_value(digit_char(n)));
    } else {
        lemma_natural_text_value(n / 10);
        lemma_digit_char_value(n % 10);
        let t = natural_text(n);
        assert(t.drop_last() =~= natural_text(n / 10));
        assert(t.last() == digit_char(n % 10));
        assert(digits_value(t) == 10 * (n / 10) + n % 10);
    }
}

proof fn lemma_padded_text_value(n: nat, w: nat)
    ensures
        padded_text(n, w).len() == w,
        all_digits(padded_text(n, w)),
        digits_value(padded_text(n, w)) == n % pow10(w),
    decreases w,
{
    if w == 0 {
    } else {
        lemma_padded_text_value(n / 10, (w - 1) as nat);
        lemma_digit_char_value(n % 10);
        let t = padded_text(n, w);
        assert(t.drop_last() =~= padded_text(n / 10, (w - 1) as nat));
        lemma_pow10_positive((w - 1) as nat);
        vstd::arithmetic::div_mod::lemma_mod_breakdown(n as int, 10, pow10((w - 1) as nat) as int);
    }
}

proof fn lemma_strip_zeros_value(s: Seq<char>)
    ensures
        strip_zeros(s).len() <= s.len(),
        strip_zeros(s) =~= s.take(strip_zeros(s).len() as int),
        digits_value(strip_zeros(s)) * pow10((s.len() - strip_zeros(s).len()) as nat)
            == digits_value(s),
    decreases s.len(),
{
    if s.len() > 0 && s.last() == '0' {
        let t = s.drop_last();
        lemma_strip_zeros_value(t);
        let k = strip_zeros(s).len();
        assert(t.take(k as int) =~= s.take(k as int));
        let e = (t.len() - k) as nat;
        assert(pow10((s.len() - k) as nat) == 10 * pow10(e));
        assert(digits_value(strip_zeros(s)) * (10 * pow10(e)) == 10 * (digits_value(
            strip_zeros(s),
        ) * pow10(e))) by (nonlinear_arith);
        assert(digit_value('0') == 0);
        assert(digits_value(s) == 10 * digits_value(t));
        assert(strip_zeros(s) == strip_zeros(t));
        assert(digits_value(strip_zeros(s)) * pow10(e) == digits_value(t));
        assert(digits_value(strip_zeros(s)) * pow10((s.len() - k) as nat) == digits_value(
            strip_zeros(s),
        ) * (10 * pow10(e)));
    } else {
        assert(s.take(s.len() as int) =~= s);
        assert(strip_zeros(s) == s);
        assert(pow10(0) == 1);
        assert(digits_value(s) * pow10(0) == digits_value(s));
    }
}

/// Reading back the text of a value gives the value again.
pub proof fn lemma_format_parse_round_trip(v: int)
    requires
        in_range(v),
    ensures
        parse_spec(format_spec(v)) == Some(v),
{
    let m = abs(v);
    let sc = SCALE as nat;
    let q = m / sc;
    let frac = m % sc;
    let sign = if v < 0 {
        seq!['-']
    } else {
        Seq::<char>::empty()
    };
    let head = natural_text(q);
    lemma_natural_text_value(q);
    let tail = fraction_part_text(frac);
    let s = format_spec(v);
    assert(s =~= sign + (head + tail));
    let b = head + tail;
    assert(unsigned_text(s) =~= b) by {
        if v < 0 {
            assert(s.drop_first() =~= b);
        } else {
            if s.len() > 0 {
                assert(s[0] == head[0]);
            }
        }
    }
    assert forall|j: int| 0 <= j < head.len() implies b[j] != '.' by {
        assert(b[j] == head[j]);
    }
    lemma_pow10_scale();
    if frac == 0 {
        assert(b =~= head);
        lemma_split_at_point(b, b.len() as int);
        assert(digits_value(Seq::<char>::empty()) == 0);
        assert(whole_text(b) =~= head);
        assert(fraction_text(b) =~= Seq::<char>::empty());
        assert(digits_value(whole_text(b)) == q);
        assert(digits_value(fraction_text(b)) == 0);
        assert(digits_value(fraction_text(b)) * pow10(FRACTION_DIGITS as nat) == 0);
        assert(magnitude_of(b) == q * sc);
    } else {
        let d = padded_text(frac, FRACTION_DIGITS as nat);
        lemma_padded_text_value(frac, FRACTION_DIGITS as nat);
        lemma_strip_zeros_value(d);
        let st = strip_zeros(d);
        assert(b[head.len() as int] == '.');
        lemma_split_at_point(b, head.len() as int);
        assert(b.take(head.len() as int) =~= head);
        assert(b.skip(head.len() as int + 1) =~= st);
        assert(all_digits(st)) by {
            assert forall|i: int| 0 <= i < st.len() implies is_digit(#[trigger] st[i]) by {
                assert(st[i] == d[i]);
            }
        }
        assert(frac % pow10(FRACTION_DIGITS as nat) == frac);
        assert(magnitude_of(b) == q * sc + frac);
    }
    assert(q * sc + frac == m) by {
        vstd::arithmetic::div_mod::lemma_fundamental_div_mod(m as int, sc as int);
    }
    assert(m <= UNIT_LIMIT);
}

} // verus!
