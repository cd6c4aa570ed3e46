//! Tokens of an expression and their reduction to a single value.
use vstd::prelude::*;
use crate::arith::{apply_operator, apply_spec, is_high, CalcError, Operator};
use crate::number::{in_range, parse_number, parse_spec};

verus! {

/// One committed element of an expression.
#[derive(Debug, Clone)]
pub enum Token {
    /// A numeral, kept as the text that was typed.
    Number(Vec<char>),
    Operator(Operator),
}

/// The mathematical content of a token.
pub enum TokenView {
    Number(Seq<char>),
    Operator(Operator),
}

impl View for Token {
    type V = TokenView;

    open spec fn view(&self) -> TokenView {
        match self {
            Token::Number(text) => TokenView::Number(text@),
            Token::Operator(op) => TokenView::Operator(*op),
        }
    }
}

pub open spec fn tokens_view(tokens: Seq<Token>) -> Seq<TokenView> {
    tokens.map_values(|t: Token| t@)
}

/// Splits tokens into numbers and operators, scanning left to right; the first
/// misplaced token or unreadable numeral decides the failure.
pub open spec fn scan_tokens(toks: Seq<TokenView>) -> Result<(Seq<i128>, Seq<Operator>), CalcError>
    decreases toks.len(),
{
    if toks.len() == 0 {
        Ok((Seq::empty(), Seq::empty()))
    } else {
        match scan_tokens(toks.drop_last()) {
            Err(e) => Err(e),
            Ok((vs, os)) => {
                let expect_number = vs.len() == os.len();
                match toks.last() {
                    TokenView::Number(text) => if !expect_number {
                        Err(CalcError::InvalidExpression)
                    } else {
                        match parse_spec(text) {
                            None => Err(CalcError::InvalidNumberInExpression),
                            Some(v) => Ok((vs.push(v as i128), os)),
                        }
                    },
                    TokenView::Operator(o) => if expect_number {
                        Err(CalcError::IncompleteExpression)
                    } else {
                        Ok((vs, os.push(o)))
                    },
                }
            },
        }
    }
}

/// First pass: each multiplication or division, left to right, combines the
/// running term with the next value; other operators close the term.
pub open spec fn reduce_high(vs: Seq<i128>, os: Seq<Operator>) -> Result<
    (Seq<i128>, Seq<Operator>),
    CalcError,
>
    decreases os.len(),
{
    if os.len() == 0 {
        Ok((vs.take(1), Seq::empty()))
    } else {
        match reduce_high(vs.drop_last(), os.drop_last()) {
            Err(e) => Err(e),
            Ok((rv, ro)) => {
                let o = os.last();
                if is_high(o) {
                    match apply_spec(rv.last() as int, vs.last() as int, o) {
                        Err(e) => Err(e),
                        Ok(x) => Ok((rv.update(rv.len() - 1, x as i128), ro)),
                    }
                } else {
                    Ok((rv.push(vs.last()), ro.push(o)))
                }
            },
        }
    }
}

/// Second pass: the remaining additions and subtractions, left to right.
pub open spec fn fold_low(rv: Seq<i128>, ro: Seq<Operator>) -> Result<int, CalcError>
    decreases ro.len(),
{
    if ro.len() == 0 {
        Ok(rv[0] as int)
    } else {
        match fold_low(rv.drop_last(), ro.drop_last()) {
            Err(e) => Err(e),
            Ok(acc) => apply_spec(acc, rv.last() as int, ro.last()),
        }
    }
}

/// The value of an expression, or the failure that stops its evaluation.
pub open spec fn eval_spec(toks: Seq<TokenView>) -> Result<int, CalcError> {
    match scan_tokens(toks) {
        Err(e) => Err(e),
        Ok((vs, os)) => if vs.len() != os.len() + 1 {
            Err(CalcError::IncompleteExpression)
        } else {
            match reduce_high(vs, os) {
                Err(e) => Err(e),
                Ok((rv, ro)) => fold_low(rv, ro),
            }
        },
    }
}

pub open spec fn all_in_range(vs: Seq<i128>) -> bool {
    forall|k: int| 0 <= k < vs.len() ==> in_range(#[trigger] vs[k] as int)
}

fn scan(tokens: &Vec<Token>) -> (r: Result<(Vec<i128>, Vec<Operator>), CalcError>)
    ensures
        r.is_ok() == scan_tokens(tokens_view(tokens@)).is_ok(),
        r.is_ok() ==> r.unwrap().0@ == scan_tokens(tokens_view(tokens@)).unwrap().0
            && r.unwrap().1@ == scan_tokens(tokens_view(tokens@)).unwrap().1 && all_in_range(
            r.unwrap().0@,
        ),
        r.is_err() ==> r->Err_0 == scan_tokens(tokens_view(tokens@))->Err_0,
{
    let ghost toks = tokens_view(tokens@);
    let mut values: Vec<i128> = Vec::new();
    let mut ops: Vec<Operator> = Vec::new();
    let mut i: usize = 0;
    while i < tokens.len()
        invariant
            i <= tokens.len(),
            toks == tokens_view(tokens@),
            scan_tokens(toks.take(i as int)) == Ok::<(Seq<i128>, Seq<Operator>), CalcError>(
                (values@, ops@),
            ),
            values.len() == ops.len() || values.len() == ops.len() + 1,
            all_in_range(values@),
        decreases tokens.len() - i,
    {
        proof {
            assert(toks.take(i + 1).drop_last() =~= toks.take(i as int));
            assert(toks.take(i + 1).last() == tokens@[i as int]@);
        }
        match &tokens[i] {
            Token::Number(text) => {
                if values.len() != ops.len() {
                    proof {
                        assert(toks.take(tokens.len() as int) =~= toks);
                        lemma_scan_err_prefix(toks, i + 1);
                    }
                    return Err(CalcError::InvalidExpression);
                }
                match parse_number(text) {
                    Some(v) => {
                        values.push(v);
                    },
                    None => {
                        proof {
                            assert(toks.take(tokens.len() as int) =~= toks);
                            lemma_scan_err_prefix(toks, i + 1);
                        }
                        return Err(CalcError::InvalidNumberInExpression);
                    },
                }
            },
            Token::Operator(op) => {
                if values.len() == ops.len() {
                    proof {
                        assert(toks.take(tokens.len() as int) =~= toks);
                        lemma_scan_err_prefix(toks, i + 1);
                    }
                    return Err(CalcError::IncompleteExpression);
                }
                ops.push(*op);
            },
        }
        i = i + 1;
    }
    proof {
        assert(toks.take(i as int) =~= toks);
    }
    Ok((values, ops))
}

/// Once a prefix of the tokens fails, the whole scan fails the same way.
proof fn lemma_scan_err_prefix(toks: Seq<TokenView>, n: int)
    requires
        0 <= n <= toks.len(),
        scan_tokens(toks.take(n)).is_err(),
    ensures
        scan_tokens(toks) == scan_tokens(toks.take(n)),
    decreases toks.len() - n,
{
    if n < toks.len() {
        assert(toks.take(n + 1).drop_last() =~= toks.take(n));
        lemma_scan_err_prefix(toks, n + 1);
    } else {
        assert(toks.take(n) =~= toks);
    }
}

/// Once a prefix of the first pass fails, the whole pass fails the same way.
proof fn lemma_reduce_err_prefix(vs: Seq<i128>, os: Seq<Operator>, n: int)
    requires
        0 <= n <= os.len(),
        vs.len() == os.len() + 1,
        reduce_high(vs.take(n + 1), os.take(n)).is_err(),
    ensures
        reduce_high(vs, os) == reduce_high(vs.take(n + 1), os.take(n)),
    decreases os.len() - n,
{
    if n < os.len() {
        assert(vs.take(n + 2).drop_last() =~= vs.take(n + 1));
        assert(os.take(n + 1).drop_last() =~= os.take(n));
        lemma_reduce_err_prefix(vs, os, n + 1);
    } else {
        assert(vs.take(n + 1) =~= vs);
        assert(os.take(n) =~= os);
    }
}

/// Once a prefix of the second pass fails, the whole pass fails the same way.
proof fn lemma_fold_err_prefix(rv: Seq<i128>, ro: Seq<Operator>, n: int)
    requires
        0 <= n <= ro.len(),
        rv.len() == ro.len() + 1,
        fold_low(rv.take(n + 1), ro.take(n)).is_err(),
    ensures
        fold_low(rv, ro) == fold_low(rv.take(n + 1), ro.take(n)),
    decreases ro.len() - n,
{
    if n < ro.len() {
        assert(rv.take(n + 2).drop_last() =~= rv.take(n + 1));
        assert(ro.take(n + 1).drop_last() =~= ro.take(n));
        lemma_fold_err_prefix(rv, ro, n + 1);
    } else {
        assert(rv.take(n + 1) =~= rv);
        assert(ro.take(n) =~= ro);
    }
}

/// Runs the first pass over values and operators.
fn reduce_products(values: &Vec<i128>, ops: &Vec<Operator>) -> (r: Result<
    (Vec<i128>, Vec<Operator>),
    CalcError,
>)
    requires
        values.len() == ops.len() + 1,
        all_in_range(values@),
    ensures
        r.is_ok() == reduce_high(values@, ops@).is_ok(),
        r.is_ok() ==> r.unwrap().0@ == reduce_high(values@, ops@).unwrap().0 && r.unwrap().1@
            == reduce_high(values@, ops@).unwrap().1 && all_in_range(r.unwrap().0@)
            && r.unwrap().0.len() == r.unwrap().1.len() + 1,
        r.is_err() ==> r->Err_0 == reduce_high(values@, ops@)->Err_0,
{
    let mut rv: Vec<i128> = Vec::new();
    rv.push(values[0]);
    let mut ro: Vec<Operator> = Vec::new();
    let mut i: usize = 0;
    proof {
        assert(values@.take(1) =~= rv@);
        assert(ops@.take(0) =~= Seq::<Operator>::empty());
        assert(values@.take(1).take(1) =~= values@.take(1));
    }
    while i < ops.len()
        invariant
            i <= ops.len(),
            values.len() == ops.len() + 1,
            all_in_range(values@),
            reduce_high(values@.take(i + 1), ops@.take(i as int)) == Ok::<
                (Seq<i128>, Seq<Operator>),
                CalcError,
            >((rv@, ro@)),
            rv.len() == ro.len() + 1,
            all_in_range(rv@),
        decreases ops.len() - i,
    {
        proof {
            assert(values@.take(i + 2).drop_last() =~= values@.take(i + 1));
            assert(ops@.take(i + 1).drop_last() =~= ops@.take(i as int));
            assert(values@.take(i + 2).last() == values@[i + 1]);
            assert(ops@.take(i + 1).last() == ops@[i as int]);
        }
        let op = ops[i];
        let b = values[i + 1];
        if op == Operator::Multiply || op == Operator::Divide {
            let last = rv.len() - 1;
            let a = rv[last];
            match apply_operator(a, b, op) {
                Ok(x) => {
                    rv.set(last, x);
                },
                Err(e) => {
                    proof {
                        lemma_reduce_err_prefix(values@, ops@, i + 1);
                    }
                    return Err(e);
                },
            }
        } else {
            rv.push(b);
            ro.push(op);
        }
        i = i + 1;
    }
    proof {
        assert(values@.take(i + 1) =~= values@);
        assert(ops@.take(i as int) =~= ops@);
    }
    Ok((rv, ro))
}

/// Runs the second pass over the reduced values and operators.
fn fold_sums(rv: &Vec<i128>, ro: &Vec<Operator>) -> (r: Result<i128, CalcError>)
    requires
        rv.len() == ro.len() + 1,
        all_in_range(rv@),
    ensures
        r.is_ok() == fold_low(rv@, ro@).is_ok(),
        r.is_ok() ==> r.unwrap() as int == fold_low(rv@, ro@).unwrap() && in_range(
            r.unwrap() as int,
        ),
        r.is_err() ==> r->Err_0 == fold_low(rv@, ro@)->Err_0,
{
    let mut acc: i128 = rv[0];
    let mut j: usize = 0;
    proof {
        assert(rv@.take(1)[0] == rv@[0]);
    }
    while j < ro.len()
        invariant
            j <= ro.len(),
            rv.len() == ro.len() + 1,
            all_in_range(rv@),
            fold_low(rv@.take(j + 1), ro@.take(j as int)) == Ok::<int, CalcError>(acc as int),
            in_range(acc as int),
        decreases ro.len() - j,
    {
        proof {
            assert(rv@.take(j + 2).drop_last() =~= rv@.take(j + 1));
            assert(ro@.take(j + 1).drop_last() =~= ro@.take(j as int));
            assert(rv@.take(j + 2).last() == rv@[j + 1]);
            assert(ro@.take(j + 1).last() == ro@[j as int]);
        }
        match apply_operator(acc, rv[j + 1], ro[j]) {
            Ok(x) => {
                acc = x;
            },
            Err(e) => {
                proof {
                    lemma_fold_err_prefix(rv@, ro@, j + 1);
                }
                return Err(e);
            },
        }
        j = j + 1;
    }
    proof {
        assert(rv@.take(j + 1) =~= rv@);
        assert(ro@.take(j as int) =~= ro@);
    }
    Ok(acc)
}

/// Evaluates tokens with multiplication and division before addition and
/// subtraction, each left to right.
pub fn evaluate_tokens(tokens: &Vec<Token>) -> (r: Result<i128, CalcError>)
    ensures
        r.is_ok() == eval_spec(tokens_view(tokens@)).is_ok(),
        r.is_ok() ==> r.unwrap() as int == eval_spec(tokens_view(tokens@)).unwrap(),
        r.is_ok() ==> in_range(r.unwrap() as int),
        r.is_err() ==> r->Err_0 == eval_spec(tokens_view(tokens@))->Err_0,
{
    let (values, ops) = match scan(tokens) {
        Ok(p) => p,
        Err(e) => return Err(e),
    };
    if values.len() == 0 || values.len() - 1 != ops.len() {
        return Err(CalcError::IncompleteExpression);
    }
    let (rv, ro) = match reduce_products(&values, &ops) {
        Ok(p) => p,
        Err(e) => return Err(e),
    };
    fold_sums(&rv, &ro)
}

} // verus!
