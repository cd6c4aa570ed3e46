//! Properties of the calculator that hold across commands.
use vstd::prelude::*;
use crate::arith::{CalcError, Operator};
use crate::engine::{
    backspace_spec, clear_spec, commit_spec, decimal_spec, digit_spec, evaluate_spec, initial_state,
    operator_spec, state_wf, AppState,
};
use crate::eval::{eval_spec, TokenView};
use crate::number::{
    abs, digit_char, format_spec, in_range, parse_spec, lemma_format_parse_round_trip, is_digit, lemma_format_one_point, lemma_natural_text_digits,
    natural_text,
    padded_text, pow10, strip_zeros, FRACTION_DIGITS, SCALE,
};

verus! {

/// A lone leading zero is replaced by the next digit typed.
pub proof fn lemma_leading_zero_dropped(s: AppState, d: char)
    requires
        s.error.is_none(),
        !s.just_evaluated,
        s.input == seq!['0'],
        is_digit(d),
    ensures
        digit_spec(s, d).input == seq![d],
{
    assert(Seq::<char>::empty().push(d) =~= seq![d]);
}

/// The tokens that an evaluation works on: the committed ones, followed by
/// the pending input when there is one.
pub open spec fn tokens_to_evaluate(s: AppState) -> Seq<TokenView> {
    if s.input.len() == 0 {
        s.tokens
    } else {
        s.tokens.push(TokenView::Number(s.input))
    }
}

/// A successful evaluation shows the formatted result, leaves no tokens, no
/// error, and raises the flag; the next digit then starts a fresh input
/// instead of extending the result.
pub proof fn lemma_evaluation_resets(s: AppState, v: int, d: char)
    requires
        s.error.is_none(),
        s.input.len() == 0 || parse_spec(s.input).is_some(),
        tokens_to_evaluate(s).len() > 0,
        tokens_to_evaluate(s).last() is Number,
        eval_spec(tokens_to_evaluate(s)) == Ok::<int, CalcError>(v),
        is_digit(d),
    ensures
        evaluate_spec(s).just_evaluated,
        evaluate_spec(s).tokens.len() == 0,
        evaluate_spec(s).error.is_none(),
        evaluate_spec(s).input == format_spec(v),
        digit_spec(evaluate_spec(s), d).input == seq![d],
        !digit_spec(evaluate_spec(s), d).just_evaluated,
{
    assert(commit_spec(s).0.tokens == tokens_to_evaluate(s));
    assert(Seq::<char>::empty().push(d) =~= seq![d]);
}

/// After a successful evaluation, an operator carries the result on: it is
/// committed as the first number of a new expression, without an error.
pub proof fn lemma_result_continues(s: AppState, op: Operator)
    requires
        s.error.is_none(),
        commit_spec(s).1,
        commit_spec(s).0.tokens.len() > 0,
        commit_spec(s).0.tokens.last() is Number,
        eval_spec(commit_spec(s).0.tokens).is_ok(),
        in_range(eval_spec(commit_spec(s).0.tokens).unwrap()),
    ensures
        operator_spec(evaluate_spec(s), op).error.is_none(),
        operator_spec(evaluate_spec(s), op).tokens == seq![
            TokenView::Number(format_spec(eval_spec(commit_spec(s).0.tokens).unwrap())),
            TokenView::Operator(op),
        ],
{
    let v = eval_spec(commit_spec(s).0.tokens).unwrap();
    lemma_format_parse_round_trip(v);
    lemma_format_nonempty(v);
    assert(operator_spec(evaluate_spec(s), op).tokens =~= seq![
        TokenView::Number(format_spec(v)),
        TokenView::Operator(op),
    ]);
}

proof fn lemma_format_nonempty(v: int)
    ensures
        format_spec(v).len() > 0,
{
    let m = abs(v);
    assert(natural_text(m / (SCALE as nat)).len() > 0) by {
        let n = m / (SCALE as nat);
        if n >= 10 {
            assert(natural_text(n) == natural_text(n / 10).push(digit_char(n % 10)));
        }
    }
}

/// Backspace does nothing on an empty input or right after an evaluation.
pub proof fn lemma_backspace_bound(s: AppState)
    requires
        s.input.len() == 0 || s.just_evaluated,
    ensures
        backspace_spec(s) == s,
{
}

/// Clearing yields the initial state from any state, and clearing twice is
/// the same as clearing once.
pub proof fn lemma_clear_all_idempotent(s: AppState)
    ensures
        clear_spec(s) == (AppState { exit: s.exit, ..initial_state() }),
        clear_spec(clear_spec(s)) == clear_spec(s),
        state_wf(clear_spec(s)),
{
}

/// An operator right after another one replaces it instead of adding a token.
pub proof fn lemma_operator_replaced(s: AppState, op: Operator)
    requires
        s.error.is_none(),
        s.input.len() == 0,
        s.tokens.len() > 0,
        s.tokens.last() is Operator,
    ensures
        operator_spec(s, op).tokens.len() == s.tokens.len(),
        operator_spec(s, op).tokens.last() == TokenView::Operator(op),
        operator_spec(s, op).tokens.drop_last() == s.tokens.drop_last(),
{
    assert(operator_spec(s, op).tokens.drop_last() =~= s.tokens.drop_last());
}

/// Formatting drops trailing fractional zeros, and the point itself for a
/// whole number.
pub proof fn lemma_format_strips_zeros(v: int)
    ensures
        abs(v) % (SCALE as nat) == 0 ==> !format_spec(v).contains('.'),
        abs(v) % (SCALE as nat) != 0 ==> format_spec(v).last() != '0',
{
    let m = abs(v);
    let frac = m % (SCALE as nat);
    let sign = if v < 0 {
        seq!['-']
    } else {
        Seq::<char>::empty()
    };
    let head = sign + natural_text(m / (SCALE as nat));
    if frac == 0 {
        lemma_format_one_point(v);
        lemma_natural_text_digits(m / (SCALE as nat));
        assert(format_spec(v) =~= head);
        assert forall|i: int| 0 <= i < head.len() implies head[i] != '.' by {
            if v < 0 && i == 0 {
            } else if v < 0 {
                assert(head[i] == natural_text(m / (SCALE as nat))[i - 1]);
            } else {
                assert(head[i] == natural_text(m / (SCALE as nat))[i]);
            }
        }
    } else {
        let d = padded_text(frac, FRACTION_DIGITS as nat);
        assert(frac < pow10(FRACTION_DIGITS as nat)) by {
            reveal_with_fuel(pow10, 10);
        }
        lemma_padded_nonzero(frac, FRACTION_DIGITS as nat);
        lemma_strip_zeros_keeps_nonzero(d);
        lemma_strip_zeros_ends(d);
        let tail = strip_zeros(d);
        assert(format_spec(v) =~= head + (seq!['.'] + tail));
        assert(format_spec(v).last() == tail.last());
    }
}

/// The last `w` digits of a number below ten to the `w`, other than zero, hold
/// a digit other than `0`.
proof fn lemma_padded_nonzero(n: nat, w: nat)
    requires
        0 < n < pow10(w),
    ensures
        exists|i: int| 0 <= i < padded_text(n, w).len() && #[trigger] padded_text(n, w)[i] != '0',
    decreases w,
{
    if w == 0 {
    } else {
        let p = padded_text(n, w);
        if n % 10 != 0 {
            assert(p[p.len() - 1] == digit_char(n % 10));
            assert(p[p.len() - 1] != '0');
        } else {
            assert(n / 10 > 0);
            assert(n / 10 < pow10((w - 1) as nat));
            lemma_padded_nonzero(n / 10, (w - 1) as nat);
            let q = padded_text(n / 10, (w - 1) as nat);
            let i = choose|i: int| 0 <= i < q.len() && #[trigger] q[i] != '0';
            assert(p[i] == q[i]);
        }
    }
}

proof fn lemma_strip_zeros_keeps_nonzero(s: Seq<char>)
    requires
        exists|i: int| 0 <= i < s.len() && #[trigger] s[i] != '0',
    ensures
        strip_zeros(s).len() > 0,
    decreases s.len(),
{
    if s.len() > 0 && s.last() == '0' {
        let i = choose|i: int| 0 <= i < s.len() && #[trigger] s[i] != '0';
        assert(s.drop_last()[i] == s[i]);
        lemma_strip_zeros_keeps_nonzero(s.drop_last());
    }
}

proof fn lemma_strip_zeros_ends(s: Seq<char>)
    ensures
        strip_zeros(s).len() > 0 ==> strip_zeros(s).last() != '0',
    decreases s.len(),
{
    if s.len() > 0 && s.last() == '0' {
        lemma_strip_zeros_ends(s.drop_last());
    }
}

/// While an error is shown, every command but clearing leaves the state as
/// it is; clearing removes the error.
pub proof fn lemma_error_lockout(s: AppState, d: char, op: Operator)
    requires
        s.error.is_some(),
    ensures
        digit_spec(s, d) == s,
        decimal_spec(s) == s,
        backspace_spec(s) == s,
        operator_spec(s, op) == s,
        evaluate_spec(s) == s,
        clear_spec(s).error.is_none(),
{
}

} // verus!
