//! The calculator session: pending input, committed tokens and the error
//! slot, driven by one command per key press.
use vstd::prelude::*;
use vstd::string::StringExecFns;
use crate::arith::{reason_spec, symbol_text_spec, CalcError, Operator};
use crate::eval::{eval_spec, evaluate_tokens, tokens_view, Token, TokenView};
use crate::number::{
    chars_to_string, format_chars, format_spec, is_digit, lemma_format_one_point, parse_number,
    parse_spec,
};

verus! {

/// A key press, as far as the calculator tells keys apart.
#[derive(Debug, Clone, Copy, PartialEq, Eq, Structural)]
pub enum Key {
    Char(char),
    Enter,
    Backspace,
    Other,
}

/// The mathematical state of a session.
pub struct AppState {
    pub input: Seq<char>,
    pub tokens: Seq<TokenView>,
    pub just_evaluated: bool,
    pub error: Option<CalcError>,
    pub exit: bool,
}

/// Calculator session state behind a small command interface.
#[derive(Debug, Clone)]
pub struct App {
    input: Vec<char>,
    tokens: Vec<Token>,
    just_evaluated: bool,
    error: Option<CalcError>,
    exit: bool,
}

pub open spec fn initial_state() -> AppState {
    AppState {
        input: Seq::empty(),
        tokens: Seq::empty(),
        just_evaluated: false,
        error: None,
        exit: false,
    }
}

/// Numbers sit at even positions and operators at odd ones.
pub open spec fn alternating(toks: Seq<TokenView>) -> bool {
    forall|i: int| 0 <= i < toks.len() ==> ((#[trigger] toks[i] is Number) <==> i % 2 == 0)
}

/// The invariant kept between commands.
pub open spec fn state_wf(s: AppState) -> bool {
    &&& alternating(s.tokens)
    &&& (s.tokens.len() > 0 ==> s.tokens.last() is Operator)
    &&& (s.error.is_some() ==> s.input.len() == 0 && s.tokens.len() == 0)
    &&& at_most_one_point(s.input)
}

pub open spec fn at_most_one_point(s: Seq<char>) -> bool {
    forall|i: int, j: int|
        0 <= i < s.len() && 0 <= j < s.len() && #[trigger] s[i] == '.' && #[trigger] s[j] == '.'
            ==> i == j
}

/// The error transition: the message is kept and the expression is dropped.
pub open spec fn error_spec(s: AppState, e: CalcError) -> AppState {
    AppState {
        input: Seq::empty(),
        tokens: Seq::empty(),
        just_evaluated: false,
        error: Some(e),
        exit: s.exit,
    }
}

/// Moves the pending input into the tokens; the flag tells whether it worked.
pub open spec fn commit_spec(s: AppState) -> (AppState, bool) {
    if s.input.len() == 0 {
        (s, true)
    } else if parse_spec(s.input).is_some() {
        (
            AppState {
                input: Seq::empty(),
                tokens: s.tokens.push(TokenView::Number(s.input)),
                just_evaluated: false,
                error: s.error,
                exit: s.exit,
            },
            true,
        )
    } else {
        (error_spec(s, CalcError::InvalidNumber), false)
    }
}

pub open spec fn clear_spec(s: AppState) -> AppState {
    AppState {
        input: Seq::empty(),
        tokens: Seq::empty(),
        just_evaluated: false,
        error: None,
        exit: s.exit,
    }
}

/// The input after a fresh-start check: emptied right after an evaluation.
pub open spec fn fresh_input(s: AppState) -> Seq<char> {
    if s.just_evaluated {
        Seq::empty()
    } else {
        s.input
    }
}

pub open spec fn digit_spec(s: AppState, d: char) -> AppState {
    if s.error.is_some() {
        s
    } else {
        let base = fresh_input(s);
        let kept = if base == seq!['0'] {
            Seq::empty()
        } else {
            base
        };
        AppState { input: kept.push(d), just_evaluated: false, ..s }
    }
}

pub open spec fn decimal_spec(s: AppState) -> AppState {
    if s.error.is_some() {
        s
    } else {
        let base = fresh_input(s);
        let seeded = if base.len() == 0 {
            seq!['0']
        } else {
            base
        };
        let with_point = if seeded.contains('.') {
            seeded
        } else {
            seeded.push('.')
        };
        AppState { input: with_point, just_evaluated: false, ..s }
    }
}

pub open spec fn backspace_spec(s: AppState) -> AppState {
    if s.error.is_some() || s.just_evaluated || s.input.len() == 0 {
        s
    } else {
        AppState { input: s.input.drop_last(), ..s }
    }
}

pub open spec fn operator_spec(s: AppState, op: Operator) -> AppState {
    if s.error.is_some() {
        s
    } else {
        let (c, ok) = commit_spec(s);
        if !ok || c.tokens.len() == 0 {
            c
        } else if c.tokens.last() is Operator {
            AppState {
                tokens: c.tokens.update(c.tokens.len() - 1, TokenView::Operator(op)),
                just_evaluated: false,
                ..c
            }
        } else {
            AppState { tokens: c.tokens.push(TokenView::Operator(op)), just_evaluated: false, ..c }
        }
    }
}

pub open spec fn evaluate_spec(s: AppState) -> AppState {
    if s.error.is_some() {
        s
    } else {
        let (c, ok) = commit_spec(s);
        if !ok || c.tokens.len() == 0 || c.tokens.last() is Operator {
            c
        } else {
            match eval_spec(c.tokens) {
                Ok(v) => AppState {
                    input: format_spec(v),
                    tokens: Seq::empty(),
                    just_evaluated: true,
                    ..c
                },
                Err(e) => error_spec(c, e),
            }
        }
    }
}

/// What one key press does.
pub open spec fn key_spec(s: AppState, key: Key) -> AppState {
    let quit = AppState { exit: true, ..s };
    if s.error.is_some() {
        match key {
            Key::Char('a') | Key::Char('A') => clear_spec(s),
            Key::Char('q') => quit,
            _ => s,
        }
    } else {
        match key {
            Key::Char('q') => quit,
            Key::Char('a') | Key::Char('A') => clear_spec(s),
            Key::Enter | Key::Char('=') => evaluate_spec(s),
            Key::Char('+') => operator_spec(s, Operator::Add),
            Key::Char('-') => operator_spec(s, Operator::Subtract),
            Key::Char('*') | Key::Char('x') | Key::Char('X') => operator_spec(s, Operator::Multiply),
            Key::Char('/') | Key::Char(':') => operator_spec(s, Operator::Divide),
            Key::Char('.') => decimal_spec(s),
            Key::Backspace => backspace_spec(s),
            Key::Char(c) => if is_digit(c) {
                digit_spec(s, c)
            } else {
                s
            },
            _ => s,
        }
    }
}

/// The full error text: "Error " and the reason.
pub open spec fn message_spec(e: CalcError) -> Seq<char> {
    "Error "@ + reason_spec(e)
}

/// The text of the last number among the tokens, if any.
pub open spec fn last_number(toks: Seq<TokenView>) -> Option<Seq<char>>
    decreases toks.len(),
{
    if toks.len() == 0 {
        None
    } else {
        match toks.last() {
            TokenView::Number(text) => Some(text),
            TokenView::Operator(_) => last_number(toks.drop_last()),
        }
    }
}

pub open spec fn display_spec(s: AppState) -> Seq<char> {
    match s.error {
        Some(e) => message_spec(e),
        None => if s.input.len() > 0 {
            s.input
        } else {
            match last_number(s.tokens) {
                Some(text) => text,
                None => "0"@,
            }
        },
    }
}

pub open spec fn token_text(t: TokenView) -> Seq<char> {
    match t {
        TokenView::Number(text) => text,
        TokenView::Operator(op) => symbol_text_spec(op),
    }
}

/// The tokens' texts joined by single spaces.
pub open spec fn joined_tokens(toks: Seq<TokenView>) -> Seq<char>
    decreases toks.len(),
{
    if toks.len() == 0 {
        Seq::empty()
    } else if toks.len() == 1 {
        token_text(toks[0])
    } else {
        joined_tokens(toks.drop_last()) + " "@ + token_text(toks.last())
    }
}

pub open spec fn expression_spec(s: AppState) -> Seq<char> {
    match s.error {
        Some(e) => message_spec(e) + " (press A to clear)"@,
        None => {
            let parts = if s.input.len() > 0 {
                s.tokens.push(TokenView::Number(s.input))
            } else {
                s.tokens
            };
            if parts.len() == 0 {
                "Enter digits and choose an operator"@
            } else {
                joined_tokens(parts)
            }
        },
    }
}

impl View for App {
    type V = AppState;

    closed spec fn view(&self) -> AppState {
        AppState {
            input: self.input@,
            tokens: tokens_view(self.tokens@),
            just_evaluated: self.just_evaluated,
            error: self.error,
            exit: self.exit,
        }
    }
}

impl Default for App {
    fn default() -> (r: App)
        ensures
            r@ == initial_state(),
            r.wf(),
    {
        App::new()
    }
}

impl App {
    /// The session invariant: tokens alternate and end with an operator, an
    /// error leaves input and tokens empty, and the input has at most one point.
    pub open spec fn wf(&self) -> bool {
        state_wf(self@)
    }

    /// A session with nothing typed.
    pub fn new() -> (r: App)
        ensures
            r@ == initial_state(),
            r.wf(),
    {
        let r = App {
            input: Vec::new(),
            tokens: Vec::new(),
            just_evaluated: false,
            error: None,
            exit: false,
        };
        proof {
            assert(r@.tokens =~= Seq::<TokenView>::empty());
        }
        r
    }
}

fn contains_point(v: &Vec<char>) -> (r: bool)
    ensures
        r == v@.contains('.'),
{
    let mut i: usize = 0;
    while i < v.len()
        invariant
            i <= v.len(),
            forall|j: int| 0 <= j < i ==> v@[j] != '.',
        decreases v.len() - i,
    {
        if v[i] == '.' {
            return true;
        }
        i = i + 1;
    }
    false
}

/// The full error text of a failure.
pub fn error_text(e: CalcError) -> (r: String)
    ensures
        r@ == message_spec(e),
{
    let mut s = String::from_str("Error ");
    s.append(e.reason());
    s
}

impl App {
    /// The error transition.
    fn set_error(&mut self, e: CalcError)
        ensures
            final(self)@ == error_spec(old(self)@, e),
    {
        self.error = Some(e);
        self.input.clear();
        self.tokens.clear();
        self.just_evaluated = false;
        proof {
            assert(self@.tokens =~= Seq::<TokenView>::empty());
            assert(self@.input =~= Seq::<char>::empty());
        }
    }

    /// Commits the pending input as a number token; false after an error.
    fn try_commit_input(&mut self) -> (ok: bool)
        ensures
            (final(self)@, ok) == commit_spec(old(self)@),
    {
        if self.input.len() == 0 {
            return true;
        }
        match parse_number(&self.input) {
            Some(_) => {
                let ghost before = self@;
                let text = self.input.clone();
                self.tokens.push(Token::Number(text));
                self.input = Vec::new();
                self.just_evaluated = false;
                proof {
                    assert(self@.tokens =~= before.tokens.push(TokenView::Number(before.input)));
                    assert(self@.input =~= Seq::<char>::empty());
                }
                true
            },
            None => {
                self.set_error(CalcError::InvalidNumber);
                false
            },
        }
    }

    /// Resets everything but the quit request.
    pub fn all_clear(&mut self)
        ensures
            final(self)@ == clear_spec(old(self)@),
            final(self).wf(),
    {
        self.input.clear();
        self.tokens.clear();
        self.error = None;
        self.just_evaluated = false;
        proof {
            assert(self@.tokens =~= Seq::<TokenView>::empty());
            assert(self@.input =~= Seq::<char>::empty());
        }
    }

    /// Appends a digit to the pending input.
    pub fn handle_digit(&mut self, digit: char)
        requires
            is_digit(digit),
            old(self).wf(),
        ensures
            final(self)@ == digit_spec(old(self)@, digit),
            final(self).wf(),
    {
        if self.error.is_some() {
            return;
        }
        let ghost before = self@;
        if self.just_evaluated {
            self.input.clear();
            self.just_evaluated = false;
        }
        if self.input.len() == 1 && self.input[0] == '0' {
            self.input.clear();
        }
        self.input.push(digit);
        proof {
            let base = fresh_input(before);
            if base =~= seq!['0'] {
                assert(self@.input =~= Seq::<char>::empty().push(digit));
            } else {
                assert(self@.input =~= base.push(digit));
            }
        }
    }

    /// Adds a decimal point to the pending input, unless it has one.
    pub fn handle_decimal_point(&mut self)
        requires
            old(self).wf(),
        ensures
            final(self)@ == decimal_spec(old(self)@),
            final(self).wf(),
    {
        if self.error.is_some() {
            return;
        }
        let ghost before = self@;
        if self.just_evaluated {
            self.input.clear();
            self.just_evaluated = false;
        }
        proof {
            assert(self@.input =~= fresh_input(before));
        }
        if self.input.len() == 0 {
            self.input.push('0');
            proof {
                assert(self@.input =~= seq!['0']);
            }
        }
        let ghost seeded = self@.input;
        if !contains_point(&self.input) {
            self.input.push('.');
            proof {
                assert forall|i: int, j: int|
                    0 <= i < self@.input.len() && 0 <= j < self@.input.len() && #[trigger] self@.input[i]
                        == '.' && #[trigger] self@.input[j] == '.' implies i == j by {
                    if i < seeded.len() {
                        assert(seeded[i] == '.');
                    }
                    if j < seeded.len() {
                        assert(seeded[j] == '.');
                    }
                }
            }
        }
    }

    /// Removes the last pending character, except right after an evaluation.
    pub fn handle_backspace(&mut self)
        requires
            old(self).wf(),
        ensures
            final(self)@ == backspace_spec(old(self)@),
            final(self).wf(),
    {
        if self.error.is_some() || self.just_evaluated || self.input.len() == 0 {
            return;
        }
        let ghost before = self@;
        self.input.pop();
        proof {
            assert(self@.input =~= before.input.drop_last());
        }
    }

    /// Commits the pending input and appends the operator, or replaces a
    /// trailing one.
    pub fn set_operator(&mut self, operator: Operator)
        requires
            old(self).wf(),
        ensures
            final(self)@ == operator_spec(old(self)@, operator),
            final(self).wf(),
    {
        if self.error.is_some() {
            return;
        }
        let ghost before = self@;
        if !self.try_commit_input() {
            return;
        }
        if self.tokens.len() == 0 {
            return;
        }
        let ghost committed = self@;
        let last = self.tokens.len() - 1;
        let trailing_operator = match &self.tokens[last] {
            Token::Operator(_) => true,
            Token::Number(_) => false,
        };
        proof {
            assert(committed.tokens[last as int] == self.tokens@[last as int]@);
        }
        if trailing_operator {
            self.tokens.set(last, Token::Operator(operator));
            proof {
                assert(self@.tokens =~= committed.tokens.update(
                    last as int,
                    TokenView::Operator(operator),
                ));
            }
        } else {
            self.tokens.push(Token::Operator(operator));
            proof {
                assert(self@.tokens =~= committed.tokens.push(TokenView::Operator(operator)));
            }
        }
        self.just_evaluated = false;
    }

    /// Commits the pending input and evaluates the expression.
    pub fn evaluate(&mut self)
        requires
            old(self).wf(),
        ensures
            final(self)@ == evaluate_spec(old(self)@),
            final(self).wf(),
    {
        if self.error.is_some() {
            return;
        }
        if !self.try_commit_input() {
            return;
        }
        if self.tokens.len() == 0 {
            return;
        }
        let ghost committed = self@;
        let last = self.tokens.len() - 1;
        let trailing_operator = match &self.tokens[last] {
            Token::Operator(_) => true,
            Token::Number(_) => false,
        };
        proof {
            assert(committed.tokens[last as int] == self.tokens@[last as int]@);
        }
        if trailing_operator {
            return;
        }
        match evaluate_tokens(&self.tokens) {
            Ok(value) => {
                self.input = format_chars(value);
                self.tokens.clear();
                self.just_evaluated = true;
                proof {
                    assert(self@.tokens =~= Seq::<TokenView>::empty());
                    lemma_format_one_point(value as int);
                }
            },
            Err(e) => {
                self.set_error(e);
            },
        }
    }

    /// Runs the command bound to a key.
    pub fn handle_key_events(&mut self, key: Key)
        requires
            old(self).wf(),
        ensures
            final(self)@ == key_spec(old(self)@, key),
            final(self).wf(),
    {
        if self.error.is_some() {
            match key {
                Key::Char('a') | Key::Char('A') => self.all_clear(),
                Key::Char('q') => self.exit = true,
                _ => {},
            }
            return;
        }
        match key {
            Key::Char('q') => self.exit = true,
            Key::Char('a') | Key::Char('A') => self.all_clear(),
            Key::Enter | Key::Char('=') => self.evaluate(),
            Key::Char('+') => self.set_operator(Operator::Add),
            Key::Char('-') => self.set_operator(Operator::Subtract),
            Key::Char('*') | Key::Char('x') | Key::Char('X') => self.set_operator(Operator::Multiply),
            Key::Char('/') | Key::Char(':') => self.set_operator(Operator::Divide),
            Key::Char('.') => self.handle_decimal_point(),
            Key::Backspace => self.handle_backspace(),
            Key::Char(c) => {
                if '0' <= c && c <= '9' {
                    self.handle_digit(c);
                }
            },
            _ => {},
        }
    }

    /// The value to show: the error, the pending input, the last number, or 0.
    pub fn display_value(&self) -> (r: String)
        ensures
            r@ == display_spec(self@),
    {
        match self.error {
            Some(e) => {
                return error_text(e);
            },
            None => {},
        }
        if self.input.len() > 0 {
            return chars_to_string(&self.input);
        }
        let ghost toks = self@.tokens;
        let mut i = self.tokens.len();
        proof {
            assert(toks.take(i as int) =~= toks);
        }
        while i > 0
            invariant
                i <= self.tokens.len(),
                toks == self@.tokens,
                self.error.is_none(),
                self.input.len() == 0,
                last_number(toks) == last_number(toks.take(i as int)),
            decreases i,
        {
            proof {
                assert(toks.take(i as int).drop_last() =~= toks.take(i - 1));
                assert(toks.take(i as int).last() == self.tokens@[i - 1]@);
            }
            match &self.tokens[i - 1] {
                Token::Number(text) => {
                    return chars_to_string(text);
                },
                Token::Operator(_) => {},
            }
            i = i - 1;
        }
        String::from_str("0")
    }

    /// The expression typed so far, the error with a hint, or a prompt.
    pub fn expression_line(&self) -> (r: String)
        ensures
            r@ == expression_spec(self@),
    {
        match self.error {
            Some(e) => {
                let mut s = error_text(e);
                s.append(" (press A to clear)");
                return s;
            },
            None => {},
        }
        let ghost toks = self@.tokens;
        let mut out = String::new();
        let mut i: usize = 0;
        while i < self.tokens.len()
            invariant
                i <= self.tokens.len(),
                toks == self@.tokens,
                out@ == joined_tokens(toks.take(i as int)),
            decreases self.tokens.len() - i,
        {
            proof {
                assert(toks.take(i + 1).drop_last() =~= toks.take(i as int));
                assert(toks.take(i + 1).last() == self.tokens@[i as int]@);
                if i == 0 {
                    assert(toks.take(1)[0] == toks[0]);
                }
            }
            if i > 0 {
                out.append(" ");
            }
            match &self.tokens[i] {
                Token::Number(text) => {
                    let t = chars_to_string(text);
                    out.append(t.as_str());
                },
                Token::Operator(op) => {
                    out.append(op.symbol_text());
                },
            }
            proof {
                if i == 0 {
                    assert(out@ =~= token_text(toks.take(1)[0]));
                } else {
                    assert(out@ =~= joined_tokens(toks.take(i as int)) + " "@ + token_text(
                        toks.take(i + 1).last(),
                    ));
                }
            }
            i = i + 1;
        }
        proof {
            assert(toks.take(i as int) =~= toks);
        }
        if self.input.len() > 0 {
            if self.tokens.len() > 0 {
                out.append(" ");
            }
            let t = chars_to_string(&self.input);
            out.append(t.as_str());
            proof {
                let parts = toks.push(TokenView::Number(self@.input));
                assert(parts.drop_last() =~= toks);
                if toks.len() == 0 {
                    assert(out@ =~= token_text(parts[0]));
                } else {
                    assert(out@ =~= joined_tokens(toks) + " "@ + token_text(parts.last()));
                }
            }
            return out;
        }
        if self.tokens.len() == 0 {
            return String::from_str("Enter digits and choose an operator");
        }
        out
    }

    /// The pending input.
    pub fn input(&self) -> (r: String)
        ensures
            r@ == self@.input,
    {
        chars_to_string(&self.input)
    }

    /// The committed tokens.
    pub fn tokens(&self) -> (r: &Vec<Token>)
        ensures
            tokens_view(r@) == self@.tokens,
    {
        &self.tokens
    }

    /// Whether the pending input holds the result of an evaluation.
    pub fn just_evaluated(&self) -> (r: bool)
        ensures
            r == self@.just_evaluated,
    {
        self.just_evaluated
    }

    /// The active failure, if any.
    pub fn error(&self) -> (r: Option<CalcError>)
        ensures
            r == self@.error,
    {
        self.error
    }

    /// The text of the active failure, if any.
    pub fn error_message(&self) -> (r: Option<String>)
        ensures
            r.is_some() == self@.error.is_some(),
            r.is_some() ==> r.unwrap()@ == message_spec(self@.error.unwrap()),
    {
        match self.error {
            Some(e) => Some(error_text(e)),
            None => None,
        }
    }

    /// Whether a quit key was pressed.
    pub fn should_exit(&self) -> (r: bool)
        ensures
            r == self@.exit,
    {
        self.exit
    }
}

} // verus!
