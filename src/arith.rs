//! Operators, their arithmetic on fixed-point values, and the failures an
//! evaluation can report.
use vstd::prelude::*;
use crate::number::{abs, in_range, SCALE, UNIT_LIMIT};

verus! {

/// A binary operator of the calculator.
#[derive(Debug, Clone, Copy, PartialEq, Eq, Structural)]
pub enum Operator {
    Add,
    Subtract,
    Multiply,
    Divide,
}

/// Why an input or an evaluation failed.
#[derive(Debug, Clone, Copy, PartialEq, Eq, Structural)]
pub enum CalcError {
    /// The pending input is not a number.
    InvalidNumber,
    /// A committed number could not be read back during evaluation.
    InvalidNumberInExpression,
    /// Two numbers stand next to each other.
    InvalidExpression,
    /// An operator stands where a number is expected, or nothing to evaluate.
    IncompleteExpression,
    /// The divisor is zero.
    DivideByZero,
    /// A result leaves the range of representable values.
    OutOfRange,
}

pub open spec fn symbol_spec(op: Operator) -> char {
    match op {
        Operator::Add => '+',
        Operator::Subtract => '-',
        Operator::Multiply => '×',
        Operator::Divide => '÷',
    }
}

pub open spec fn symbol_text_spec(op: Operator) -> Seq<char> {
    match op {
        Operator::Add => "+"@,
        Operator::Subtract => "-"@,
        Operator::Multiply => "×"@,
        Operator::Divide => "÷"@,
    }
}

/// Multiplication and division bind tighter than addition and subtraction.
pub open spec fn is_high(op: Operator) -> bool {
    op == Operator::Multiply || op == Operator::Divide
}

impl Operator {
    /// The glyph shown for the operator.
    pub fn symbol(self) -> (r: char)
        ensures
            r == symbol_spec(self),
    {
        match self {
            Operator::Add => '+',
            Operator::Subtract => '-',
            Operator::Multiply => '×',
            Operator::Divide => '÷',
        }
    }

    /// The glyph shown for the operator, as text.
    pub fn symbol_text(self) -> (r: &'static str)
        ensures
            r@ == symbol_text_spec(self),
    {
        match self {
            Operator::Add => "+",
            Operator::Subtract => "-",
            Operator::Multiply => "×",
            Operator::Divide => "÷",
        }
    }
}

pub open spec fn reason_spec(e: CalcError) -> Seq<char> {
    match e {
        CalcError::InvalidNumber => "invalid number"@,
        CalcError::InvalidNumberInExpression => "invalid number in expression"@,
        CalcError::InvalidExpression => "invalid expression"@,
        CalcError::IncompleteExpression => "incomplete expression"@,
        CalcError::DivideByZero => "Cannot divide by zero"@,
        CalcError::OutOfRange => "number out of range"@,
    }
}

impl CalcError {
    /// The words that describe the failure.
    pub fn reason(self) -> (r: &'static str)
        ensures
            r@ == reason_spec(self),
    {
        match self {
            CalcError::InvalidNumber => "invalid number",
            CalcError::InvalidNumberInExpression => "invalid number in expression",
            CalcError::InvalidExpression => "invalid expression",
            CalcError::IncompleteExpression => "incomplete expression",
            CalcError::DivideByZero => "Cannot divide by zero",
            CalcError::OutOfRange => "number out of range",
        }
    }
}

/// A result kept when it lies in range, else an out-of-range failure.
pub open spec fn bounded(r: int) -> Result<int, CalcError> {
    if in_range(r) {
        Ok(r)
    } else {
        Err(CalcError::OutOfRange)
    }
}

pub open spec fn signed(negative: bool, m: nat) -> int {
    if negative {
        -(m as int)
    } else {
        m as int
    }
}

/// `a op b` on values in units; products and quotients are truncated toward
/// zero to the last unit.
///
/// The divisor test is the epsilon rule for this number type: its epsilon is
/// one unit (10^-9), and the only value below it in magnitude is zero. Typed
/// numerals are truncated to whole units on reading, so a divisor such as
/// `0.0000000000000001` counts as zero and division by it fails.
pub open spec fn apply_spec(a: int, b: int, op: Operator) -> Result<int, CalcError> {
    let negative = (a < 0) != (b < 0);
    match op {
        Operator::Add => bounded(a + b),
        Operator::Subtract => bounded(a - b),
        Operator::Multiply => bounded(signed(negative, abs(a) * abs(b) / (SCALE as nat))),
        Operator::Divide => if b == 0 {
            Err(CalcError::DivideByZero)
        } else {
            bounded(signed(negative, abs(a) * (SCALE as nat) / abs(b)))
        },
    }
}

fn magnitude(v: i128) -> (r: u128)
    requires
        in_range(v as int),
    ensures
        r == abs(v as int),
        r <= UNIT_LIMIT,
{
    if v < 0 {
        (-v) as u128
    } else {
        v as u128
    }
}

fn bounded_exec(negative: bool, m: u128) -> (r: Result<i128, CalcError>)
    ensures
        r.is_ok() == bounded(signed(negative, m as nat)).is_ok(),
        r.is_ok() ==> r.unwrap() as int == bounded(signed(negative, m as nat)).unwrap(),
        r.is_err() ==> r == Err::<i128, CalcError>(CalcError::OutOfRange),
{
    if m > UNIT_LIMIT {
        Err(CalcError::OutOfRange)
    } else if negative {
        Ok(-(m as i128))
    } else {
        Ok(m as i128)
    }
}

/// Applies an operator to two values in units.
pub fn apply_operator(lhs: i128, rhs: i128, operator: Operator) -> (r: Result<i128, CalcError>)
    requires
        in_range(lhs as int),
        in_range(rhs as int),
    ensures
        r.is_ok() == apply_spec(lhs as int, rhs as int, operator).is_ok(),
        r.is_ok() ==> r.unwrap() as int == apply_spec(lhs as int, rhs as int, operator).unwrap(),
        r.is_ok() ==> in_range(r.unwrap() as int),
        r.is_err() ==> r == Err::<i128, CalcError>(
            apply_spec(lhs as int, rhs as int, operator)->Err_0,
        ),
{
    let negative = (lhs < 0) != (rhs < 0);
    match operator {
        Operator::Add => {
            let s = lhs + rhs;
            if s > UNIT_LIMIT as i128 || s < -(UNIT_LIMIT as i128) {
                Err(CalcError::OutOfRange)
            } else {
                Ok(s)
            }
        },
        Operator::Subtract => {
            let s = lhs - rhs;
            if s > UNIT_LIMIT as i128 || s < -(UNIT_LIMIT as i128) {
                Err(CalcError::OutOfRange)
            } else {
                Ok(s)
            }
        },
        Operator::Multiply => {
            let a = magnitude(lhs);
            let b = magnitude(rhs);
            if a != 0 && b > u128::MAX / a {
                proof {
                    let q = u128::MAX as int / a as int;
                    assert(a * b > u128::MAX) by (nonlinear_arith)
                        requires
                            a > 0,
                            b >= q + 1,
                            q == u128::MAX as int / a as int,
                    ;
                    assert((a * b) as nat / (SCALE as nat) > UNIT_LIMIT) by (nonlinear_arith)
                        requires
                            a * b > u128::MAX,
                            SCALE == 1_000_000_000,
                            UNIT_LIMIT == 1_000_000_000_000_000_000_000_000_000,
                    ;
                }
                return Err(CalcError::OutOfRange);
            }
            proof {
                if a != 0 {
                    assert(a * b <= u128::MAX) by (nonlinear_arith)
                        requires
                            a > 0,
                            b <= u128::MAX as int / a as int,
                    ;
                } else {
                    assert(a * b == 0);
                }
            }
            let p = a * b;
            bounded_exec(negative, p / SCALE)
        },
        Operator::Divide => {
            if rhs == 0 {
                return Err(CalcError::DivideByZero);
            }
            let a = magnitude(lhs);
            let b = magnitude(rhs);
            proof {
                assert(a * SCALE <= u128::MAX) by (nonlinear_arith)
                    requires
                        a <= UNIT_LIMIT,
                        SCALE == 1_000_000_000,
                        UNIT_LIMIT == 1_000_000_000_000_000_000_000_000_000,
                ;
            }
            bounded_exec(negative, a * SCALE / b)
        },
    }
}

} // verus!
