//! A keyboard calculator engine: digits and operators accumulate into an
//! expression that is evaluated with multiplication and division binding
//! tighter than addition and subtraction. Numbers are fixed-point decimals
//! with nine fractional digits: typed fractions are truncated to that many
//! digits, so the epsilon of the number type is one unit (10^-9) and a divisor
//! below it reads as zero.
pub mod arith;
pub mod engine;
pub mod eval;
pub mod laws;
pub mod number;

pub use arith::{CalcError, Operator};
pub use engine::{App, Key};
pub use eval::Token;
pub use number::format_number;
