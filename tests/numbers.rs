use calculator::arith::apply_operator;
use calculator::eval::evaluate_tokens;
use calculator::number::{format_chars, parse_number};
use calculator::{format_number, CalcError, Operator, Token};

fn chars(s: &str) -> Vec<char> {
    s.chars().collect()
}

fn number(s: &str) -> Token {
    Token::Number(chars(s))
}

#[test]
fn format_strips_trailing_fraction_zeros() {
    assert_eq!(format_number(6_200_000_000), "6.2");
    assert_eq!(format_number(6_250_000_000), "6.25");
}

#[test]
fn format_drops_point_of_whole_numbers() {
    assert_eq!(format_number(6_000_000_000), "6");
    assert_eq!(format_number(0), "0");
}

#[test]
fn format_negative_and_small_values() {
    assert_eq!(format_number(-500_000_000), "-0.5");
    assert_eq!(format_number(1), "0.000000001");
    assert_eq!(format_number(-120_000_000_000), "-120");
}

#[test]
fn format_chars_matches_format_number() {
    let text: String = format_chars(67_500_000_000).into_iter().collect();
    assert_eq!(text, "67.5");
}

#[test]
fn parse_reads_numerals() {
    assert_eq!(parse_number(&chars("5.2")), Some(5_200_000_000));
    assert_eq!(parse_number(&chars("5.")), Some(5_000_000_000));
    assert_eq!(parse_number(&chars("0.25")), Some(250_000_000));
    assert_eq!(parse_number(&chars("-12.5")), Some(-12_500_000_000));
    assert_eq!(parse_number(&chars("007")), Some(7_000_000_000));
}

#[test]
fn parse_rejects_malformed_text() {
    assert_eq!(parse_number(&chars("")), None);
    assert_eq!(parse_number(&chars(".")), None);
    assert_eq!(parse_number(&chars("-")), None);
    assert_eq!(parse_number(&chars("1.2.3")), None);
    assert_eq!(parse_number(&chars("1a")), None);
}

#[test]
fn parse_reads_fraction_without_whole_part() {
    assert_eq!(parse_number(&chars(".5")), Some(500_000_000));
    assert_eq!(parse_number(&chars("-.25")), Some(-250_000_000));
}

#[test]
fn parse_truncates_extra_fraction_digits() {
    assert_eq!(parse_number(&chars("0.1234567891")), Some(123_456_789));
    assert_eq!(parse_number(&chars("0.0000000001")), Some(0));
    assert_eq!(parse_number(&chars("2.9999999999")), Some(2_999_999_999));
    assert_eq!(parse_number(&chars("-0.0000000000000001")), Some(0));
    assert_eq!(parse_number(&chars("0.00000000001x")), None);
}

#[test]
fn evaluate_tokens_divisor_below_one_unit_is_zero() {
    let tokens = vec![
        number("1"),
        Token::Operator(Operator::Divide),
        number("0.0000000000000001"),
    ];
    assert_eq!(evaluate_tokens(&tokens), Err(CalcError::DivideByZero));
}

#[test]
fn parse_limits_range() {
    assert_eq!(
        parse_number(&chars("1000000000000000000")),
        Some(1_000_000_000_000_000_000_000_000_000)
    );
    assert_eq!(parse_number(&chars("1000000000000000000.1")), None);
    assert_eq!(parse_number(&chars("10000000000000000000")), None);
}

#[test]
fn apply_operator_arithmetic() {
    assert_eq!(
        apply_operator(10_000_000_000, 2_500_000_000, Operator::Add),
        Ok(12_500_000_000)
    );
    assert_eq!(
        apply_operator(10_000_000_000, 2_500_000_000, Operator::Subtract),
        Ok(7_500_000_000)
    );
    assert_eq!(
        apply_operator(-10_000_000_000, 2_500_000_000, Operator::Multiply),
        Ok(-25_000_000_000)
    );
    assert_eq!(
        apply_operator(50_000_000_000, 4_000_000_000, Operator::Divide),
        Ok(12_500_000_000)
    );
    assert_eq!(
        apply_operator(-2_000_000_000, 3_000_000_000, Operator::Divide),
        Ok(-666_666_666)
    );
}

#[test]
fn apply_operator_failures() {
    assert_eq!(
        apply_operator(8_000_000_000, 0, Operator::Divide),
        Err(CalcError::DivideByZero)
    );
    let big: i128 = 1_000_000_000_000_000_000_000_000_000;
    assert_eq!(apply_operator(big, 1, Operator::Add), Err(CalcError::OutOfRange));
    assert_eq!(apply_operator(-big, 1, Operator::Subtract), Err(CalcError::OutOfRange));
    assert_eq!(
        apply_operator(big, 2_000_000_000, Operator::Multiply),
        Err(CalcError::OutOfRange)
    );
    assert_eq!(apply_operator(big, big, Operator::Multiply), Err(CalcError::OutOfRange));
    assert_eq!(apply_operator(big, 1, Operator::Divide), Err(CalcError::OutOfRange));
}

#[test]
fn evaluate_tokens_applies_precedence() {
    let tokens = vec![
        number("10"),
        Token::Operator(Operator::Add),
        number("10"),
        Token::Operator(Operator::Multiply),
        number("5"),
        Token::Operator(Operator::Divide),
        number("4"),
        Token::Operator(Operator::Add),
        number("45"),
    ];
    assert_eq!(evaluate_tokens(&tokens), Ok(67_500_000_000));
}

#[test]
fn evaluate_tokens_subtraction_is_left_to_right() {
    let tokens = vec![
        number("10"),
        Token::Operator(Operator::Subtract),
        number("4"),
        Token::Operator(Operator::Subtract),
        number("3"),
    ];
    assert_eq!(evaluate_tokens(&tokens), Ok(3_000_000_000));
}

#[test]
fn evaluate_tokens_reports_structure_errors() {
    assert_eq!(evaluate_tokens(&vec![]), Err(CalcError::IncompleteExpression));
    assert_eq!(
        evaluate_tokens(&vec![Token::Operator(Operator::Add), number("1")]),
        Err(CalcError::IncompleteExpression)
    );
    assert_eq!(
        evaluate_tokens(&vec![number("1"), Token::Operator(Operator::Add)]),
        Err(CalcError::IncompleteExpression)
    );
    assert_eq!(
        evaluate_tokens(&vec![number("1"), number("2")]),
        Err(CalcError::InvalidExpression)
    );
    assert_eq!(
        evaluate_tokens(&vec![number("1"), Token::Operator(Operator::Add), number("x")]),
        Err(CalcError::InvalidNumberInExpression)
    );
}

#[test]
fn evaluate_tokens_division_by_zero() {
    let tokens = vec![
        number("8"),
        Token::Operator(Operator::Divide),
        number("0"),
        Token::Operator(Operator::Add),
        number("1"),
    ];
    assert_eq!(evaluate_tokens(&tokens), Err(CalcError::DivideByZero));
}

#[test]
fn operator_glyphs() {
    assert_eq!(Operator::Add.symbol(), '+');
    assert_eq!(Operator::Subtract.symbol(), '-');
    assert_eq!(Operator::Multiply.symbol(), '×');
    assert_eq!(Operator::Divide.symbol(), '÷');
    assert_eq!(Operator::Multiply.symbol_text(), "×");
}

#[test]
fn error_reasons() {
    assert_eq!(CalcError::DivideByZero.reason(), "Cannot divide by zero");
    assert_eq!(CalcError::InvalidNumber.reason(), "invalid number");
    assert_eq!(
        calculator::engine::error_text(CalcError::IncompleteExpression),
        "Error incomplete expression"
    );
}
