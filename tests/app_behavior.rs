use calculator::{App, CalcError, Key, Operator, Token};

fn type_digits(app: &mut App, digits: &str) {
    for ch in digits.chars() {
        app.handle_digit(ch);
    }
}

#[test]
fn digit_entry_and_decimal_behavior() {
    let mut app = App::default();
    app.handle_digit('0');
    app.handle_digit('5');
    assert_eq!(app.input(), "5");

    app.handle_decimal_point();
    app.handle_digit('2');
    assert_eq!(app.input(), "5.2");

    app.set_operator(Operator::Add);
    app.handle_digit('1');
    app.evaluate();
    assert_eq!(app.display_value(), "6.2");
    assert!(app.just_evaluated());

    app.handle_digit('3');
    assert_eq!(app.input(), "3");
}

#[test]
fn backspace_removes_last_digit() {
    let mut app = App::default();
    app.handle_digit('2');
    app.handle_digit('0');
    app.handle_digit('0');
    app.handle_digit('0');

    app.handle_backspace();
    app.handle_backspace();
    assert_eq!(app.input(), "20");

    app.set_operator(Operator::Add);
    app.handle_digit('1');
    app.evaluate();
    assert_eq!(app.display_value(), "21");
}

#[test]
fn full_expression_respects_precedence() {
    let mut app = App::default();
    for ch in "10".chars() {
        app.handle_digit(ch);
    }
    app.set_operator(Operator::Add);

    for ch in "10".chars() {
        app.handle_digit(ch);
    }
    app.set_operator(Operator::Multiply);
    app.handle_digit('5');

    app.set_operator(Operator::Divide);
    app.handle_digit('4');

    app.set_operator(Operator::Add);
    for ch in "45".chars() {
        app.handle_digit(ch);
    }

    app.evaluate();
    assert_eq!(app.display_value(), "67.5");
    assert!(app.tokens().is_empty());
}

#[test]
fn divide_by_zero_sets_error() {
    let mut app = App::default();
    app.handle_digit('8');
    app.set_operator(Operator::Divide);
    app.handle_digit('0');
    app.evaluate();

    assert!(app
        .error_message()
        .is_some_and(|msg| msg.contains("Cannot divide")));
}

#[test]
fn all_clear_resets_state() {
    let mut app = App::default();
    app.handle_digit('9');
    app.set_operator(Operator::Subtract);
    app.handle_digit('4');
    app.evaluate();
    assert!(app.just_evaluated());

    app.all_clear();
    assert!(app.input().is_empty());
    assert!(app.tokens().is_empty());
    assert!(app.error_message().is_none());
    assert!(!app.just_evaluated());
}

#[test]
fn divide_by_zero_clears_input_and_tokens() {
    let mut app = App::default();
    app.handle_digit('8');
    app.set_operator(Operator::Divide);
    app.handle_digit('0');
    app.evaluate();
    assert_eq!(app.error(), Some(CalcError::DivideByZero));
    assert!(app.input().is_empty());
    assert!(app.tokens().is_empty());
    assert_eq!(app.display_value(), "Error Cannot divide by zero");
    assert_eq!(
        app.expression_line(),
        "Error Cannot divide by zero (press A to clear)"
    );
}

#[test]
fn leading_zero_is_replaced() {
    let mut app = App::default();
    app.handle_digit('0');
    assert_eq!(app.input(), "0");
    app.handle_digit('7');
    assert_eq!(app.input(), "7");
}

#[test]
fn decimal_point_alone_seeds_zero_and_is_not_repeated() {
    let mut app = App::default();
    app.handle_decimal_point();
    assert_eq!(app.input(), "0.");
    app.handle_decimal_point();
    assert_eq!(app.input(), "0.");
    app.handle_digit('5');
    app.handle_decimal_point();
    assert_eq!(app.input(), "0.5");
}

#[test]
fn decimal_point_after_evaluation_starts_fresh() {
    let mut app = App::default();
    type_digits(&mut app, "12");
    app.set_operator(Operator::Multiply);
    type_digits(&mut app, "3");
    app.evaluate();
    assert_eq!(app.input(), "36");
    app.handle_decimal_point();
    assert_eq!(app.input(), "0.");
    assert!(!app.just_evaluated());
}

#[test]
fn backspace_on_empty_input_does_nothing() {
    let mut app = App::default();
    app.handle_backspace();
    assert!(app.input().is_empty());
    assert!(app.tokens().is_empty());
    assert_eq!(app.display_value(), "0");
}

#[test]
fn backspace_after_evaluation_does_nothing() {
    let mut app = App::default();
    type_digits(&mut app, "7");
    app.set_operator(Operator::Add);
    type_digits(&mut app, "8");
    app.evaluate();
    app.handle_backspace();
    assert_eq!(app.input(), "15");
    assert!(app.just_evaluated());
}

#[test]
fn operator_replaces_trailing_operator() {
    let mut app = App::default();
    app.handle_digit('9');
    app.set_operator(Operator::Subtract);
    app.set_operator(Operator::Add);
    assert_eq!(app.tokens().len(), 2);
    assert!(matches!(app.tokens()[1], Token::Operator(Operator::Add)));
    assert_eq!(app.expression_line(), "9 +");
}

#[test]
fn operator_without_operand_is_ignored() {
    let mut app = App::default();
    app.set_operator(Operator::Multiply);
    assert!(app.tokens().is_empty());
    assert_eq!(app.expression_line(), "Enter digits and choose an operator");
}

#[test]
fn evaluate_with_trailing_operator_waits() {
    let mut app = App::default();
    type_digits(&mut app, "4");
    app.set_operator(Operator::Multiply);
    app.evaluate();
    assert!(app.error().is_none());
    assert_eq!(app.tokens().len(), 2);
    assert!(!app.just_evaluated());
    assert_eq!(app.display_value(), "4");
}

#[test]
fn evaluate_on_empty_session_does_nothing() {
    let mut app = App::default();
    app.evaluate();
    assert!(app.error().is_none());
    assert!(!app.just_evaluated());
    assert_eq!(app.display_value(), "0");
}

#[test]
fn error_locks_out_everything_but_clear() {
    let mut app = App::default();
    type_digits(&mut app, "1");
    app.set_operator(Operator::Divide);
    type_digits(&mut app, "0");
    app.evaluate();
    assert!(app.error().is_some());

    app.handle_digit('5');
    app.handle_decimal_point();
    app.handle_backspace();
    app.set_operator(Operator::Add);
    app.evaluate();
    assert_eq!(app.error(), Some(CalcError::DivideByZero));
    assert!(app.input().is_empty());
    assert!(app.tokens().is_empty());

    app.all_clear();
    assert!(app.error().is_none());
    app.handle_digit('5');
    assert_eq!(app.input(), "5");
}

#[test]
fn clear_all_twice_equals_once() {
    let mut app = App::default();
    type_digits(&mut app, "3");
    app.set_operator(Operator::Add);
    app.all_clear();
    let once = (app.input(), app.tokens().len(), app.error(), app.just_evaluated());
    app.all_clear();
    let twice = (app.input(), app.tokens().len(), app.error(), app.just_evaluated());
    assert_eq!(once, twice);
    assert_eq!(once, (String::new(), 0, None, false));
}

#[test]
fn expression_line_joins_tokens_and_input() {
    let mut app = App::default();
    type_digits(&mut app, "12");
    app.set_operator(Operator::Multiply);
    type_digits(&mut app, "3");
    app.set_operator(Operator::Divide);
    type_digits(&mut app, "4");
    assert_eq!(app.expression_line(), "12 × 3 ÷ 4");
    assert_eq!(app.display_value(), "4");
}

#[test]
fn display_value_shows_last_number_after_operator() {
    let mut app = App::default();
    type_digits(&mut app, "25");
    app.set_operator(Operator::Subtract);
    assert!(app.input().is_empty());
    assert_eq!(app.display_value(), "25");
}

#[test]
fn subtraction_can_go_negative_and_continue() {
    let mut app = App::default();
    type_digits(&mut app, "3");
    app.set_operator(Operator::Subtract);
    type_digits(&mut app, "10");
    app.evaluate();
    assert_eq!(app.display_value(), "-7");
    app.set_operator(Operator::Multiply);
    type_digits(&mut app, "2");
    app.evaluate();
    assert_eq!(app.display_value(), "-14");
}

#[test]
fn division_truncates_to_nine_fraction_digits() {
    let mut app = App::default();
    type_digits(&mut app, "1");
    app.set_operator(Operator::Divide);
    type_digits(&mut app, "3");
    app.evaluate();
    assert_eq!(app.display_value(), "0.333333333");
}

#[test]
fn too_long_input_is_an_invalid_number() {
    let mut app = App::default();
    type_digits(&mut app, "12345678901234567890");
    app.set_operator(Operator::Add);
    assert_eq!(app.error(), Some(CalcError::InvalidNumber));
    assert_eq!(
        app.error_message(),
        Some(String::from("Error invalid number"))
    );
}

#[test]
fn product_beyond_range_is_reported() {
    let mut app = App::default();
    type_digits(&mut app, "1000000000000");
    app.set_operator(Operator::Multiply);
    type_digits(&mut app, "1000000000000");
    app.evaluate();
    assert_eq!(app.error(), Some(CalcError::OutOfRange));
}

#[test]
fn keys_drive_the_commands() {
    let mut app = App::default();
    for key in [
        Key::Char('1'),
        Key::Char('0'),
        Key::Char('+'),
        Key::Char('2'),
        Key::Char('x'),
        Key::Char('3'),
        Key::Char('-'),
        Key::Char('4'),
        Key::Char(':'),
        Key::Char('8'),
        Key::Enter,
    ] {
        app.handle_key_events(key);
    }
    assert_eq!(app.display_value(), "15.5");
    app.handle_key_events(Key::Char('a'));
    assert_eq!(app.display_value(), "0");
    assert!(!app.should_exit());
    app.handle_key_events(Key::Char('q'));
    assert!(app.should_exit());
}

#[test]
fn keys_during_error_only_clear_or_quit() {
    let mut app = App::default();
    for key in [Key::Char('5'), Key::Char('/'), Key::Char('0'), Key::Char('=')] {
        app.handle_key_events(key);
    }
    assert!(app.error().is_some());
    app.handle_key_events(Key::Char('7'));
    app.handle_key_events(Key::Backspace);
    assert!(app.input().is_empty());
    app.handle_key_events(Key::Char('A'));
    assert!(app.error().is_none());
}

#[test]
fn dividing_by_a_divisor_below_one_unit_fails() {
    let mut app = App::default();
    app.handle_digit('8');
    app.set_operator(Operator::Divide);
    app.handle_decimal_point();
    type_digits(&mut app, "0000000000000001");
    app.evaluate();
    assert_eq!(app.error(), Some(CalcError::DivideByZero));
    assert_eq!(app.display_value(), "Error Cannot divide by zero");
}

#[test]
fn long_fraction_input_commits_truncated() {
    let mut app = App::default();
    app.handle_decimal_point();
    type_digits(&mut app, "0000000001");
    app.set_operator(Operator::Add);
    assert!(app.error().is_none());
    type_digits(&mut app, "2");
    app.evaluate();
    assert_eq!(app.display_value(), "2");
}
