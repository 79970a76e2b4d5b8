use boardgames::calculator::{add_commas, CalcState, Entry, EqualsStep, Op, OperatorStep, PercentStep};

fn calc() -> Entry {
    Entry::new()
}

#[test]
fn operator_symbols() {
    assert_eq!(Op::Add.symbol(), "+");
    assert_eq!(Op::Sub.symbol(), "−");
    assert_eq!(Op::Mul.symbol(), "×");
    assert_eq!(Op::Div.symbol(), "÷");
}

#[test]
fn commas_group_the_integer_part_by_threes() {
    assert_eq!(add_commas("0"), "0");
    assert_eq!(add_commas("123"), "123");
    assert_eq!(add_commas("1000"), "1,000");
    assert_eq!(add_commas("1234567"), "1,234,567");
    assert_eq!(add_commas("999999"), "999,999");
    assert_eq!(add_commas("1000000"), "1,000,000");
}

#[test]
fn commas_keep_sign_and_decimals() {
    assert_eq!(add_commas("-1234.5678"), "-1,234.5678");
    assert_eq!(add_commas("0.12345"), "0.12345");
    assert_eq!(add_commas("12345."), "12,345.");
    assert_eq!(add_commas("-5"), "-5");
    assert_eq!(add_commas("-"), "-");
    assert_eq!(add_commas(""), "");
}

#[test]
fn error_is_left_alone() {
    assert_eq!(add_commas("Error"), "Error");
}

#[test]
fn removing_the_commas_gives_the_display_back() {
    for s in ["0", "12", "1234", "-1234567.891", "1000000", "0.000001", "Error", "-", "12.3.4"] {
        let shown = add_commas(s);
        assert_eq!(shown.replace(',', ""), s);
    }
}

#[test]
fn test_initial_display() {
    let c = calc();
    assert_eq!(c.display(), "0");
}

#[test]
fn test_digit_input() {
    let mut c = calc();
    c.press_digit(1);
    c.press_digit(2);
    c.press_digit(3);
    assert_eq!(c.display(), "123");
}

#[test]
fn test_leading_zero() {
    let mut c = calc();
    c.press_digit(0);
    c.press_digit(5);
    assert_eq!(c.display(), "5");
}

#[test]
fn test_no_double_decimal() {
    let mut c = calc();
    c.press_digit(1);
    c.press_decimal();
    c.press_decimal();
    c.press_digit(5);
    assert_eq!(c.display(), "1.5");
}

#[test]
fn test_backspace() {
    let mut c = calc();
    c.press_digit(1);
    c.press_digit(2);
    c.press_digit(3);
    c.press_backspace();
    assert_eq!(c.display(), "12");
    c.press_backspace();
    assert_eq!(c.display(), "1");
    c.press_backspace();
    assert_eq!(c.display(), "0");
}

#[test]
fn test_negate() {
    let mut c = calc();
    c.press_digit(5);
    c.press_negate();
    assert_eq!(c.display(), "-5");
    c.press_negate();
    assert_eq!(c.display(), "5");
}

#[test]
fn test_negate_zero() {
    let mut c = calc();
    c.press_negate();
    assert_eq!(c.display(), "0");
}

#[test]
fn test_comma_in_input() {
    let mut c = calc();
    for d in [1, 2, 3, 4, 5, 6, 7] {
        c.press_digit(d);
    }
    assert_eq!(c.display(), "1,234,567");
}

#[test]
fn test_comma_with_decimal() {
    let mut c = calc();
    for d in [1, 2, 3, 4, 5] {
        c.press_digit(d);
    }
    c.press_decimal();
    c.press_digit(6);
    assert_eq!(c.display(), "12,345.6");
}

#[test]
fn test_comma_negative() {
    let mut c = calc();
    for d in [1, 0, 0, 0] {
        c.press_digit(d);
    }
    c.press_negate();
    assert_eq!(c.display(), "-1,000");
}

#[test]
fn backspace_frees_the_decimal_point() {
    let mut c = calc();
    c.press_digit(1);
    c.press_decimal();
    c.press_backspace();
    assert!(!c.has_decimal);
    c.press_decimal();
    c.press_digit(2);
    assert_eq!(c.display(), "1.2");
}

#[test]
fn operators_build_the_expression_line() {
    let mut c = calc();
    for d in [1, 2, 3, 4] {
        c.press_digit(d);
    }
    c.start_expression(Op::Add);
    assert_eq!(c.expression(), "1,234 +");
    assert_eq!(c.state, CalcState::InputSecond);
    assert!(c.waiting_for_second);
    c.swap_operator(Op::Mul);
    assert_eq!(c.expression(), "1,234 ×");
    assert_eq!(c.operator, Some(Op::Mul));
    c.press_digit(5);
    assert_eq!(c.display(), "5");
    c.set_equation("1234", Op::Mul, "5");
    assert_eq!(c.expression(), "1,234 × 5 =");
}

#[test]
fn results_and_errors() {
    let mut c = calc();
    c.press_digit(7);
    c.show_result("2.5".to_string());
    assert_eq!(c.display(), "2.5");
    assert!(c.has_decimal);
    assert_eq!(c.state, CalcState::ShowResult);
    c.press_digit(3);
    assert_eq!(c.display(), "3");
    assert_eq!(c.state, CalcState::InputFirst);
    c.show_error();
    assert_eq!(c.display(), "Error");
    c.press_digit(4);
    c.press_negate();
    c.press_backspace();
    assert_eq!(c.display(), "Error");
    c.show_percent("0.25".to_string());
    assert_eq!(c.display(), "0.25");
}

#[test]
fn steps_follow_the_state_of_the_entry() {
    let mut c = calc();
    assert_eq!(c.operator_step(), OperatorStep::TakeFirst);
    assert_eq!(c.begin_equals(), EqualsStep::Ignore);
    assert_eq!(c.percent_step(), PercentStep::Apply { current_is_first: false, of_first: false });
    c.press_digit(8);
    c.start_expression(Op::Sub);
    assert_eq!(c.operator_step(), OperatorStep::Swap);
    assert_eq!(c.percent_step(), PercentStep::Apply { current_is_first: true, of_first: true });
    c.press_digit(2);
    assert_eq!(c.operator_step(), OperatorStep::EvaluateThenTake);
    assert_eq!(c.begin_equals(), EqualsStep::Evaluate { second_from_display: true, op: Some(Op::Sub) });
    assert_eq!(c.last_operator, Some(Op::Sub));
    c.show_result("6".to_string());
    assert_eq!(c.operator, None);
    assert_eq!(c.begin_equals(), EqualsStep::Repeat { last: Op::Sub });
    assert_eq!(c.operator, Some(Op::Sub));
    assert!(c.continue_with(Op::Mul));
    assert_eq!(c.expression(), "6 ×");
    assert!(!c.has_decimal);
    c.show_error();
    assert_eq!(c.operator_step(), OperatorStep::Ignore);
    assert_eq!(c.begin_equals(), EqualsStep::Ignore);
    assert_eq!(c.percent_step(), PercentStep::Ignore);
    assert!(!c.continue_with(Op::Add));
}
