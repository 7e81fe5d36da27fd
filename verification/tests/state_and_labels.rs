//! The operation state's own methods, and the keypad label mapping.

use calc_core::button::action_of_label;
use calc_core::engine::Action;
use calc_core::number::Number;
use calc_core::operation::{CalcError, CalcOperator, OperationMetadata};

fn num(mantissa: u128, scale: u32) -> Number {
    Number { negative: false, mantissa, scale }
}

#[test]
fn set_operand_fills_left_then_right() {
    let mut state = OperationMetadata::default();
    assert!(state.is_new_operand());
    state.set_operand("7").unwrap();
    assert_eq!(state.left_operand, Some(num(7, 0)));
    assert!(!state.is_new_operand());

    state.set_operator(CalcOperator::Add);
    assert!(state.is_under_operation());
    assert!(state.is_new_operand());
    state.set_operand("3.5").unwrap();
    assert_eq!(state.right_operand, Some(num(35, 1)));
    assert!(!state.is_new_operand());
}

#[test]
fn set_operand_rejects_garbage_and_keeps_the_state() {
    let mut state = OperationMetadata::default();
    state.set_operand("7").unwrap();
    let r = state.set_operand("1.2.3");
    assert_eq!(r.unwrap_err(), CalcError::InvalidNumericLiteral);
    assert_eq!(state.left_operand, Some(num(7, 0)));
    let r = state.set_operand("");
    assert_eq!(r.unwrap_err(), CalcError::InvalidNumericLiteral);
}

#[test]
fn set_operand_reports_a_literal_beyond_capacity() {
    let mut state = OperationMetadata::default();
    let forty_nines: String = "9".repeat(40);
    let r = state.set_operand(forty_nines.as_str());
    assert_eq!(r.unwrap_err(), CalcError::Overflow);
}

#[test]
fn parse_tolerates_partial_literals() {
    let mut state = OperationMetadata::default();
    state.set_operand("5.").unwrap();
    assert_eq!(state.left_operand, Some(num(5, 0)));
    state.set_operand(".5").unwrap();
    assert_eq!(state.left_operand, Some(num(5, 1)));
    state.set_operand("-1.50").unwrap();
    assert_eq!(
        state.left_operand,
        Some(Number { negative: true, mantissa: 15, scale: 1 })
    );
    state.set_operand("-0").unwrap();
    assert_eq!(state.left_operand, Some(num(0, 0)));
}

#[test]
fn calculate_reports_what_is_missing() {
    let state = OperationMetadata::default();
    assert_eq!(state.calculate().unwrap_err(), CalcError::MissingOperand);

    let state = OperationMetadata {
        left_operand: Some(num(1, 0)),
        right_operand: None,
        operator: Some(CalcOperator::Add),
    };
    assert_eq!(state.calculate().unwrap_err(), CalcError::MissingOperand);

    let state = OperationMetadata {
        left_operand: Some(num(1, 0)),
        right_operand: Some(num(2, 0)),
        operator: Some(CalcOperator::Sub),
    };
    assert_eq!(
        state.calculate().unwrap(),
        Number { negative: true, mantissa: 1, scale: 0 }
    );
}

#[test]
fn calculate_adds_exactly_across_scales() {
    let state = OperationMetadata {
        left_operand: Some(num(15, 1)),  // 1.5
        right_operand: Some(num(25, 2)), // 0.25
        operator: Some(CalcOperator::Add),
    };
    assert_eq!(state.calculate().unwrap(), num(175, 2)); // 1.75
}

#[test]
fn calculate_divides_by_zero_with_an_explicit_error() {
    let state = OperationMetadata {
        left_operand: Some(num(8, 0)),
        right_operand: Some(num(0, 0)),
        operator: Some(CalcOperator::Div),
    };
    assert_eq!(state.calculate().unwrap_err(), CalcError::DivisionByZero);
}

#[test]
fn reset_clears_all_three_fields() {
    let mut state = OperationMetadata::default();
    state.set_operand("7").unwrap();
    state.set_operator(CalcOperator::Mul);
    state.set_operand("3").unwrap();
    state.reset();
    assert!(state.left_operand.is_none());
    assert!(state.right_operand.is_none());
    assert!(state.operator.is_none());
}

#[test]
fn operator_accessor_shows_the_pending_operator() {
    let mut state = OperationMetadata::default();
    assert_eq!(state.operator(), None);
    state.set_operator(CalcOperator::Div);
    assert_eq!(state.operator(), Some(CalcOperator::Div));
    state.set_operator(CalcOperator::Sub);
    assert_eq!(state.operator(), Some(CalcOperator::Sub));
}

#[test]
fn operator_symbols() {
    assert_eq!(CalcOperator::Add.symbol(), "+");
    assert_eq!(CalcOperator::Sub.symbol(), "-");
    assert_eq!(CalcOperator::Mul.symbol(), "*");
    assert_eq!(CalcOperator::Div.symbol(), "/");
}

#[test]
fn every_keypad_label_maps_to_its_action() {
    assert_eq!(action_of_label("0"), Some(Action::Digit(0)));
    assert_eq!(action_of_label("9"), Some(Action::Digit(9)));
    assert_eq!(action_of_label("."), Some(Action::Dot));
    assert_eq!(action_of_label("+/-"), Some(Action::Negate));
    assert_eq!(action_of_label("%"), Some(Action::Percent));
    assert_eq!(
        action_of_label("+"),
        Some(Action::Operator(CalcOperator::Add))
    );
    assert_eq!(
        action_of_label("-"),
        Some(Action::Operator(CalcOperator::Sub))
    );
    assert_eq!(
        action_of_label("*"),
        Some(Action::Operator(CalcOperator::Mul))
    );
    assert_eq!(
        action_of_label("/"),
        Some(Action::Operator(CalcOperator::Div))
    );
    assert_eq!(action_of_label("="), Some(Action::Equals));
    assert_eq!(action_of_label("C"), Some(Action::Clear));
    assert_eq!(action_of_label(""), None);
    assert_eq!(action_of_label("x"), None);
    assert_eq!(action_of_label("+-"), None);
    assert_eq!(action_of_label("+/+"), None);
}
