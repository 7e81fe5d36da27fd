//! End-to-end scenarios through the transition engine.

use calc_core::engine::{apply, initial_display, Action};
use calc_core::operation::{CalcError, CalcOperator, OperationMetadata};

fn run(actions: &[Action]) -> (String, OperationMetadata) {
    let mut display = initial_display();
    let mut state = OperationMetadata::default();
    for a in actions {
        let (d, s) = apply(display.as_str(), &state, *a).expect("step failed");
        display = d;
        state = s;
    }
    (display, state)
}

fn is_empty_state(state: &OperationMetadata) -> bool {
    state.left_operand.is_none() && state.right_operand.is_none() && state.operator.is_none()
}

#[test]
fn seven_plus_three_equals_ten() {
    let (display, state) = run(&[
        Action::Digit(7),
        Action::Operator(CalcOperator::Add),
        Action::Digit(3),
        Action::Equals,
    ]);
    assert_eq!(display, "10");
    assert!(is_empty_state(&state));
}

#[test]
fn eight_divided_by_zero_is_an_explicit_error() {
    let (display, state) = run(&[
        Action::Digit(8),
        Action::Operator(CalcOperator::Div),
        Action::Digit(0),
    ]);
    let r = apply(display.as_str(), &state, Action::Equals);
    assert_eq!(r.unwrap_err(), CalcError::DivisionByZero);
    // The caller keeps the old pair; the display still shows the divisor.
    assert_eq!(display, "0");
}

#[test]
fn one_point_five_times_two_equals_three() {
    let (display, state) = run(&[
        Action::Digit(1),
        Action::Dot,
        Action::Digit(5),
        Action::Operator(CalcOperator::Mul),
        Action::Digit(2),
        Action::Equals,
    ]);
    assert_eq!(display, "3");
    assert!(is_empty_state(&state));
}

#[test]
fn clear_resets_display_and_state_at_any_point() {
    let (display, state) = run(&[
        Action::Digit(7),
        Action::Operator(CalcOperator::Add),
        Action::Digit(3),
        Action::Clear,
    ]);
    assert_eq!(display, "0");
    assert!(is_empty_state(&state));

    let (display, state) = run(&[Action::Clear]);
    assert_eq!(display, "0");
    assert!(is_empty_state(&state));
}

#[test]
fn digit_entry_replaces_leading_zero() {
    let (display, _) = run(&[Action::Digit(0), Action::Digit(5)]);
    assert_eq!(display, "5");
    let (display, _) = run(&[Action::Digit(0), Action::Digit(5), Action::Digit(2)]);
    assert_eq!(display, "52");
    let (display, _) = run(&[Action::Digit(0), Action::Digit(0)]);
    assert_eq!(display, "0");
}

#[test]
fn negate_toggles_sign_and_spares_zero() {
    let (display, _) = run(&[Action::Negate]);
    assert_eq!(display, "0");
    let (display, _) = run(&[Action::Digit(5), Action::Negate]);
    assert_eq!(display, "-5");
    let (display, _) = run(&[Action::Digit(5), Action::Negate, Action::Negate]);
    assert_eq!(display, "5");
}

#[test]
fn percent_halves_fifty_to_a_fraction_and_resets() {
    let (display, state) = run(&[Action::Digit(5), Action::Digit(0), Action::Percent]);
    assert_eq!(display, "0.5");
    assert!(is_empty_state(&state));
    // A subsequent Equals has no pending operator and changes nothing.
    let (d2, s2) = apply(display.as_str(), &state, Action::Equals).unwrap();
    assert_eq!(d2, "0.5");
    assert!(is_empty_state(&s2));
}

#[test]
fn percent_abandons_a_pending_operation() {
    let (display, state) = run(&[
        Action::Digit(7),
        Action::Operator(CalcOperator::Add),
        Action::Percent,
    ]);
    assert_eq!(display, "0.07");
    assert!(is_empty_state(&state));
}

#[test]
fn equals_without_operator_is_a_noop() {
    let (display, state) = run(&[Action::Digit(4), Action::Digit(2), Action::Equals]);
    assert_eq!(display, "42");
    assert_eq!(state.operator, None);
}

#[test]
fn operator_captures_display_as_left_operand() {
    let (display, state) = run(&[Action::Operator(CalcOperator::Add)]);
    assert_eq!(display, "0");
    assert_eq!(state.operator, Some(CalcOperator::Add));
    assert!(state.left_operand.is_some());

    // A second operator replaces only the operator.
    let (display, state) = apply(display.as_str(), &state, Action::Operator(CalcOperator::Mul))
        .unwrap();
    assert_eq!(display, "0");
    assert_eq!(state.operator, Some(CalcOperator::Mul));
    assert!(state.left_operand.is_some());
}

#[test]
fn operator_chaining_does_not_evaluate() {
    // Add then Mul before a second operand only changes the pending operator.
    let (display, state) = run(&[
        Action::Digit(6),
        Action::Operator(CalcOperator::Add),
        Action::Operator(CalcOperator::Mul),
        Action::Digit(2),
        Action::Equals,
    ]);
    assert_eq!(display, "12");
    assert!(is_empty_state(&state));
}

#[test]
fn subtraction_below_zero_shows_a_minus() {
    let (display, _) = run(&[
        Action::Digit(3),
        Action::Operator(CalcOperator::Sub),
        Action::Digit(5),
        Action::Equals,
    ]);
    assert_eq!(display, "-2");
}

#[test]
fn negate_edits_the_display_but_not_a_captured_operand() {
    // Digit entry already stored 5 as `left`; Negate touches the display
    // only, so the evaluation still uses 5.
    let (display, _) = run(&[
        Action::Digit(5),
        Action::Negate,
        Action::Operator(CalcOperator::Add),
        Action::Digit(3),
        Action::Equals,
    ]);
    assert_eq!(display, "8");
}

#[test]
fn negated_display_is_captured_by_a_later_digit() {
    // The digit keyed after Negate reparses the whole buffer, minus included.
    let (display, _) = run(&[
        Action::Digit(5),
        Action::Digit(0),
        Action::Negate,
        Action::Digit(1),
        Action::Operator(CalcOperator::Add),
        Action::Digit(3),
        Action::Equals,
    ]);
    assert_eq!(display, "-498");
}

#[test]
fn division_truncates_to_twelve_fraction_digits() {
    let (display, _) = run(&[
        Action::Digit(1),
        Action::Operator(CalcOperator::Div),
        Action::Digit(3),
        Action::Equals,
    ]);
    assert_eq!(display, "0.333333333333");
}

#[test]
fn division_with_exact_quotient_is_exact() {
    let (display, _) = run(&[
        Action::Digit(7),
        Action::Operator(CalcOperator::Div),
        Action::Digit(2),
        Action::Equals,
    ]);
    assert_eq!(display, "3.5");
}

#[test]
fn equals_with_missing_right_operand_reports_it() {
    let (display, state) = run(&[Action::Digit(7), Action::Operator(CalcOperator::Add)]);
    let r = apply(display.as_str(), &state, Action::Equals);
    assert_eq!(r.unwrap_err(), CalcError::MissingOperand);
}

#[test]
fn equals_keeps_the_result_and_a_digit_starts_afresh() {
    let (display, state) = run(&[
        Action::Digit(7),
        Action::Operator(CalcOperator::Add),
        Action::Digit(3),
        Action::Equals,
    ]);
    assert_eq!(display, "10");
    let (display, _) = apply(display.as_str(), &state, Action::Digit(5)).unwrap();
    assert_eq!(display, "5");
}

#[test]
fn dot_appends_only_once() {
    let (display, _) = run(&[Action::Digit(1), Action::Dot, Action::Digit(5)]);
    assert_eq!(display, "1.5");
    let (display, _) = run(&[Action::Digit(1), Action::Dot, Action::Dot, Action::Digit(5)]);
    assert_eq!(display, "1.5");
}

#[test]
fn dot_before_any_digit_is_dropped_with_the_stale_display() {
    // With the first operand still unset, a digit replaces the whole buffer.
    let (display, _) = run(&[Action::Dot, Action::Digit(5)]);
    assert_eq!(display, "5");
}

#[test]
fn digits_feed_the_right_operand_under_an_operator() {
    let (display, state) = run(&[
        Action::Digit(9),
        Action::Operator(CalcOperator::Sub),
        Action::Digit(3),
        Action::Digit(4),
    ]);
    assert_eq!(display, "34");
    assert!(state.right_operand.is_some());
    let (display, _) = apply(display.as_str(), &state, Action::Equals).unwrap();
    assert_eq!(display, "-25");
}

#[test]
fn overflowing_product_is_reported() {
    let mut actions = Vec::new();
    for _ in 0..20 {
        actions.push(Action::Digit(9));
    }
    actions.push(Action::Operator(CalcOperator::Mul));
    for _ in 0..20 {
        actions.push(Action::Digit(9));
    }
    let (display, state) = run(&actions);
    let r = apply(display.as_str(), &state, Action::Equals);
    assert_eq!(r.unwrap_err(), CalcError::Overflow);
}

#[test]
fn division_truncates_toward_zero_for_negative_values() {
    // The digit keyed after Negate rebinds the operand, minus included.
    let (display, _) = run(&[
        Action::Digit(1),
        Action::Operator(CalcOperator::Div),
        Action::Digit(3),
        Action::Negate,
        Action::Digit(0),
        Action::Equals,
    ]);
    assert_eq!(display, "-0.033333333333");
    let (display, _) = run(&[
        Action::Digit(7),
        Action::Negate,
        Action::Digit(0),
        Action::Operator(CalcOperator::Div),
        Action::Digit(2),
        Action::Digit(0),
        Action::Equals,
    ]);
    assert_eq!(display, "-3.5");
}

#[test]
fn division_beyond_capacity_is_reported() {
    // 10^30 over 0.000001 needs more than the mantissa can carry.
    let mut actions = vec![Action::Digit(1)];
    for _ in 0..30 {
        actions.push(Action::Digit(0));
    }
    actions.push(Action::Operator(CalcOperator::Div));
    actions.push(Action::Digit(0));
    actions.push(Action::Dot);
    for _ in 0..5 {
        actions.push(Action::Digit(0));
    }
    actions.push(Action::Digit(1));
    let (display, state) = run(&actions);
    let r = apply(display.as_str(), &state, Action::Equals);
    assert_eq!(r.unwrap_err(), CalcError::Overflow);
}

#[test]
fn percent_keeps_the_sign() {
    let (display, state) = run(&[
        Action::Digit(5),
        Action::Digit(0),
        Action::Negate,
        Action::Percent,
    ]);
    assert_eq!(display, "-0.5");
    assert!(is_empty_state(&state));
}

#[test]
fn addition_across_scales_is_exact() {
    let (display, _) = run(&[
        Action::Digit(1),
        Action::Dot,
        Action::Digit(5),
        Action::Operator(CalcOperator::Add),
        Action::Digit(0),
        Action::Dot,
        Action::Digit(2),
        Action::Digit(5),
        Action::Equals,
    ]);
    assert_eq!(display, "1.75");
}

#[test]
fn invalid_display_is_reported_on_percent() {
    let state = OperationMetadata::default();
    let r = apply("not a number", &state, Action::Percent);
    assert_eq!(r.unwrap_err(), CalcError::InvalidNumericLiteral);
}
