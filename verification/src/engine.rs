//! The transition engine: one pure step per user action.
//!
//! [`apply`] takes the current display buffer and operation state and one
//! [`Action`], and returns the next pair or an error; on an error nothing
//! changes, so a step is atomic.  [`spec_apply`] is the transition relation
//! it is proved to implement.

use vstd::prelude::*;
use vstd::string::{StringExecFns, StrSliceExecFns};
use crate::literal::{
    digit_char, lit_neg, parse_literal, push_digit_char, render_number, spec_parse, spec_render,
};
use crate::number::{num_percent, spec_percent};
use crate::operation::{CalcError, CalcOperator, OperationMetadata};

verus! {

/// One discrete user gesture, already mapped by the interface layer.
#[derive(Clone, Copy, Debug, PartialEq, Eq, Structural)]
pub enum Action {
    /// One of the ten digit keys.
    Digit(u8),
    /// The decimal point key.
    Dot,
    /// The sign-toggle key.
    Negate,
    /// The percent key.
    Percent,
    /// One of the four operator keys.
    Operator(CalcOperator),
    /// The equals key.
    Equals,
    /// The clear key.
    Clear,
}

/// The closed action set: a digit key carries a value below ten.
pub open spec fn action_wf(action: Action) -> bool {
    match action {
        Action::Digit(d) => d <= 9,
        _ => true,
    }
}

/// Whether the display already holds a decimal point.
pub open spec fn contains_dot(s: Seq<char>) -> bool {
    exists|i: int| 0 <= i < s.len() && s[i] == '.'
}

/// What applying one action to `(display, state)` yields.
///
/// - `Digit(d)`: the display is replaced by the digit where it shows `"0"`
///   or starts a fresh operand, and extended by it otherwise; the new buffer
///   is parsed into the operand slot the sub-state selects.
/// - `Dot`: appends a point unless one is present (then a no-op).
/// - `Negate`: strips a leading minus, or prepends one unless the display is
///   `"0"` (negating zero is a no-op).
/// - `Percent`: the display's value over one hundred, rendered, with the
///   whole operation state reset.
/// - `Operator(op)`: captures the display as `left` where `left` is unset,
///   then stores `op`, replacing any pending operator without evaluating.
/// - `Equals`: a no-op without a pending operator; otherwise evaluates
///   `left operator right`, renders the result, and resets the state.
/// - `Clear`: back to `("0", empty)`.
///
/// An error leaves the pair as it was: the step is atomic.
pub open spec fn spec_apply(
    display: Seq<char>,
    state: OperationMetadata,
    action: Action,
) -> Result<(Seq<char>, OperationMetadata), CalcError> {
    match action {
        Action::Digit(d) => {
            let nd = if display == seq!['0'] || state.spec_is_new_operand() {
                seq![digit_char(d as nat)]
            } else {
                display.push(digit_char(d as nat))
            };
            match state.spec_set_operand(nd) {
                Ok(st) => Ok((nd, st)),
                Err(e) => Err(e),
            }
        },
        Action::Dot => {
            if contains_dot(display) {
                Ok((display, state))
            } else {
                Ok((display.push('.'), state))
            }
        },
        Action::Negate => {
            if lit_neg(display) {
                Ok((display.skip(1), state))
            } else if display == seq!['0'] {
                Ok((display, state))
            } else {
                Ok((seq!['-'] + display, state))
            }
        },
        Action::Percent => {
            match spec_parse(display) {
                Ok(n) => match spec_percent(n) {
                    Ok(v) => Ok((spec_render(v), OperationMetadata::spec_empty())),
                    Err(e) => Err(e),
                },
                Err(e) => Err(e),
            }
        },
        Action::Operator(op) => {
            if state.left_operand is None {
                match spec_parse(display) {
                    Ok(n) => Ok(
                        (
                            display,
                            OperationMetadata {
                                left_operand: Some(n),
                                operator: Some(op),
                                ..state
                            },
                        ),
                    ),
                    Err(e) => Err(e),
                }
            } else {
                Ok((display, OperationMetadata { operator: Some(op), ..state }))
            }
        },
        Action::Equals => {
            if state.operator is None {
                Ok((display, state))
            } else {
                match state.spec_calculate() {
                    Ok(v) => Ok((spec_render(v), OperationMetadata::spec_empty())),
                    Err(e) => Err(e),
                }
            }
        },
        Action::Clear => Ok((seq!['0'], OperationMetadata::spec_empty())),
    }
}

/// Whether an executable step result is the one the transition relation
/// names.
pub open spec fn step_matches(
    r: Result<(String, OperationMetadata), CalcError>,
    s: Result<(Seq<char>, OperationMetadata), CalcError>,
) -> bool {
    match (r, s) {
        (Ok(p), Ok(q)) => p.0@ == q.0 && p.1 == q.1,
        (Err(e1), Err(e2)) => e1 == e2,
        _ => false,
    }
}

/// The display a session starts with: `"0"`.
pub fn initial_display() -> (r: String)
    ensures
        r@ == seq!['0'],
{
    let r = String::from_str("0");
    proof {
        reveal_strlit("0");
        assert(r@ =~= seq!['0']);
    }
    r
}

/// Whether the display is exactly `"0"`.
fn is_display_zero(s: &str) -> (r: bool)
    ensures
        r == (s@ == seq!['0']),
{
    let len = s.unicode_len();
    if len == 1 && s.get_char(0) == '0' {
        proof {
            assert(s@ =~= seq!['0']);
        }
        true
    } else {
        proof {
            assert(s@ != seq!['0']);
        }
        false
    }
}

/// Whether the display already holds a decimal point.
fn display_contains_dot(s: &str) -> (r: bool)
    ensures
        r == contains_dot(s@),
{
    let len = s.unicode_len();
    let mut i: usize = 0;
    while i < len
        invariant
            i <= len,
            len == s@.len(),
            forall|j: int| 0 <= j < i ==> s@[j] != '.',
        decreases len - i,
    {
        if s.get_char(i) == '.' {
            return true;
        }
        i = i + 1;
    }
    false
}

/// Apply one action to the session pair `(display, state)`.
///
/// This is the single entry point of the engine: it performs no input or
/// output and touches nothing but its arguments.  The returned state is
/// well-formed; an `Err` means the pair is to be kept as it was.
pub fn apply(display: &str, state: &OperationMetadata, action: Action) -> (r: Result<
    (String, OperationMetadata),
    CalcError,
>)
    requires
        state.wf(),
        action_wf(action),
    ensures
        step_matches(r, spec_apply(display@, *state, action)),
        r matches Ok(p) ==> p.1.wf(),
{
    match action {
        Action::Digit(d) => {
            let nd: String = if is_display_zero(display) || state.is_new_operand() {
                let mut t = String::new();
                push_digit_char(&mut t, d);
                proof {
                    assert(t@ =~= seq![digit_char(d as nat)]);
                }
                t
            } else {
                let mut t = display.to_owned();
                push_digit_char(&mut t, d);
                proof {
                    assert(t@ =~= display@.push(digit_char(d as nat)));
                }
                t
            };
            let mut st = *state;
            match st.set_operand(nd.as_str()) {
                Ok(_u) => Ok((nd, st)),
                Err(e) => Err(e),
            }
        },
        Action::Dot => {
            if display_contains_dot(display) {
                Ok((display.to_owned(), *state))
            } else {
                let mut t = display.to_owned();
                t.append(".");
                proof {
                    reveal_strlit(".");
                    assert(t@ =~= display@.push('.'));
                }
                Ok((t, *state))
            }
        },
        Action::Negate => {
            let len = display.unicode_len();
            if len > 0 && display.get_char(0) == '-' {
                let t = display.substring_char(1, len);
                proof {
                    assert(t@ =~= display@.skip(1));
                }
                Ok((t.to_owned(), *state))
            } else if is_display_zero(display) {
                Ok((display.to_owned(), *state))
            } else {
                let mut t = String::from_str("-");
                t.append(display);
                proof {
                    reveal_strlit("-");
                    assert(t@ =~= seq!['-'] + display@);
                }
                Ok((t, *state))
            }
        },
        Action::Percent => {
            match parse_literal(display) {
                Ok(n) => match num_percent(n) {
                    Ok(v) => Ok((render_number(&v), OperationMetadata::empty())),
                    Err(e) => Err(e),
                },
                Err(e) => Err(e),
            }
        },
        Action::Operator(op) => {
            let mut st = *state;
            if st.left_operand.is_none() {
                match parse_literal(display) {
                    Ok(n) => {
                        st.left_operand = Some(n);
                        st.set_operator(op);
                        Ok((display.to_owned(), st))
                    },
                    Err(e) => Err(e),
                }
            } else {
                st.set_operator(op);
                Ok((display.to_owned(), st))
            }
        },
        Action::Equals => {
            if !state.is_under_operation() {
                Ok((display.to_owned(), *state))
            } else {
                match state.calculate() {
                    Ok(v) => Ok((render_number(&v), OperationMetadata::empty())),
                    Err(e) => Err(e),
                }
            }
        },
        Action::Clear => Ok((initial_display(), OperationMetadata::empty())),
    }
}

} // verus!
