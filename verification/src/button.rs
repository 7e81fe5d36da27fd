//! The calculator's keypad, seen from the core: the tag the interface layer
//! puts on its button widgets, and the reading of a button's label as an
//! [`Action`].

use vstd::prelude::*;
use vstd::string::StrSliceExecFns;
use crate::engine::{action_wf, Action};
use crate::literal::{digit_val, is_digit_char};
use crate::operation::CalcOperator;

verus! {

/// Marker for a calculator button widget; the interface layer attaches it to
/// each key so its event queries reach only the keypad.
#[derive(Clone, Copy, Debug, PartialEq, Eq, Structural)]
pub struct CalcButton;

/// The action each button label stands for: the ten digits, `.`, the four
/// operators, `=`, `C` (clear), `%` and `+/-` (sign toggle).  An unknown
/// label maps to nothing.
pub open spec fn spec_action_of_label(s: Seq<char>) -> Option<Action> {
    if s.len() == 1 && is_digit_char(s[0]) {
        Some(Action::Digit(digit_val(s[0]) as u8))
    } else if s == seq!['.'] {
        Some(Action::Dot)
    } else if s == seq!['+', '/', '-'] {
        Some(Action::Negate)
    } else if s == seq!['%'] {
        Some(Action::Percent)
    } else if s == seq!['+'] {
        Some(Action::Operator(CalcOperator::Add))
    } else if s == seq!['-'] {
        Some(Action::Operator(CalcOperator::Sub))
    } else if s == seq!['*'] {
        Some(Action::Operator(CalcOperator::Mul))
    } else if s == seq!['/'] {
        Some(Action::Operator(CalcOperator::Div))
    } else if s == seq!['='] {
        Some(Action::Equals)
    } else if s == seq!['C'] {
        Some(Action::Clear)
    } else {
        None
    }
}

/// Read a button label as the action it stands for.
pub fn action_of_label(s: &str) -> (r: Option<Action>)
    ensures
        r == spec_action_of_label(s@),
        r matches Some(a) ==> action_wf(a),
{
    let len = s.unicode_len();
    if len == 1 {
        let c = s.get_char(0);
        proof {
            assert(s@ =~= seq![c]);
        }
        let u = c as u32;
        if 48 <= u && u <= 57 {
            Some(Action::Digit((u - 48) as u8))
        } else if c == '.' {
            Some(Action::Dot)
        } else if c == '%' {
            Some(Action::Percent)
        } else if c == '+' {
            Some(Action::Operator(CalcOperator::Add))
        } else if c == '-' {
            Some(Action::Operator(CalcOperator::Sub))
        } else if c == '*' {
            Some(Action::Operator(CalcOperator::Mul))
        } else if c == '/' {
            Some(Action::Operator(CalcOperator::Div))
        } else if c == '=' {
            Some(Action::Equals)
        } else if c == 'C' {
            Some(Action::Clear)
        } else {
            None
        }
    } else if len == 3 {
        if s.get_char(0) == '+' && s.get_char(1) == '/' && s.get_char(2) == '-' {
            proof {
                assert(s@ =~= seq!['+', '/', '-']);
            }
            Some(Action::Negate)
        } else {
            proof {
                assert(s@ != seq!['+', '/', '-']);
            }
            None
        }
    } else {
        None
    }
}

} // verus!
