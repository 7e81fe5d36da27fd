//! Computational core of a four-function calculator.
//!
//! The library turns discrete user actions (digits, operators, sign and
//! percent transforms, clear, equals) into a running display string and an
//! operation state holding at most one pending left operand, right operand
//! and operator.  Arithmetic is exact over decimal fractions
//! (sign * mantissa / 10^scale); capacity limits and division by zero are
//! reported as explicit errors, never as silent wrap-around or panic.
//!
//! The user interface around it (windowing, widgets, event capture) is a
//! separate, unverified shell: it maps gestures to [`engine::Action`] values,
//! feeds them to [`engine::apply`], and renders the returned display.

pub mod button;
pub mod engine;
pub mod laws;
pub mod literal;
pub mod number;
pub mod operation;
