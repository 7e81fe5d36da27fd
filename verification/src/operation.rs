//! The operation state: pending operands, pending operator, and evaluation.

use vstd::prelude::*;
use vstd::string::StringExecFns;
use crate::literal::{parse_literal, spec_parse};
use crate::number::{num_eval, spec_eval, Number};

verus! {

/// The closed set of binary operators.
#[derive(Clone, Copy, Debug, PartialEq, Eq, Structural)]
pub enum CalcOperator {
    Add,
    Sub,
    Mul,
    Div,
}

/// The character shown for each operator.
pub open spec fn spec_symbol(op: CalcOperator) -> Seq<char> {
    match op {
        CalcOperator::Add => seq!['+'],
        CalcOperator::Sub => seq!['-'],
        CalcOperator::Mul => seq!['*'],
        CalcOperator::Div => seq!['/'],
    }
}

impl CalcOperator {
    /// The label a user interface puts on the operator's key.
    pub fn symbol(&self) -> (r: String)
        ensures
            r@ == spec_symbol(*self),
    {
        match self {
            CalcOperator::Add => {
                let r = String::from_str("+");
                proof {
                    reveal_strlit("+");
                    assert(r@ =~= spec_symbol(*self));
                }
                r
            },
            CalcOperator::Sub => {
                let r = String::from_str("-");
                proof {
                    reveal_strlit("-");
                    assert(r@ =~= spec_symbol(*self));
                }
                r
            },
            CalcOperator::Mul => {
                let r = String::from_str("*");
                proof {
                    reveal_strlit("*");
                    assert(r@ =~= spec_symbol(*self));
                }
                r
            },
            CalcOperator::Div => {
                let r = String::from_str("/");
                proof {
                    reveal_strlit("/");
                    assert(r@ =~= spec_symbol(*self));
                }
                r
            },
        }
    }
}

/// Everything that can go wrong while an action is applied.  Errors are
/// returned, never panicked, and leave the caller's display and state as
/// they were.
#[derive(Clone, Copy, Debug, PartialEq, Eq, Structural)]
pub enum CalcError {
    /// The display buffer is not a decimal literal (optional sign, digits,
    /// at most one point, at least one digit).
    InvalidNumericLiteral,
    /// Evaluation was attempted with `left` or `right` unset.
    MissingOperand,
    /// Evaluation was attempted with no pending operator.
    MissingOperator,
    /// The divisor is zero; division reports it instead of producing a value.
    DivisionByZero,
    /// A value does not fit the exact decimal representation.
    Overflow,
}

/// The ongoing operation: at most one pending left operand, right operand
/// and operator.  A right operand is only ever held while an operator is
/// pending.
#[derive(Clone, Copy, Debug)]
pub struct OperationMetadata {
    pub left_operand: Option<Number>,
    pub right_operand: Option<Number>,
    pub operator: Option<CalcOperator>,
}

impl OperationMetadata {
    /// Both operand slots hold well-formed numbers, and a right operand
    /// implies a pending operator.
    pub open spec fn wf(self) -> bool {
        &&& (self.left_operand matches Some(n) ==> n.wf())
        &&& (self.right_operand matches Some(n) ==> n.wf())
        &&& (self.right_operand is Some ==> self.operator is Some)
    }

    /// The empty state: nothing pending.
    pub open spec fn spec_empty() -> OperationMetadata {
        OperationMetadata { left_operand: None, right_operand: None, operator: None }
    }

    /// True while an operator is pending.
    pub open spec fn spec_is_under_operation(self) -> bool {
        self.operator is Some
    }

    /// True while the operand slot digits currently feed is still unset.
    pub open spec fn spec_is_new_operand(self) -> bool {
        if self.operator is Some {
            self.right_operand is None
        } else {
            self.left_operand is None
        }
    }

    pub fn empty() -> (r: OperationMetadata)
        ensures
            r == OperationMetadata::spec_empty(),
    {
        OperationMetadata { left_operand: None, right_operand: None, operator: None }
    }

    /// Store `operator`, replacing any pending one; the operands stay.
    pub fn set_operator(&mut self, operator: CalcOperator)
        ensures
            *final(self) == (OperationMetadata { operator: Some(operator), ..*old(self) }),
    {
        self.operator = Some(operator);
    }

    /// The pending operator, if any (the user interface highlights its key).
    pub fn operator(&self) -> (r: Option<CalcOperator>)
        ensures
            r == self.operator,
    {
        self.operator
    }

    /// True while an operator is pending.
    pub fn is_under_operation(&self) -> (r: bool)
        ensures
            r == self.spec_is_under_operation(),
    {
        self.operator.is_some()
    }

    /// True while the operand slot digits currently feed is still unset.
    pub fn is_new_operand(&self) -> (r: bool)
        ensures
            r == self.spec_is_new_operand(),
    {
        if self.is_under_operation() {
            self.right_operand.is_none()
        } else {
            self.left_operand.is_none()
        }
    }

    /// Where a parse of `s` succeeds, the state with the parsed value stored
    /// in the slot digits currently feed: `right` under a pending operator,
    /// `left` otherwise.
    pub open spec fn spec_set_operand(self, s: Seq<char>) -> Result<OperationMetadata, CalcError> {
        match spec_parse(s) {
            Ok(n) => Ok(
                if self.spec_is_under_operation() {
                    OperationMetadata { right_operand: Some(n), ..self }
                } else {
                    OperationMetadata { left_operand: Some(n), ..self }
                },
            ),
            Err(e) => Err(e),
        }
    }

    /// Parse the display buffer `operand` and store its value in the slot
    /// digits currently feed; on a parse failure the state is unchanged.
    pub fn set_operand(&mut self, operand: &str) -> (r: Result<(), CalcError>)
        requires
            old(self).wf(),
        ensures
            final(self).wf(),
            match old(self).spec_set_operand(operand@) {
                Ok(st) => r matches Ok(u) && *final(self) == st,
                Err(e) => r == Err::<(), CalcError>(e) && *final(self) == *old(self),
            },
    {
        match parse_literal(operand) {
            Ok(n) => {
                if self.is_under_operation() {
                    self.right_operand = Some(n);
                } else {
                    self.left_operand = Some(n);
                }
                Ok(())
            },
            Err(e) => Err(e),
        }
    }

    /// What evaluating the pending operation yields: `left operator right`,
    /// or the error naming what is missing.
    pub open spec fn spec_calculate(self) -> Result<Number, CalcError> {
        if self.left_operand is None {
            Err(CalcError::MissingOperand)
        } else if self.right_operand is None {
            Err(CalcError::MissingOperand)
        } else if self.operator is None {
            Err(CalcError::MissingOperator)
        } else {
            spec_eval(self.operator->0, self.left_operand->0, self.right_operand->0)
        }
    }

    /// Evaluate `left operator right`.  Both operands and the operator must
    /// be present; a missing one is reported, never assumed.
    pub fn calculate(&self) -> (r: Result<Number, CalcError>)
        requires
            self.wf(),
        ensures
            r == self.spec_calculate(),
            r matches Ok(n) ==> n.wf(),
    {
        let l = match self.left_operand {
            Some(l) => l,
            None => {
                return Err(CalcError::MissingOperand);
            },
        };
        let rt = match self.right_operand {
            Some(rt) => rt,
            None => {
                return Err(CalcError::MissingOperand);
            },
        };
        let op = match self.operator {
            Some(op) => op,
            None => {
                return Err(CalcError::MissingOperator);
            },
        };
        num_eval(op, l, rt)
    }

    /// Clear all three fields: the only way back to the empty state.
    pub fn reset(&mut self)
        ensures
            *final(self) == OperationMetadata::spec_empty(),
    {
        self.left_operand = None;
        self.right_operand = None;
        self.operator = None;
    }
}

impl Default for OperationMetadata {
    /// A session starts with nothing pending.
    fn default() -> (r: Self)
        ensures
            r == OperationMetadata::spec_empty(),
    {
        OperationMetadata { left_operand: None, right_operand: None, operator: None }
    }
}

} // verus!
