//! Typed failures of the formula pipeline. Every failure is a recoverable
//! error: callers decide recovery.
use vstd::prelude::*;

verus! {

/// Failure of resolving an operand fragment into dice rolls.
#[derive(Clone, Copy, Debug, PartialEq, Eq, Structural)]
pub enum RollError {
    /// The dice-count part of a fragment does not parse as a positive integer.
    InvalidDiceCount,
    /// The dice-sides part of a fragment neither parses as a positive integer
    /// nor equals the percent marker.
    InvalidDiceSides,
    /// A sum of rolled values does not fit in a 32-bit integer.
    NumericOverflow,
}

/// Failure of evaluating a postfix numeric formula.
#[derive(Clone, Copy, Debug, PartialEq, Eq, Structural)]
pub enum EvalError {
    /// An operator found fewer than two values on the evaluation stack.
    MissingOperand,
    /// A division's right operand is zero.
    DivideByZero,
    /// A token neither parses as an integer nor is a known operator.
    InvalidOperator,
    /// An arithmetic result does not fit in a 32-bit integer.
    NumericOverflow,
}

/// Failure of rendering a postfix sequence as an infix string.
#[derive(Clone, Copy, Debug, PartialEq, Eq, Structural)]
pub enum RenderError {
    /// An operator found fewer than two rendered operands on the stack.
    InsufficientOperands,
    /// More than one value remained after the full scan.
    TooManyValues,
    /// No value remained after the full scan.
    NotEnoughValues,
}

impl RollError {
    /// A short text describing the error.
    pub fn describe(&self) -> (r: &'static str)
        ensures
            r@ == self.describe_spec(),
    {
        match self {
            RollError::InvalidDiceCount => "invalid dice count",
            RollError::InvalidDiceSides => "invalid dice sides",
            RollError::NumericOverflow => "numeric overflow",
        }
    }

    /// The text `describe` returns.
    pub open spec fn describe_spec(&self) -> Seq<char> {
        match self {
            RollError::InvalidDiceCount => "invalid dice count"@,
            RollError::InvalidDiceSides => "invalid dice sides"@,
            RollError::NumericOverflow => "numeric overflow"@,
        }
    }
}

} // verus!
