//! Domain errors of the shell core. Every store and evaluator operation
//! reports failure through `ExecError`; no operation panics on malformed
//! user input.

use vstd::prelude::*;

verus! {

/// Mathematical image of an `ExecError`: the same variants with string
/// payloads abstracted to character sequences. Contracts speak of this view.
pub enum ErrView {
    /// Identifier fails syntax validation; carries the offending name.
    InvalidName(Seq<char>),
    /// Write attempted against a readonly-flagged binding; carries the name.
    ReadOnlyViolation(Seq<char>),
    /// Scope-local operation invoked outside any function layer; carries the
    /// builtin's name.
    NotInFunction(Seq<char>),
    /// Positional-parameter pop on an empty stack.
    StackUnderflow,
    /// Division or modulo by zero; carries the rendered expression text and
    /// the rendered divisor.
    DivZero(Seq<char>, Seq<char>),
    /// Negative exponent supplied to `**`; carries the exponent.
    Exponent(int),
    /// Radix outside the representable range, or a digit value not
    /// representable in the stated radix; carries the rendered radix.
    InvalidBase(Seq<char>),
    /// Illegal character in a numeral; carries the text and the character.
    InvalidArithmeticOperator(Seq<char>, Seq<char>),
    /// Compound-assignment operator not recognized; carries the operator.
    OperandExpected(Seq<char>),
    /// Upstream syntax failure handed through unchanged.
    ParseError,
}

/// Domain error of the shell core, propagated as an explicit result.
#[derive(Debug)]
pub enum ExecError {
    InvalidName(String),
    ReadOnlyViolation(String),
    NotInFunction(String),
    StackUnderflow,
    DivZero(String, String),
    Exponent(i128),
    InvalidBase(String),
    InvalidArithmeticOperator(String, String),
    OperandExpected(String),
    ParseError,
}

impl View for ExecError {
    type V = ErrView;

    open spec fn view(&self) -> ErrView {
        match self {
            ExecError::InvalidName(n) => ErrView::InvalidName(n@),
            ExecError::ReadOnlyViolation(n) => ErrView::ReadOnlyViolation(n@),
            ExecError::NotInFunction(n) => ErrView::NotInFunction(n@),
            ExecError::StackUnderflow => ErrView::StackUnderflow,
            ExecError::DivZero(e, d) => ErrView::DivZero(e@, d@),
            ExecError::Exponent(v) => ErrView::Exponent(*v as int),
            ExecError::InvalidBase(b) => ErrView::InvalidBase(b@),
            ExecError::InvalidArithmeticOperator(t, c) => (
                ErrView::InvalidArithmeticOperator(t@, c@)
            ),
            ExecError::OperandExpected(op) => ErrView::OperandExpected(op@),
            ExecError::ParseError => ErrView::ParseError,
        }
    }
}

} // verus!
