//! The failures that tokenizing, parsing and evaluation report.

use vstd::prelude::*;

use crate::number::{Number, Ratio};

verus! {

/// A reported failure. Evaluation stops at the first one.
///
/// Numbers are exact fractions with 64-bit parts, so arithmetic reports
/// `DivisionByZero` and `ArithmeticOverflow` where floating point would
/// give an infinity or lose precision. Evaluation has a depth budget, so
/// runaway nesting reports `DepthLimitExceeded`. `exit` and `read` report
/// `Exit` and `AwaitingInput` to the caller, which ends the process or
/// supplies a line.
#[derive(Debug, PartialEq, Eq, Clone)]
pub enum Error {
    /// The token stream ended before any expression was read.
    UnexpectedEndOfTokenStream,
    /// A closing parenthesis came with no list open.
    UnexpectedClosingParenthesis,
    /// The token stream ended while a list was still open.
    MissingClosingParenthesis,
    /// Source text held a number that could not be read.
    UnreadableTokens,
    /// The first element of a list is not an identifier; carries its text.
    NotAnIdentifier(String),
    /// An empty list was evaluated.
    EmptyListExpression,
    /// A value of the wrong kind, or one that cannot be coerced.
    UnexpectedType,
    /// A form or function got the wrong number of arguments.
    InvalidNumberOfArguments,
    /// The operator names nothing that is bound.
    FunctionNotDefined(String),
    /// An argument names nothing that is bound.
    VariableNotDefined(String),
    /// An argument names a builtin function.
    AttemptedToUseFunctionAsVariable(String),
    /// `nth` was given an index that is not a position of the list.
    IndexOutOfBounds(Number),
    /// Division or remainder by zero.
    DivisionByZero,
    /// A number grew past what a reduced 64-bit fraction holds.
    ArithmeticOverflow,
    /// Evaluation nested deeper than the interpreter allows.
    DepthLimitExceeded,
    /// `read` was called with no pending input line.
    AwaitingInput,
    /// `exit` was called with this status code.
    Exit(i32),
}

/// The model of an [`Error`]: text as character sequences.
pub enum ErrorV {
    UnexpectedEndOfTokenStream,
    UnexpectedClosingParenthesis,
    MissingClosingParenthesis,
    UnreadableTokens,
    NotAnIdentifier(Seq<char>),
    EmptyListExpression,
    UnexpectedType,
    InvalidNumberOfArguments,
    FunctionNotDefined(Seq<char>),
    VariableNotDefined(Seq<char>),
    AttemptedToUseFunctionAsVariable(Seq<char>),
    IndexOutOfBounds(Ratio),
    DivisionByZero,
    ArithmeticOverflow,
    DepthLimitExceeded,
    AwaitingInput,
    Exit(i32),
}

impl View for Error {
    type V = ErrorV;

    open spec fn view(&self) -> ErrorV {
        match self {
            Error::UnexpectedEndOfTokenStream => ErrorV::UnexpectedEndOfTokenStream,
            Error::UnexpectedClosingParenthesis => ErrorV::UnexpectedClosingParenthesis,
            Error::MissingClosingParenthesis => ErrorV::MissingClosingParenthesis,
            Error::UnreadableTokens => ErrorV::UnreadableTokens,
            Error::NotAnIdentifier(s) => ErrorV::NotAnIdentifier(s@),
            Error::EmptyListExpression => ErrorV::EmptyListExpression,
            Error::UnexpectedType => ErrorV::UnexpectedType,
            Error::InvalidNumberOfArguments => ErrorV::InvalidNumberOfArguments,
            Error::FunctionNotDefined(s) => ErrorV::FunctionNotDefined(s@),
            Error::VariableNotDefined(s) => ErrorV::VariableNotDefined(s@),
            Error::AttemptedToUseFunctionAsVariable(s) => ErrorV::AttemptedToUseFunctionAsVariable(
                s@,
            ),
            Error::IndexOutOfBounds(n) => ErrorV::IndexOutOfBounds(n@),
            Error::DivisionByZero => ErrorV::DivisionByZero,
            Error::ArithmeticOverflow => ErrorV::ArithmeticOverflow,
            Error::DepthLimitExceeded => ErrorV::DepthLimitExceeded,
            Error::AwaitingInput => ErrorV::AwaitingInput,
            Error::Exit(c) => ErrorV::Exit(*c),
        }
    }
}

} // verus!
