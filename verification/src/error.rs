//! The ways in which a run can fail.

use vstd::prelude::*;
use crate::token::LexicalError;

verus! {

/// Why the execution engine could not carry out an instruction. Each failure carries the
/// name or the literal that caused it.
#[derive(Debug, PartialEq, Eq)]
pub enum RuntimeError {
    /// An argument of a print statement names no variable of the current environment.
    UndefinedVariable(String),
    /// The literal of a print statement, as written, holds a number of `%` markers other
    /// than the number of arguments that follow it.
    FormatArityMismatch(String),
    /// A call names no function of the function table.
    FunctionNotFound(String),
    /// A call names a function that is being executed.
    RecursiveCallDetected(String),
}

/// Why a run stopped before the end of its input.
#[derive(Debug, PartialEq, Eq)]
pub enum Error {
    Lexical(LexicalError),
    Runtime(RuntimeError),
}

/// The mathematical model of an `Error`.
pub enum SpecError {
    Lexical(LexicalError),
    UndefinedVariable(Seq<char>),
    FormatArityMismatch(Seq<char>),
    FunctionNotFound(Seq<char>),
    RecursiveCallDetected(Seq<char>),
}

impl View for RuntimeError {
    type V = SpecError;

    open spec fn view(&self) -> SpecError {
        match self {
            RuntimeError::UndefinedVariable(name) => SpecError::UndefinedVariable(name@),
            RuntimeError::FormatArityMismatch(literal) => SpecError::FormatArityMismatch(literal@),
            RuntimeError::FunctionNotFound(name) => SpecError::FunctionNotFound(name@),
            RuntimeError::RecursiveCallDetected(name) => SpecError::RecursiveCallDetected(name@),
        }
    }
}

impl View for Error {
    type V = SpecError;

    open spec fn view(&self) -> SpecError {
        match self {
            Error::Lexical(e) => SpecError::Lexical(*e),
            Error::Runtime(e) => e@,
        }
    }
}

} // verus!
