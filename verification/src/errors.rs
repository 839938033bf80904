use vstd::prelude::*;

use crate::operation::{Operation, OperationView};
use crate::variable::Variable;

verus! {

/// Why the builder rejected an instruction or a program.
#[derive(Debug, PartialEq)]
pub enum ProgramValidationError {
    InvalidNumberOfInputs { is: usize, expected: usize },
    InvalidVariableType { is: Variable, expected: Variable },
    VariableNotDefined(usize),
    RoleNotFound(usize),
    ConnectionNotFound(usize),
    InvalidBlockEnd { begin: Operation, end: Operation },
    UnfinishedBlock(Operation),
}

/// A [`ProgramValidationError`] as a mathematical value.
pub enum ValidationErrorView {
    InvalidNumberOfInputs { is: usize, expected: usize },
    InvalidVariableType { is: Variable, expected: Variable },
    VariableNotDefined(usize),
    RoleNotFound(usize),
    ConnectionNotFound(usize),
    InvalidBlockEnd { begin: OperationView, end: OperationView },
    UnfinishedBlock(OperationView),
}

impl View for ProgramValidationError {
    type V = ValidationErrorView;

    open spec fn view(&self) -> ValidationErrorView {
        match self {
            ProgramValidationError::InvalidNumberOfInputs { is, expected } => ValidationErrorView::InvalidNumberOfInputs {
                is: *is,
                expected: *expected,
            },
            ProgramValidationError::InvalidVariableType { is, expected } => ValidationErrorView::InvalidVariableType {
                is: *is,
                expected: *expected,
            },
            ProgramValidationError::VariableNotDefined(i) => ValidationErrorView::VariableNotDefined(*i),
            ProgramValidationError::RoleNotFound(i) => ValidationErrorView::RoleNotFound(*i),
            ProgramValidationError::ConnectionNotFound(i) => ValidationErrorView::ConnectionNotFound(*i),
            ProgramValidationError::InvalidBlockEnd { begin, end } => ValidationErrorView::InvalidBlockEnd {
                begin: begin@,
                end: end@,
            },
            ProgramValidationError::UnfinishedBlock(op) => ValidationErrorView::UnfinishedBlock(op@),
        }
    }
}

} // verus!
