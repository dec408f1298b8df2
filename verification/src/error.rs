//! The error taxonomy of the operators.

use vstd::prelude::*;

verus! {

/// Errors an operator can surface. Every error ends the operator's output
/// stream at its first occurrence.
#[derive(Clone, Copy, PartialEq, Eq, Structural, Debug)]
pub enum ExecError {
    /// The memory pool denied a reservation request.
    ResourcesExhausted,
    /// The declared expressions do not match the actual batch.
    InvalidInput,
    /// A type not supported by the row encoder.
    EncoderError,
    /// An invariant of the engine itself was violated.
    Internal,
    /// An arithmetic overflow while accumulating.
    Overflow,
}

impl ExecError {
    /// A short description of the error.
    pub fn message(&self) -> (r: &'static str) {
        match self {
            ExecError::ResourcesExhausted => "resources exhausted",
            ExecError::InvalidInput => "invalid input",
            ExecError::EncoderError => "encoder error",
            ExecError::Internal => "internal error",
            ExecError::Overflow => "arithmetic overflow",
        }
    }
}

} // verus!
