//! Why a comparison, or the reading of its input, was given up.

use vstd::prelude::*;

verus! {

/// The ways in which the library fails.
#[derive(Debug, Clone, Copy, PartialEq, Eq, Structural)]
pub enum DiffError {
    /// The two documents are not both objects nor both arrays.
    TypeMismatch,
    /// A value under the key `environment` is not an array of objects that
    /// each have a string `name` and a `value`.
    NormalizationFailure,
    /// The input does not hold two quoted fragments around ` => `.
    InvalidInput,
    /// A fragment is not a JSON document.
    Syntax,
}

impl DiffError {
    /// A short description of the failure.
    pub fn message(&self) -> (text: &'static str)
        ensures
            text@ == match *self {
                DiffError::TypeMismatch => "Different types cannot be compared"@,
                DiffError::NormalizationFailure => "Invalid input"@,
                DiffError::InvalidInput => "Invalid input"@,
                DiffError::Syntax => "Invalid document"@,
            },
    {
        match self {
            DiffError::TypeMismatch => "Different types cannot be compared",
            DiffError::NormalizationFailure => "Invalid input",
            DiffError::InvalidInput => "Invalid input",
            DiffError::Syntax => "Invalid document",
        }
    }
}

} // verus!
