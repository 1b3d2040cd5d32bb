//! The error of the conversions.

use vstd::prelude::*;

verus! {

/// Why a conversion gave no result.
#[derive(Clone, Copy, Debug, PartialEq, Eq, Structural)]
pub enum CaseError {
    /// The input string holds no character at all.
    EmptyInput,
}

impl CaseError {
    /// A sentence for the error, for messages.
    pub fn message(&self) -> (text: &'static str)
        ensures
            text@ == "input string should not be empty"@,
    {
        match self {
            CaseError::EmptyInput => "input string should not be empty",
        }
    }
}

} // verus!
