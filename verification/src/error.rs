//! Errors of the reasoning pipeline.

use vstd::prelude::*;

verus! {

/// Why a theory could not be prepared or reasoned over.
#[derive(Debug)]
pub enum SpindleError {
    /// The theory breaks a validation rule.
    Validation {
        /// What was wrong.
        message: String,
    },
    /// The theory holds variables, and instantiating them is not offered here.
    Grounding {
        /// What was wrong.
        message: String,
    },
}

/// The message of a validation error.
pub open spec fn validation_message(e: SpindleError) -> Option<Seq<char>> {
    match e {
        SpindleError::Validation { message } => Some(message@),
        _ => None,
    }
}

impl SpindleError {
    /// Whether this is a validation error.
    pub fn is_validation(&self) -> (r: bool)
        ensures
            r == (self is Validation),
    {
        match self {
            SpindleError::Validation { .. } => true,
            _ => false,
        }
    }
}

} // verus!
