//! The error kinds that the classifier's operations report.

use vstd::prelude::*;

verus! {

/// Everything that can go wrong inside the classifier: a sample too short for
/// the feature mapping (or a query against an empty network), a rejected set
/// of hyperparameters (with the reason), a file-level failure, and a persisted
/// blob that cannot be decoded.
#[derive(Debug)]
pub enum WisardError {
    WisardOutOfBounds,
    WisardValidationFailed(String),
    WisardIOError,
    WisardSerializationError,
}

impl WisardError {
    /// A short human-readable account of the error.
    pub fn message(&self) -> (r: String)
        ensures
            self matches WisardError::WisardValidationFailed(m) ==> r@ == m@,
    {
        match self {
            WisardError::WisardOutOfBounds => "index out of bounds".to_owned(),
            WisardError::WisardValidationFailed(m) => m.clone(),
            WisardError::WisardIOError => "io error".to_owned(),
            WisardError::WisardSerializationError => "corrupt model stream".to_owned(),
        }
    }
}

} // verus!
