//! The one error type of the engine.
use vstd::prelude::*;

verus! {

/// What went wrong, by kind, with a note for the reader.
#[derive(Debug, Clone)]
pub enum CrustyError {
    /// A failure that fits none of the other kinds.
    CrustyError(String),
    /// Reading or writing a page failed.
    IOError(String),
    /// An identifier names a page or a slot that holds nothing.
    ValidationError(String),
    /// A query operator could not compute: arithmetic on fields that
    /// cannot be added, or a number too large to hold.
    ExecutionError(String),
}

impl CrustyError {
    /// The note that the error carries.
    pub fn message(&self) -> (text: &String)
        ensures
            text == match self {
                CrustyError::CrustyError(s) => s,
                CrustyError::IOError(s) => s,
                CrustyError::ValidationError(s) => s,
                CrustyError::ExecutionError(s) => s,
            },
    {
        match self {
            CrustyError::CrustyError(s) => s,
            CrustyError::IOError(s) => s,
            CrustyError::ValidationError(s) => s,
            CrustyError::ExecutionError(s) => s,
        }
    }
}

} // verus!
