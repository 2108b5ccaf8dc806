//! The error taxonomy of the store.

use vstd::prelude::*;

verus! {

/// Every way a store operation can fail.
#[derive(Debug, Clone, Copy, PartialEq, Eq, Structural)]
pub enum StoreError {
    /// A file read or write failed for a reason other than absence on load.
    IoError,
    /// The stored content does not parse into the expected record shape.
    DecodeError,
    /// A supplied field fails validation, e.g. a priority that is not an
    /// unsigned 8-bit integer.
    ValidationError,
    /// An update targeted a title with no matching task.
    NotFoundError,
}

impl StoreError {
    /// A short human-readable label for the error.
    pub fn message(&self) -> (r: &'static str)
        ensures
            r@ == (match self {
                StoreError::IoError => "I/O error"@,
                StoreError::DecodeError => "stored tasks could not be decoded"@,
                StoreError::ValidationError => "Invalid priority"@,
                StoreError::NotFoundError => "Task not found"@,
            }),
    {
        match self {
            StoreError::IoError => "I/O error",
            StoreError::DecodeError => "stored tasks could not be decoded",
            StoreError::ValidationError => "Invalid priority",
            StoreError::NotFoundError => "Task not found",
        }
    }
}

} // verus!
