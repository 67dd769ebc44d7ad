//! The failures that the engine reports.
use vstd::prelude::*;

verus! {

/// Why an operation of the engine did not complete. Every failure is a value of
/// this type: no operation aborts.
#[derive(Debug, Clone, Copy, PartialEq, Eq, Structural)]
pub enum DataIntegrityError {
    /// An identity, a revision or its content is absent or was deleted.
    NotFound,
    /// Something is stored where it was looked for, but not in the expected shape.
    Corrupt,
    /// Only a part of a multi-step index change was applied.
    PartialIndexFailure,
    /// A query named nothing to search by.
    EmptyQuery,
    /// A call to another partition did not complete.
    RemoteCallFailure,
}

impl DataIntegrityError {
    /// A short description of the failure.
    pub fn message(&self) -> (r: &'static str)
        ensures
            r@ == match *self {
                DataIntegrityError::NotFound => "no entry at this address"@,
                DataIntegrityError::Corrupt => "entry is not of the expected shape"@,
                DataIntegrityError::PartialIndexFailure => "index was only partially updated"@,
                DataIntegrityError::EmptyQuery => "no results found"@,
                DataIntegrityError::RemoteCallFailure => "call to the other partition failed"@,
            },
    {
        match self {
            DataIntegrityError::NotFound => "no entry at this address",
            DataIntegrityError::Corrupt => "entry is not of the expected shape",
            DataIntegrityError::PartialIndexFailure => "index was only partially updated",
            DataIntegrityError::EmptyQuery => "no results found",
            DataIntegrityError::RemoteCallFailure => "call to the other partition failed",
        }
    }
}

} // verus!
