//! The error type shared by the collections.
use vstd::prelude::*;

verus! {

/// What can go wrong in a storage operation.
#[derive(Clone, Copy, Debug, PartialEq, Eq, Structural)]
pub enum StorageError {
    /// Nothing is stored where a value was required, or a height has no checkpoint.
    NotFound,
    /// Key bytes do not decode: a bad length header, a wrong fixed width or invalid UTF-8.
    Decode,
    /// A unique index already holds an entry under the secondary key.
    UniqueConstraintViolation,
    /// The store or the bound arithmetic broke an assumption that correct use never breaks.
    InvariantViolation,
}

impl StorageError {
    /// A short human-readable description of the error.
    pub fn message(&self) -> (r: &'static str)
        ensures
            r@ == match self {
                StorageError::NotFound => "not found"@,
                StorageError::Decode => "invalid key encoding"@,
                StorageError::UniqueConstraintViolation => "unique constraint violated"@,
                StorageError::InvariantViolation => "storage invariant violated"@,
            },
    {
        match self {
            StorageError::NotFound => "not found",
            StorageError::Decode => "invalid key encoding",
            StorageError::UniqueConstraintViolation => "unique constraint violated",
            StorageError::InvariantViolation => "storage invariant violated",
        }
    }
}

} // verus!
