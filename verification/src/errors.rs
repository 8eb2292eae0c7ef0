//! The errors that the store reports.

use vstd::prelude::*;

verus! {

/// What went wrong in an operation of the store.
#[derive(Debug, Clone, Copy, PartialEq, Eq, Structural)]
pub enum McError {
    /// A stored value could not be decoded.
    Codec,
    /// The key/value engine reported a failure. What the engine said of it
    /// is not kept.
    Engine,
    /// A label whose key holds the separator, or bytes without a separator.
    InvalidLabel,
    /// A bucket name that holds the reserved `::`.
    InvalidBucketName,
    /// Bytes of an index key that are not UTF-8.
    Format,
}

impl McError {
    /// A short description of the error.
    pub fn message(&self) -> (text: String)
        ensures
            text@ == (match *self {
                McError::Codec => "a stored value could not be decoded"@,
                McError::Engine => "the storage engine failed"@,
                McError::InvalidLabel => "invalid label"@,
                McError::InvalidBucketName => "invalid bucket name"@,
                McError::Format => "index key is not UTF-8"@,
            }),
    {
        match self {
            McError::Codec => "a stored value could not be decoded".to_string(),
            McError::Engine => "the storage engine failed".to_string(),
            McError::InvalidLabel => "invalid label".to_string(),
            McError::InvalidBucketName => "invalid bucket name".to_string(),
            McError::Format => "index key is not UTF-8".to_string(),
        }
    }
}

} // verus!
