use vstd::prelude::*;

verus! {

/// What can go wrong in the store.
#[derive(Clone, Copy, PartialEq, Eq, Debug, Structural)]
pub enum Error {
    /// An empty database path or a zero maximum file size.
    InvalidOption,
    /// The key is empty.
    EmptyKey,
    /// The directory is locked by another process.
    InUse,
    /// The underlying file input or output failed.
    IO,
    /// A checksum mismatch or a malformed record.
    Corrupt,
    /// The key is absent or deleted.
    NotFound,
    /// A batch holds more entries than its options allow.
    BatchTooLarge,
    /// A merge is already running.
    Busy,
    /// A transactional write met a concurrent version.
    TxnConflict,
}

impl Error {
    /// A short description of the error.
    pub fn message(&self) -> (r: &'static str) {
        match self {
            Error::InvalidOption => "invalid option",
            Error::EmptyKey => "key is not valid",
            Error::InUse => "database directory is in use",
            Error::IO => "file input or output error",
            Error::Corrupt => "corrupt record",
            Error::NotFound => "key not found",
            Error::BatchTooLarge => "batch write exceeds its max size",
            Error::Busy => "a merge is in progress",
            Error::TxnConflict => "transaction conflict",
        }
    }
}

} // verus!
