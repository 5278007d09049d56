use vstd::prelude::*;

verus! {

/// Errors reported by the file store.
///
/// Failures of outside collaborators (the database, the transport, a
/// serializer, the local disk) arrive here as their message text.
#[derive(Debug, Clone, PartialEq, Eq)]
pub enum XFilesError {
    Database(String),
    Http(String),
    Serialization(String),
    Io(String),
    InvalidEncoding(String),
    CommitNotFound(String),
    FileNotFound(String),
    AlreadyExists(String),
    InvalidPath(String),
    RateLimitExceeded,
    TwitterApi(String),
    ContentTooLarge(usize),
    HashMismatch { expected: String, actual: String },
    MergeConflict,
    Other(String),
}

/// Result type of the file store's operations.
pub type Result<T> = core::result::Result<T, XFilesError>;

} // verus!
