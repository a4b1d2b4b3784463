use vstd::prelude::*;

verus! {

/// Errors of the storage engine.
#[derive(Debug, Clone, PartialEq, Eq)]
pub enum Error {
    /// The underlying key-value store failed.
    DBError(String),
    /// A key segment is malformed.
    KeyError(String),
    /// A required key is missing.
    UnknownKey { key: String },
    /// A stored value could not be decoded.
    CodingError(String),
    /// Essential data is missing.
    Temporary { error: String },
}

/// Results of the storage engine.
pub type Result<T> = core::result::Result<T, Error>;

} // verus!
