//! Error type for arca operations.
use vstd::prelude::*;

use crate::hash::{HashParseError, StoreEntryHash};

verus! {

/// Everything that an arca operation can fail with.
///
/// Paths are carried as text; an I/O failure carries the path it concerns
/// and the message of the underlying error.
#[derive(Debug)]
pub enum Error {
    /// An I/O operation on `path` failed.
    Io { path: String, message: String },
    /// No store entry has this hash.
    UnknownHash(StoreEntryHash),
    /// The store root does not look like an initialised store.
    UninitialisedRoot(String),
    /// Bundling a closure into the store failed.
    Bundle { reason: String },
    /// The index database is unusable.
    Index(String),
    /// A text was not the hexadecimal form of a hash.
    HashParse(HashParseError),
    /// An in-memory store holds nothing under this content hash.
    NotFound([u8; 32]),
}

impl From<HashParseError> for Error {
    fn from(e: HashParseError) -> (r: Error) {
        Error::HashParse(e)
    }
}

impl vstd::std_specs::convert::FromSpecImpl<HashParseError> for Error {
    open spec fn obeys_from_spec() -> bool {
        true
    }

    open spec fn from_spec(v: HashParseError) -> Error {
        Error::HashParse(v)
    }
}

} // verus!
