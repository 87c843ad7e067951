//! The error taxonomy of the store.

use vstd::prelude::*;
use crate::keys::Key;

verus! {

/// Declares sled::Error, the engine's failure type, as an opaque outside
/// type; it is only carried through, never inspected.
#[verifier::external_type_specification]
#[verifier::external_body]
pub struct ExSledError(sled::Error);

/// Everything an operation of the store can fail with.
#[derive(Debug)]
pub enum StorageError {
    /// No entry at the requested key; `start_key` and `end_key` bound the
    /// logical range the key belongs to, so the caller can look for
    /// neighbouring versions.
    KeyNotFound { key: Key, start_key: Key, end_key: Key },
    /// Key bytes that do not decode to the fixed layout.
    MalformedKey,
    /// An autoincrement write raced another writer at the same timestamp;
    /// the caller may retry.
    TimestampCollision,
    /// Surfaced unchanged from the engine boundary where it supports
    /// cancellable operations.
    Timeout(std::time::Duration),
    /// Surfaced unchanged from the engine boundary.
    Canceled,
    /// An engine-level failure, surfaced to the caller unchanged.
    Other(sled::Error),
}

pub type StorageResult<T> = core::result::Result<T, StorageError>;

impl From<sled::Error> for StorageError {
    fn from(e: sled::Error) -> (r: StorageError) {
        StorageError::Other(e)
    }
}

impl vstd::std_specs::convert::FromSpecImpl<sled::Error> for StorageError {
    open spec fn obeys_from_spec() -> bool {
        true
    }

    open spec fn from_spec(e: sled::Error) -> StorageError {
        StorageError::Other(e)
    }
}

} // verus!
