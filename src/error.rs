//! The ways a store operation can fail.

use vstd::prelude::*;

verus! {

/// Why a store operation failed.
#[derive(Debug, Clone, Copy, PartialEq, Eq, Structural)]
pub enum StorageError {
    /// The store's lock could not be taken.
    MutexLock,
    /// The column family was never written to.
    CFKeyNotFound,
    /// The column family exists but holds no matching key.
    KeyNotFound,
    /// A write could not be completed.
    InsertionFailed,
}

impl StorageError {
    /// A human-readable description of the failure.
    pub fn message(&self) -> (r: &'static str)
        ensures
            r@ == match *self {
                StorageError::MutexLock => "Failed to acquire mutex lock"@,
                StorageError::CFKeyNotFound => "Column family not found"@,
                StorageError::KeyNotFound => "Key not found in the specified column family"@,
                StorageError::InsertionFailed => "Failed to insert value"@,
            },
    {
        match self {
            StorageError::MutexLock => "Failed to acquire mutex lock",
            StorageError::CFKeyNotFound => "Column family not found",
            StorageError::KeyNotFound => "Key not found in the specified column family",
            StorageError::InsertionFailed => "Failed to insert value",
        }
    }
}

} // verus!
