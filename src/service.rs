//! The request handlers: each takes one request's plain fields, runs one store
//! operation under the store's single lock, and shapes the answer.

use vstd::prelude::*;
use vstd::rwlock::{RwLock, RwLockPredicate};
use crate::error::StorageError;
use crate::family::{pairs_of, sorted_by_key};
use crate::keys::{key_ge, key_lt};
use crate::memory_storage::MemoryStorage;
use crate::proto::KvPair;

verus! {

/// Why a request was refused.
#[derive(Debug, Clone, Copy, PartialEq, Eq, Structural)]
pub enum ServiceError {
    /// A scan asked for no entries.
    ZeroLimit,
    /// A scan asked for more entries than this machine can count.
    LimitTooLarge,
    /// The store operation failed.
    Storage(StorageError),
}

/// The lock keeps the store well formed between operations.
pub struct StoreIsWellFormed;

impl RwLockPredicate<MemoryStorage> for StoreIsWellFormed {
    open spec fn inv(self, v: MemoryStorage) -> bool {
        v.wf()
    }
}

/// The store behind one lock, shared by every request; each operation holds
/// the lock exclusively from start to end, so operations never interleave.
pub struct Service {
    db: RwLock<MemoryStorage, StoreIsWellFormed>,
}

impl Default for Service {
    fn default() -> Service {
        Service { db: RwLock::new(MemoryStorage::new(), Ghost(StoreIsWellFormed)) }
    }
}

/// The number of entries a scan request for `limit` asks for.
pub fn scan_limit(limit: u64) -> (r: Result<usize, ServiceError>)
    ensures
        limit == 0 ==> r == Err::<usize, ServiceError>(ServiceError::ZeroLimit),
        limit > usize::MAX ==> r == Err::<usize, ServiceError>(ServiceError::LimitTooLarge),
        0 < limit <= usize::MAX ==> r == Ok::<usize, ServiceError>(limit as usize),
{
    if limit == 0 {
        Err(ServiceError::ZeroLimit)
    } else if limit as u128 > usize::MAX as u128 {
        Err(ServiceError::LimitTooLarge)
    } else {
        Ok(limit as usize)
    }
}

/// The scanned pairs as messages, in the same order.
fn to_messages(values: &Vec<(String, String)>) -> (r: Vec<KvPair>)
    ensures
        r@.len() == values@.len(),
        forall|i: int|
            0 <= i < r@.len() ==> (#[trigger] r@[i]).key@ == values@[i].0@ && r@[i].value@
                == values@[i].1@,
{
    let mut out: Vec<KvPair> = Vec::new();
    let mut i: usize = 0;
    while i < values.len()
        invariant
            i <= values@.len(),
            out@.len() == i,
            forall|j: int|
                0 <= j < i ==> (#[trigger] out@[j]).key@ == values@[j].0@ && out@[j].value@
                    == values@[j].1@,
        decreases values@.len() - i,
    {
        out.push(KvPair::new(values[i].0.as_str(), values[i].1.as_str()));
        i = i + 1;
    }
    out
}

impl Service {
    /// Writes `v` under `k` in family `cf`.
    pub fn put(&self, cf: &str, k: &str, v: &str) -> (r: Result<(), ServiceError>)
        ensures
            r is Ok,
    {
        let (mut db, handle) = self.db.acquire_write();
        let r = db.put(cf, k, v);
        handle.release_write(db);
        match r {
            Ok(()) => Ok(()),
            Err(e) => Err(ServiceError::Storage(e)),
        }
    }

    /// Reads the value under `k` in family `cf`.
    pub fn get(&self, cf: &str, k: &str) -> (r: Result<String, ServiceError>)
        ensures
            r matches Err(e) ==> e == ServiceError::Storage(StorageError::CFKeyNotFound) || e
                == ServiceError::Storage(StorageError::KeyNotFound),
    {
        let (db, handle) = self.db.acquire_write();
        let r = db.get(cf, k);
        handle.release_write(db);
        match r {
            Ok(v) => Ok(v),
            Err(e) => Err(ServiceError::Storage(e)),
        }
    }

    /// Removes `k` from family `cf`; the removed value is not reported.
    pub fn delete(&self, cf: &str, k: &str) -> (r: Result<(), ServiceError>)
        ensures
            r matches Err(e) ==> e == ServiceError::Storage(StorageError::CFKeyNotFound) || e
                == ServiceError::Storage(StorageError::KeyNotFound),
    {
        let (mut db, handle) = self.db.acquire_write();
        let r = db.delete(cf, k);
        handle.release_write(db);
        match r {
            Ok(_) => Ok(()),
            Err(e) => Err(ServiceError::Storage(e)),
        }
    }

    /// Scans family `cf` from `k` for up to `limit` entries; a zero or
    /// oversized `limit` is refused before the store is touched.
    pub fn scan(&self, cf: &str, k: &str, limit: u64) -> (r: Result<Vec<KvPair>, ServiceError>)
        ensures
            (r == Err::<Vec<KvPair>, ServiceError>(ServiceError::ZeroLimit)) == (limit == 0),
            (r == Err::<Vec<KvPair>, ServiceError>(ServiceError::LimitTooLarge)) == (limit
                > usize::MAX),
            r matches Err(e) ==> e == ServiceError::ZeroLimit || e == ServiceError::LimitTooLarge
                || e == ServiceError::Storage(StorageError::CFKeyNotFound) || e
                == ServiceError::Storage(StorageError::KeyNotFound),
            r matches Ok(v) ==> {
                &&& 0 < v@.len() <= limit
                &&& forall|i: int| 0 <= i < v@.len() ==> key_ge(#[trigger] v@[i].key@, k@)
                &&& forall|i: int, j: int|
                    0 <= i < j < v@.len() ==> key_lt(
                        #[trigger] v@[i].key@,
                        #[trigger] v@[j].key@,
                    )
            },
    {
        let n = match scan_limit(limit) {
            Ok(n) => n,
            Err(e) => {
                return Err(e);
            },
        };
        let (db, handle) = self.db.acquire_write();
        let r = db.scan(cf, k, n);
        handle.release_write(db);
        match r {
            Ok(values) => {
                let out = to_messages(&values);
                proof {
                    let p = pairs_of(values@);
                    assert(sorted_by_key(p));
                    assert forall|i: int| 0 <= i < out@.len() implies key_ge(
                        #[trigger] out@[i].key@,
                        k@,
                    ) by {
                        assert(out@[i].key@ == p[i].0);
                    }
                    assert forall|i: int, j: int| 0 <= i < j < out@.len() implies key_lt(
                        #[trigger] out@[i].key@,
                        #[trigger] out@[j].key@,
                    ) by {
                        assert(out@[i].key@ == p[i].0 && out@[j].key@ == p[j].0);
                    }
                }
                Ok(out)
            },
            Err(e) => Err(ServiceError::Storage(e)),
        }
    }
}

} // verus!
