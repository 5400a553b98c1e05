//! A store whose range scans take any count, zero included.

use vstd::prelude::*;
use crate::family::is_scan_of;
use crate::family::pairs_of;
use crate::memory_storage::{get_result, scan_error, store_delete, store_put, MemoryStorage, StoreMap};

pub use crate::error::StorageError;

verus! {

/// An in-memory store of column families; a scan with a zero count finds nothing.
#[derive(Debug)]
pub struct Storage {
    db: MemoryStorage,
}

impl View for Storage {
    type V = StoreMap;

    closed spec fn view(&self) -> StoreMap {
        self.db@
    }
}

impl Default for Storage {
    fn default() -> (s: Storage)
        ensures
            s.wf(),
            s@ == StoreMap::empty(),
    {
        Storage { db: MemoryStorage::new() }
    }
}

impl Storage {
    /// The store inside is well formed.
    pub closed spec fn wf(&self) -> bool {
        self.db.wf()
    }

    /// A well-formed store has finitely many families, each with finitely many keys.
    pub proof fn lemma_finite(&self)
        requires
            self.wf(),
        ensures
            self@.dom().finite(),
            forall|cf: Seq<char>| #[trigger] self@.contains_key(cf) ==> self@[cf].dom().finite(),
    {
        self.db.lemma_finite();
    }

    /// Stores `v` under `k` in family `cf`, creating the family if it is absent
    /// and replacing any value that `k` held.
    pub fn put(&mut self, column_family: &str, k: &str, v: &str) -> (r: Result<(), StorageError>)
        requires
            old(self).wf(),
        ensures
            final(self).wf(),
            r is Ok,
            final(self)@ == store_put(old(self)@, column_family@, k@, v@),
    {
        self.db.put(column_family, k, v)
    }

    /// The value stored under `k` in family `cf`.
    pub fn get(&self, column_family: &str, k: &str) -> (r: Result<String, StorageError>)
        requires
            self.wf(),
        ensures
            get_result(self@, column_family@, k@) == match r {
                Ok(v) => Ok(v@),
                Err(e) => Err(e),
            },
    {
        self.db.get(column_family, k)
    }

    /// Removes `k` from family `cf`, handing back the value it held.
    pub fn delete(&mut self, column_family: &str, k: &str) -> (r: Result<String, StorageError>)
        requires
            old(self).wf(),
        ensures
            final(self).wf(),
            get_result(old(self)@, column_family@, k@) == match r {
                Ok(v) => Ok(v@),
                Err(e) => Err(e),
            },
            final(self)@ == store_delete(old(self)@, column_family@, k@),
    {
        self.db.delete(column_family, k)
    }

    /// The entries of family `cf` whose keys come at or after `start_k`, in
    /// ascending key order, at most `limit` of them; an empty result, which a
    /// zero `limit` always gives, is an error.
    pub fn scan(&self, column_family: &str, start_k: &str, limit: usize) -> (r: Result<
        Vec<(String, String)>,
        StorageError,
    >)
        requires
            self.wf(),
        ensures
            match r {
                Ok(v) => scan_error(self@, column_family@, start_k@, limit as nat) is None
                    && is_scan_of(self@[column_family@], start_k@, limit as nat, pairs_of(v@)),
                Err(e) => scan_error(self@, column_family@, start_k@, limit as nat) == Some(e),
            },
    {
        self.db.scan_up_to(column_family, start_k, limit)
    }
}

} // verus!
