//! The store: every column family, keyed by name.

use core::cmp::Ordering;
use vstd::prelude::*;
use crate::error::StorageError;
use crate::family::{has_key_from, is_scan_of, pairs_of, Family};
use crate::keys::compare_keys;
use crate::table::{
    has_key, keys_distinct, lemma_map_of_empty, lemma_map_of_finite, lemma_map_of_index, lemma_map_of_insert,
    lemma_map_of_update, map_of,
};

verus! {

/// The abstract contents of a store: each family name mapped to the family's entries.
pub type StoreMap = Map<Seq<char>, Map<Seq<char>, Seq<char>>>;

/// The entries of family `cf` in `m`; none where `m` has no such family.
pub open spec fn family_of(m: StoreMap, cf: Seq<char>) -> Map<Seq<char>, Seq<char>> {
    if m.contains_key(cf) {
        m[cf]
    } else {
        Map::empty()
    }
}

/// The store after writing `v` under `k` in family `cf`, creating the family if needed.
pub open spec fn store_put(m: StoreMap, cf: Seq<char>, k: Seq<char>, v: Seq<char>) -> StoreMap {
    m.insert(cf, family_of(m, cf).insert(k, v))
}

/// The store after removing `k` from family `cf`; unchanged where there is nothing to remove.
pub open spec fn store_delete(m: StoreMap, cf: Seq<char>, k: Seq<char>) -> StoreMap {
    if m.contains_key(cf) && m[cf].contains_key(k) {
        m.insert(cf, m[cf].remove(k))
    } else {
        m
    }
}

/// What `get` of `k` in family `cf` yields on a store holding `m`.
pub open spec fn get_result(m: StoreMap, cf: Seq<char>, k: Seq<char>) -> Result<Seq<char>, StorageError> {
    if !m.contains_key(cf) {
        Err(StorageError::CFKeyNotFound)
    } else if !m[cf].contains_key(k) {
        Err(StorageError::KeyNotFound)
    } else {
        Ok(m[cf][k])
    }
}

/// The error a `scan` of family `cf` from `start` with at most `limit` entries
/// ends in on a store holding `m`, if it fails.
pub open spec fn scan_error(m: StoreMap, cf: Seq<char>, start: Seq<char>, limit: nat) -> Option<StorageError> {
    if !m.contains_key(cf) {
        Some(StorageError::CFKeyNotFound)
    } else if limit == 0 || !has_key_from(m[cf], start) {
        Some(StorageError::KeyNotFound)
    } else {
        None
    }
}

/// An in-memory store of column families, each an ordered map from keys to values.
///
/// A family comes into being on its first write and stays, even when emptied.
/// Every operation takes the whole store (`&self` or `&mut self`), so operations
/// never interleave; `Service` shares one store between callers behind a single
/// lock.
#[derive(Debug)]
pub struct MemoryStorage {
    families: Vec<(String, Family)>,
}

/// The names and contents of a list of families.
pub open spec fn named_families(f: Seq<(String, Family)>) -> Seq<(Seq<char>, Map<Seq<char>, Seq<char>>)> {
    f.map_values(|e: (String, Family)| (e.0@, e.1@))
}

impl View for MemoryStorage {
    type V = StoreMap;

    closed spec fn view(&self) -> StoreMap {
        map_of(named_families(self.families@))
    }
}

impl Default for MemoryStorage {
    fn default() -> (s: MemoryStorage)
        ensures
            s.wf(),
            s@ == StoreMap::empty(),
    {
        MemoryStorage::new()
    }
}

impl MemoryStorage {
    /// Family names are distinct and every family is well formed.
    pub closed spec fn wf(&self) -> bool {
        &&& keys_distinct(named_families(self.families@))
        &&& forall|i: int| 0 <= i < self.families@.len() ==> (#[trigger] self.families@[i]).1.wf()
    }

    /// A well-formed store has finitely many families, each with finitely many keys.
    pub proof fn lemma_finite(&self)
        requires
            self.wf(),
        ensures
            self@.dom().finite(),
            forall|cf: Seq<char>| #[trigger] self@.contains_key(cf) ==> self@[cf].dom().finite(),
    {
        let s = named_families(self.families@);
        lemma_map_of_finite(s);
        assert forall|cf: Seq<char>| #[trigger] self@.contains_key(cf) implies self@[cf].dom().finite() by {
            let i = choose|i: int| 0 <= i < s.len() && #[trigger] s[i].0 == cf;
            lemma_map_of_index(s, i);
            self.families@[i].1.lemma_finite();
        }
    }

    /// An empty store.
    pub fn new() -> (s: MemoryStorage)
        ensures
            s.wf(),
            s@ == StoreMap::empty(),
    {
        let s = MemoryStorage { families: Vec::new() };
        proof {
            lemma_map_of_empty(named_families(s.families@));
        }
        s
    }

    /// The position of family `cf`, if the store has it.
    fn find_family(&self, cf: &str) -> (r: Option<usize>)
        requires
            self.wf(),
        ensures
            r is Some == self@.contains_key(cf@),
            r matches Some(i) ==> i < self.families@.len() && self.families@[i as int].0@ == cf@
                && self@[cf@] == self.families@[i as int].1@,
    {
        let ghost s = named_families(self.families@);
        let mut i: usize = 0;
        while i < self.families.len()
            invariant
                s == named_families(self.families@),
                keys_distinct(s),
                i <= self.families@.len(),
                forall|j: int| 0 <= j < i ==> #[trigger] s[j].0 != cf@,
            decreases self.families@.len() - i,
        {
            if matches!(compare_keys(self.families[i].0.as_str(), cf), Ordering::Equal) {
                proof {
                    lemma_map_of_index(s, i as int);
                }
                return Some(i);
            }
            i = i + 1;
        }
        proof {
            assert(!has_key(s, cf@));
        }
        None
    }

    /// Stores `v` under `k` in family `cf`, creating the family if it is absent
    /// and replacing any value that `k` held.
    pub fn put(&mut self, column_family: &str, k: &str, v: &str) -> (r: Result<(), StorageError>)
        requires
            old(self).wf(),
        ensures
            final(self).wf(),
            r is Ok,
            final(self)@ == store_put(old(self)@, column_family@, k@, v@),
    {
        let ghost s = named_families(self.families@);
        match self.find_family(column_family) {
            Some(i) => {
                let ghost before = self.families@[i as int];
                self.families[i].1.put(k, v);
                proof {
                    assert(named_families(self.families@) =~= s.update(
                        i as int,
                        (s[i as int].0, before.1@.insert(k@, v@)),
                    ));
                    lemma_map_of_update(s, i as int, before.1@.insert(k@, v@));
                    assert forall|j: int| 0 <= j < self.families@.len() implies (
                    #[trigger] self.families@[j]).1.wf() by {
                        if j != i {
                            assert(self.families@[j] == old(self).families@[j]);
                        }
                    }
                }
            },
            None => {
                let mut f = Family::new();
                f.put(k, v);
                let ghost n = s.len();
                self.families.push((column_family.to_owned(), f));
                proof {
                    assert(named_families(self.families@) =~= s.insert(
                        n as int,
                        (column_family@, Map::<Seq<char>, Seq<char>>::empty().insert(k@, v@)),
                    ));
                    lemma_map_of_insert(
                        s,
                        n as int,
                        column_family@,
                        Map::<Seq<char>, Seq<char>>::empty().insert(k@, v@),
                    );
                    assert forall|j: int| 0 <= j < self.families@.len() implies (
                    #[trigger] self.families@[j]).1.wf() by {
                        if j < n {
                            assert(self.families@[j] == old(self).families@[j]);
                        }
                    }
                }
            },
        }
        Ok(())
    }

    /// The value stored under `k` in family `cf`.
    pub fn get(&self, column_family: &str, k: &str) -> (r: Result<String, StorageError>)
        requires
            self.wf(),
        ensures
            get_result(self@, column_family@, k@) == match r {
                Ok(v) => Ok(v@),
                Err(e) => Err(e),
            },
    {
        match self.find_family(column_family) {
            None => Err(StorageError::CFKeyNotFound),
            Some(i) => {
                match self.families[i].1.get(k) {
                    Some(v) => Ok(v),
                    None => Err(StorageError::KeyNotFound),
                }
            },
        }
    }

    /// Removes `k` from family `cf`, handing back the value it held.
    pub fn delete(&mut self, column_family: &str, k: &str) -> (r: Result<String, StorageError>)
        requires
            old(self).wf(),
        ensures
            final(self).wf(),
            get_result(old(self)@, column_family@, k@) == match r {
                Ok(v) => Ok(v@),
                Err(e) => Err(e),
            },
            final(self)@ == store_delete(old(self)@, column_family@, k@),
    {
        let ghost s = named_families(self.families@);
        match self.find_family(column_family) {
            None => Err(StorageError::CFKeyNotFound),
            Some(i) => {
                let ghost before = self.families@[i as int];
                let removed = self.families[i].1.remove(k);
                proof {
                    assert(named_families(self.families@) =~= s.update(
                        i as int,
                        (s[i as int].0, before.1@.remove(k@)),
                    ));
                    lemma_map_of_update(s, i as int, before.1@.remove(k@));
                    if removed is None {
                        assert(before.1@.remove(k@) =~= before.1@);
                        assert(old(self)@.insert(column_family@, before.1@) =~= old(self)@);
                    }
                    assert forall|j: int| 0 <= j < self.families@.len() implies (
                    #[trigger] self.families@[j]).1.wf() by {
                        if j != i {
                            assert(self.families@[j] == old(self).families@[j]);
                        }
                    }
                }
                match removed {
                    Some(v) => Ok(v),
                    None => Err(StorageError::KeyNotFound),
                }
            },
        }
    }

    /// The entries of family `cf` whose keys come at or after `start_k`, in
    /// ascending key order, at most `limit` of them; an empty result, which a
    /// zero `limit` always gives, is an error.
    pub(crate) fn scan_up_to(&self, column_family: &str, start_k: &str, limit: usize) -> (r: Result<
        Vec<(String, String)>,
        StorageError,
    >)
        requires
            self.wf(),
        ensures
            match r {
                Ok(v) => scan_error(self@, column_family@, start_k@, limit as nat) is None
                    && is_scan_of(self@[column_family@], start_k@, limit as nat, pairs_of(v@)),
                Err(e) => scan_error(self@, column_family@, start_k@, limit as nat) == Some(e),
            },
    {
        match self.find_family(column_family) {
            None => Err(StorageError::CFKeyNotFound),
            Some(i) => {
                let values = self.families[i].1.range(start_k, limit);
                proof {
                    let r = pairs_of(values@);
                    if r.len() > 0 {
                        assert(self@[column_family@].contains_key(r[0].0));
                    }
                }
                if values.len() == 0 {
                    Err(StorageError::KeyNotFound)
                } else {
                    Ok(values)
                }
            },
        }
    }

    /// The entries of family `cf` whose keys come at or after `start_k`, in
    /// ascending key order, at most `limit` of them; an empty result is an error.
    pub fn scan(&self, column_family: &str, start_k: &str, limit: usize) -> (r: Result<
        Vec<(String, String)>,
        StorageError,
    >)
        requires
            self.wf(),
            limit > 0,
        ensures
            match r {
                Ok(v) => scan_error(self@, column_family@, start_k@, limit as nat) is None
                    && is_scan_of(self@[column_family@], start_k@, limit as nat, pairs_of(v@)),
                Err(e) => scan_error(self@, column_family@, start_k@, limit as nat) == Some(e),
            },
    {
        self.scan_up_to(column_family, start_k, limit)
    }
}

} // verus!
