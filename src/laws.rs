//! Laws that relate the store operations to one another, stated over the
//! abstract store that their contracts speak of.

use vstd::prelude::*;
use crate::error::StorageError;
use crate::family::{has_key_from, is_scan_of};
use crate::keys::{
    key_ge, key_lt, lemma_key_lt_irreflexive, lemma_key_lt_total, lemma_key_lt_transitive,
};
use crate::memory_storage::{get_result, scan_error, store_delete, store_put, StoreMap};

verus! {

/// A read after a write of `v` under `k` in family `cf` yields `v`.
pub proof fn law_put_then_get(m: StoreMap, cf: Seq<char>, k: Seq<char>, v: Seq<char>)
    ensures
        get_result(store_put(m, cf, k, v), cf, k) == Ok::<Seq<char>, StorageError>(v),
{
}

/// A second write to the same key replaces the first; no earlier value is kept.
pub proof fn law_overwrite(m: StoreMap, cf: Seq<char>, k: Seq<char>, v1: Seq<char>, v2: Seq<char>)
    ensures
        get_result(store_put(store_put(m, cf, k, v1), cf, k, v2), cf, k) == Ok::<
            Seq<char>,
            StorageError,
        >(v2),
{
}

/// After a write of `v` under `k`, deleting `k` hands back `v`, and a read of
/// `k` afterwards fails with `KeyNotFound`.
pub proof fn law_delete_removes(m: StoreMap, cf: Seq<char>, k: Seq<char>, v: Seq<char>)
    ensures
        get_result(store_put(m, cf, k, v), cf, k) == Ok::<Seq<char>, StorageError>(v),
        get_result(store_delete(store_put(m, cf, k, v), cf, k), cf, k) == Err::<
            Seq<char>,
            StorageError,
        >(StorageError::KeyNotFound),
{
}

/// Deleting a key of an existing family twice: the second delete fails with
/// `KeyNotFound`, whatever the first did.
pub proof fn law_double_delete_fails(m: StoreMap, cf: Seq<char>, k: Seq<char>)
    requires
        m.contains_key(cf),
    ensures
        get_result(store_delete(m, cf, k), cf, k) == Err::<Seq<char>, StorageError>(
            StorageError::KeyNotFound,
        ),
        store_delete(store_delete(m, cf, k), cf, k) == store_delete(m, cf, k),
{
}

/// Reads, deletes and scans of a family that was never written fail with
/// `CFKeyNotFound`, and a delete there changes nothing.
pub proof fn law_unknown_family(m: StoreMap, cf: Seq<char>, k: Seq<char>, limit: nat)
    requires
        !m.contains_key(cf),
    ensures
        get_result(m, cf, k) == Err::<Seq<char>, StorageError>(StorageError::CFKeyNotFound),
        store_delete(m, cf, k) == m,
        scan_error(m, cf, k, limit) == Some(StorageError::CFKeyNotFound),
{
}

/// A scan of an existing family from a start past all its keys fails with
/// `KeyNotFound` rather than succeeding with nothing.
pub proof fn law_scan_past_end_fails(m: StoreMap, cf: Seq<char>, start: Seq<char>, limit: nat)
    requires
        m.contains_key(cf),
        forall|k: Seq<char>| #[trigger] m[cf].contains_key(k) ==> key_lt(k, start),
    ensures
        scan_error(m, cf, start, limit) == Some(StorageError::KeyNotFound),
{
    assert(!has_key_from(m[cf], start));
}

/// A scan that succeeds never yields an empty sequence.
pub proof fn law_scan_success_nonempty(
    m: StoreMap,
    cf: Seq<char>,
    start: Seq<char>,
    limit: nat,
    r: Seq<(Seq<char>, Seq<char>)>,
)
    requires
        scan_error(m, cf, start, limit) is None,
        is_scan_of(m[cf], start, limit, r),
    ensures
        r.len() > 0,
{
    let k = choose|k: Seq<char>| #[trigger] m[cf].contains_key(k) && key_ge(k, start);
    if r.len() == 0 {
        assert(m[cf].contains_key(k) && key_ge(k, start) && r.len() < limit);
    }
}

/// Writes to two different keys, in the same family or in different ones, do
/// not interfere: whichever goes first, both values are present afterwards
/// and the store ends the same.
pub proof fn law_distinct_writes_commute(
    m: StoreMap,
    cf1: Seq<char>,
    k1: Seq<char>,
    v1: Seq<char>,
    cf2: Seq<char>,
    k2: Seq<char>,
    v2: Seq<char>,
)
    requires
        cf1 != cf2 || k1 != k2,
    ensures
        store_put(store_put(m, cf1, k1, v1), cf2, k2, v2) == store_put(
            store_put(m, cf2, k2, v2),
            cf1,
            k1,
            v1,
        ),
        get_result(store_put(store_put(m, cf1, k1, v1), cf2, k2, v2), cf1, k1) == Ok::<
            Seq<char>,
            StorageError,
        >(v1),
        get_result(store_put(store_put(m, cf1, k1, v1), cf2, k2, v2), cf2, k2) == Ok::<
            Seq<char>,
            StorageError,
        >(v2),
{
    let a = store_put(store_put(m, cf1, k1, v1), cf2, k2, v2);
    let b = store_put(store_put(m, cf2, k2, v2), cf1, k1, v1);
    if cf1 == cf2 {
        assert(a[cf1] =~= b[cf1]);
    }
    assert(a =~= b);
}

/// Two sequences that both meet the scan description agree up to the shorter
/// one's length, given that they agree before position `i`.
proof fn lemma_scans_agree_from(
    m: Map<Seq<char>, Seq<char>>,
    start: Seq<char>,
    limit: nat,
    r1: Seq<(Seq<char>, Seq<char>)>,
    r2: Seq<(Seq<char>, Seq<char>)>,
    i: int,
)
    requires
        is_scan_of(m, start, limit, r1),
        is_scan_of(m, start, limit, r2),
        0 <= i <= r1.len(),
        i <= r2.len(),
        forall|j: int| 0 <= j < i ==> r1[j] == r2[j],
    ensures
        forall|j: int| 0 <= j < r1.len() && j < r2.len() ==> r1[j] == r2[j],
    decreases r1.len() - i,
{
    if i < r1.len() && i < r2.len() {
        lemma_scan_entry_agrees(m, start, limit, r1, r2, i);
        lemma_scan_entry_agrees(m, start, limit, r2, r1, i);
        lemma_key_lt_total(r1[i].0, r2[i].0);
        lemma_scans_agree_from(m, start, limit, r1, r2, i + 1);
    }
}

/// Where two scans agree before position `i`, the key at `i` of `r1` does not
/// come before the key at `i` of `r2`.
proof fn lemma_scan_entry_agrees(
    m: Map<Seq<char>, Seq<char>>,
    start: Seq<char>,
    limit: nat,
    r1: Seq<(Seq<char>, Seq<char>)>,
    r2: Seq<(Seq<char>, Seq<char>)>,
    i: int,
)
    requires
        is_scan_of(m, start, limit, r1),
        is_scan_of(m, start, limit, r2),
        0 <= i < r1.len(),
        i < r2.len(),
        forall|j: int| 0 <= j < i ==> r1[j] == r2[j],
    ensures
        !key_lt(r1[i].0, r2[i].0),
{
    if key_lt(r1[i].0, r2[i].0) {
        let k = r1[i].0;
        assert(m.contains_key(k) && key_ge(k, start));
        if r2.len() >= limit {
            if i < r2.len() - 1 {
                assert(key_lt(r2[i].0, r2.last().0));
                lemma_key_lt_transitive(k, r2[i].0, r2.last().0);
            }
        }
        let j = choose|j: int| 0 <= j < r2.len() && r2[j].0 == k;
        if j < i {
            assert(r1[j] == r2[j]);
            assert(key_lt(r1[j].0, r1[i].0));
            lemma_key_lt_irreflexive(k);
        } else if j > i {
            assert(key_lt(r2[i].0, r2[j].0));
            lemma_key_lt_transitive(k, r2[i].0, k);
            lemma_key_lt_irreflexive(k);
        } else {
            lemma_key_lt_irreflexive(k);
        }
    }
}

/// A scan that stops short of another scan of the same range cannot exist.
proof fn lemma_scan_not_shorter(
    m: Map<Seq<char>, Seq<char>>,
    start: Seq<char>,
    limit: nat,
    r1: Seq<(Seq<char>, Seq<char>)>,
    r2: Seq<(Seq<char>, Seq<char>)>,
)
    requires
        is_scan_of(m, start, limit, r1),
        is_scan_of(m, start, limit, r2),
        forall|j: int| 0 <= j < r1.len() && j < r2.len() ==> r1[j] == r2[j],
    ensures
        r1.len() >= r2.len(),
{
    if r1.len() < r2.len() {
        let n = r1.len() as int;
        let k = r2[n].0;
        assert(m.contains_key(k) && key_ge(k, start) && r1.len() < limit);
        let j = choose|j: int| 0 <= j < r1.len() && r1[j].0 == k;
        assert(r1[j] == r2[j]);
        assert(key_lt(r2[j].0, r2[n].0));
        lemma_key_lt_irreflexive(k);
    }
}

/// The scan description fixes its result: a scan of a given family, start and
/// limit can succeed with one sequence only.
pub proof fn law_scan_is_determined(
    m: Map<Seq<char>, Seq<char>>,
    start: Seq<char>,
    limit: nat,
    r1: Seq<(Seq<char>, Seq<char>)>,
    r2: Seq<(Seq<char>, Seq<char>)>,
)
    requires
        is_scan_of(m, start, limit, r1),
        is_scan_of(m, start, limit, r2),
    ensures
        r1 == r2,
{
    lemma_scans_agree_from(m, start, limit, r1, r2, 0);
    lemma_scan_not_shorter(m, start, limit, r1, r2);
    lemma_scan_not_shorter(m, start, limit, r2, r1);
    assert(r1 =~= r2);
}

} // verus!
