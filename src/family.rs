//! A column family: an ordered map from keys to values, held as a vector of
//! pairs sorted by key.

use core::cmp::Ordering;
use vstd::prelude::*;
use crate::keys::{
    compare_keys, key_ge, key_lt, lemma_key_lt_irreflexive, lemma_key_lt_total,
    lemma_key_lt_transitive,
};
use crate::table::{
    has_key, keys_distinct, lemma_map_of_empty, lemma_map_of_finite, lemma_map_of_index, lemma_map_of_insert,
    lemma_map_of_remove, lemma_map_of_update, map_of,
};

verus! {

/// The abstract contents of a list of owned `(key, value)` pairs.
pub open spec fn pairs_of(e: Seq<(String, String)>) -> Seq<(Seq<char>, Seq<char>)> {
    e.map_values(|p: (String, String)| (p.0@, p.1@))
}

/// The keys of `s` strictly increase.
pub open spec fn sorted_by_key(s: Seq<(Seq<char>, Seq<char>)>) -> bool {
    forall|i: int, j: int| 0 <= i < j < s.len() ==> key_lt(#[trigger] s[i].0, #[trigger] s[j].0)
}

/// `r` is what a range read of `m` from `start` with at most `limit` entries
/// yields: the entries of `m` whose keys come at or after `start`, in
/// ascending key order, the first `limit` of them.
pub open spec fn is_scan_of(
    m: Map<Seq<char>, Seq<char>>,
    start: Seq<char>,
    limit: nat,
    r: Seq<(Seq<char>, Seq<char>)>,
) -> bool {
    &&& r.len() <= limit
    &&& sorted_by_key(r)
    &&& forall|i: int|
        0 <= i < r.len() ==> {
            &&& m.contains_key(#[trigger] r[i].0)
            &&& m[r[i].0] == r[i].1
            &&& key_ge(r[i].0, start)
        }
    &&& forall|k: Seq<char>|
        #[trigger] m.contains_key(k) && key_ge(k, start) && (r.len() < limit || (r.len() > 0
            && key_lt(k, r.last().0))) ==> exists|i: int| 0 <= i < r.len() && r[i].0 == k
}

/// Some key of `m` comes at or after `start`.
pub open spec fn has_key_from(m: Map<Seq<char>, Seq<char>>, start: Seq<char>) -> bool {
    exists|k: Seq<char>| #[trigger] m.contains_key(k) && key_ge(k, start)
}

/// A column family: its entries sorted by key, each key once.
#[derive(Debug)]
pub struct Family {
    entries: Vec<(String, String)>,
}

impl View for Family {
    type V = Map<Seq<char>, Seq<char>>;

    closed spec fn view(&self) -> Map<Seq<char>, Seq<char>> {
        map_of(pairs_of(self.entries@))
    }
}

proof fn lemma_sorted_distinct(s: Seq<(Seq<char>, Seq<char>)>)
    requires
        sorted_by_key(s),
    ensures
        keys_distinct(s),
{
    assert forall|i: int, j: int|
        0 <= i < s.len() && 0 <= j < s.len() && i != j implies #[trigger] s[i].0
        != #[trigger] s[j].0 by {
        if i < j {
            lemma_key_lt_irreflexive(s[i].0);
            assert(key_lt(s[i].0, s[j].0));
        } else {
            lemma_key_lt_irreflexive(s[j].0);
            assert(key_lt(s[j].0, s[i].0));
        }
    }
}

impl Family {
    /// The pairs are sorted by key.
    pub closed spec fn wf(&self) -> bool {
        sorted_by_key(pairs_of(self.entries@))
    }

    /// A family holds finitely many keys.
    pub proof fn lemma_finite(&self)
        ensures
            self@.dom().finite(),
    {
        lemma_map_of_finite(pairs_of(self.entries@));
    }

    /// A family with no entries.
    pub fn new() -> (f: Family)
        ensures
            f.wf(),
            f@ == Map::<Seq<char>, Seq<char>>::empty(),
    {
        let f = Family { entries: Vec::new() };
        proof {
            lemma_map_of_empty(pairs_of(f.entries@));
        }
        f
    }

    /// The position of the first pair whose key is at or after `k`, by binary search.
    fn lower_bound(&self, k: &str) -> (r: usize)
        requires
            self.wf(),
        ensures
            r <= self.entries@.len(),
            forall|i: int| 0 <= i < r ==> key_lt(#[trigger] pairs_of(self.entries@)[i].0, k@),
            forall|i: int|
                r <= i < self.entries@.len() ==> key_ge(#[trigger] pairs_of(self.entries@)[i].0, k@),
    {
        let ghost s = pairs_of(self.entries@);
        let mut lo: usize = 0;
        let mut hi: usize = self.entries.len();
        while lo < hi
            invariant
                s == pairs_of(self.entries@),
                sorted_by_key(s),
                lo <= hi <= self.entries@.len(),
                forall|j: int| 0 <= j < lo ==> key_lt(#[trigger] s[j].0, k@),
                forall|j: int| hi <= j < s.len() ==> key_ge(#[trigger] s[j].0, k@),
            decreases hi - lo,
        {
            let mid = lo + (hi - lo) / 2;
            proof {
                assert(s[mid as int].0 == self.entries@[mid as int].0@);
            }
            if matches!(compare_keys(self.entries[mid].0.as_str(), k), Ordering::Less) {
                proof {
                    assert forall|j: int| 0 <= j <= mid implies key_lt(#[trigger] s[j].0, k@) by {
                        if j < mid {
                            lemma_key_lt_transitive(s[j].0, s[mid as int].0, k@);
                        }
                    }
                }
                lo = mid + 1;
            } else {
                proof {
                    assert forall|j: int| mid <= j < s.len() implies key_ge(#[trigger] s[j].0, k@) by {
                        if j > mid && key_lt(s[j].0, k@) {
                            lemma_key_lt_transitive(s[mid as int].0, s[j].0, k@);
                        }
                    }
                }
                hi = mid;
            }
        }
        lo
    }

    /// The value stored under `k`, if any.
    pub fn get(&self, k: &str) -> (r: Option<String>)
        requires
            self.wf(),
        ensures
            r is Some == self@.contains_key(k@),
            r matches Some(v) ==> v@ == self@[k@],
    {
        let ghost s = pairs_of(self.entries@);
        proof {
            lemma_sorted_distinct(s);
        }
        let p = self.lower_bound(k);
        if p < self.entries.len() && matches!(compare_keys(self.entries[p].0.as_str(), k), Ordering::Equal) {
            proof {
                assert(s[p as int].0 == k@);
                lemma_map_of_index(s, p as int);
            }
            Some(self.entries[p].1.clone())
        } else {
            proof {
                self.lemma_absent_at(k@, p as int);
            }
            None
        }
    }

    /// When the first key at or after `k` is not `k`, the family lacks `k`.
    proof fn lemma_absent_at(&self, k: Seq<char>, p: int)
        requires
            self.wf(),
            0 <= p <= self.entries@.len(),
            forall|i: int| 0 <= i < p ==> key_lt(#[trigger] pairs_of(self.entries@)[i].0, k),
            forall|i: int| p <= i < self.entries@.len() ==> key_ge(#[trigger] pairs_of(self.entries@)[i].0, k),
            p < self.entries@.len() ==> pairs_of(self.entries@)[p].0 != k,
        ensures
            !has_key(pairs_of(self.entries@), k),
            forall|i: int| p <= i < self.entries@.len() ==> key_lt(k, #[trigger] pairs_of(self.entries@)[i].0),
    {
        let s = pairs_of(self.entries@);
        assert forall|i: int| p <= i < s.len() implies key_lt(k, #[trigger] s[i].0) by {
            lemma_key_lt_total(k, s[p].0);
            if i > p {
                assert(key_lt(s[p].0, s[i].0));
                lemma_key_lt_transitive(k, s[p].0, s[i].0);
            }
        }
        if has_key(s, k) {
            let j = choose|j: int| 0 <= j < s.len() && #[trigger] s[j].0 == k;
            lemma_key_lt_irreflexive(k);
            if j < p {
                assert(key_lt(s[j].0, k));
            } else {
                assert(key_lt(k, s[j].0));
            }
        }
    }

    /// Stores `v` under `k`, replacing any value that was there.
    pub fn put(&mut self, k: &str, v: &str)
        requires
            old(self).wf(),
        ensures
            final(self).wf(),
            final(self)@ == old(self)@.insert(k@, v@),
    {
        let ghost s = pairs_of(self.entries@);
        proof {
            lemma_sorted_distinct(s);
        }
        let p = self.lower_bound(k);
        if p < self.entries.len() && matches!(compare_keys(self.entries[p].0.as_str(), k), Ordering::Equal) {
            let key = self.entries[p].0.clone();
            self.entries.set(p, (key, v.to_owned()));
            proof {
                assert(pairs_of(self.entries@) =~= s.update(p as int, (s[p as int].0, v@)));
                lemma_map_of_update(s, p as int, v@);
            }
        } else {
            proof {
                self.lemma_absent_at(k@, p as int);
            }
            self.entries.insert(p, (k.to_owned(), v.to_owned()));
            proof {
                let t = pairs_of(self.entries@);
                assert(t =~= s.insert(p as int, (k@, v@)));
                lemma_map_of_insert(s, p as int, k@, v@);
                assert forall|i: int, j: int| 0 <= i < j < t.len() implies key_lt(
                    #[trigger] t[i].0,
                    #[trigger] t[j].0,
                ) by {
                    if j < p {
                        assert(t[i] == s[i] && t[j] == s[j]);
                    } else if j == p {
                        assert(t[i] == s[i]);
                    } else if i == p {
                        assert(t[j] == s[j - 1]);
                    } else if i < p {
                        assert(t[i] == s[i] && t[j] == s[j - 1]);
                        lemma_key_lt_transitive(s[i].0, k@, s[j - 1].0);
                    } else {
                        assert(t[i] == s[i - 1] && t[j] == s[j - 1]);
                    }
                }
            }
        }
    }

    /// Removes the entry of `k`, handing back its value, if there was one.
    pub fn remove(&mut self, k: &str) -> (r: Option<String>)
        requires
            old(self).wf(),
        ensures
            final(self).wf(),
            r is Some == old(self)@.contains_key(k@),
            final(self)@ == old(self)@.remove(k@),
            r matches Some(v) ==> v@ == old(self)@[k@],
    {
        let ghost s = pairs_of(self.entries@);
        proof {
            lemma_sorted_distinct(s);
        }
        let p = self.lower_bound(k);
        if p < self.entries.len() && matches!(compare_keys(self.entries[p].0.as_str(), k), Ordering::Equal) {
            let (_, v) = self.entries.remove(p);
            proof {
                let t = pairs_of(self.entries@);
                assert(t =~= s.remove(p as int));
                lemma_map_of_index(s, p as int);
                lemma_map_of_remove(s, p as int);
                assert forall|i: int, j: int| 0 <= i < j < t.len() implies key_lt(
                    #[trigger] t[i].0,
                    #[trigger] t[j].0,
                ) by {
                    let si = if i < p { i } else { i + 1 };
                    let sj = if j < p { j } else { j + 1 };
                    assert(t[i] == s[si] && t[j] == s[sj]);
                }
            }
            Some(v)
        } else {
            proof {
                self.lemma_absent_at(k@, p as int);
                assert(self@ =~= self@.remove(k@));
            }
            None
        }
    }

    /// The entries at or after `start` in key order, at most `limit` of them.
    pub fn range(&self, start: &str, limit: usize) -> (r: Vec<(String, String)>)
        requires
            self.wf(),
        ensures
            is_scan_of(self@, start@, limit as nat, pairs_of(r@)),
            pairs_of(r@).len() == 0 ==> (limit == 0 || !has_key_from(self@, start@)),
    {
        let ghost s = pairs_of(self.entries@);
        proof {
            lemma_sorted_distinct(s);
        }
        let p = self.lower_bound(start);
        let mut out: Vec<(String, String)> = Vec::new();
        let mut i: usize = p;
        while i < self.entries.len() && i - p < limit
            invariant
                s == pairs_of(self.entries@),
                p <= i <= self.entries@.len(),
                i - p <= limit,
                pairs_of(out@) == s.subrange(p as int, i as int),
            decreases self.entries@.len() - i,
        {
            let key = self.entries[i].0.clone();
            let value = self.entries[i].1.clone();
            let ghost before = out@;
            out.push((key, value));
            proof {
                assert(s[i as int] == (self.entries@[i as int].0@, self.entries@[i as int].1@));
                assert(out@ == before.push((key, value)));
                assert(pairs_of(out@) =~= pairs_of(before).push((key@, value@)));
                assert(pairs_of(out@) =~= s.subrange(p as int, i + 1));
            }
            i = i + 1;
        }
        proof {
            let r = pairs_of(out@);
            assert(r.len() <= limit);
            assert forall|a: int, b: int| 0 <= a < b < r.len() implies key_lt(
                #[trigger] r[a].0,
                #[trigger] r[b].0,
            ) by {
                assert(r[a] == s[p + a] && r[b] == s[p + b]);
            }
            assert forall|a: int| 0 <= a < r.len() implies {
                &&& self@.contains_key(#[trigger] r[a].0)
                &&& self@[r[a].0] == r[a].1
                &&& key_ge(r[a].0, start@)
            } by {
                assert(r[a] == s[p + a]);
                lemma_map_of_index(s, p + a);
            }
            assert forall|k: Seq<char>|
                #[trigger] self@.contains_key(k) && key_ge(k, start@) && (r.len() < limit || (
                r.len() > 0 && key_lt(k, r.last().0))) implies exists|a: int|
                0 <= a < r.len() && r[a].0 == k by {
                let j = choose|j: int| 0 <= j < s.len() && #[trigger] s[j].0 == k;
                if j < p {
                    assert(key_lt(s[j].0, start@));
                }
                if j >= i {
                    if r.len() < limit {
                        assert(i == s.len());
                    } else {
                        assert(r.last() == s[i - 1]);
                        if j > i - 1 {
                            assert(key_lt(s[i - 1].0, s[j].0));
                            lemma_key_lt_total(k, s[i - 1].0);
                        }
                    }
                }
                assert(r[j - p] == s[j]);
            }
            if r.len() == 0 && limit > 0 && has_key_from(self@, start@) {
                let k = choose|k: Seq<char>| #[trigger] self@.contains_key(k) && key_ge(k, start@);
                let j = choose|j: int| 0 <= j < s.len() && #[trigger] s[j].0 == k;
                if j < p {
                    assert(key_lt(s[j].0, start@));
                }
            }
        }
        out
    }
}

} // verus!
