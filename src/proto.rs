//! Plain message types exchanged with clients.

use vstd::prelude::*;

verus! {

/// One key with its value, as a scan hands it to a client.
#[derive(Debug, Clone, PartialEq, Eq)]
pub struct KvPair {
    pub key: String,
    pub value: String,
}

impl KvPair {
    /// A pair whose key and value are both empty.
    pub fn default() -> (p: KvPair)
        ensures
            p.key@ == Seq::<char>::empty(),
            p.value@ == Seq::<char>::empty(),
    {
        KvPair { key: String::new(), value: String::new() }
    }

    /// A pair holding copies of `k` and `v`.
    pub fn new(k: &str, v: &str) -> (p: KvPair)
        ensures
            p.key@ == k@,
            p.value@ == v@,
    {
        KvPair { key: k.to_owned(), value: v.to_owned() }
    }
}

} // verus!
