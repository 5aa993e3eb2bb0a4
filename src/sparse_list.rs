//! A sparse list: adjacency lists keyed by signed node identifier, held in a
//! hashbrown map, where an absent key reads as the empty list.

use vstd::prelude::*;

verus! {

/// Adjacency lists by signed node identifier. An absent key reads as the
/// empty list, without an entry being made for it.
#[verifier::external_body]
pub struct SparseList {
    map: hashbrown::HashMap<i64, Vec<i64>>,
    default: Vec<i64>,
}

/// What a sparse list holds: the list stored under each present key.
pub uninterp spec fn sparse_contents(l: SparseList) -> Map<i64, Seq<i64>>;

/// The list under `index`, the empty list when absent.
pub open spec fn list_at(m: Map<i64, Seq<i64>>, index: i64) -> Seq<i64> {
    if m.contains_key(index) {
        m[index]
    } else {
        Seq::empty()
    }
}

impl SparseList {
    /// Relies on `hashbrown::HashMap::new`: a new map holds nothing.
    #[verifier::external_body]
    pub fn new() -> (r: SparseList)
        ensures
            sparse_contents(r) =~= Map::empty(),
    {
        SparseList { map: hashbrown::HashMap::new(), default: Vec::new() }
    }

    /// Relies on `hashbrown::HashMap::get`: the value stored under the key,
    /// if any.
    #[verifier::external_body]
    pub fn get(&self, index: i64) -> (r: &Vec<i64>)
        ensures
            r@ == list_at(sparse_contents(*self), index),
    {
        match self.map.get(&index) {
            Some(v) => v,
            None => &self.default,
        }
    }

    /// Relies on `hashbrown::HashMap::insert`: afterwards the key maps to
    /// the value, and every other key keeps its value.
    #[verifier::external_body]
    pub fn set(&mut self, index: i64, value: Vec<i64>)
        ensures
            sparse_contents(*final(self)) == sparse_contents(*old(self)).insert(index, value@),
    {
        self.map.insert(index, value);
    }

    /// Relies on `hashbrown::HashMap::keys`: every present key once, in the
    /// map's own order.
    #[verifier::external_body]
    pub fn keys(&self) -> (r: Vec<i64>)
        ensures
            r@.no_duplicates(),
            forall|k: i64| r@.contains(k) <==> sparse_contents(*self).contains_key(k),
    {
        self.map.keys().copied().collect()
    }
}

} // verus!
