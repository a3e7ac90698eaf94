//! The in-memory index: a map from key to record locator, backed by a
//! lock-free skip list so a handle can later be shared across threads.
//!
//! The skip list itself is outside code; each operation the store needs is
//! wrapped here with a contract over [`index_view`].

use vstd::prelude::*;

verus! {

/// An index from key text to record locator `(segment id, byte offset,
/// frame length)`.
#[verifier::external_body]
pub struct Index {
    map: crossbeam_skiplist::SkipMap<String, (u64, u64, u64)>,
}

/// What an [`Index`] holds: a finite map from key text to locator.
pub uninterp spec fn index_view(ix: Index) -> Map<Seq<char>, (u64, u64, u64)>;

/// The view of an index with nothing in it.
pub open spec fn empty_index_view() -> Map<Seq<char>, (u64, u64, u64)> {
    Map::empty()
}

impl Index {
    /// Relies on `crossbeam_skiplist::SkipMap::new`: a fresh map is empty.
    #[verifier::external_body]
    pub fn new() -> (ix: Index)
        ensures
            index_view(ix) == empty_index_view(),
    {
        Index { map: crossbeam_skiplist::SkipMap::new() }
    }

    /// Relies on `crossbeam_skiplist::SkipMap::get`: it returns the entry
    /// stored under `key`, if any.
    #[verifier::external_body]
    pub fn get(&self, key: &String) -> (r: Option<(u64, u64, u64)>)
        ensures
            r == if index_view(*self).contains_key(key@) {
                Some(index_view(*self)[key@])
            } else {
                None::<(u64, u64, u64)>
            },
    {
        match self.map.get(key) {
            Some(e) => Some(*e.value()),
            None => None,
        }
    }

    /// Relies on `crossbeam_skiplist::SkipMap::insert`: it replaces any
    /// existing entry under `key` with the new value.
    #[verifier::external_body]
    pub fn insert(&mut self, key: String, loc: (u64, u64, u64))
        ensures
            index_view(*final(self)) == index_view(*old(self)).insert(key@, loc),
    {
        self.map.insert(key, loc);
    }

    /// Relies on `crossbeam_skiplist::SkipMap::remove`: it removes and
    /// returns the entry stored under `key`, if any.
    #[verifier::external_body]
    pub fn remove(&mut self, key: &String) -> (r: Option<(u64, u64, u64)>)
        ensures
            index_view(*final(self)) == index_view(*old(self)).remove(key@),
            r == if index_view(*old(self)).contains_key(key@) {
                Some(index_view(*old(self))[key@])
            } else {
                None::<(u64, u64, u64)>
            },
    {
        match self.map.remove(key) {
            Some(e) => Some(*e.value()),
            None => None,
        }
    }

    /// Relies on `crossbeam_skiplist::SkipMap::iter`: it visits every
    /// entry exactly once.
    #[verifier::external_body]
    pub fn entries(&self) -> (r: Vec<(String, (u64, u64, u64))>)
        ensures
            forall|i: int|
                #![auto]
                0 <= i < r@.len() ==> index_view(*self).contains_key(r@[i].0@) && index_view(
                    *self,
                )[r@[i].0@] == r@[i].1,
            forall|k: Seq<char>|
                #![auto]
                index_view(*self).dom().contains(k) ==> exists|i: int|
                    0 <= i < r@.len() && r@[i].0@ == k,
            forall|i: int, j: int|
                #![auto]
                0 <= i < j < r@.len() ==> r@[i].0@ != r@[j].0@,
    {
        let mut r = Vec::new();
        for e in self.map.iter() {
            r.push((e.key().clone(), *e.value()));
        }
        r
    }
}

} // verus!
