//! An index that is the lock-free ordered map of `crossbeam_skiplist` itself.
use vstd::prelude::*;
use crossbeam_skiplist::SkipMap;
use crate::crossbeam_map::{
    skip_map_contents, values_between, key_span, map_get, skip_map_new, skip_map_len,
    skip_map_range, skip_map_remove, skip_map_insert, values_of_entries, remove_entries,
};
use crate::Index;

verus! {

/// An index on `crossbeam_skiplist`'s map. Values are copied out: an entry of
/// that map can be borrowed only while its guard lives.
pub struct CSIndex {
    inner: SkipMap<i32, i32>,
}

impl CSIndex {
    /// The bindings of the index.
    pub closed spec fn contents(&self) -> Map<i32, i32> {
        skip_map_contents(self.inner)
    }

    /// Get a range of keys in [key, range_end].
    pub fn get(&self, key: &i32, range_end: &i32) -> (r: Vec<i32>)
        ensures
            r@ == values_between(self.contents(), *key, *range_end),
    {
        let entries = skip_map_range(&self.inner, *key, *range_end);
        values_of_entries(&entries)
    }

    /// Delete a range of keys in [key, range_end]; returns their values.
    pub fn delete(&mut self, key: &i32, range_end: &i32) -> (r: Vec<i32>)
        ensures
            r@ == values_between(old(self).contents(), *key, *range_end),
            final(self).contents() == old(self).contents().remove_keys(key_span(*key, *range_end)),
    {
        let entries = skip_map_range(&self.inner, *key, *range_end);
        remove_entries(&mut self.inner, &entries, *key, *range_end)
    }

    /// Insert or update a key; returns the value it had.
    pub fn insert_or_update(&mut self, key: i32, value: i32) -> (r: Option<i32>)
        ensures
            r == map_get(old(self).contents(), key),
            final(self).contents() == old(self).contents().insert(key, value),
    {
        let rst = skip_map_remove(&mut self.inner, key);
        skip_map_insert(&mut self.inner, key, value);
        proof {
            assert(self.contents() =~= old(self).contents().insert(key, value));
        }
        rst
    }
}

impl Index for CSIndex {
    open spec fn size_model(&self) -> nat {
        self.contents().len()
    }

    fn new() -> (r: Self)
        ensures
            r.contents() == Map::<i32, i32>::empty(),
    {
        CSIndex { inner: skip_map_new() }
    }

    fn len(&self) -> (n: usize) {
        skip_map_len(&self.inner)
    }
}

} // verus!
