//! An index wrapping `crossbeam_skiplist`'s map, with a fast path when the
//! range is a single key.
use vstd::prelude::*;
use crossbeam_skiplist::SkipMap;
use crate::crossbeam_map::{
    skip_map_contents, values_between, key_span, map_get, lemma_keys_between_single,
    skip_map_new, skip_map_get, skip_map_range, skip_map_remove, skip_map_insert,
    values_of_entries, remove_entries,
};

verus! {

/// KV store inner. Values are copied out of the map's entries.
pub struct Index {
    index: SkipMap<i32, i32>,
}

impl Index {
    /// The bindings of the index.
    pub closed spec fn contents(&self) -> Map<i32, i32> {
        skip_map_contents(self.index)
    }

    pub fn new() -> (r: Self)
        ensures
            r.contents() == Map::<i32, i32>::empty(),
    {
        Index { index: skip_map_new() }
    }

    /// Get a range of keys in [start, end].
    pub fn get(&self, start: &i32, end: &i32) -> (r: Vec<i32>)
        ensures
            r@ == values_between(self.contents(), *start, *end),
    {
        if *start == *end {
            proof {
                lemma_keys_between_single(self.contents().dom(), *start);
            }
            match skip_map_get(&self.index, *start) {
                Some(v) => {
                    let r = vec![v];
                    assert(r@ =~= values_between(self.contents(), *start, *end));
                    r
                },
                None => {
                    let r: Vec<i32> = Vec::new();
                    assert(r@ =~= values_between(self.contents(), *start, *end));
                    r
                },
            }
        } else {
            let entries = skip_map_range(&self.index, *start, *end);
            values_of_entries(&entries)
        }
    }

    /// Delete a range of keys in [start, end]; returns their values.
    pub fn delete(&mut self, start: &i32, end: &i32) -> (r: Vec<i32>)
        ensures
            r@ == values_between(old(self).contents(), *start, *end),
            final(self).contents() == old(self).contents().remove_keys(key_span(*start, *end)),
    {
        if *start == *end {
            proof {
                lemma_keys_between_single(self.contents().dom(), *start);
            }
            let ghost m0 = self.contents();
            let removed = skip_map_remove(&mut self.index, *start);
            proof {
                assert(self.contents() =~= m0.remove_keys(key_span(*start, *end)));
            }
            match removed {
                Some(v) => {
                    let r = vec![v];
                    assert(r@ =~= values_between(m0, *start, *end));
                    r
                },
                None => {
                    let r: Vec<i32> = Vec::new();
                    assert(r@ =~= values_between(m0, *start, *end));
                    r
                },
            }
        } else {
            let entries = skip_map_range(&self.index, *start, *end);
            remove_entries(&mut self.index, &entries, *start, *end)
        }
    }

    /// Insert or update a key; returns the value it had.
    pub fn insert_or_update(&mut self, key: i32, value: i32) -> (r: Option<i32>)
        ensures
            r == map_get(old(self).contents(), key),
            final(self).contents() == old(self).contents().insert(key, value),
    {
        let before = skip_map_get(&self.index, key);
        skip_map_insert(&mut self.index, key, value);
        before
    }
}

impl Default for Index {
    fn default() -> (r: Self)
        ensures
            r.contents() == Map::<i32, i32>::empty(),
    {
        Self::new()
    }
}

} // verus!
