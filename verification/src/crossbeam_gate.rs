//! An index on `crossbeam_skiplist`'s map that deletes a range key by key
//! and inserts through `get_or_insert`.
use vstd::prelude::*;
use crossbeam_skiplist::SkipMap;
use crate::crossbeam_map::{
    skip_map_contents, values_between, keys_between, key_span, skip_map_new, skip_map_range, skip_map_remove,
    skip_map_insert, skip_map_get_or_insert, values_of_entries,
};

verus! {

/// KV store inner, backed by `crossbeam_skiplist`'s map.
pub struct Index {
    index: SkipMap<i32, i32>,
}

impl Index {
    /// The bindings of the index.
    pub closed spec fn contents(&self) -> Map<i32, i32> {
        skip_map_contents(self.index)
    }

    pub fn new() -> (r: Self)
        ensures
            r.contents() == Map::<i32, i32>::empty(),
    {
        Index { index: skip_map_new() }
    }

    /// Get a range of keys in [key, range_end]: copies of their values.
    pub fn get(&self, key: &i32, range_end: &i32) -> (r: Vec<i32>)
        ensures
            r@ == values_between(self.contents(), *key, *range_end),
    {
        let entries = skip_map_range(&self.index, *key, *range_end);
        values_of_entries(&entries)
    }

    /// Delete the keys in `[key, range_end]`, one key after the other;
    /// returns the values of those that were there, in key order.
    pub fn delete(&mut self, key: &i32, range_end: &i32) -> (r: Vec<i32>)
        ensures
            r@ == values_between(old(self).contents(), *key, *range_end),
            final(self).contents() == old(self).contents().remove_keys(key_span(*key, *range_end)),
    {
        let ghost m0 = self.contents();
        let mut rst: Vec<i32> = Vec::new();
        if *key > *range_end {
            proof {
                assert(self.contents() =~= m0.remove_keys(key_span(*key, *range_end)));
            }
            return rst;
        }
        let mut k: i32 = *key;
        loop
            invariant_except_break
                self.contents() == m0.remove_keys(Set::new(|x: i32| *key <= x && x < k)),
                rst@ == keys_between(m0.dom(), *key as int, k - 1).map_values(|x: i32| m0[x]),
            invariant
                *key <= k <= *range_end,
                m0 == old(self).contents(),
            ensures
                self.contents() == m0.remove_keys(key_span(*key, *range_end)),
                rst@ == keys_between(m0.dom(), *key as int, *range_end as int).map_values(|x: i32| m0[x]),
            decreases *range_end - k,
        {
            let ghost before = self.contents();
            let removed = skip_map_remove(&mut self.index, k);
            let ghost prev = keys_between(m0.dom(), *key as int, k - 1);
            let ghost next = keys_between(m0.dom(), *key as int, k as int);
            match removed {
                Some(v) => {
                    rst.push(v);
                    proof {
                        assert(before.contains_key(k));
                        assert(m0.contains_key(k) && m0[k] == v);
                        assert(next == prev.push(k));
                        assert(rst@ =~= next.map_values(|x: i32| m0[x]));
                    }
                },
                None => {
                    proof {
                        assert(!m0.contains_key(k));
                        assert(next == prev);
                    }
                },
            }
            proof {
                assert(self.contents() =~= m0.remove_keys(Set::new(|x: i32| *key <= x && x < k + 1)));
            }
            if k == *range_end {
                proof {
                    assert(Set::new(|x: i32| *key <= x && x < k + 1) =~= key_span(*key, *range_end));
                }
                break;
            }
            k = k + 1;
        }
        rst
    }

    /// Insert a key, or update it; returns the value the key held before,
    /// or the value given when the key is new.
    pub fn insert_or_update(&mut self, key: i32, value: i32) -> (r: Option<i32>)
        ensures
            final(self).contents() == old(self).contents().insert(key, value),
            r == Some(if old(self).contents().contains_key(key) {
                old(self).contents()[key]
            } else {
                value
            }),
    {
        let held = skip_map_get_or_insert(&mut self.index, key, value);
        if held != value {
            skip_map_insert(&mut self.index, key, value);
        }
        proof {
            assert(self.contents() =~= old(self).contents().insert(key, value));
        }
        Some(held)
    }
}

} // verus!
