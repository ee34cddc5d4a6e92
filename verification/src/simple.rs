//! The simplest index: one ordered map holding every entry.
use vstd::prelude::*;
use crate::key::IndexKey;
use crate::sorted::strictly_sorted;
use crate::sorted_map::SortedVecMap;
use crate::{Index, IndexOperate};

verus! {

/// Most common and simple index: one ordered map.
pub struct SimpleIndex<K, V> {
    inner: SortedVecMap<K, V>,
}

impl<K: IndexKey, V> SimpleIndex<K, V> {
    /// The entries in key order.
    pub closed spec fn entries(&self) -> Seq<(K::V, V)> {
        self.inner.model()
    }

    /// The entries of a well-formed index are in strictly increasing key order.
    pub proof fn law_entries_sorted(&self)
        requires
            IndexOperate::<K, V>::well_formed(self),
        ensures
            strictly_sorted::<K, V>(self.entries()),
    {
    }
}

impl<K: IndexKey, V> Index for SimpleIndex<K, V> {
    open spec fn size_model(&self) -> nat {
        self.entries().len()
    }

    fn new() -> (r: Self)
        ensures
            r.entries() == Seq::<(K::V, V)>::empty(),
            IndexOperate::<K, V>::well_formed(&r),
    {
        SimpleIndex { inner: SortedVecMap::new() }
    }

    fn len(&self) -> (n: usize) {
        self.inner.len()
    }
}

impl<K: IndexKey, V> IndexOperate<K, V> for SimpleIndex<K, V> {
    open spec fn stored(&self) -> Seq<(K::V, V)> {
        self.entries()
    }

    proof fn law_stored_sorted(&self) {
    }

    closed spec fn well_formed(&self) -> bool {
        self.inner.wf()
    }


    fn get(&self, key: &K, range_end: &K) -> (r: Vec<&V>)
    {
        self.inner.bounded_refs(key, range_end, true)
    }

    fn delete(&mut self, key: &K, range_end: &K) -> (r: Vec<V>)
    {
        self.inner.remove_range(key, range_end)
    }

    fn insert_or_update(&mut self, key: K, value: V) -> (r: Option<V>)
    {
        self.inner.insert(key, value)
    }
}

} // verus!
