//! The skip map as an index, with a count of its entries.
use vstd::prelude::*;
use crate::key::IndexKey;
use crate::sorted::{strictly_sorted, lemma_range_split_len};
use crate::skipmap::base::BaseSkipMap;
use crate::{Index, IndexOperate};

verus! {

/// The skip map and the number of keys it holds.
pub struct SkipMapIndex<K, V> {
    inner: BaseSkipMap<K, V>,
    n: usize,
}

impl<K: IndexKey, V> SkipMapIndex<K, V> {
    /// The entries in key order.
    pub closed spec fn entries(&self) -> Seq<(K::V, V)> {
        self.inner.entries()
    }
}

impl<K: IndexKey + Default, V> SkipMapIndex<K, V> {
    /// The count kept beside the map is the number of its entries, and the
    /// entries are in strictly increasing key order.
    pub proof fn law_len_counts_entries(&self)
        requires
            IndexOperate::<K, V>::well_formed(self),
        ensures
            Index::size_model(self) == self.entries().len(),
            strictly_sorted::<K, V>(self.entries()),
    {
        self.inner.law_entries_sorted();
    }
}

impl<K: IndexKey + Default, V> Index for SkipMapIndex<K, V> {
    closed spec fn size_model(&self) -> nat {
        self.n as nat
    }

    fn new() -> (r: Self)
        ensures
            r.entries() == Seq::<(K::V, V)>::empty(),
            IndexOperate::<K, V>::well_formed(&r),
    {
        SkipMapIndex { inner: BaseSkipMap::new(), n: 0 }
    }

    fn len(&self) -> (n: usize) {
        self.n
    }
}

impl<K: IndexKey, V> IndexOperate<K, V> for SkipMapIndex<K, V> {
    open spec fn stored(&self) -> Seq<(K::V, V)> {
        self.entries()
    }

    proof fn law_stored_sorted(&self) {
        self.inner.law_entries_sorted();
    }

    closed spec fn well_formed(&self) -> bool {
        self.inner.inv() && self.n == self.inner.entries().len()
    }


    fn get(&self, key: &K, range_end: &K) -> (r: Vec<&V>)
    {
        self.inner.get_range(key, range_end)
    }

    fn delete(&mut self, key: &K, range_end: &K) -> (r: Vec<V>)
    {
        let ret = self.inner.del_range(key, range_end);
        proof {
            lemma_range_split_len::<K, V>(old(self).entries(), key@, range_end@);
        }
        self.n = self.n - ret.len();
        ret
    }

    fn insert_or_update(&mut self, key: K, value: V) -> (r: Option<V>)
    {
        let ret = self.inner.insert_or_update(key, value);
        if ret.is_none() {
            proof {
                crate::sorted::lemma_upsert_len::<K, V>(old(self).entries(), key@, value);
            }
            self.n = self.n + 1;
        }
        ret
    }
}

} // verus!
