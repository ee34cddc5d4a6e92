//! An index that creates its ordered map on the first insert.
use vstd::prelude::*;
use crate::key::IndexKey;
use crate::sorted::{strictly_sorted, range_values, outside_range};
use crate::sorted_map::SortedVecMap;
use crate::IndexOperate;

verus! {

/// The index: no map until the first insert.
pub struct Basedata<K, V> {
    tree: Option<SortedVecMap<K, V>>,
}

impl<K: IndexKey, V: Copy> Basedata<K, V> {
    /// Whether the map has been created.
    pub closed spec fn has_tree(&self) -> bool {
        self.tree is Some
    }

    /// The entries in key order (none before the map is created).
    /// The entries of a well-formed index are in strictly increasing key order.
    pub proof fn law_entries_sorted(&self)
        requires
            IndexOperate::<K, V>::well_formed(self),
        ensures
            strictly_sorted::<K, V>(self.entries()),
    {
    }

    pub closed spec fn entries(&self) -> Seq<(K::V, V)> {
        match self.tree {
            Some(t) => t.model(),
            None => Seq::empty(),
        }
    }

    pub fn new() -> (r: Self)
        ensures
            !r.has_tree(),
            r.entries() == Seq::<(K::V, V)>::empty(),
            r.well_formed(),
    {
        Basedata { tree: None }
    }

    /// Create the map.
    fn new_tree(&mut self)
        ensures
            final(self).has_tree(),
            final(self).entries() == Seq::<(K::V, V)>::empty(),
            final(self).well_formed(),
    {
        self.tree = Some(SortedVecMap::new());
    }

    /// The map, if it has been created.
    fn contains(&self) -> (r: Option<&SortedVecMap<K, V>>)
        ensures
            r is Some <==> self.has_tree(),
            r matches Some(t) ==> *t == self.tree->0,
    {
        self.tree.as_ref()
    }
}

impl<K: IndexKey, V: Copy> IndexOperate<K, V> for Basedata<K, V> {
    open spec fn stored(&self) -> Seq<(K::V, V)> {
        self.entries()
    }

    proof fn law_stored_sorted(&self) {
    }

    closed spec fn well_formed(&self) -> bool {
        self.tree matches Some(t) ==> t.wf()
    }


    /// Values of the keys in `[key, range_end]`, in key order.
    fn get(&self, key: &K, range_end: &K) -> (r: Vec<&V>)
    {
        match self.contains() {
            Some(root) => root.bounded_refs(key, range_end, true),
            None => {
                proof {
                    reveal(Seq::filter);
                }
                let r: Vec<&V> = Vec::new();
                assert(r@.unref() =~= range_values::<K, V>(self.entries(), key@, range_end@));
                r
            },
        }
    }

    /// Removes the keys in `[key, range_end]`; returns their values in key
    /// order.
    fn delete(&mut self, key: &K, range_end: &K) -> (r: Vec<V>)
        ensures
            final(self).has_tree() == old(self).has_tree(),
    {
        match &mut self.tree {
            Some(root) => root.remove_range(key, range_end),
            None => {
                proof {
                    reveal(Seq::filter);
                }
                let r: Vec<V> = Vec::new();
                assert(r@ =~= range_values::<K, V>(old(self).entries(), key@, range_end@));
                assert(self.entries() =~= outside_range::<K, V>(old(self).entries(), key@, range_end@));
                r
            },
        }
    }

    fn insert_or_update(&mut self, key: K, value: V) -> (r: Option<V>)
        ensures
            final(self).has_tree(),
    {
        if self.tree.is_none() {
            self.new_tree();
        }
        match &mut self.tree {
            Some(root) => root.insert(key, value),
            None => None,
        }
    }
}

} // verus!
