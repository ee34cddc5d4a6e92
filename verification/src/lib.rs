//! Ordered key/value indexes: several interchangeable implementations of a
//! range-queryable index (sorted vector, skip lists, a concurrent skip map)
//! with their behaviour stated and proved.
use vstd::prelude::*;
use crate::key::IndexKey;
use crate::sorted::{strictly_sorted, range_values, outside_range, lookup, upsert};

pub mod key;
pub mod sorted;
pub mod sorted_map;
pub mod simple;
pub mod random;
pub mod skipmap;
pub mod crossbeam_map;
pub mod cs_index;
pub mod skiplist;
pub mod crossbeam_gate;
pub mod present;
pub mod xline_baseline;
pub mod basedata;
pub mod entry;
pub mod lockfree_queue;
pub mod skip;
pub mod laws;

pub use cs_index::CSIndex;
pub use simple::SimpleIndex;
pub use skipmap::index::SkipMapIndex;

verus! {

/// An index that can be created empty and counted.
pub trait Index: Sized {
    spec fn size_model(&self) -> nat;

    fn new() -> (r: Self)
        ensures
            r.size_model() == 0,
    ;

    fn len(&self) -> (n: usize)
        ensures
            n == self.size_model(),
    ;
}

/// Operations of an index. An index holds entries in strictly increasing
/// key order; its operations read, remove and write them as stated here.
pub trait IndexOperate<K: IndexKey, V>: Sized {
    /// The invariant of the index's representation.
    spec fn well_formed(&self) -> bool;

    /// The entries that the index holds, in key order.
    spec fn stored(&self) -> Seq<(K::V, V)>;

    /// The entries of a well-formed index are in strictly increasing key order.
    proof fn law_stored_sorted(&self)
        requires
            self.well_formed(),
        ensures
            strictly_sorted::<K, V>(self.stored()),
    ;

    /// Get the values of the keys in [key, range_end], in key order (none when key > range_end).
    fn get(&self, key: &K, range_end: &K) -> (r: Vec<&V>)
        requires
            self.well_formed(),
        ensures
            r@.unref() == range_values::<K, V>(self.stored(), key@, range_end@),
    ;

    /// Delete a range of keys in [key, range_end]; returns their values in key order.
    fn delete(&mut self, key: &K, range_end: &K) -> (r: Vec<V>)
        requires
            old(self).well_formed(),
        ensures
            final(self).well_formed(),
            r@ == range_values::<K, V>(old(self).stored(), key@, range_end@),
            final(self).stored() == outside_range::<K, V>(old(self).stored(), key@, range_end@),
    ;

    /// Insert or update a key; returns the value the key had.
    fn insert_or_update(&mut self, key: K, value: V) -> (r: Option<V>)
        requires
            old(self).well_formed(),
        ensures
            final(self).well_formed(),
            r == lookup::<K, V>(old(self).stored(), key@),
            final(self).stored() == upsert::<K, V>(old(self).stored(), key@, value),
    ;
}

} // verus!
