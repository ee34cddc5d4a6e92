//! The baseline index: one ordered map whose deleted values may linger as
//! empty slots.
use vstd::prelude::*;
use crate::key::{IndexKey, KeyOrder};
use crate::sorted::{
    key_in_bounds, range_values, lower_index, lookup, upsert, remove_key, values_of,
    strictly_sorted, lemma_bounded_block, lemma_range_single, lemma_lower_index_split,
};
use crate::sorted_map::SortedVecMap;
use crate::present::{
    present_values, present_entries, lemma_present_sorted, lemma_present_range, lemma_present_remove,
    lemma_present_empty_range, lemma_present_lookup, lemma_present_upsert,
};
use crate::IndexOperate;

verus! {

/// The entries with the values of keys in `[lo, hi]` emptied.
pub open spec fn empty_range<K: IndexKey, V>(s: Seq<(K::V, Option<V>)>, lo: K::V, hi: K::V) -> Seq<(K::V, Option<V>)> {
    s.map_values(|e: (K::V, Option<V>)| if key_in_bounds::<K>(e.0, lo, hi, true) { (e.0, None) } else { e })
}

pub open spec fn flatten<V>(o: Option<Option<V>>) -> Option<V> {
    match o {
        Some(Some(v)) => Some(v),
        _ => None,
    }
}

/// Type of a key range.
#[derive(Debug, PartialEq, Eq, Structural)]
pub enum RangeType {
    /// The range contains only one key
    OneKey,
    /// The range contains the keys in the range
    Range,
}

impl RangeType {
    /// Get the range type of the range from `key` to `range_end`.
    pub fn get_range_type<K: IndexKey>(key: &K, range_end: &K) -> (r: RangeType)
        ensures
            r == (if key@ == range_end@ { RangeType::OneKey } else { RangeType::Range }),
    {
        if key.compare(range_end) == KeyOrder::Equal {
            RangeType::OneKey
        } else {
            RangeType::Range
        }
    }
}

/// KV store inner: keys with their values, or with an empty slot where a
/// range delete took the value.
pub struct Index<K, V> {
    index: SortedVecMap<K, Option<V>>,
}

/// Push the present values among `refs`, in order.
fn present_refs<'a, V>(refs: Vec<&'a Option<V>>) -> (r: Vec<&'a V>)
    ensures
        r@.unref() == present_values(refs@.unref()),
{
    let mut r: Vec<&V> = Vec::new();
    let mut i: usize = 0;
    while i < refs.len()
        invariant
            i <= refs@.len(),
            r@.unref() == present_values(refs@.unref().subrange(0, i as int)),
        decreases refs@.len() - i,
    {
        let ghost s0 = refs@.unref().subrange(0, i as int);
        let ghost s1 = refs@.unref().subrange(0, i + 1);
        proof {
            assert(s1.drop_last() =~= s0);
            assert(s1.last() == *refs@[i as int]);
            reveal(Seq::filter);
        }
        let ghost r0 = r@;
        match refs[i] {
            Some(v) => {
                r.push(v);
                proof {
                    let f0 = s0.filter(|o: Option<V>| o is Some);
                    assert(s1.filter(|o: Option<V>| o is Some) == f0.push(s1.last()));
                    assert(s1.last() == Some(*v));
                    assert(present_values(s1) =~= present_values(s0).push(*v));
                    assert(r@ == r0.push(v));
                    assert(r@.unref() =~= r0.unref().push(*v));
                }
            },
            None => {
                proof {
                    assert(s1.filter(|o: Option<V>| o is Some) == s0.filter(|o: Option<V>| o is Some));
                }
            },
        }
        i = i + 1;
    }
    proof {
        assert(refs@.unref().subrange(0, i as int) =~= refs@.unref());
    }
    r
}

impl<K: IndexKey, V> Index<K, V> {
    /// The entries of a well-formed index are in strictly increasing key order.
    pub proof fn law_entries_sorted(&self)
        requires
            IndexOperate::<K, V>::well_formed(self),
        ensures
            strictly_sorted::<K, Option<V>>(self.entries()),
    {
    }

    /// The entries in key order, a value or an empty slot for each key.
    pub closed spec fn entries(&self) -> Seq<(K::V, Option<V>)> {
        self.index.model()
    }

    pub fn new() -> (r: Self)
        ensures
            r.entries() == Seq::<(K::V, Option<V>)>::empty(),
            IndexOperate::<K, V>::well_formed(&r),
    {
        Index { index: SortedVecMap::new() }
    }
}

impl<K: IndexKey, V> Default for Index<K, V> {
    fn default() -> (r: Self)
        ensures
            r.entries() == Seq::<(K::V, Option<V>)>::empty(),
            IndexOperate::<K, V>::well_formed(&r),
    {
        Self::new()
    }
}

impl<K: IndexKey, V> IndexOperate<K, V> for Index<K, V> {
    /// The keys whose slot holds a value, with that value.
    open spec fn stored(&self) -> Seq<(K::V, V)> {
        present_entries::<K, V>(self.entries())
    }

    proof fn law_stored_sorted(&self) {
        lemma_present_sorted::<K, V>(self.entries());
    }

    closed spec fn well_formed(&self) -> bool {
        self.index.wf()
    }


    fn get(&self, start: &K, end: &K) -> (r: Vec<&V>)
        ensures
            r@.unref() == present_values(range_values::<K, Option<V>>(self.entries(), start@, end@)),
    {
        proof {
            lemma_present_range::<K, V>(self.entries(), start@, end@);
        }
        match RangeType::get_range_type(start, end) {
            RangeType::OneKey => {
                proof {
                    lemma_range_single::<K, Option<V>>(self.entries(), start@);
                }
                match self.index.get(start) {
                    Some(slot) => match slot {
                        Some(v) => {
                            let r = vec![v];
                            proof {
                                reveal_with_fuel(Seq::filter, 2);
                                assert(r@.unref() =~= present_values(seq![Some(*v)]));
                            }
                            r
                        },
                        None => {
                            let r: Vec<&V> = Vec::new();
                            proof {
                                reveal_with_fuel(Seq::filter, 2);
                                assert(r@.unref() =~= present_values(seq![None::<V>]));
                            }
                            r
                        },
                    },
                    None => {
                        let r: Vec<&V> = Vec::new();
                        proof {
                            reveal(Seq::filter);
                            assert(r@.unref() =~= present_values(Seq::<Option<V>>::empty()));
                        }
                        r
                    },
                }
            },
            RangeType::Range => {
                let refs = self.index.bounded_refs(start, end, true);
                present_refs(refs)
            },
        }
    }

    fn delete(&mut self, start: &K, end: &K) -> (r: Vec<V>)
        ensures
            r@ == present_values(range_values::<K, Option<V>>(old(self).entries(), start@, end@)),
            start@ == end@ ==> final(self).entries() == remove_key::<K, Option<V>>(old(self).entries(), start@),
            start@ != end@ ==> final(self).entries() == empty_range::<K, V>(old(self).entries(), start@, end@),
    {
        let ghost s0 = self.entries();
        proof {
            lemma_present_range::<K, V>(s0, start@, end@);
            lemma_present_remove::<K, V>(s0, start@);
            lemma_present_empty_range::<K, V>(s0, start@, end@);
        }
        match RangeType::get_range_type(start, end) {
            RangeType::OneKey => {
                proof {
                    lemma_range_single::<K, Option<V>>(s0, start@);
                }
                match self.index.remove(start) {
                    Some(slot) => match slot {
                        Some(v) => {
                            let r = vec![v];
                            proof {
                                reveal_with_fuel(Seq::filter, 2);
                                assert(r@ =~= present_values(seq![Some(v)]));
                            }
                            r
                        },
                        None => {
                            let r: Vec<V> = Vec::new();
                            proof {
                                reveal_with_fuel(Seq::filter, 2);
                                assert(r@ =~= present_values(seq![None::<V>]));
                            }
                            r
                        },
                    },
                    None => {
                        let r: Vec<V> = Vec::new();
                        proof {
                            reveal(Seq::filter);
                            assert(r@ =~= present_values(Seq::<Option<V>>::empty()));
                        }
                        r
                    },
                }
            },
            RangeType::Range => {
                let a = self.index.lower_bound(start);
                let b = self.index.bounded_end(start, end, true);
                proof {
                    lemma_bounded_block::<K, Option<V>>(s0, start@, end@, true, b as int);
                }
                let mut r: Vec<V> = Vec::new();
                let mut i = a;
                while i < b
                    invariant
                        self.index.wf(),
                        strictly_sorted::<K, Option<V>>(s0),
                        a == lower_index::<K, Option<V>>(s0, start@),
                        a <= i <= b <= s0.len(),
                        self.entries().len() == s0.len(),
                        forall|t: int| 0 <= t < s0.len() && !(a <= t < i) ==> #[trigger] self.entries()[t] == s0[t],
                        forall|t: int| a <= t < i ==> #[trigger] self.entries()[t] == (s0[t].0, None::<V>),
                        r@ == present_values(values_of::<K, Option<V>>(s0.subrange(a as int, i as int))),
                    decreases b - i,
                {
                    let ghost s_i = values_of::<K, Option<V>>(s0.subrange(a as int, i as int));
                    let ghost s_j = values_of::<K, Option<V>>(s0.subrange(a as int, i + 1));
                    proof {
                        assert(s_j.drop_last() =~= s_i);
                        assert(s_j.last() == s0[i as int].1);
                        reveal(Seq::filter);
                    }
                    let slot = self.index.replace_value_at(i, None);
                    match slot {
                        Some(v) => {
                            r.push(v);
                            proof {
                                assert(r@ =~= present_values(s_j));
                            }
                        },
                        None => {
                            proof {
                                assert(present_values(s_j) =~= present_values(s_i));
                            }
                        },
                    }
                    i = i + 1;
                }
                proof {
                    lemma_lower_index_split::<K, Option<V>>(s0, start@);
                    assert forall|t: int| 0 <= t < s0.len() && !(a <= t < b) implies !key_in_bounds::<K>(#[trigger] s0[t].0, start@, end@, true) by {
                        assert(s0.filter(crate::sorted::bounds_pred::<K, Option<V>>(start@, end@, true)) == s0.subrange(a as int, b as int));
                        if t < a {
                            crate::key::lemma_lt_asymmetric::<K>(s0[t].0, start@);
                        } else if t > b {
                            crate::key::lemma_not_lt::<K>(s0[b as int].0, start@);
                            crate::key::lemma_not_lt::<K>(s0[t].0, start@);
                            if key_in_bounds::<K>(s0[t].0, start@, end@, true) {
                                crate::key::lemma_lt_le_transitive::<K>(s0[b as int].0, s0[t].0, end@);
                            }
                        }
                    }
                    assert(self.entries() =~= empty_range::<K, V>(s0, start@, end@));
                }
                r
            },
        }
    }

    fn insert_or_update(&mut self, key: K, value: V) -> (r: Option<V>)
        ensures
            r == flatten(lookup::<K, Option<V>>(old(self).entries(), key@)),
            final(self).entries() == upsert::<K, Option<V>>(old(self).entries(), key@, Some(value)),
    {
        proof {
            lemma_present_lookup::<K, V>(self.entries(), key@);
            lemma_present_upsert::<K, V>(self.entries(), key@, value);
        }
        match self.index.insert(key, Some(value)) {
            Some(slot) => slot,
            None => None,
        }
    }
}

} // verus!
