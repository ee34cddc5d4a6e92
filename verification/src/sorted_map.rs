//! An ordered map kept as a vector of entries in strictly increasing key
//! order, with lookups by binary search and in-order range scans.
//!
//! Keys are ordered by `IndexKey`, `String` among them. vstd's
//! `BTreeMap` contracts hold only for key types whose `Ord` vstd specifies
//! (the integers, not `String`), and it specifies no range query, so a range
//! read or delete on it could only walk the whole map; this map offers both
//! with exact contracts for every `IndexKey`.
use vstd::prelude::*;
use crate::key::{IndexKey, KeyOrder, lemma_not_lt};
use crate::sorted::{
    strictly_sorted, key_in_bounds, bounded_values, range_values, outside_range, lower_index,
    lookup, upsert, remove_key, values_of, lemma_lower_index, lemma_bounded_block, lemma_sorted_cut, lemma_upsert_sorted,
};

verus! {

pub struct SortedVecMap<K, V> {
    entries: Vec<(K, V)>,
}

impl<K: IndexKey, V> SortedVecMap<K, V> {
    /// The entries in key order, keys by their view.
    pub closed spec fn model(&self) -> Seq<(K::V, V)> {
        self.entries@.map_values(|e: (K, V)| (e.0@, e.1))
    }

    pub open spec fn wf(&self) -> bool {
        strictly_sorted::<K, V>(self.model())
    }

    pub fn new() -> (m: Self)
        ensures
            m.wf(),
            m.model() == Seq::<(K::V, V)>::empty(),
    {
        let m = SortedVecMap { entries: Vec::new() };
        assert(m.model() =~= Seq::<(K::V, V)>::empty());
        m
    }

    pub fn len(&self) -> (n: usize)
        ensures
            n == self.model().len(),
    {
        self.entries.len()
    }

    /// Index of the first entry whose key is not below `k`.
    pub fn lower_bound(&self, k: &K) -> (p: usize)
        requires
            self.wf(),
        ensures
            p == lower_index::<K, V>(self.model(), k@),
            p <= self.model().len(),
            forall|i: int| 0 <= i < p ==> K::key_lt(#[trigger] self.model()[i].0, k@),
            forall|i: int| p <= i < self.model().len() ==> !K::key_lt(#[trigger] self.model()[i].0, k@),
    {
        let ghost s = self.model();
        let mut lo: usize = 0;
        let mut hi: usize = self.entries.len();
        while lo < hi
            invariant
                s == self.model(),
                strictly_sorted::<K, V>(s),
                0 <= lo <= hi <= s.len(),
                hi <= self.entries@.len(),
                forall|i: int| 0 <= i < lo ==> K::key_lt(#[trigger] s[i].0, k@),
                forall|i: int| hi <= i < s.len() ==> !K::key_lt(#[trigger] s[i].0, k@),
            decreases hi - lo,
        {
            let mid = lo + (hi - lo) / 2;
            let o = self.entries[mid].0.compare(k);
            assert(s[mid as int].0 == self.entries@[mid as int].0@);
            if o == KeyOrder::Less {
                assert forall|i: int| 0 <= i < mid + 1 implies K::key_lt(#[trigger] s[i].0, k@) by {
                    if i < mid {
                        K::lemma_lt_transitive(s[i].0, s[mid as int].0, k@);
                    }
                }
                lo = mid + 1;
            } else {
                assert forall|i: int| mid <= i < s.len() implies !K::key_lt(#[trigger] s[i].0, k@) by {
                    if i > mid {
                        lemma_not_lt::<K>(s[mid as int].0, k@);
                        if K::key_lt(s[i].0, k@) {
                            crate::key::lemma_lt_le_transitive::<K>(s[mid as int].0, s[i].0, k@);
                            K::lemma_lt_irreflexive(k@);
                            crate::key::lemma_lt_le_transitive::<K>(k@, s[mid as int].0, k@);
                        }
                    }
                }
                hi = mid;
            }
        }
        proof {
            lemma_lower_index::<K, V>(s, k@, lo as int);
        }
        lo
    }

    /// Whether the entry at `p` has key `k`.
    fn holds_key_at(&self, p: usize, k: &K) -> (b: bool)
        ensures
            b == (p < self.model().len() && self.model()[p as int].0 == k@),
    {
        if p < self.entries.len() {
            self.entries[p].0.compare(k) == KeyOrder::Equal
        } else {
            false
        }
    }

    /// The value stored under `k`.
    pub fn get(&self, k: &K) -> (r: Option<&V>)
        requires
            self.wf(),
        ensures
            match r {
                Some(v) => lookup::<K, V>(self.model(), k@) == Some(*v),
                None => lookup::<K, V>(self.model(), k@) is None,
            },
    {
        let p = self.lower_bound(k);
        if self.holds_key_at(p, k) {
            Some(&self.entries[p].1)
        } else {
            None
        }
    }

    /// Bind `k` to `v`; returns the value `k` had.
    pub fn insert(&mut self, k: K, v: V) -> (r: Option<V>)
        requires
            old(self).wf(),
        ensures
            final(self).wf(),
            final(self).model() == upsert::<K, V>(old(self).model(), k@, v),
            r == lookup::<K, V>(old(self).model(), k@),
    {
        let ghost s = self.model();
        let p = self.lower_bound(&k);
        proof {
            lemma_upsert_sorted::<K, V>(s, k@, v);
        }
        if self.holds_key_at(p, &k) {
            let (_, old_v) = self.entries.remove(p);
            self.entries.insert(p, (k, v));
            assert(self.model() =~= s.update(p as int, (k@, v)));
            Some(old_v)
        } else {
            self.entries.insert(p, (k, v));
            assert(self.model() =~= s.insert(p as int, (k@, v)));
            None
        }
    }

    /// Remove the entry of `k`; returns its value.
    pub fn remove(&mut self, k: &K) -> (r: Option<V>)
        requires
            old(self).wf(),
        ensures
            final(self).wf(),
            final(self).model() == remove_key::<K, V>(old(self).model(), k@),
            r == lookup::<K, V>(old(self).model(), k@),
    {
        let ghost s = self.model();
        let p = self.lower_bound(k);
        proof {
            lemma_upsert_sorted::<K, V>(s, k@, arbitrary());
        }
        if self.holds_key_at(p, k) {
            let (_, old_v) = self.entries.remove(p);
            assert(self.model() =~= s.remove(p as int));
            Some(old_v)
        } else {
            None
        }
    }

    /// Replace the value of the entry at index `i`; returns the value it had.
    pub fn replace_value_at(&mut self, i: usize, v: V) -> (r: V)
        requires
            old(self).wf(),
            i < old(self).model().len(),
        ensures
            final(self).wf(),
            final(self).model() == old(self).model().update(i as int, (old(self).model()[i as int].0, v)),
            r == old(self).model()[i as int].1,
    {
        let ghost s = self.model();
        let (key, old_v) = self.entries.remove(i);
        self.entries.insert(i, (key, v));
        assert(self.model() =~= s.update(i as int, (s[i as int].0, v)));
        assert forall|a: int, b: int| #![trigger self.model()[a], self.model()[b]]
            0 <= a < b < self.model().len() implies K::key_lt(self.model()[a].0, self.model()[b].0) by {
            assert(self.model()[a].0 == s[a].0 && self.model()[b].0 == s[b].0);
        }
        old_v
    }

    /// Index just past the block of entries within bounds that starts at the
    /// lower index of `lo`.
    pub fn bounded_end(&self, lo: &K, hi: &K, hi_inclusive: bool) -> (b: usize)
        requires
            self.wf(),
        ensures
            lower_index::<K, V>(self.model(), lo@) <= b <= self.model().len(),
            forall|i: int|
                lower_index::<K, V>(self.model(), lo@) <= i < b ==> key_in_bounds::<K>(
                    #[trigger] self.model()[i].0,
                    lo@,
                    hi@,
                    hi_inclusive,
                ),
            b < self.model().len() ==> !key_in_bounds::<K>(self.model()[b as int].0, lo@, hi@, hi_inclusive),
    {
        let ghost s = self.model();
        let a = self.lower_bound(lo);
        let mut b = a;
        while b < self.entries.len()
            invariant
                s == self.model(),
                strictly_sorted::<K, V>(s),
                a == lower_index::<K, V>(s, lo@),
                a <= b <= s.len(),
                s.len() == self.entries@.len(),
                forall|i: int| a <= i < s.len() ==> !K::key_lt(#[trigger] s[i].0, lo@),
                forall|i: int| a <= i < b ==> key_in_bounds::<K>(#[trigger] s[i].0, lo@, hi@, hi_inclusive),
            decreases s.len() - b,
        {
            let o = self.entries[b].0.compare(hi);
            assert(s[b as int].0 == self.entries@[b as int].0@);
            proof {
                lemma_not_lt::<K>(s[b as int].0, lo@);
            }
            if o == KeyOrder::Less || (hi_inclusive && o == KeyOrder::Equal) {
                b = b + 1;
            } else {
                return b;
            }
        }
        b
    }

    /// References to the values with `lo <= key <= hi` (or `< hi`), in key order.
    pub fn bounded_refs(&self, lo: &K, hi: &K, hi_inclusive: bool) -> (r: Vec<&V>)
        requires
            self.wf(),
        ensures
            r@.unref() == bounded_values::<K, V>(self.model(), lo@, hi@, hi_inclusive),
    {
        let ghost s = self.model();
        let a = self.lower_bound(lo);
        let b = self.bounded_end(lo, hi, hi_inclusive);
        proof {
            lemma_bounded_block::<K, V>(s, lo@, hi@, hi_inclusive, b as int);
        }
        let mut r: Vec<&V> = Vec::new();
        let mut i = a;
        while i < b
            invariant
                s == self.model(),
                a <= i <= b <= s.len(),
                s.len() == self.entries@.len(),
                r@.len() == i - a,
                r@.unref() == values_of::<K, V>(s.subrange(a as int, i as int)),
            decreases b - i,
        {
            let ghost r0 = r@;
            r.push(&self.entries[i].1);
            assert(s[i as int].1 == self.entries@[i as int].1);
            assert(r@ == r0.push(&self.entries@[i as int].1));
            assert(s.subrange(a as int, i + 1) =~= s.subrange(a as int, i as int).push(s[i as int]));
            assert forall|t: int| 0 <= t < r@.len() implies r@.unref()[t] == values_of::<K, V>(s.subrange(a as int, i + 1))[t] by {
                if t < r0.len() {
                    assert(r0.unref()[t] == values_of::<K, V>(s.subrange(a as int, i as int))[t]);
                    assert(r@[t] == r0[t]);
                } else {
                    assert(r@[t] == &self.entries@[i as int].1);
                    assert(*r@[t] == s[i as int].1);
                    assert(s.subrange(a as int, i + 1)[t] == s[i as int]);
                }
            }
            assert(r@.unref() =~= values_of::<K, V>(s.subrange(a as int, i + 1)));
            i = i + 1;
        }
        r
    }

    /// Remove the entries with `lo <= key <= hi`; returns their values in key order.
    pub fn remove_range(&mut self, lo: &K, hi: &K) -> (r: Vec<V>)
        requires
            old(self).wf(),
        ensures
            final(self).wf(),
            final(self).model() == outside_range::<K, V>(old(self).model(), lo@, hi@),
            r@ == range_values::<K, V>(old(self).model(), lo@, hi@),
    {
        let ghost s = self.model();
        let a = self.lower_bound(lo);
        let b = self.bounded_end(lo, hi, true);
        proof {
            lemma_bounded_block::<K, V>(s, lo@, hi@, true, b as int);
            lemma_sorted_cut::<K, V>(s, a as int, b as int);
        }
        let ghost e0 = self.entries@;
        let mut r: Vec<V> = Vec::new();
        let mut j = a;
        while j < b
            invariant
                a <= j <= b <= s.len(),
                s == e0.map_values(|e: (K, V)| (e.0@, e.1)),
                s.len() == e0.len(),
                self.entries@ == e0.subrange(0, a as int) + e0.subrange(j as int, e0.len() as int),
                r@ == values_of::<K, V>(s.subrange(a as int, j as int)),
            decreases b - j,
        {
            let (_, v) = self.entries.remove(a);
            assert(v == e0[j as int].1);
            r.push(v);
            assert(s.subrange(a as int, j + 1) =~= s.subrange(a as int, j as int).push(s[j as int]));
            assert(r@ =~= values_of::<K, V>(s.subrange(a as int, j + 1)));
            assert(self.entries@ =~= e0.subrange(0, a as int) + e0.subrange(j + 1, e0.len() as int));
            j = j + 1;
        }
        assert(self.model() =~= s.subrange(0, a as int) + s.subrange(b as int, s.len() as int));
        r
    }
}

} // verus!
