//! Laws of the indexes, stated over the models that their operations'
//! contracts use: sorted entry sequences for the ordered indexes, maps for
//! the ones on `crossbeam_skiplist`, a sequence of items for the queue.
use vstd::prelude::*;
use crate::key::{IndexKey, key_in_range, lemma_lt_asymmetric};
use crate::sorted::{
    strictly_sorted, key_in_bounds, bounds_pred, outside_pred, range_values, outside_range, lower_index,
    lookup, upsert, remove_key, lemma_lower_index_split, lemma_lookup_index, lemma_range_single,
    lemma_upsert_sorted, lemma_filter_sorted, lemma_upsert_len, lemma_range_split_len, lemma_filter_all_false, lemma_bounded_block,
};
use crate::crossbeam_map::{values_between, keys_between, key_span, map_get, lemma_keys_between, lemma_keys_between_single};
use crate::xline_baseline::empty_range;
use crate::present::present_values;

verus! {

/// A read gives back the last write: after `insert_or_update(k, v)` the key
/// looks up to `v`, and a one-key read of `k` gives `[v]`.
pub proof fn law_get_after_insert<K: IndexKey, V>(s: Seq<(K::V, V)>, k: K::V, v: V)
    requires
        strictly_sorted::<K, V>(s),
    ensures
        lookup::<K, V>(upsert::<K, V>(s, k, v), k) == Some(v),
        range_values::<K, V>(upsert::<K, V>(s, k, v), k, k) == seq![v],
        strictly_sorted::<K, V>(upsert::<K, V>(s, k, v)),
{
    lemma_upsert_sorted::<K, V>(s, k, v);
    lemma_lower_index_split::<K, V>(s, k);
    let t = upsert::<K, V>(s, k, v);
    let p = lower_index::<K, V>(s, k);
    assert(t[p] == (k, v));
    lemma_lookup_index::<K, V>(t, k);
    lemma_range_single::<K, V>(t, k);
}

/// A write touches its own key only: after `insert_or_update(k, v)` every
/// other key looks up to what it did before.
pub proof fn law_insert_keeps_other_keys<K: IndexKey, V>(s: Seq<(K::V, V)>, k: K::V, v: V, j: K::V)
    requires
        strictly_sorted::<K, V>(s),
        j != k,
    ensures
        lookup::<K, V>(upsert::<K, V>(s, k, v), j) == lookup::<K, V>(s, j),
{
    lemma_upsert_sorted::<K, V>(s, k, v);
    lemma_lower_index_split::<K, V>(s, k);
    let t = upsert::<K, V>(s, k, v);
    let p = lower_index::<K, V>(s, k);
    lemma_lookup_index::<K, V>(s, j);
    lemma_lookup_index::<K, V>(t, j);
    let updated = p < s.len() && s[p].0 == k;
    if lookup::<K, V>(s, j) is Some {
        let i = lower_index::<K, V>(s, j);
        assert(s[i].0 == j);
        if updated {
            assert(t[i] == s[i]);
        } else if i < p {
            assert(t[i] == s[i]);
        } else {
            assert(t[i + 1] == s[i]);
        }
    } else {
        assert forall|i: int| 0 <= i < t.len() implies #[trigger] t[i].0 != j by {
            if updated {
                if i != p {
                    assert(t[i] == s[i]);
                }
            } else if i < p {
                assert(t[i] == s[i]);
            } else if i > p {
                assert(t[i] == s[i - 1]);
            }
        }
    }
}

/// `insert_or_update` returns what a one-key read of the key gave just
/// before it.
pub proof fn law_insert_returns_previous_read<K: IndexKey, V>(s: Seq<(K::V, V)>, k: K::V)
    requires
        strictly_sorted::<K, V>(s),
    ensures
        range_values::<K, V>(s, k, k) == (match lookup::<K, V>(s, k) {
            Some(v) => seq![v],
            None => Seq::<V>::empty(),
        }),
{
    lemma_range_single::<K, V>(s, k);
}

/// After `delete(lo, hi)`, a read of the same range gives nothing, the keys
/// in the range look up to nothing, and every other key looks up to what
/// it did before.
pub proof fn law_get_after_delete<K: IndexKey, V>(s: Seq<(K::V, V)>, lo: K::V, hi: K::V, j: K::V)
    requires
        strictly_sorted::<K, V>(s),
    ensures
        range_values::<K, V>(outside_range::<K, V>(s, lo, hi), lo, hi) == Seq::<V>::empty(),
        key_in_range::<K>(j, lo, hi) ==> lookup::<K, V>(outside_range::<K, V>(s, lo, hi), j) is None,
        !key_in_range::<K>(j, lo, hi) ==> lookup::<K, V>(outside_range::<K, V>(s, lo, hi), j) == lookup::<K, V>(
            s,
            j,
        ),
        strictly_sorted::<K, V>(outside_range::<K, V>(s, lo, hi)),
{
    let op = outside_pred::<K, V>(lo, hi);
    let bp = bounds_pred::<K, V>(lo, hi, true);
    let u = outside_range::<K, V>(s, lo, hi);
    lemma_filter_sorted::<K, V>(s, op);
    assert forall|i: int| 0 <= i < u.len() implies !bp(#[trigger] u[i]) by {
        s.lemma_filter_pred(op, i);
    }
    lemma_filter_all_false(u, bp);
    assert(u.filter(bp).map_values(|e: (K::V, V)| e.1) =~= Seq::<V>::empty());
    lemma_lookup_index::<K, V>(u, j);
    lemma_lookup_index::<K, V>(s, j);
    if key_in_range::<K>(j, lo, hi) {
        assert forall|i: int| 0 <= i < u.len() implies #[trigger] u[i].0 != j by {
            s.lemma_filter_pred(op, i);
        }
    } else {
        if lookup::<K, V>(s, j) is Some {
            let i = lower_index::<K, V>(s, j);
            assert(s[i].0 == j);
            s.lemma_filter_contains(op, i);
            let m = choose|m: int| 0 <= m < u.len() && u[m] == s[i];
            assert(u[m].0 == j);
        } else {
            assert forall|m: int| 0 <= m < u.len() implies #[trigger] u[m].0 != j by {
                assert(u.contains(u[m]));
                s.lemma_filter_contains_rev(op, u[m]);
                let i = choose|i: int| 0 <= i < s.len() && s[i] == u[m];
                assert(s[i].0 != j);
            }
        }
    }
}

/// A one-key delete undoes the write of a new key: it gives back the value
/// written and leaves the entries as they were before the write.
pub proof fn law_delete_undoes_insert<K: IndexKey, V>(s: Seq<(K::V, V)>, k: K::V, v: V)
    requires
        strictly_sorted::<K, V>(s),
        lookup::<K, V>(s, k) is None,
    ensures
        range_values::<K, V>(upsert::<K, V>(s, k, v), k, k) == seq![v],
        outside_range::<K, V>(upsert::<K, V>(s, k, v), k, k) == s,
{
    law_get_after_insert::<K, V>(s, k, v);
    lemma_lower_index_split::<K, V>(s, k);
    let t = upsert::<K, V>(s, k, v);
    let p = lower_index::<K, V>(s, k);
    lemma_lookup_index::<K, V>(s, k);
    assert(t == s.insert(p, (k, v)));
    lemma_lower_index_split::<K, V>(t, k);
    lemma_lookup_index::<K, V>(t, k);
    assert(lower_index::<K, V>(t, k) == p);
    K::lemma_lt_irreflexive(k);
    if p + 1 < t.len() {
        assert(K::key_lt(t[p].0, t[p + 1].0));
        lemma_lt_asymmetric::<K>(k, t[p + 1].0);
    }
    lemma_bounded_block::<K, V>(t, k, k, true, p + 1);
    assert(t.subrange(0, p) + t.subrange(p + 1, t.len() as int) =~= s);
}

/// On the indexes backed by a map: a one-key delete undoes the write of a
/// new key.
pub proof fn law_map_delete_undoes_insert(m: Map<i32, i32>, k: i32, v: i32)
    requires
        !m.contains_key(k),
    ensures
        values_between(m.insert(k, v), k, k) == seq![v],
        m.insert(k, v).remove_keys(key_span(k, k)) == m,
{
    lemma_keys_between_single(m.insert(k, v).dom(), k);
    assert(m.insert(k, v).remove_keys(key_span(k, k)) =~= m);
}

/// A one-key delete that removes the key's entry (the linked skip list's
/// `delete`): the key then looks up to nothing, every other key to what it
/// did before, and deleting a key just written as new gives back the
/// entries from before the write.
pub proof fn law_remove_key<K: IndexKey, V>(s: Seq<(K::V, V)>, k: K::V, v: V, j: K::V)
    requires
        strictly_sorted::<K, V>(s),
    ensures
        lookup::<K, V>(remove_key::<K, V>(s, k), k) is None,
        j != k ==> lookup::<K, V>(remove_key::<K, V>(s, k), j) == lookup::<K, V>(s, j),
        lookup::<K, V>(s, k) is None ==> remove_key::<K, V>(upsert::<K, V>(s, k, v), k) == s,
        strictly_sorted::<K, V>(remove_key::<K, V>(s, k)),
{
    lemma_upsert_sorted::<K, V>(s, k, v);
    lemma_lower_index_split::<K, V>(s, k);
    let r = remove_key::<K, V>(s, k);
    let p = lower_index::<K, V>(s, k);
    lemma_lookup_index::<K, V>(s, k);
    lemma_lookup_index::<K, V>(s, j);
    lemma_lookup_index::<K, V>(r, k);
    lemma_lookup_index::<K, V>(r, j);
    let present = p < s.len() && s[p].0 == k;
    assert forall|i: int| 0 <= i < r.len() implies #[trigger] r[i].0 != k by {
        if present {
            let ii = if i < p { i } else { i + 1 };
            assert(r[i] == s[ii]);
            if ii < p {
                assert(K::key_lt(s[ii].0, s[p].0));
            } else {
                assert(K::key_lt(s[p].0, s[ii].0));
            }
            K::lemma_lt_irreflexive(k);
        }
    }
    if j != k {
        if lookup::<K, V>(s, j) is Some {
            let i = lower_index::<K, V>(s, j);
            assert(s[i].0 == j);
            if present {
                if i < p {
                    assert(r[i] == s[i]);
                } else {
                    assert(i != p);
                    assert(r[i - 1] == s[i]);
                }
            } else {
                assert(r[i] == s[i]);
            }
        } else {
            assert forall|i: int| 0 <= i < r.len() implies #[trigger] r[i].0 != j by {
                if present {
                    let ii = if i < p { i } else { i + 1 };
                    assert(r[i] == s[ii]);
                } else {
                    assert(r[i] == s[i]);
                }
            }
        }
    }
    if lookup::<K, V>(s, k) is None {
        let t = upsert::<K, V>(s, k, v);
        assert(t == s.insert(p, (k, v)));
        assert(t[p] == (k, v));
        lemma_lower_index_split::<K, V>(t, k);
        lemma_lookup_index::<K, V>(t, k);
        assert(t[p].0 == k);
        assert(lower_index::<K, V>(t, k) == p);
        assert(t.remove(p) =~= s);
    }
}

/// The count of entries: a write of a new key adds one, a write of a present
/// key none; a delete takes off as many entries as it returns values.
pub proof fn law_count_after_writes<K: IndexKey, V>(s: Seq<(K::V, V)>, k: K::V, v: V, lo: K::V, hi: K::V)
    ensures
        upsert::<K, V>(s, k, v).len() == s.len() + (if lookup::<K, V>(s, k) is None {
            1int
        } else {
            0int
        }),
        outside_range::<K, V>(s, lo, hi).len() == s.len() - range_values::<K, V>(s, lo, hi).len(),
{
    lemma_upsert_len::<K, V>(s, k, v);
    lemma_range_split_len::<K, V>(s, lo, hi);
}

/// On the indexes backed by a map: a one-key read after
/// `insert_or_update(k, v)` gives `[v]`, and other keys keep their values.
pub proof fn law_map_get_after_insert(m: Map<i32, i32>, k: i32, v: i32, j: i32)
    ensures
        values_between(m.insert(k, v), k, k) == seq![v],
        j != k ==> map_get(m.insert(k, v), j) == map_get(m, j),
{
    lemma_keys_between_single(m.insert(k, v).dom(), k);
}

/// On the indexes backed by a map: `insert_or_update` returns what a one-key
/// read of the key gave just before it.
pub proof fn law_map_insert_returns_previous_read(m: Map<i32, i32>, k: i32)
    ensures
        values_between(m, k, k) == (match map_get(m, k) {
            Some(v) => seq![v],
            None => Seq::<i32>::empty(),
        }),
{
    lemma_keys_between_single(m.dom(), k);
}

/// On the indexes backed by a map: after `delete(lo, hi)` a read of the same
/// range gives nothing, and keys outside the range keep their values.
pub proof fn law_map_get_after_delete(m: Map<i32, i32>, lo: i32, hi: i32, j: i32)
    ensures
        values_between(m.remove_keys(key_span(lo, hi)), lo, hi) == Seq::<i32>::empty(),
        !(lo <= j <= hi) ==> map_get(m.remove_keys(key_span(lo, hi)), j) == map_get(m, j),
        lo <= j <= hi ==> map_get(m.remove_keys(key_span(lo, hi)), j) is None,
{
    let d = m.remove_keys(key_span(lo, hi));
    let ks = keys_between(d.dom(), lo as int, hi as int);
    lemma_keys_between(d.dom(), lo as int, hi as int);
    if ks.len() > 0 {
        assert(ks.contains(ks[0]));
    }
    assert(ks.map_values(|k: i32| d[k]) =~= Seq::<i32>::empty());
}

/// Every set of `i32` keys is finite: it lies within the `i32` range.
proof fn lemma_i32_set_finite(d: Set<i32>)
    ensures
        d.finite(),
{
    let r = vstd::set_lib::set_int_range(i32::MIN as int, i32::MAX as int + 1);
    vstd::set_lib::lemma_int_range(i32::MIN as int, i32::MAX as int + 1);
    let f = |y: int| y as i32;
    r.lemma_map_finite(f);
    assert forall|x: i32| d.contains(x) implies #[trigger] r.map(f).contains(x) by {
        assert(r.contains(x as int));
        assert(f(x as int) == x);
    }
    vstd::set_lib::lemma_set_subset_finite(r.map(f), d);
}

/// On the indexes backed by a map, whose `len` is the number of bindings: a
/// write of a new key adds one binding, a write of a present key none, and a
/// delete takes off as many bindings as it returns values.
pub proof fn law_map_count_after_writes(m: Map<i32, i32>, k: i32, v: i32, lo: i32, hi: i32)
    ensures
        m.insert(k, v).len() == m.len() + (if m.contains_key(k) {
            0int
        } else {
            1int
        }),
        m.remove_keys(key_span(lo, hi)).len() == m.len() - values_between(m, lo, hi).len(),
{
    lemma_i32_set_finite(m.dom());
    if m.contains_key(k) {
        assert(m.insert(k, v).dom() =~= m.dom());
    }
    let d = m.dom();
    let ks = keys_between(d, lo as int, hi as int);
    lemma_keys_between(d, lo as int, hi as int);
    assert(ks.no_duplicates()) by {
        assert forall|i: int, j: int| 0 <= i < ks.len() && 0 <= j < ks.len() && i != j implies ks[i] != ks[j] by {
            if i < j {
                assert(ks[i] < ks[j]);
            } else {
                assert(ks[j] < ks[i]);
            }
        }
    }
    ks.unique_seq_to_set();
    let sk = ks.to_set();
    assert forall|x: i32| #[trigger] sk.contains(x) <==> (d.contains(x) && lo <= x <= hi) by {
        assert(ks.contains(x) == sk.contains(x));
    }
    let rest = d.difference(sk);
    assert(m.remove_keys(key_span(lo, hi)).dom() =~= rest);
    assert(rest + sk =~= d);
    assert(rest.disjoint(sk));
    assert(sk.subset_of(d));
    vstd::set_lib::lemma_len_subset(sk, d);
    vstd::set_lib::lemma_set_disjoint_lens(rest, sk);
}

/// On the baseline index: after `insert_or_update(k, v)` a one-key read of
/// `k` gives `[v]`.
pub proof fn law_baseline_get_after_insert<K: IndexKey, V>(s: Seq<(K::V, Option<V>)>, k: K::V, v: V)
    requires
        strictly_sorted::<K, Option<V>>(s),
    ensures
        present_values(range_values::<K, Option<V>>(upsert::<K, Option<V>>(s, k, Some(v)), k, k)) == seq![v],
{
    law_get_after_insert::<K, Option<V>>(s, k, Some(v));
    reveal_with_fuel(Seq::filter, 2);
    let one = seq![Some(v)];
    assert(one.drop_last() =~= Seq::<Option<V>>::empty());
    assert(one.filter(|o: Option<V>| o is Some) =~= one);
    assert(present_values(one) =~= seq![v]);
}

/// On the baseline index: after deleting one key a one-key read of it gives
/// nothing; after deleting a range a read of the range gives nothing.
pub proof fn law_baseline_get_after_delete<K: IndexKey, V>(s: Seq<(K::V, Option<V>)>, lo: K::V, hi: K::V)
    requires
        strictly_sorted::<K, Option<V>>(s),
    ensures
        present_values(range_values::<K, Option<V>>(remove_key::<K, Option<V>>(s, lo), lo, lo)) == Seq::<V>::empty(),
        present_values(range_values::<K, Option<V>>(empty_range::<K, V>(s, lo, hi), lo, hi)) == Seq::<V>::empty(),
{
    let sp = |o: Option<V>| o is Some;
    // one key
    lemma_upsert_sorted::<K, Option<V>>(s, lo, None);
    let r = remove_key::<K, Option<V>>(s, lo);
    lemma_lower_index_split::<K, Option<V>>(s, lo);
    lemma_lookup_index::<K, Option<V>>(s, lo);
    lemma_lookup_index::<K, Option<V>>(r, lo);
    let p = lower_index::<K, Option<V>>(s, lo);
    assert forall|i: int| 0 <= i < r.len() implies #[trigger] r[i].0 != lo by {
        if p < s.len() && s[p].0 == lo {
            let ii = if i < p { i } else { i + 1 };
            assert(r[i] == s[ii]);
            if ii != p {
                assert(s[ii].0 != lo) by {
                    if ii < p {
                        assert(K::key_lt(s[ii].0, s[p].0));
                    } else {
                        assert(K::key_lt(s[p].0, s[ii].0));
                    }
                    K::lemma_lt_irreflexive(lo);
                }
            }
        }
    }
    lemma_range_single::<K, Option<V>>(r, lo);
    reveal(Seq::filter);
    assert(present_values(Seq::<Option<V>>::empty()) =~= Seq::<V>::empty());
    // a range
    let e = empty_range::<K, V>(s, lo, hi);
    let bp = bounds_pred::<K, Option<V>>(lo, hi, true);
    let f = e.filter(bp);
    assert forall|i: int| 0 <= i < f.len() implies (#[trigger] f[i]).1 is None by {
        e.lemma_filter_pred(bp, i);
        assert(f.contains(f[i]));
        e.lemma_filter_contains_rev(bp, f[i]);
        let m = choose|m: int| 0 <= m < e.len() && e[m] == f[i];
        assert(key_in_bounds::<K>(e[m].0, lo, hi, true));
        assert(e[m].0 == s[m].0);
    }
    let vs = f.map_values(|x: (K::V, Option<V>)| x.1);
    assert forall|i: int| 0 <= i < vs.len() implies !sp(#[trigger] vs[i]) by {
        assert(vs[i] == f[i].1);
    }
    lemma_filter_all_false(vs, sp);
    assert(present_values(vs) =~= Seq::<V>::empty());
}

/// First in, first out: after pushing `x` onto a queue holding `items`, the
/// next pop gives the oldest item (`x` itself on an empty queue) and leaves
/// the others, `x` last.
pub proof fn law_queue_first_in_first_out<T>(items: Seq<T>, x: T)
    ensures
        items.push(x).len() > 0,
        items.push(x)[0] == (if items.len() == 0 {
            x
        } else {
            items[0]
        }),
        items.push(x).drop_first() == (if items.len() == 0 {
            Seq::<T>::empty()
        } else {
            items.drop_first().push(x)
        }),
{
    if items.len() == 0 {
        assert(items.push(x).drop_first() =~= Seq::<T>::empty());
    } else {
        assert(items.push(x).drop_first() =~= items.drop_first().push(x));
    }
}

/// On `u32` keys a range read `[lo, hi]` gives the values of exactly the
/// entries whose key lies numerically between `lo` and `hi`, in their order,
/// and a range delete keeps exactly the others.
pub proof fn law_u32_ranges_are_numeric<V>(s: Seq<(u32, V)>, lo: u32, hi: u32)
    ensures
        range_values::<u32, V>(s, lo, hi) == s.filter(|e: (u32, V)| lo <= e.0 && e.0 <= hi).map_values(
            |e: (u32, V)| e.1,
        ),
        outside_range::<u32, V>(s, lo, hi) == s.filter(|e: (u32, V)| !(lo <= e.0 && e.0 <= hi)),
{
    assert(bounds_pred::<u32, V>(lo, hi, true) =~= (|e: (u32, V)| lo <= e.0 && e.0 <= hi));
    assert(outside_pred::<u32, V>(lo, hi) =~= (|e: (u32, V)| !(lo <= e.0 && e.0 <= hi)));
}

/// On `i32` keys a range read `[lo, hi]` gives the values of exactly the
/// entries whose key lies numerically between `lo` and `hi`, in their order,
/// and a range delete keeps exactly the others.
pub proof fn law_i32_ranges_are_numeric<V>(s: Seq<(i32, V)>, lo: i32, hi: i32)
    ensures
        range_values::<i32, V>(s, lo, hi) == s.filter(|e: (i32, V)| lo <= e.0 && e.0 <= hi).map_values(
            |e: (i32, V)| e.1,
        ),
        outside_range::<i32, V>(s, lo, hi) == s.filter(|e: (i32, V)| !(lo <= e.0 && e.0 <= hi)),
{
    assert(bounds_pred::<i32, V>(lo, hi, true) =~= (|e: (i32, V)| lo <= e.0 && e.0 <= hi));
    assert(outside_pred::<i32, V>(lo, hi) =~= (|e: (i32, V)| !(lo <= e.0 && e.0 <= hi)));
}

/// On `u64` keys a range read `[lo, hi]` gives the values of exactly the
/// entries whose key lies numerically between `lo` and `hi`, in their order,
/// and a range delete keeps exactly the others.
pub proof fn law_u64_ranges_are_numeric<V>(s: Seq<(u64, V)>, lo: u64, hi: u64)
    ensures
        range_values::<u64, V>(s, lo, hi) == s.filter(|e: (u64, V)| lo <= e.0 && e.0 <= hi).map_values(
            |e: (u64, V)| e.1,
        ),
        outside_range::<u64, V>(s, lo, hi) == s.filter(|e: (u64, V)| !(lo <= e.0 && e.0 <= hi)),
{
    assert(bounds_pred::<u64, V>(lo, hi, true) =~= (|e: (u64, V)| lo <= e.0 && e.0 <= hi));
    assert(outside_pred::<u64, V>(lo, hi) =~= (|e: (u64, V)| !(lo <= e.0 && e.0 <= hi)));
}

} // verus!
