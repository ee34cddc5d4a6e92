//! Entries whose values may be empty slots, seen as the entries that hold a
//! value: how reading, writing and deleting on the slots show through.
use vstd::prelude::*;
use crate::key::{IndexKey, lemma_lt_asymmetric, lemma_not_lt};
use crate::sorted::{
    strictly_sorted, key_in_bounds, bounds_pred, outside_pred, range_values, outside_range, values_of,
    lower_index, lookup, upsert, remove_key, lemma_lower_index_split, lemma_lookup_index,
    lemma_upsert_sorted, lemma_filter_sorted,
};

verus! {

/// The entries that hold a value, with that value, in order.
pub open spec fn present_entries<K: IndexKey, V>(s: Seq<(K::V, Option<V>)>) -> Seq<(K::V, V)>
    decreases s.len(),
{
    if s.len() == 0 {
        Seq::empty()
    } else {
        let r = present_entries::<K, V>(s.drop_last());
        match s.last().1 {
            Some(v) => r.push((s.last().0, v)),
            None => r,
        }
    }
}

/// The values present among optional values, in order.
pub open spec fn present_values<V>(s: Seq<Option<V>>) -> Seq<V> {
    s.filter(|o: Option<V>| o is Some).map_values(|o: Option<V>| o->0)
}

/// An entry is present exactly when some slot holds its value.
pub proof fn lemma_present_contains<K: IndexKey, V>(s: Seq<(K::V, Option<V>)>, x: (K::V, V))
    ensures
        present_entries::<K, V>(s).contains(x) <==> exists|i: int| 0 <= i < s.len() && s[i] == (x.0, Some(x.1)),
    decreases s.len(),
{
    if s.len() > 0 {
        let d = s.drop_last();
        let r = present_entries::<K, V>(d);
        lemma_present_contains::<K, V>(d, x);
        let e = s.last();
        if present_entries::<K, V>(s).contains(x) {
            let j = choose|j: int| 0 <= j < present_entries::<K, V>(s).len() && present_entries::<K, V>(s)[j] == x;
            if j < r.len() {
                assert(r[j] == x);
                assert(r.contains(x));
                let i = choose|i: int| 0 <= i < d.len() && d[i] == (x.0, Some(x.1));
                assert(s[i] == d[i]);
            } else {
                assert(s[s.len() - 1] == (x.0, Some(x.1)));
            }
        }
        if exists|i: int| 0 <= i < s.len() && s[i] == (x.0, Some(x.1)) {
            let i = choose|i: int| 0 <= i < s.len() && s[i] == (x.0, Some(x.1));
            if i < s.len() - 1 {
                assert(d[i] == s[i]);
                let j = choose|j: int| 0 <= j < r.len() && r[j] == x;
                assert(present_entries::<K, V>(s)[j] == x);
            } else {
                let p = present_entries::<K, V>(s);
                assert(p[p.len() - 1] == x);
            }
        }
    }
}

/// The present entries of a sorted sequence are sorted.
pub proof fn lemma_present_sorted<K: IndexKey, V>(s: Seq<(K::V, Option<V>)>)
    requires
        strictly_sorted::<K, Option<V>>(s),
    ensures
        strictly_sorted::<K, V>(present_entries::<K, V>(s)),
    decreases s.len(),
{
    if s.len() > 0 {
        let d = s.drop_last();
        assert forall|i: int, j: int| #![trigger d[i], d[j]] 0 <= i < j < d.len() implies K::key_lt(d[i].0, d[j].0) by {
            assert(d[i] == s[i] && d[j] == s[j]);
        }
        lemma_present_sorted::<K, V>(d);
        let r = present_entries::<K, V>(d);
        let e = s.last();
        if let Some(v) = e.1 {
            assert forall|i: int| 0 <= i < r.len() implies K::key_lt(#[trigger] r[i].0, e.0) by {
                assert(r.contains(r[i]));
                lemma_present_contains::<K, V>(d, r[i]);
                let m = choose|m: int| 0 <= m < d.len() && d[m] == (r[i].0, Some(r[i].1));
                assert(s[m] == d[m]);
                assert(K::key_lt(s[m].0, s[s.len() - 1].0));
            }
            let t = r.push((e.0, v));
            assert forall|i: int, j: int| #![trigger t[i], t[j]] 0 <= i < j < t.len() implies K::key_lt(t[i].0, t[j].0) by {
                if j == r.len() {
                    assert(t[i] == r[i]);
                } else {
                    assert(t[i] == r[i] && t[j] == r[j]);
                }
            }
        }
    }
}

/// Two sorted sequences that hold the same entries are equal.
pub proof fn lemma_sorted_same_entries<K: IndexKey, V>(a: Seq<(K::V, V)>, b: Seq<(K::V, V)>)
    requires
        strictly_sorted::<K, V>(a),
        strictly_sorted::<K, V>(b),
        forall|x: (K::V, V)| a.contains(x) <==> b.contains(x),
    ensures
        a == b,
    decreases a.len() + b.len(),
{
    if a.len() == 0 {
        if b.len() > 0 {
            assert(b.contains(b[0]));
        }
        assert(a =~= b);
    } else if b.len() == 0 {
        assert(a.contains(a[0]));
    } else {
        let la = a.last();
        let lb = b.last();
        assert(a.contains(la));
        assert(b.contains(lb));
        let ia = choose|i: int| 0 <= i < b.len() && b[i] == la;
        let ib = choose|i: int| 0 <= i < a.len() && a[i] == lb;
        // each last entry is the greatest of both
        if ia < b.len() - 1 {
            assert(K::key_lt(b[ia].0, b[b.len() - 1].0));
            if ib < a.len() - 1 {
                assert(K::key_lt(a[ib].0, a[a.len() - 1].0));
                lemma_lt_asymmetric::<K>(la.0, lb.0);
            }
            K::lemma_lt_irreflexive(la.0);
        }
        assert(ia == b.len() - 1);
        let da = a.drop_last();
        let db = b.drop_last();
        assert forall|i: int, j: int| #![trigger da[i], da[j]] 0 <= i < j < da.len() implies K::key_lt(da[i].0, da[j].0) by {
            assert(da[i] == a[i] && da[j] == a[j]);
        }
        assert forall|i: int, j: int| #![trigger db[i], db[j]] 0 <= i < j < db.len() implies K::key_lt(db[i].0, db[j].0) by {
            assert(db[i] == b[i] && db[j] == b[j]);
        }
        assert forall|x: (K::V, V)| da.contains(x) <==> db.contains(x) by {
            if da.contains(x) {
                let i = choose|i: int| 0 <= i < da.len() && da[i] == x;
                assert(a[i] == x);
                assert(a.contains(x));
                let j = choose|j: int| 0 <= j < b.len() && b[j] == x;
                if j == b.len() - 1 {
                    assert(K::key_lt(a[i].0, a[a.len() - 1].0));
                    K::lemma_lt_irreflexive(x.0);
                }
                assert(db[j] == x);
            }
            if db.contains(x) {
                let j = choose|j: int| 0 <= j < db.len() && db[j] == x;
                assert(b[j] == x);
                assert(b.contains(x));
                let i = choose|i: int| 0 <= i < a.len() && a[i] == x;
                if i == a.len() - 1 {
                    assert(K::key_lt(b[j].0, b[b.len() - 1].0));
                    K::lemma_lt_irreflexive(x.0);
                }
                assert(da[i] == x);
            }
        }
        lemma_sorted_same_entries::<K, V>(da, db);
        assert(a =~= da.push(la));
        assert(b =~= db.push(lb));
    }
}

/// The entries of a sorted sequence after `upsert`: the new one, and the
/// others but the old entry of its key.
pub proof fn lemma_upsert_contains<K: IndexKey, V>(s: Seq<(K::V, V)>, k: K::V, v: V, x: (K::V, V))
    requires
        strictly_sorted::<K, V>(s),
    ensures
        upsert::<K, V>(s, k, v).contains(x) <==> (x == (k, v) || (s.contains(x) && x.0 != k)),
{
    lemma_lower_index_split::<K, V>(s, k);
    let p = lower_index::<K, V>(s, k);
    let t = upsert::<K, V>(s, k, v);
    let updated = p < s.len() && s[p].0 == k;
    // no entry but at p has key k
    assert forall|i: int| 0 <= i < s.len() && i != p implies #[trigger] s[i].0 != k by {
        if i < p {
            lemma_lt_asymmetric::<K>(s[i].0, k);
        } else {
            lemma_not_lt::<K>(s[i].0, k);
            if updated {
                assert(K::key_lt(s[p].0, s[i].0));
                K::lemma_lt_irreflexive(k);
            } else if s[i].0 == k {
                // the entry at p is at least k and below the entry at i
                if p < s.len() {
                    assert(K::key_lt(s[p].0, s[i].0));
                    lemma_not_lt::<K>(s[p].0, k);
                    lemma_lt_asymmetric::<K>(s[p].0, k);
                }
            }
        }
    }
    if t.contains(x) {
        let j = choose|j: int| 0 <= j < t.len() && t[j] == x;
        if updated {
            if j != p {
                assert(t[j] == s[j]);
            }
        } else if j < p {
            assert(t[j] == s[j]);
        } else if j > p {
            assert(t[j] == s[j - 1]);
        }
    }
    if x == (k, v) {
        assert(t[p] == x);
    }
    if s.contains(x) && x.0 != k {
        let i = choose|i: int| 0 <= i < s.len() && s[i] == x;
        if updated {
            assert(i != p);
            assert(t[i] == x);
        } else if i < p {
            assert(t[i] == x);
        } else {
            assert(t[i + 1] == x);
        }
    }
}

/// The entries of a sorted sequence after `remove_key`: all but the one of
/// the key.
pub proof fn lemma_remove_key_contains<K: IndexKey, V>(s: Seq<(K::V, V)>, k: K::V, x: (K::V, V))
    requires
        strictly_sorted::<K, V>(s),
    ensures
        remove_key::<K, V>(s, k).contains(x) <==> (s.contains(x) && x.0 != k),
{
    lemma_lower_index_split::<K, V>(s, k);
    let p = lower_index::<K, V>(s, k);
    let r = remove_key::<K, V>(s, k);
    let present = p < s.len() && s[p].0 == k;
    assert forall|i: int| 0 <= i < s.len() && i != p implies #[trigger] s[i].0 != k by {
        if i < p {
            lemma_lt_asymmetric::<K>(s[i].0, k);
        } else if p < s.len() {
            assert(K::key_lt(s[p].0, s[i].0));
            lemma_not_lt::<K>(s[p].0, k);
            if s[i].0 == k {
                lemma_lt_asymmetric::<K>(s[p].0, k);
            }
        } else {
            assert(false);
        }
    }
    if r.contains(x) {
        let j = choose|j: int| 0 <= j < r.len() && r[j] == x;
        if present {
            let jj = if j < p { j } else { j + 1 };
            assert(r[j] == s[jj]);
        } else {
            assert(r[j] == s[j]);
        }
    }
    if s.contains(x) && x.0 != k {
        let i = choose|i: int| 0 <= i < s.len() && s[i] == x;
        if present {
            assert(i != p);
            if i < p {
                assert(r[i] == x);
            } else {
                assert(r[i - 1] == x);
            }
        } else {
            assert(r[i] == x);
        }
    }
}

/// Reading a range of slots gives the values a read of the present entries
/// gives.
pub proof fn lemma_present_range<K: IndexKey, V>(s: Seq<(K::V, Option<V>)>, lo: K::V, hi: K::V)
    ensures
        present_values(range_values::<K, Option<V>>(s, lo, hi)) == range_values::<K, V>(
            present_entries::<K, V>(s),
            lo,
            hi,
        ),
    decreases s.len(),
{
    reveal(Seq::filter);
    let bo = bounds_pred::<K, Option<V>>(lo, hi, true);
    let bv = bounds_pred::<K, V>(lo, hi, true);
    let sp = |o: Option<V>| o is Some;
    if s.len() == 0 {
        assert(present_values(range_values::<K, Option<V>>(s, lo, hi)) =~= Seq::<V>::empty());
        assert(range_values::<K, V>(present_entries::<K, V>(s), lo, hi) =~= Seq::<V>::empty());
    } else {
        let d = s.drop_last();
        let e = s.last();
        lemma_present_range::<K, V>(d, lo, hi);
        let fd = d.filter(bo);
        let vd = values_of::<K, Option<V>>(fd);
        let rd = present_entries::<K, V>(d);
        if bo(e) {
            assert(s.filter(bo) == fd.push(e));
            let vs = values_of::<K, Option<V>>(fd.push(e));
            assert(vs =~= vd.push(e.1));
            assert(vs.drop_last() =~= vd);
            match e.1 {
                Some(v) => {
                    assert(vs.filter(sp) == vd.filter(sp).push(e.1));
                    assert(present_values(vs) =~= present_values(vd).push(v));
                    let rs = rd.push((e.0, v));
                    assert(rs.drop_last() =~= rd);
                    assert(rs.filter(bv) == rd.filter(bv).push((e.0, v)));
                    assert(values_of::<K, V>(rs.filter(bv)) =~= values_of::<K, V>(rd.filter(bv)).push(v));
                },
                None => {
                    assert(vs.filter(sp) == vd.filter(sp));
                    assert(present_values(vs) =~= present_values(vd));
                },
            }
        } else {
            assert(s.filter(bo) == fd);
            match e.1 {
                Some(v) => {
                    let rs = rd.push((e.0, v));
                    assert(rs.drop_last() =~= rd);
                    assert(rs.filter(bv) == rd.filter(bv));
                },
                None => {},
            }
        }
    }
}

/// Emptying the slots of a range shows as deleting the range from the
/// present entries.
pub proof fn lemma_present_empty_range<K: IndexKey, V>(s: Seq<(K::V, Option<V>)>, lo: K::V, hi: K::V)
    ensures
        present_entries::<K, V>(
            s.map_values(|e: (K::V, Option<V>)| if key_in_bounds::<K>(e.0, lo, hi, true) { (e.0, None) } else { e }),
        ) == outside_range::<K, V>(present_entries::<K, V>(s), lo, hi),
    decreases s.len(),
{
    reveal(Seq::filter);
    let f = |e: (K::V, Option<V>)| if key_in_bounds::<K>(e.0, lo, hi, true) { (e.0, None) } else { e };
    let op = outside_pred::<K, V>(lo, hi);
    if s.len() == 0 {
        assert(s.map_values(f) =~= Seq::<(K::V, Option<V>)>::empty());
        assert(outside_range::<K, V>(present_entries::<K, V>(s), lo, hi) =~= Seq::<(K::V, V)>::empty());
    } else {
        let d = s.drop_last();
        let e = s.last();
        lemma_present_empty_range::<K, V>(d, lo, hi);
        let m = s.map_values(f);
        assert(m.drop_last() =~= d.map_values(f));
        assert(m.last() == f(e));
        let rd = present_entries::<K, V>(d);
        match e.1 {
            Some(v) => {
                let rs = rd.push((e.0, v));
                assert(rs.drop_last() =~= rd);
            },
            None => {},
        }
    }
}

/// What a key looks up to among the slots, a filled slot taken for its
/// value, is what it looks up to among the present entries.
pub proof fn lemma_present_lookup<K: IndexKey, V>(s: Seq<(K::V, Option<V>)>, k: K::V)
    requires
        strictly_sorted::<K, Option<V>>(s),
    ensures
        (match lookup::<K, Option<V>>(s, k) {
            Some(Some(v)) => Some(v),
            _ => None,
        }) == lookup::<K, V>(present_entries::<K, V>(s), k),
{
    let pe = present_entries::<K, V>(s);
    lemma_present_sorted::<K, V>(s);
    lemma_lookup_index::<K, Option<V>>(s, k);
    lemma_lookup_index::<K, V>(pe, k);
    match lookup::<K, Option<V>>(s, k) {
        Some(Some(v)) => {
            let i = lower_index::<K, Option<V>>(s, k);
            assert(s[i] == (k, Some(v)));
            lemma_present_contains::<K, V>(s, (k, v));
            let j = choose|j: int| 0 <= j < pe.len() && pe[j] == (k, v);
            assert(pe[j].0 == k);
        },
        _ => {
            assert forall|j: int| 0 <= j < pe.len() implies #[trigger] pe[j].0 != k by {
                assert(pe.contains(pe[j]));
                lemma_present_contains::<K, V>(s, pe[j]);
                let i = choose|i: int| 0 <= i < s.len() && s[i] == (pe[j].0, Some(pe[j].1));
                if pe[j].0 == k {
                    assert(s[i].0 == k);
                }
            }
        },
    }
}

/// Filling the slot of `k` with `v` shows as binding `k` to `v` among the
/// present entries.
pub proof fn lemma_present_upsert<K: IndexKey, V>(s: Seq<(K::V, Option<V>)>, k: K::V, v: V)
    requires
        strictly_sorted::<K, Option<V>>(s),
    ensures
        present_entries::<K, V>(upsert::<K, Option<V>>(s, k, Some(v))) == upsert::<K, V>(
            present_entries::<K, V>(s),
            k,
            v,
        ),
{
    let t = upsert::<K, Option<V>>(s, k, Some(v));
    lemma_upsert_sorted::<K, Option<V>>(s, k, Some(v));
    lemma_present_sorted::<K, V>(s);
    lemma_present_sorted::<K, V>(t);
    let pe = present_entries::<K, V>(s);
    lemma_upsert_sorted::<K, V>(pe, k, v);
    assert forall|x: (K::V, V)| present_entries::<K, V>(t).contains(x) <==> upsert::<K, V>(pe, k, v).contains(x) by {
        lemma_present_contains::<K, V>(t, x);
        lemma_present_contains::<K, V>(s, x);
        lemma_upsert_contains::<K, V>(pe, k, v, x);
        let y = (x.0, Some(x.1));
        lemma_upsert_contains::<K, Option<V>>(s, k, Some(v), y);
        if exists|i: int| 0 <= i < t.len() && t[i] == y {
            let i = choose|i: int| 0 <= i < t.len() && t[i] == y;
            assert(t.contains(y));
        }
        if t.contains(y) {
            let i = choose|i: int| 0 <= i < t.len() && t[i] == y;
        }
        if exists|i: int| 0 <= i < s.len() && s[i] == y {
            let i = choose|i: int| 0 <= i < s.len() && s[i] == y;
            assert(s.contains(y));
        }
        if s.contains(y) {
            let i = choose|i: int| 0 <= i < s.len() && s[i] == y;
        }
    }
    lemma_sorted_same_entries::<K, V>(present_entries::<K, V>(t), upsert::<K, V>(pe, k, v));
}

/// Removing the slot of `k` shows as deleting the one-key range of `k` from
/// the present entries.
pub proof fn lemma_present_remove<K: IndexKey, V>(s: Seq<(K::V, Option<V>)>, k: K::V)
    requires
        strictly_sorted::<K, Option<V>>(s),
    ensures
        present_entries::<K, V>(remove_key::<K, Option<V>>(s, k)) == outside_range::<K, V>(
            present_entries::<K, V>(s),
            k,
            k,
        ),
{
    let r = remove_key::<K, Option<V>>(s, k);
    lemma_upsert_sorted::<K, Option<V>>(s, k, None);
    lemma_present_sorted::<K, V>(s);
    lemma_present_sorted::<K, V>(r);
    let pe = present_entries::<K, V>(s);
    let op = outside_pred::<K, V>(k, k);
    lemma_filter_sorted::<K, V>(pe, op);
    assert forall|x: (K::V, V)| present_entries::<K, V>(r).contains(x) <==> outside_range::<K, V>(pe, k, k).contains(
        x,
    ) by {
        lemma_present_contains::<K, V>(r, x);
        lemma_present_contains::<K, V>(s, x);
        let y = (x.0, Some(x.1));
        lemma_remove_key_contains::<K, Option<V>>(s, k, y);
        if exists|i: int| 0 <= i < r.len() && r[i] == y {
            let i = choose|i: int| 0 <= i < r.len() && r[i] == y;
            assert(r.contains(y));
        }
        if r.contains(y) {
            let i = choose|i: int| 0 <= i < r.len() && r[i] == y;
        }
        if exists|i: int| 0 <= i < s.len() && s[i] == y {
            let i = choose|i: int| 0 <= i < s.len() && s[i] == y;
            assert(s.contains(y));
        }
        if s.contains(y) {
            let i = choose|i: int| 0 <= i < s.len() && s[i] == y;
        }
        // outside [k, k] means a key other than k
        K::lemma_lt_irreflexive(k);
        if K::key_lt(x.0, k) {
            lemma_lt_asymmetric::<K>(x.0, k);
        }
        lemma_not_lt::<K>(x.0, k);
        assert(op(x) <==> x.0 != k);
        if pe.contains(x) && op(x) {
            let j = choose|j: int| 0 <= j < pe.len() && pe[j] == x;
            pe.lemma_filter_contains(op, j);
        }
        if pe.filter(op).contains(x) {
            pe.lemma_filter_contains_rev(op, x);
            let j = choose|j: int| 0 <= j < pe.filter(op).len() && pe.filter(op)[j] == x;
            pe.lemma_filter_pred(op, j);
        }
    }
    lemma_sorted_same_entries::<K, V>(present_entries::<K, V>(r), outside_range::<K, V>(pe, k, k));
}

} // verus!
