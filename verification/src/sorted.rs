//! The abstract model shared by the ordered indexes: a sequence of
//! `(key view, value)` entries in strictly increasing key order, and the
//! operations of an index stated on it.
use vstd::prelude::*;
use crate::key::{IndexKey, key_le, lemma_lt_asymmetric, lemma_lt_le_transitive, lemma_not_lt};

verus! {

/// Keys strictly increase along the sequence.
pub open spec fn strictly_sorted<K: IndexKey, V>(s: Seq<(K::V, V)>) -> bool {
    forall|i: int, j: int| #![trigger s[i], s[j]] 0 <= i < j < s.len() ==> K::key_lt(s[i].0, s[j].0)
}

/// `lo <= k` and `k < hi`, or `k == hi` too when `hi_inclusive`.
pub open spec fn key_in_bounds<K: IndexKey>(k: K::V, lo: K::V, hi: K::V, hi_inclusive: bool) -> bool {
    key_le::<K>(lo, k) && (K::key_lt(k, hi) || (hi_inclusive && k == hi))
}

pub open spec fn bounds_pred<K: IndexKey, V>(lo: K::V, hi: K::V, hi_inclusive: bool) -> spec_fn((K::V, V)) -> bool {
    |e: (K::V, V)| key_in_bounds::<K>(e.0, lo, hi, hi_inclusive)
}

pub open spec fn outside_pred<K: IndexKey, V>(lo: K::V, hi: K::V) -> spec_fn((K::V, V)) -> bool {
    |e: (K::V, V)| !key_in_bounds::<K>(e.0, lo, hi, true)
}

pub open spec fn below_pred<K: IndexKey, V>(k: K::V) -> spec_fn((K::V, V)) -> bool {
    |e: (K::V, V)| K::key_lt(e.0, k)
}

/// The values of a sequence of entries, in order.
pub open spec fn values_of<K: IndexKey, V>(s: Seq<(K::V, V)>) -> Seq<V> {
    s.map_values(|e: (K::V, V)| e.1)
}

/// Values, in key order, of the entries with `lo <= key < hi` (or `<= hi`).
pub open spec fn bounded_values<K: IndexKey, V>(s: Seq<(K::V, V)>, lo: K::V, hi: K::V, hi_inclusive: bool) -> Seq<V> {
    values_of::<K, V>(s.filter(bounds_pred::<K, V>(lo, hi, hi_inclusive)))
}

/// Values, in key order, of the entries with `lo <= key <= hi`.
pub open spec fn range_values<K: IndexKey, V>(s: Seq<(K::V, V)>, lo: K::V, hi: K::V) -> Seq<V> {
    bounded_values::<K, V>(s, lo, hi, true)
}

/// The entries with a key outside `[lo, hi]`.
pub open spec fn outside_range<K: IndexKey, V>(s: Seq<(K::V, V)>, lo: K::V, hi: K::V) -> Seq<(K::V, V)> {
    s.filter(outside_pred::<K, V>(lo, hi))
}

/// Number of entries whose key is below `k`: where `k` stands or would stand.
pub open spec fn lower_index<K: IndexKey, V>(s: Seq<(K::V, V)>, k: K::V) -> int {
    s.filter(below_pred::<K, V>(k)).len() as int
}

/// The value stored under `k`, if any.
pub open spec fn lookup<K: IndexKey, V>(s: Seq<(K::V, V)>, k: K::V) -> Option<V> {
    let p = lower_index::<K, V>(s, k);
    if p < s.len() && s[p].0 == k {
        Some(s[p].1)
    } else {
        None
    }
}

/// `s` with `k` bound to `v`: the value replaced if `k` is there, else a new
/// entry at its place in the order.
pub open spec fn upsert<K: IndexKey, V>(s: Seq<(K::V, V)>, k: K::V, v: V) -> Seq<(K::V, V)> {
    let p = lower_index::<K, V>(s, k);
    if p < s.len() && s[p].0 == k {
        s.update(p, (k, v))
    } else {
        s.insert(p, (k, v))
    }
}

/// `s` without the entry of `k`.
pub open spec fn remove_key<K: IndexKey, V>(s: Seq<(K::V, V)>, k: K::V) -> Seq<(K::V, V)> {
    let p = lower_index::<K, V>(s, k);
    if p < s.len() && s[p].0 == k {
        s.remove(p)
    } else {
        s
    }
}

pub proof fn lemma_filter_all_true<A>(s: Seq<A>, p: spec_fn(A) -> bool)
    requires
        forall|i: int| 0 <= i < s.len() ==> p(#[trigger] s[i]),
    ensures
        s.filter(p) == s,
    decreases s.len(),
{
    reveal(Seq::filter);
    if s.len() > 0 {
        lemma_filter_all_true(s.drop_last(), p);
        assert(s.drop_last().push(s.last()) =~= s);
    }
}

pub proof fn lemma_filter_all_false<A>(s: Seq<A>, p: spec_fn(A) -> bool)
    requires
        forall|i: int| 0 <= i < s.len() ==> !p(#[trigger] s[i]),
    ensures
        s.filter(p) == Seq::<A>::empty(),
    decreases s.len(),
{
    reveal(Seq::filter);
    if s.len() > 0 {
        lemma_filter_all_false(s.drop_last(), p);
    }
}

/// Binding an absent key adds one entry.
pub proof fn lemma_upsert_len<K: IndexKey, V>(s: Seq<(K::V, V)>, k: K::V, v: V)
    ensures
        lookup::<K, V>(s, k) is None ==> upsert::<K, V>(s, k, v).len() == s.len() + 1,
        lookup::<K, V>(s, k) is Some ==> upsert::<K, V>(s, k, v).len() == s.len(),
{
    s.filter(below_pred::<K, V>(k)).lemma_filter_len(below_pred::<K, V>(k));
}

/// A predicate and its complement split a sequence's length.
pub proof fn lemma_filter_complement_len<A>(s: Seq<A>, p: spec_fn(A) -> bool, q: spec_fn(A) -> bool)
    requires
        forall|x: A| #[trigger] q(x) == !p(x),
    ensures
        s.filter(p).len() + s.filter(q).len() == s.len(),
    decreases s.len(),
{
    reveal(Seq::filter);
    if s.len() > 0 {
        lemma_filter_complement_len(s.drop_last(), p, q);
    }
}

/// The entries in `[lo, hi]` and those outside it add up to all entries.
pub proof fn lemma_range_split_len<K: IndexKey, V>(s: Seq<(K::V, V)>, lo: K::V, hi: K::V)
    ensures
        range_values::<K, V>(s, lo, hi).len() + outside_range::<K, V>(s, lo, hi).len() == s.len(),
{
    lemma_filter_complement_len(s, bounds_pred::<K, V>(lo, hi, true), outside_pred::<K, V>(lo, hi));
}

/// A predicate that holds exactly on the block `[a, b)` filters to that block.
pub proof fn lemma_filter_block<A>(s: Seq<A>, p: spec_fn(A) -> bool, a: int, b: int)
    requires
        0 <= a <= b <= s.len(),
        forall|i: int| 0 <= i < a ==> !p(#[trigger] s[i]),
        forall|i: int| a <= i < b ==> p(#[trigger] s[i]),
        forall|i: int| b <= i < s.len() ==> !p(#[trigger] s[i]),
    ensures
        s.filter(p) == s.subrange(a, b),
{
    let s1 = s.subrange(0, a);
    let s2 = s.subrange(a, b);
    let s3 = s.subrange(b, s.len() as int);
    assert(s =~= s1 + s2 + s3);
    Seq::filter_distributes_over_add(s1 + s2, s3, p);
    Seq::filter_distributes_over_add(s1, s2, p);
    lemma_filter_all_false(s1, p);
    lemma_filter_all_true(s2, p);
    lemma_filter_all_false(s3, p);
    assert(s1.filter(p) + s2.filter(p) + s3.filter(p) =~= s2);
}

/// A predicate that fails exactly on the block `[a, b)` filters to what
/// surrounds it.
pub proof fn lemma_filter_gap<A>(s: Seq<A>, p: spec_fn(A) -> bool, a: int, b: int)
    requires
        0 <= a <= b <= s.len(),
        forall|i: int| 0 <= i < a ==> p(#[trigger] s[i]),
        forall|i: int| a <= i < b ==> !p(#[trigger] s[i]),
        forall|i: int| b <= i < s.len() ==> p(#[trigger] s[i]),
    ensures
        s.filter(p) == s.subrange(0, a) + s.subrange(b, s.len() as int),
{
    let s1 = s.subrange(0, a);
    let s2 = s.subrange(a, b);
    let s3 = s.subrange(b, s.len() as int);
    assert(s =~= s1 + s2 + s3);
    Seq::filter_distributes_over_add(s1 + s2, s3, p);
    Seq::filter_distributes_over_add(s1, s2, p);
    lemma_filter_all_true(s1, p);
    lemma_filter_all_false(s2, p);
    lemma_filter_all_true(s3, p);
    assert(s1.filter(p) + s2.filter(p) + s3.filter(p) =~= s1 + s3);
}

/// In a sorted sequence, the entries below `k` are a prefix.
pub proof fn lemma_lower_index<K: IndexKey, V>(s: Seq<(K::V, V)>, k: K::V, p: int)
    requires
        0 <= p <= s.len(),
        forall|i: int| 0 <= i < p ==> K::key_lt(#[trigger] s[i].0, k),
        forall|i: int| p <= i < s.len() ==> !K::key_lt(#[trigger] s[i].0, k),
    ensures
        lower_index::<K, V>(s, k) == p,
        s.filter(below_pred::<K, V>(k)) == s.subrange(0, p),
{
    let pr = below_pred::<K, V>(k);
    assert forall|i: int| 0 <= i < 0 implies !pr(#[trigger] s[i]) by {}
    assert forall|i: int| 0 <= i < p implies pr(#[trigger] s[i]) by {}
    assert forall|i: int| p <= i < s.len() implies !pr(#[trigger] s[i]) by {}
    lemma_filter_block(s, pr, 0, p);
}

/// In a sorted sequence, `lower_index` splits the keys below `k` from the rest.
pub proof fn lemma_lower_index_split<K: IndexKey, V>(s: Seq<(K::V, V)>, k: K::V)
    requires
        strictly_sorted::<K, V>(s),
    ensures
        0 <= lower_index::<K, V>(s, k) <= s.len(),
        forall|i: int| 0 <= i < lower_index::<K, V>(s, k) ==> K::key_lt(#[trigger] s[i].0, k),
        forall|i: int| lower_index::<K, V>(s, k) <= i < s.len() ==> !K::key_lt(#[trigger] s[i].0, k),
    decreases s.len(),
{
    reveal(Seq::filter);
    if s.len() > 0 {
        let d = s.drop_last();
        assert forall|i: int, j: int| #![trigger d[i], d[j]] 0 <= i < j < d.len() implies K::key_lt(d[i].0, d[j].0) by {
            assert(d[i] == s[i] && d[j] == s[j]);
        }
        lemma_lower_index_split::<K, V>(d, k);
        let q = lower_index::<K, V>(d, k);
        let last = s.last();
        if K::key_lt(last.0, k) {
            // then every earlier key is below k too
            assert forall|i: int| 0 <= i < s.len() implies K::key_lt(#[trigger] s[i].0, k) by {
                if i < s.len() - 1 {
                    K::lemma_lt_transitive(s[i].0, last.0, k);
                }
            }
            lemma_lower_index::<K, V>(s, k, s.len() as int);
        } else {
            assert forall|i: int| 0 <= i < q implies K::key_lt(#[trigger] s[i].0, k) by {
                assert(d[i] == s[i]);
            }
            assert forall|i: int| q <= i < s.len() implies !K::key_lt(#[trigger] s[i].0, k) by {
                if i < s.len() - 1 {
                    assert(d[i] == s[i]);
                }
            }
            lemma_lower_index::<K, V>(s, k, q);
        }
    }
}

/// In a sorted sequence, `lookup` finds the entry of `k` wherever it stands.
pub proof fn lemma_lookup_index<K: IndexKey, V>(s: Seq<(K::V, V)>, k: K::V)
    requires
        strictly_sorted::<K, V>(s),
    ensures
        forall|i: int|
            0 <= i < s.len() && #[trigger] s[i].0 == k ==> lookup::<K, V>(s, k) == Some(s[i].1)
                && lower_index::<K, V>(s, k) == i,
        lookup::<K, V>(s, k) is None <==> (forall|i: int| 0 <= i < s.len() ==> #[trigger] s[i].0 != k),
{
    lemma_lower_index_split::<K, V>(s, k);
    let q = lower_index::<K, V>(s, k);
    assert forall|i: int| 0 <= i < s.len() && #[trigger] s[i].0 == k implies lookup::<K, V>(s, k) == Some(s[i].1)
        && lower_index::<K, V>(s, k) == i by {
        if i < q {
            K::lemma_lt_irreflexive(k);
        } else if i > q {
            lemma_not_lt::<K>(s[q].0, k);
            lemma_lt_asymmetric::<K>(s[q].0, s[i].0);
        }
    }
}

/// In a sorted sequence the entries within bounds are a contiguous block
/// starting at the lower index of `lo`.
pub proof fn lemma_bounded_block<K: IndexKey, V>(
    s: Seq<(K::V, V)>,
    lo: K::V,
    hi: K::V,
    hi_inclusive: bool,
    b: int,
)
    requires
        strictly_sorted::<K, V>(s),
        lower_index::<K, V>(s, lo) <= b <= s.len(),
        forall|i: int|
            lower_index::<K, V>(s, lo) <= i < b ==> key_in_bounds::<K>(#[trigger] s[i].0, lo, hi, hi_inclusive),
        b < s.len() ==> !key_in_bounds::<K>(s[b].0, lo, hi, hi_inclusive),
    ensures
        s.filter(bounds_pred::<K, V>(lo, hi, hi_inclusive)) == s.subrange(lower_index::<K, V>(s, lo), b),
        outside_range::<K, V>(s, lo, hi) == (if hi_inclusive {
            s.subrange(0, lower_index::<K, V>(s, lo)) + s.subrange(b, s.len() as int)
        } else {
            outside_range::<K, V>(s, lo, hi)
        }),
{
    lemma_lower_index_split::<K, V>(s, lo);
    let a = lower_index::<K, V>(s, lo);
    let p = bounds_pred::<K, V>(lo, hi, hi_inclusive);
    assert forall|i: int| 0 <= i < a implies !p(#[trigger] s[i]) by {
        lemma_lt_asymmetric::<K>(s[i].0, lo);
    }
    assert forall|i: int| a <= i < b implies p(#[trigger] s[i]) by {}
    assert forall|i: int| b <= i < s.len() implies !p(#[trigger] s[i]) by {
        if i > b {
            // s[b] is not in bounds but is at least lo, so it is past hi;
            // s[i] is past s[b].
            lemma_not_lt::<K>(s[b].0, lo);
            lemma_not_lt::<K>(s[i].0, lo);
            if key_in_bounds::<K>(s[i].0, lo, hi, hi_inclusive) {
                lemma_lt_le_transitive::<K>(s[b].0, s[i].0, hi);
            }
        }
    }
    lemma_filter_block(s, p, a, b);
    if hi_inclusive {
        let q = outside_pred::<K, V>(lo, hi);
        assert forall|i: int| 0 <= i < a implies q(#[trigger] s[i]) by {
            assert(!p(s[i]));
        }
        assert forall|i: int| a <= i < b implies !q(#[trigger] s[i]) by {
            assert(p(s[i]));
        }
        assert forall|i: int| b <= i < s.len() implies q(#[trigger] s[i]) by {
            assert(!p(s[i]));
        }
        lemma_filter_gap(s, q, a, b);
    }
}

/// A one-key range holds the key's value, if the key is there.
pub proof fn lemma_range_single<K: IndexKey, V>(s: Seq<(K::V, V)>, k: K::V)
    requires
        strictly_sorted::<K, V>(s),
    ensures
        range_values::<K, V>(s, k, k) == (match lookup::<K, V>(s, k) {
            Some(v) => seq![v],
            None => Seq::<V>::empty(),
        }),
{
    lemma_lower_index_split::<K, V>(s, k);
    let q = lower_index::<K, V>(s, k);
    K::lemma_lt_irreflexive(k);
    if q < s.len() && s[q].0 == k {
        if q + 1 < s.len() {
            assert(K::key_lt(s[q].0, s[q + 1].0));
            lemma_lt_asymmetric::<K>(k, s[q + 1].0);
        }
        lemma_bounded_block::<K, V>(s, k, k, true, q + 1);
        assert(values_of::<K, V>(s.subrange(q, q + 1)) =~= seq![s[q].1]);
    } else {
        if q < s.len() {
            lemma_not_lt::<K>(s[q].0, k);
            lemma_lt_asymmetric::<K>(k, s[q].0);
        }
        lemma_bounded_block::<K, V>(s, k, k, true, q);
        assert(values_of::<K, V>(s.subrange(q, q)) =~= Seq::<V>::empty());
    }
}

/// Any sub-block of a sorted sequence is sorted, and so is a sorted prefix
/// followed by a sorted suffix of it.
pub proof fn lemma_sorted_cut<K: IndexKey, V>(s: Seq<(K::V, V)>, a: int, b: int)
    requires
        strictly_sorted::<K, V>(s),
        0 <= a <= b <= s.len(),
    ensures
        strictly_sorted::<K, V>(s.subrange(a, b)),
        strictly_sorted::<K, V>(s.subrange(0, a) + s.subrange(b, s.len() as int)),
{
    let t = s.subrange(0, a) + s.subrange(b, s.len() as int);
    assert forall|i: int, j: int| #![trigger t[i], t[j]] 0 <= i < j < t.len() implies K::key_lt(t[i].0, t[j].0) by {
        let ii = if i < a { i } else { i - a + b };
        let jj = if j < a { j } else { j - a + b };
        assert(t[i] == s[ii] && t[j] == s[jj]);
    }
    let u = s.subrange(a, b);
    assert forall|i: int, j: int| #![trigger u[i], u[j]] 0 <= i < j < u.len() implies K::key_lt(u[i].0, u[j].0) by {
        assert(u[i] == s[a + i] && u[j] == s[a + j]);
    }
}

/// Facts about `upsert`, `lookup` and `remove_key` on a sorted sequence.
pub proof fn lemma_upsert_sorted<K: IndexKey, V>(s: Seq<(K::V, V)>, k: K::V, v: V)
    requires
        strictly_sorted::<K, V>(s),
    ensures
        strictly_sorted::<K, V>(upsert::<K, V>(s, k, v)),
        strictly_sorted::<K, V>(remove_key::<K, V>(s, k)),
{
    lemma_lower_index_split::<K, V>(s, k);
    let p = lower_index::<K, V>(s, k);
    let t = upsert::<K, V>(s, k, v);
    if p < s.len() && s[p].0 == k {
        assert forall|i: int, j: int| #![trigger t[i], t[j]] 0 <= i < j < t.len() implies K::key_lt(t[i].0, t[j].0) by {
            assert(t[i].0 == s[i].0 && t[j].0 == s[j].0);
        }
        let r = s.remove(p);
        assert forall|i: int, j: int| #![trigger r[i], r[j]] 0 <= i < j < r.len() implies K::key_lt(r[i].0, r[j].0) by {
            let ii = if i < p { i } else { i + 1 };
            let jj = if j < p { j } else { j + 1 };
            assert(r[i] == s[ii] && r[j] == s[jj]);
        }
    } else {
        assert forall|i: int, j: int| #![trigger t[i], t[j]] 0 <= i < j < t.len() implies K::key_lt(t[i].0, t[j].0) by {
            if i < p && j == p {
                assert(t[i] == s[i]);
            } else if i == p {
                assert(t[j] == s[j - 1]);
                lemma_not_lt::<K>(s[j - 1].0, k);
            } else if j < p {
                assert(t[i] == s[i] && t[j] == s[j]);
            } else if i < p {
                assert(t[i] == s[i] && t[j] == s[j - 1]);
            } else {
                assert(t[i] == s[i - 1] && t[j] == s[j - 1]);
            }
        }
    }
}

/// Filtering a sorted sequence leaves it sorted.
pub proof fn lemma_filter_sorted<K: IndexKey, V>(s: Seq<(K::V, V)>, p: spec_fn((K::V, V)) -> bool)
    requires
        strictly_sorted::<K, V>(s),
    ensures
        strictly_sorted::<K, V>(s.filter(p)),
    decreases s.len(),
{
    reveal(Seq::filter);
    if s.len() > 0 {
        let d = s.drop_last();
        assert forall|i: int, j: int| #![trigger d[i], d[j]] 0 <= i < j < d.len() implies K::key_lt(d[i].0, d[j].0) by {
            assert(d[i] == s[i] && d[j] == s[j]);
        }
        lemma_filter_sorted::<K, V>(d, p);
        let r = d.filter(p);
        let last = s.last();
        if p(last) {
            assert forall|i: int| 0 <= i < r.len() implies K::key_lt(#[trigger] r[i].0, last.0) by {
                assert(r.contains(r[i]));
                d.lemma_filter_contains_rev(p, r[i]);
                let j = choose|j: int| 0 <= j < d.len() && d[j] == r[i];
                assert(s[j] == d[j]);
                assert(K::key_lt(s[j].0, s[s.len() - 1].0));
            }
            let t = r.push(last);
            assert forall|i: int, j: int| #![trigger t[i], t[j]] 0 <= i < j < t.len() implies K::key_lt(t[i].0, t[j].0) by {
                if j == r.len() {
                    assert(t[i] == r[i]);
                } else {
                    assert(t[i] == r[i] && t[j] == r[j]);
                }
            }
        }
    }
}

} // verus!
