//! The lock-free ordered map of `crossbeam_skiplist`, as the indexes built on
//! it use it: `i32` keys and values, one owner at a time.
use vstd::prelude::*;
use crossbeam_skiplist::SkipMap;


verus! {

#[verifier::external_type_specification]
#[verifier::external_body]
#[verifier::reject_recursive_types(K)]
#[verifier::reject_recursive_types(V)]
pub struct ExSkipMap<K, V>(SkipMap<K, V>);

/// What a map holds: each key bound to its value.
pub uninterp spec fn skip_map_contents(m: SkipMap<i32, i32>) -> Map<i32, i32>;

/// The keys of `dom` between `lo` and `hi` inclusive, in increasing order.
pub open spec fn keys_between(dom: Set<i32>, lo: int, hi: int) -> Seq<i32>
    decreases hi - lo + 1,
{
    if hi < lo {
        Seq::empty()
    } else {
        let rest = keys_between(dom, lo, hi - 1);
        if dom.contains(hi as i32) {
            rest.push(hi as i32)
        } else {
            rest
        }
    }
}

/// The entries of `m` with keys between `lo` and `hi` inclusive, in key order.
pub open spec fn entries_between(m: Map<i32, i32>, lo: i32, hi: i32) -> Seq<(i32, i32)> {
    keys_between(m.dom(), lo as int, hi as int).map_values(|k: i32| (k, m[k]))
}

/// The values of `m` with keys between `lo` and `hi` inclusive, in key order.
pub open spec fn values_between(m: Map<i32, i32>, lo: i32, hi: i32) -> Seq<i32> {
    keys_between(m.dom(), lo as int, hi as int).map_values(|k: i32| m[k])
}

/// The keys between `lo` and `hi` inclusive.
pub open spec fn key_span(lo: i32, hi: i32) -> Set<i32> {
    Set::new(|k: i32| lo <= k <= hi)
}

/// The value bound to `k`, if any.
pub open spec fn map_get(m: Map<i32, i32>, k: i32) -> Option<i32> {
    if m.contains_key(k) {
        Some(m[k])
    } else {
        None
    }
}

/// The keys between `lo` and `hi` are exactly the keys of `dom` in that span,
/// in strictly increasing order.
pub proof fn lemma_keys_between(dom: Set<i32>, lo: int, hi: int)
    requires
        i32::MIN <= lo,
        hi <= i32::MAX,
    ensures
        forall|k: i32| #[trigger] keys_between(dom, lo, hi).contains(k) <==> (dom.contains(k) && lo <= k <= hi),
        forall|i: int, j: int| 0 <= i < j < keys_between(dom, lo, hi).len() ==> #[trigger] keys_between(dom, lo, hi)[i] < #[trigger] keys_between(dom, lo, hi)[j],
        forall|i: int| 0 <= i < keys_between(dom, lo, hi).len() ==> lo <= #[trigger] keys_between(dom, lo, hi)[i] <= hi,
    decreases hi - lo + 1,
{
    if hi >= lo {
        lemma_keys_between(dom, lo, hi - 1);
        let rest = keys_between(dom, lo, hi - 1);
        let s = keys_between(dom, lo, hi);
        let h = hi as i32;
        assert(h == hi);
        assert forall|k: i32| #[trigger] s.contains(k) <==> (dom.contains(k) && lo <= k <= hi) by {
            if dom.contains(h) {
                assert(s == rest.push(hi as i32));
                if rest.contains(k) {
                    let i = choose|i: int| 0 <= i < rest.len() && rest[i] == k;
                    assert(s[i] == k);
                }
                if s.contains(k) && k != hi {
                    let i = choose|i: int| 0 <= i < s.len() && s[i] == k;
                    assert(s[rest.len() as int] == h);
                    assert(i < rest.len());
                    assert(rest[i] == k);
                    assert(rest.contains(k));
                }
                if k == hi {
                    assert(s[rest.len() as int] == k);
                }
            }
        }
    }
}

/// The keys between `k` and `k` are `k` alone, if it is there.
pub proof fn lemma_keys_between_single(dom: Set<i32>, k: i32)
    ensures
        keys_between(dom, k as int, k as int) == (if dom.contains(k) { seq![k] } else { Seq::<i32>::empty() }),
{
    assert(keys_between(dom, k as int, k - 1) == Seq::<i32>::empty());
    if dom.contains(k) {
        assert(keys_between(dom, k as int, k as int) =~= seq![k]);
    }
}

/// Calls `SkipMap::new`: an empty map.
#[verifier::external_body]
pub(crate) fn skip_map_new() -> (created: SkipMap<i32, i32>)
    ensures
        skip_map_contents(created) =~= Map::empty(),
{
    SkipMap::new()
}

/// Calls `SkipMap::len`: the number of entries (exact, as no other thread
/// holds the map).
#[verifier::external_body]
pub(crate) fn skip_map_len(m: &SkipMap<i32, i32>) -> (n: usize)
    ensures
        n == skip_map_contents(*m).len(),
{
    m.len()
}

/// Calls `SkipMap::get` and copies out the value of the entry found.
#[verifier::external_body]
pub(crate) fn skip_map_get(m: &SkipMap<i32, i32>, k: i32) -> (r: Option<i32>)
    ensures
        r == map_get(skip_map_contents(*m), k),
{
    m.get(&k).map(|e| *e.value())
}

/// Calls `SkipMap::insert`: binds `k` to `v`, replacing an entry of `k`.
#[verifier::external_body]
pub(crate) fn skip_map_insert(m: &mut SkipMap<i32, i32>, k: i32, v: i32)
    ensures
        skip_map_contents(*final(m)) == skip_map_contents(*old(m)).insert(k, v),
{
    m.insert(k, v);
}

/// Calls `SkipMap::remove` and copies out the value of the entry removed.
#[verifier::external_body]
pub(crate) fn skip_map_remove(m: &mut SkipMap<i32, i32>, k: i32) -> (r: Option<i32>)
    ensures
        skip_map_contents(*final(m)) == skip_map_contents(*old(m)).remove(k),
        r == map_get(skip_map_contents(*old(m)), k),
{
    m.remove(&k).map(|e| *e.value())
}

/// Calls `SkipMap::get_or_insert`: the value of the entry of `k`, inserting
/// `v` under `k` first when there is none.
#[verifier::external_body]
pub(crate) fn skip_map_get_or_insert(m: &mut SkipMap<i32, i32>, k: i32, v: i32) -> (r: i32)
    ensures
        skip_map_contents(*old(m)).contains_key(k) ==> r == skip_map_contents(*old(m))[k]
            && skip_map_contents(*final(m)) == skip_map_contents(*old(m)),
        !skip_map_contents(*old(m)).contains_key(k) ==> r == v
            && skip_map_contents(*final(m)) == skip_map_contents(*old(m)).insert(k, v),
{
    *m.get_or_insert(k, v).value()
}

/// Calls `SkipMap::range` over `lo..=hi` and copies out the entries, in key
/// order.
#[verifier::external_body]
pub(crate) fn skip_map_range(m: &SkipMap<i32, i32>, lo: i32, hi: i32) -> (r: Vec<(i32, i32)>)
    ensures
        r@ == entries_between(skip_map_contents(*m), lo, hi),
{
    m.range(lo..=hi).map(|e| (*e.key(), *e.value())).collect()
}

/// The values of a sequence of entries, in order.
pub open spec fn pair_values(s: Seq<(i32, i32)>) -> Seq<i32> {
    s.map_values(|e: (i32, i32)| e.1)
}

/// Values of a range of the map's entries: copied out of the entries in turn.
pub(crate) fn values_of_entries(entries: &Vec<(i32, i32)>) -> (r: Vec<i32>)
    ensures
        r@ == pair_values(entries@),
{
    let mut r: Vec<i32> = Vec::new();
    let mut i: usize = 0;
    while i < entries.len()
        invariant
            i <= entries@.len(),
            r@ == pair_values(entries@.subrange(0, i as int)),
        decreases entries@.len() - i,
    {
        r.push(entries[i].1);
        assert(entries@.subrange(0, i + 1) =~= entries@.subrange(0, i as int).push(entries@[i as int]));
        assert(r@ =~= pair_values(entries@.subrange(0, i + 1)));
        i = i + 1;
    }
    assert(entries@.subrange(0, i as int) =~= entries@);
    r
}

/// Remove from `m` each key of `entries` (the entries between `lo` and `hi`);
/// returns their values in order.
pub(crate) fn remove_entries(m: &mut SkipMap<i32, i32>, entries: &Vec<(i32, i32)>, lo: i32, hi: i32) -> (r: Vec<i32>)
    requires
        entries@ == entries_between(skip_map_contents(*old(m)), lo, hi),
    ensures
        r@ == values_between(skip_map_contents(*old(m)), lo, hi),
        skip_map_contents(*final(m)) == skip_map_contents(*old(m)).remove_keys(key_span(lo, hi)),
{
    let ghost m0 = skip_map_contents(*m);
    let ghost ks = keys_between(m0.dom(), lo as int, hi as int);
    proof {
        lemma_keys_between(m0.dom(), lo as int, hi as int);
    }
    let mut r: Vec<i32> = Vec::new();
    let mut i: usize = 0;
    while i < entries.len()
        invariant
            entries@ == ks.map_values(|k: i32| (k, m0[k])),
            forall|k: i32| #[trigger] ks.contains(k) <==> (m0.dom().contains(k) && lo <= k <= hi),
            forall|a: int, b: int| 0 <= a < b < ks.len() ==> #[trigger] ks[a] < #[trigger] ks[b],
            i <= entries@.len(),
            r@ == ks.subrange(0, i as int).map_values(|k: i32| m0[k]),
            forall|k: i32| #[trigger] ks.subrange(0, i as int).contains(k) ==> !skip_map_contents(*m).contains_key(k),
            forall|k: i32| !#[trigger] ks.subrange(0, i as int).contains(k) ==> (skip_map_contents(*m).contains_key(k) == m0.contains_key(k)
                && (m0.contains_key(k) ==> skip_map_contents(*m)[k] == m0[k])),
        decreases entries@.len() - i,
    {
        let (k, v) = entries[i];
        let ghost before = skip_map_contents(*m);
        let _ = skip_map_remove(m, k);
        r.push(v);
        proof {
            let s0 = ks.subrange(0, i as int);
            let s1 = ks.subrange(0, i + 1);
            assert(s1 =~= s0.push(ks[i as int]));
            assert(k == ks[i as int]);
            assert(skip_map_contents(*m) == before.remove(k));
            assert forall|k2: i32| #[trigger] s1.contains(k2) implies !skip_map_contents(*m).contains_key(k2) by {
                if k2 != k {
                    let j = choose|j: int| 0 <= j < s1.len() && s1[j] == k2;
                    assert(j < s0.len());
                    assert(s0[j] == k2);
                    assert(s0.contains(k2));
                    assert(!before.contains_key(k2));
                }
            }
            assert forall|k2: i32| !#[trigger] s1.contains(k2) implies (skip_map_contents(*m).contains_key(k2) == m0.contains_key(k2)
                && (m0.contains_key(k2) ==> skip_map_contents(*m)[k2] == m0[k2])) by {
                assert(s1[i as int] == k);
                if s0.contains(k2) {
                    let j = choose|j: int| 0 <= j < s0.len() && s0[j] == k2;
                    assert(s1[j] == k2);
                }
            }
            assert(r@ =~= s1.map_values(|k: i32| m0[k]));
        }
        i = i + 1;
    }
    proof {
        assert(ks.subrange(0, i as int) =~= ks);
        let m1 = skip_map_contents(*m);
        let want = m0.remove_keys(key_span(lo, hi));
        assert forall|k: i32| #[trigger] m1.contains_key(k) <==> want.contains_key(k) by {
            if ks.contains(k) {
                assert(ks.subrange(0, i as int).contains(k));
            } else {
                assert(!ks.subrange(0, i as int).contains(k));
            }
        }
        assert forall|k: i32| #[trigger] m1.contains_key(k) implies m1[k] == want[k] by {
            if ks.contains(k) {
                assert(ks.subrange(0, i as int).contains(k));
            } else {
                assert(!ks.subrange(0, i as int).contains(k));
            }
        }
        assert(m1 =~= want);
    }
    r
}

} // verus!
