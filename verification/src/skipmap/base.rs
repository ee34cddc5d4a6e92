//! The skip map itself. Node 0 is the head; a lane holding 0 links to nothing.
use vstd::prelude::*;
use crate::key::{IndexKey, KeyOrder, lemma_lt_asymmetric, lemma_not_lt, lemma_lt_le_transitive};
use crate::sorted::{
    strictly_sorted, key_in_bounds, range_values, outside_range, lower_index, lookup, upsert, values_of,
    lemma_lower_index, lemma_lower_index_split, lemma_bounded_block, lemma_lookup_index,
};
use crate::random::random_u32;

verus! {

/// Number of lanes in a node's tower.
pub const LANES: usize = 25;

/// Bit 23: bounds the trailing zeros of a random word, and so the height.
pub const HEIGHT_MASK: u32 = 0x0080_0000u32;

/// Successor of position `p` in a chain; position -1 is the head.
pub open spec fn succ_in(c: Seq<usize>, p: int) -> int {
    if 0 <= p + 1 < c.len() {
        c[p + 1] as int
    } else {
        0
    }
}

/// The node at position `p` of a chain; position -1 is the head.
pub open spec fn node_in(c: Seq<usize>, p: int) -> int {
    if p == -1 {
        0
    } else {
        c[p] as int
    }
}

/// Height of a new tower from a random word: one plus the number of trailing
/// zeros of the word with bit 23 set, so between 1 and 24.
pub fn height_for_bits(bits: u32) -> (h: usize)
    ensures
        h == 1 + vstd::std_specs::bits::u32_trailing_zeros(bits | HEIGHT_MASK),
        1 <= h <= 24,
{
    let masked = bits | HEIGHT_MASK;
    let tz = masked.trailing_zeros();
    proof {
        vstd::std_specs::bits::axiom_u32_trailing_zeros(masked);
        assert(masked & 0x0080_0000u32 != 0) by (bit_vector)
            requires
                masked == bits | 0x0080_0000u32,
        ;
        if tz > 23 {
            assert((masked >> 23u32) & 1u32 == 0u32);
            assert(false) by (bit_vector)
                requires
                    masked & 0x0080_0000u32 != 0,
                    (masked >> 23u32) & 1u32 == 0u32,
            ;
        }
    }
    1 + tz as usize
}

/// A random tower height between 1 and 24, each level half as likely as the
/// one below.
pub fn random_height() -> (h: usize)
    ensures
        1 <= h <= 24,
{
    height_for_bits(random_u32())
}

/// Lane slots of distinct (node, level) pairs are distinct.
proof fn lemma_lane_slot(n1: int, l1: int, n2: int, l2: int)
    requires
        0 <= n1,
        0 <= n2,
        0 <= l1 < 25,
        0 <= l2 < 25,
    ensures
        (n1 * 25 + l1 == n2 * 25 + l2) <==> (n1 == n2 && l1 == l2),
{
    if n1 * 25 + l1 == n2 * 25 + l2 {
        assert(n1 == n2) by (nonlinear_arith)
            requires
                n1 * 25 + l1 == n2 * 25 + l2,
                0 <= l1 < 25,
                0 <= l2 < 25,
                0 <= n1,
                0 <= n2,
        ;
    }
}

pub struct BaseSkipMap<K, V> {
    keys: Vec<K>,
    values: Vec<Option<V>>,
    lanes: Vec<usize>,
    height: usize,
    /// For each level, the nodes linked on that level, in order (head excluded).
    chains: Ghost<Seq<Seq<usize>>>,
}

impl<K: IndexKey, V> BaseSkipMap<K, V> {
    pub closed spec fn node_count(&self) -> int {
        self.keys@.len() as int
    }

    pub closed spec fn key_of(&self, n: int) -> K::V {
        self.keys@[n]@
    }

    pub closed spec fn lane_of(&self, n: int, l: int) -> int {
        self.lanes@[n * 25 + l] as int
    }

    pub closed spec fn chain(&self, l: int) -> Seq<usize> {
        self.chains@[l]
    }

    pub closed spec fn top(&self) -> int {
        self.height as int
    }

    /// Level `l` is linked as its chain says, within the arena, in key order.
    pub closed spec fn chain_ok(&self, l: int) -> bool {
        let c = self.chain(l);
        &&& self.lane_of(0, l) == succ_in(c, -1)
        &&& forall|p: int| 0 <= p < c.len() ==> #[trigger] self.lane_of(c[p] as int, l) == succ_in(c, p)
        &&& forall|p: int| 0 <= p < c.len() ==> 1 <= #[trigger] c[p] < self.node_count()
        &&& forall|i: int, j: int| #![trigger c[i], c[j]] 0 <= i < j < c.len() ==> K::key_lt(self.key_of(c[i] as int), self.key_of(c[j] as int))
    }

    /// A node on some level is on every level below it.
    pub closed spec fn nested_for(&self, x: usize) -> bool {
        forall|l: int, m: int| #![trigger self.chain(l).contains(x), self.chain(m).contains(x)]
            0 <= m <= l < 25 && self.chain(l).contains(x) ==> self.chain(m).contains(x)
    }

    /// Everything but nesting.
    pub closed spec fn shape(&self) -> bool {
        &&& self.keys@.len() >= 1
        &&& self.values@.len() == self.keys@.len()
        &&& self.lanes@.len() == 25 * self.keys@.len()
        &&& self.chains@.len() == 25
        &&& self.height < 25
        &&& forall|l: int| 0 <= l < 25 ==> #[trigger] self.chain_ok(l)
        &&& forall|l: int| self.height < l < 25 ==> #[trigger] self.chain(l).len() == 0
        &&& forall|p: int| 0 <= p < self.chain(0).len() ==> (#[trigger] self.values@[self.chain(0)[p] as int]) is Some
    }

    pub closed spec fn inv(&self) -> bool {
        &&& self.shape()
        &&& forall|x: usize| #[trigger] self.nested_for(x)
        &&& self.chain(0).len() < self.keys@.len()
    }

    /// The entries in key order: the bottom level.
    pub closed spec fn entries(&self) -> Seq<(K::V, V)> {
        self.chain(0).map_values(|n: usize| (self.keys@[n as int]@, self.values@[n as int]->0))
    }

    /// The entries of a map that keeps its invariant are in strictly
    /// increasing key order.
    pub proof fn law_entries_sorted(&self)
        requires
            self.inv(),
        ensures
            strictly_sorted::<K, V>(self.entries()),
    {
        self.lemma_entries_sorted();
    }

    proof fn lemma_entries_sorted(&self)
        requires
            self.shape(),
        ensures
            strictly_sorted::<K, V>(self.entries()),
            self.entries().len() == self.chain(0).len(),
    {
        assert(self.chain_ok(0));
        let e = self.entries();
        let c = self.chain(0);
        assert forall|i: int, j: int| #![trigger e[i], e[j]] 0 <= i < j < e.len() implies K::key_lt(e[i].0, e[j].0) by {
            assert(e[i].0 == self.key_of(c[i] as int));
            assert(e[j].0 == self.key_of(c[j] as int));
        }
    }

    pub fn new() -> (m: Self)
        where K: Default
        ensures
            m.inv(),
            m.entries() == Seq::<(K::V, V)>::empty(),
    {
        let mut keys: Vec<K> = Vec::new();
        keys.push(K::default());
        let mut values: Vec<Option<V>> = Vec::new();
        values.push(None);
        let mut lanes: Vec<usize> = Vec::new();
        let mut l: usize = 0;
        while l < LANES
            invariant
                l <= LANES,
                lanes@.len() == l,
                forall|i: int| 0 <= i < l ==> lanes@[i] == 0,
            decreases LANES - l,
        {
            lanes.push(0);
            l = l + 1;
        }
        let m = BaseSkipMap { keys, values, lanes, height: 0, chains: Ghost(Seq::new(25, |l: int| Seq::<usize>::empty())) };
        assert forall|l: int| 0 <= l < 25 implies #[trigger] m.chain_ok(l) by {
            assert(m.lane_of(0, l) == 0);
        }
        assert(m.entries() =~= Seq::<(K::V, V)>::empty());
        m
    }

    fn lane(&self, n: usize, l: usize) -> (r: usize)
        requires
            self.shape(),
            n < self.node_count(),
            l < 25,
        ensures
            r == self.lane_of(n as int, l as int),
    {
        let total = self.lanes.len();
        proof {
            let nn = self.node_count();
            assert(n * 25 + l < total) by (nonlinear_arith)
                requires n < nn, l < 25, total == 25 * nn;
        }
        self.lanes[n * LANES + l]
    }

    fn set_lane(&mut self, n: usize, l: usize, v: usize)
        requires
            old(self).lanes@.len() == 25 * old(self).keys@.len(),
            n < old(self).node_count(),
            l < 25,
        ensures
            final(self).lanes@ == old(self).lanes@.update(n * 25 + l, v),
            final(self).keys@ == old(self).keys@,
            final(self).values@ == old(self).values@,
            final(self).height == old(self).height,
            final(self).chains == old(self).chains,
    {
        let total = self.lanes.len();
        proof {
            let nn = self.node_count();
            assert(n * 25 + l < total) by (nonlinear_arith)
                requires n < nn, l < 25, total == 25 * nn;
        }
        self.lanes[n * LANES + l] = v;
    }

    /// Position of the node in the chain on level `l`: -1 for the head.
    proof fn lemma_position(&self, l: int, p: usize) -> (pos: int)
        requires
            self.shape(),
            0 <= l < 25,
            p == 0 || self.chain(l).contains(p),
        ensures
            -1 <= pos < self.chain(l).len(),
            node_in(self.chain(l), pos) == p,
            self.lane_of(p as int, l) == succ_in(self.chain(l), pos),
    {
        assert(self.chain_ok(l));
        if p == 0 {
            -1
        } else {
            let pos = choose|i: int| 0 <= i < self.chain(l).len() && self.chain(l)[i] == p;
            pos
        }
    }

    /// The head, or a node on level `l` whose key is below `k`, whose successor on
    /// level `l` is not below `k`: the last node of level `l` before `k`.
    pub open spec fn is_pred_at(&self, l: int, p: usize, k: K::V) -> bool {
        &&& (p == 0 || (self.chain(l).contains(p) && K::key_lt(self.key_of(p as int), k)))
        &&& (self.lane_of(p as int, l) == 0 || !K::key_lt(self.key_of(self.lane_of(p as int, l)), k))
    }

    /// At a predecessor of `k` on the bottom level, the entries below `k` are
    /// exactly those up to it.
    proof fn lemma_pred_bottom(&self, p: usize, k: K::V) -> (pos: int)
        requires
            self.shape(),
            self.is_pred_at(0, p, k),
        ensures
            pos + 1 == lower_index::<K, V>(self.entries(), k),
            node_in(self.chain(0), pos) == p,
            self.lane_of(p as int, 0) == succ_in(self.chain(0), pos),
    {
        let pos = self.lemma_position(0, p);
        let c = self.chain(0);
        let e = self.entries();
        self.lemma_entries_sorted();
        assert(self.chain_ok(0));
        assert forall|i: int| 0 <= i < pos + 1 implies K::key_lt(#[trigger] e[i].0, k) by {
            assert(e[i].0 == self.key_of(c[i] as int));
            if i < pos {
                K::lemma_lt_transitive(self.key_of(c[i] as int), self.key_of(c[pos] as int), k);
            }
        }
        assert forall|i: int| pos + 1 <= i < e.len() implies !K::key_lt(#[trigger] e[i].0, k) by {
            assert(e[i].0 == self.key_of(c[i] as int));
            if i > pos + 1 {
                lemma_not_lt::<K>(self.key_of(c[pos + 1] as int), k);
                if K::key_lt(self.key_of(c[i] as int), k) {
                    lemma_lt_le_transitive::<K>(k, self.key_of(c[pos + 1] as int), self.key_of(c[i] as int));
                    lemma_lt_asymmetric::<K>(k, self.key_of(c[i] as int));
                }
            }
        }
        lemma_lower_index::<K, V>(e, k, pos + 1);
        pos
    }

    /// The key of node `n` (the head's key is the default key).
    pub fn node_key(&self, n: usize) -> (k: &K)
        requires
            self.inv(),
            n < self.node_count(),
        ensures
            k@ == self.key_of(n as int),
    {
        &self.keys[n]
    }

    /// Return the node before the lower bound of `key` on the bottom level
    /// (the head when no key is below `key`).
    pub fn lower_bound_before(&self, key: &K) -> (p: usize)
        requires
            self.inv(),
        ensures
            self.is_pred_at(0, p, key@),
            p == node_in(self.chain(0), lower_index::<K, V>(self.entries(), key@) - 1),
            p < self.node_count(),
            lower_index::<K, V>(self.entries(), key@) == 0 ==> p == 0,
            lower_index::<K, V>(self.entries(), key@) > 0 ==> self.key_of(p as int) == self.entries()[lower_index::<
                K,
                V,
            >(self.entries(), key@) - 1].0,
            lower_index::<K, V>(self.entries(), key@) < self.entries().len() ==> self.lane_of(p as int, 0) != 0
                && self.key_of(self.lane_of(p as int, 0)) == self.entries()[lower_index::<K, V>(
                self.entries(),
                key@,
            )].0,
            lower_index::<K, V>(self.entries(), key@) == self.entries().len() ==> self.lane_of(p as int, 0) == 0,
    {
        let mut p: usize = 0;
        let mut h: usize = self.height;
        let ghost mut pos: int = -1;
        loop
            invariant
                self.inv(),
                h <= self.top(),
                -1 <= pos < self.chain(h as int).len(),
                p == node_in(self.chain(h as int), pos),
                p == 0 || (self.chain(h as int).contains(p) && K::key_lt(self.key_of(p as int), key@)),
                p < self.node_count(),
            ensures
                self.is_pred_at(0, p, key@),
            decreases h, self.chain(h as int).len() - pos,
        {
            assert(self.chain_ok(h as int));
            assert(p == 0 || self.chain(h as int)[pos] == p);
            let next = self.lane(p, h);
            assert(next == succ_in(self.chain(h as int), pos));
            if next != 0 && self.keys[next].compare(key) == KeyOrder::Less {
                proof {
                    pos = pos + 1;
                }
                p = next;
            } else if h > 0 {
                proof {
                    if p != 0 {
                        assert(self.nested_for(p));
                        assert(self.chain(h as int).contains(p));
                        assert(self.chain(h - 1).contains(p));
                    }
                    pos = self.lemma_position(h - 1, p);
                }
                h = h - 1;
            } else {
                break;
            }
        }
        proof {
            let pos = self.lemma_pred_bottom(p, key@);
            self.lemma_entries_sorted();
            if pos >= 0 {
                assert(self.entries()[pos].0 == self.key_of(self.chain(0)[pos] as int));
            }
            assert(self.chain_ok(0));
            if pos + 1 < self.chain(0).len() {
                assert(self.entries()[pos + 1].0 == self.key_of(self.chain(0)[pos + 1] as int));
            }
        }
        p
    }

    /// Find the node holding `key`.
    fn find(&self, key: &K) -> (r: Option<usize>)
        requires
            self.inv(),
        ensures
            r is Some <==> lookup::<K, V>(self.entries(), key@) is Some,
            r matches Some(n) ==> {
                &&& lower_index::<K, V>(self.entries(), key@) < self.chain(0).len()
                &&& n == self.chain(0)[lower_index::<K, V>(self.entries(), key@)]
                &&& self.key_of(n as int) == key@
            },
    {
        let p = self.lower_bound_before(key);
        let ghost pos = self.lemma_pred_bottom(p, key@);
        proof {
            self.lemma_entries_sorted();
            assert(self.chain_ok(0));
        }
        let next = self.lane(p, 0);
        if next != 0 && self.keys[next].compare(key) == KeyOrder::Equal {
            Some(next)
        } else {
            None
        }
    }

    /// Get exactly from the skip map.
    pub fn get(&self, key: &K) -> (r: Option<&V>)
        requires
            self.inv(),
        ensures
            match r {
                Some(v) => lookup::<K, V>(self.entries(), key@) == Some(*v),
                None => lookup::<K, V>(self.entries(), key@) is None,
            },
    {
        match self.find(key) {
            Some(n) => {
                proof {
                    let q = lower_index::<K, V>(self.entries(), key@);
                    assert(self.chain_ok(0));
                    assert(self.values@[self.chain(0)[q] as int] is Some);
                }
                self.values[n].as_ref()
            },
            None => None,
        }
    }

    /// Return, for each level up to the current height, the node before the
    /// lower bound of `key` on that level (the head where no node of the
    /// level is below `key`); the bottom one is the node that
    /// `lower_bound_before` returns.
    fn lower_bound_before_all_levels(&self, key: &K) -> (tower: Vec<usize>)
        requires
            self.inv(),
        ensures
            tower@.len() == self.top() + 1,
            forall|l: int| 0 <= l <= self.top() ==> #[trigger] self.is_pred_at(l, tower@[l], key@),
            forall|l: int| 0 <= l <= self.top() ==> #[trigger] tower@[l] < self.node_count(),
            tower@[0] == node_in(self.chain(0), lower_index::<K, V>(self.entries(), key@) - 1),
    {
        let mut p: usize = 0;
        let mut h: usize = self.height;
        let mut tower: Vec<usize> = Vec::new();
        let mut l: usize = 0;
        while l <= h
            invariant
                h == self.height,
                h < 25,
                l <= h + 1,
                tower@.len() == l,
            decreases h + 1 - l,
        {
            tower.push(p);
            l = l + 1;
        }
        let ghost mut pos: int = -1;
        loop
            invariant
                self.inv(),
                h <= self.top(),
                tower@.len() == self.top() + 1,
                -1 <= pos < self.chain(h as int).len(),
                p == node_in(self.chain(h as int), pos),
                p == 0 || (self.chain(h as int).contains(p) && K::key_lt(self.key_of(p as int), key@)),
                p < self.node_count(),
                forall|m: int| h < m <= self.top() ==> #[trigger] self.is_pred_at(m, tower@[m], key@),
                forall|m: int| h < m <= self.top() ==> #[trigger] tower@[m] < self.node_count(),
            ensures
                forall|m: int| 0 <= m <= self.top() ==> #[trigger] self.is_pred_at(m, tower@[m], key@),
                forall|m: int| 0 <= m <= self.top() ==> #[trigger] tower@[m] < self.node_count(),
            decreases h, self.chain(h as int).len() - pos,
        {
            assert(self.chain_ok(h as int));
            assert(p == 0 || self.chain(h as int)[pos] == p);
            let next = self.lane(p, h);
            assert(next == succ_in(self.chain(h as int), pos));
            if next != 0 && self.keys[next].compare(key) == KeyOrder::Less {
                proof {
                    pos = pos + 1;
                }
                p = next;
            } else {
                tower.set(h, p);
                assert(self.is_pred_at(h as int, p, key@));
                if h > 0 {
                    proof {
                        if p != 0 {
                            assert(self.nested_for(p));
                            assert(self.chain(h as int).contains(p));
                            assert(self.chain(h - 1).contains(p));
                        }
                        pos = self.lemma_position(h - 1, p);
                    }
                    h = h - 1;
                } else {
                    break;
                }
            }
        }
        proof {
            assert(self.is_pred_at(0, tower@[0], key@));
            let _ = self.lemma_pred_bottom(tower@[0], key@);
        }
        tower
    }

    /// Changing values, keeping those on the bottom level present, keeps the
    /// invariant.
    proof fn lemma_values_changed(a: Self, b: Self)
        requires
            a.inv(),
            b.keys@ == a.keys@,
            b.lanes@ == a.lanes@,
            b.chains@ == a.chains@,
            b.height == a.height,
            b.values@.len() == a.values@.len(),
            forall|p: int| 0 <= p < a.chain(0).len() ==> (#[trigger] b.values@[a.chain(0)[p] as int]) is Some,
        ensures
            b.inv(),
    {
        assert forall|l: int| 0 <= l < 25 implies #[trigger] b.chain_ok(l) by {
            assert(a.chain_ok(l));
            let c = a.chain(l);
            assert forall|p: int| 0 <= p < c.len() implies #[trigger] b.lane_of(c[p] as int, l) == succ_in(c, p) by {
                assert(a.lane_of(c[p] as int, l) == succ_in(c, p));
            }
            assert forall|i: int, j: int| #![trigger c[i], c[j]] 0 <= i < j < c.len() implies K::key_lt(b.key_of(c[i] as int), b.key_of(c[j] as int)) by {
                assert(K::key_lt(a.key_of(c[i] as int), a.key_of(c[j] as int)));
            }
        }
        assert forall|y: usize| #[trigger] b.nested_for(y) by {
            assert(a.nested_for(y));
            assert forall|l: int, m: int| #![trigger b.chain(l).contains(y), b.chain(m).contains(y)]
                0 <= m <= l < 25 && b.chain(l).contains(y) implies b.chain(m).contains(y) by {
                assert(b.chain(l) == a.chain(l));
                assert(b.chain(m) == a.chain(m));
                assert(a.chain(l).contains(y));
            }
        }
        assert forall|l: int| b.height < l < 25 implies #[trigger] b.chain(l).len() == 0 by {
            assert(a.chain(l).len() == 0);
        }
        assert forall|p: int| 0 <= p < b.chain(0).len() implies (#[trigger] b.values@[b.chain(0)[p] as int]) is Some by {
            assert(b.chain(0) == a.chain(0));
        }
        assert(b.chain(0) == a.chain(0));
    }

    /// A node appended to the arena, linked on no level, keeps the invariant;
    /// so does raising the height.
    proof fn lemma_push_node(a: Self, b: Self, x: usize)
        requires
            a.inv(),
            x == a.node_count(),
            b.keys@.len() == a.keys@.len() + 1,
            b.values@.len() == a.values@.len() + 1,
            forall|n: int| 0 <= n < a.keys@.len() ==> b.keys@[n] == a.keys@[n],
            forall|n: int| 0 <= n < a.values@.len() ==> b.values@[n] == a.values@[n],
            b.lanes@.len() == a.lanes@.len() + 25,
            forall|i: int| 0 <= i < a.lanes@.len() ==> b.lanes@[i] == a.lanes@[i],
            forall|i: int| a.lanes@.len() <= i < b.lanes@.len() ==> b.lanes@[i] == 0,
            b.chains == a.chains,
            a.height <= b.height < 25,
        ensures
            b.inv(),
            forall|l: int| 0 <= l < 25 ==> !#[trigger] b.chain(l).contains(x),
            forall|l: int, n: int| 0 <= l < 25 && 0 <= n < b.node_count() ==> #[trigger] b.lane_of(n, l) == (if n < a.node_count() { a.lane_of(n, l) } else { 0 }),
            b.entries() == a.entries(),
            b.chain(0).len() + 1 < b.keys@.len(),
    {
        assert forall|l: int, n: int| 0 <= l < 25 && 0 <= n < b.node_count() implies #[trigger] b.lane_of(n, l) == (if n < a.node_count() { a.lane_of(n, l) } else { 0 }) by {
            if n < a.node_count() {
                assert(n * 25 + l < a.lanes@.len()) by (nonlinear_arith)
                    requires 0 <= n < a.node_count(), 0 <= l < 25, a.lanes@.len() == 25 * a.node_count();
            } else {
                assert(n * 25 + l >= a.lanes@.len()) by (nonlinear_arith)
                    requires n == a.node_count(), 0 <= l < 25, a.lanes@.len() == 25 * a.node_count();
                assert(n * 25 + l < b.lanes@.len()) by (nonlinear_arith)
                    requires n == a.node_count(), 0 <= l < 25, b.lanes@.len() == 25 * a.node_count() + 25;
            }
        }
        assert forall|l: int| 0 <= l < 25 implies #[trigger] b.chain_ok(l) by {
            assert(a.chain_ok(l));
            let c = a.chain(l);
            assert forall|p: int| 0 <= p < c.len() implies #[trigger] b.lane_of(c[p] as int, l) == succ_in(c, p) by {
                assert(a.lane_of(c[p] as int, l) == succ_in(c, p));
            }
            assert forall|i: int, j: int| #![trigger c[i], c[j]] 0 <= i < j < c.len() implies K::key_lt(b.key_of(c[i] as int), b.key_of(c[j] as int)) by {
                assert(K::key_lt(a.key_of(c[i] as int), a.key_of(c[j] as int)));
            }
        }
        assert forall|y: usize| #[trigger] b.nested_for(y) by {
            assert(a.nested_for(y));
            assert forall|l: int, m: int| #![trigger b.chain(l).contains(y), b.chain(m).contains(y)]
                0 <= m <= l < 25 && b.chain(l).contains(y) implies b.chain(m).contains(y) by {
                assert(b.chain(l) == a.chain(l));
                assert(b.chain(m) == a.chain(m));
                assert(a.chain(l).contains(y));
            }
        }
        assert forall|l: int| 0 <= l < 25 implies !#[trigger] b.chain(l).contains(x) by {
            assert(a.chain_ok(l));
            if a.chain(l).contains(x) {
                let p = choose|p: int| 0 <= p < a.chain(l).len() && a.chain(l)[p] == x;
                assert(a.chain(l)[p] < a.node_count());
            }
        }
        assert(a.chain_ok(0));
        assert forall|p: int| 0 <= p < b.chain(0).len() implies (#[trigger] b.values@[b.chain(0)[p] as int]) is Some by {
            assert(a.values@[a.chain(0)[p] as int] is Some);
        }
        assert forall|l: int| b.height < l < 25 implies #[trigger] b.chain(l).len() == 0 by {
            assert(a.chain(l).len() == 0);
        }
        assert(b.shape());
        assert(b.entries() =~= a.entries());
    }

    /// Splicing node `x` in after position `pt` of level `l`, where it belongs
    /// in key order, keeps the invariant.
    #[verifier::rlimit(40)]
    proof fn lemma_splice(a: Self, b: Self, l: int, pt: int, x: usize)
        requires
            a.inv(),
            0 <= l <= a.top(),
            -1 <= pt < a.chain(l).len(),
            1 <= x < a.node_count(),
            forall|m: int| 0 <= m < 25 ==> (#[trigger] a.chain(m).contains(x) <==> m < l),
            a.values@[x as int] is Some,
            l == 0 ==> a.chain(0).len() + 1 < a.keys@.len(),
            pt >= 0 ==> K::key_lt(a.key_of(a.chain(l)[pt] as int), a.key_of(x as int)),
            pt + 1 < a.chain(l).len() ==> K::key_lt(a.key_of(x as int), a.key_of(a.chain(l)[pt + 1] as int)),
            b.keys@ == a.keys@,
            b.values@ == a.values@,
            b.height == a.height,
            b.chains@ == a.chains@.update(l, a.chain(l).insert(pt + 1, x)),
            b.lanes@ == a.lanes@.update(x * 25 + l, succ_in(a.chain(l), pt) as usize).update(
                node_in(a.chain(l), pt) * 25 + l,
                x,
            ),
        ensures
            b.inv(),
            forall|m: int| 0 <= m < 25 ==> (#[trigger] b.chain(m).contains(x) <==> m <= l),
            forall|m: int, n: int| 0 <= m < 25 && m != l && 0 <= n < b.node_count() ==> #[trigger] b.lane_of(n, m) == a.lane_of(n, m),
            b.chain(l) == a.chain(l).insert(pt + 1, x),
    {
        let c = a.chain(l);
        let d = c.insert(pt + 1, x);
        let t = node_in(c, pt);
        assert(a.chain_ok(l));
        assert(0 <= t < a.node_count());
        assert(!c.contains(x));
        assert(t != x);
        assert(0 <= succ_in(c, pt) < a.node_count());
        assert(b.lanes@.len() == a.lanes@.len());
        assert(x * 25 + l < a.lanes@.len()) by (nonlinear_arith)
            requires 1 <= x < a.node_count(), 0 <= l < 25, a.lanes@.len() == 25 * a.node_count();
        assert(t * 25 + l < a.lanes@.len()) by (nonlinear_arith)
            requires 0 <= t < a.node_count(), 0 <= l < 25, a.lanes@.len() == 25 * a.node_count();
        // lanes of other (node, level) pairs are unchanged
        assert forall|m: int, n: int| 0 <= m < 25 && 0 <= n < b.node_count() && !(m == l && (n == t || n == x)) implies #[trigger] b.lane_of(n, m) == a.lane_of(n, m) by {
            lemma_lane_slot(n, m, t, l);
            lemma_lane_slot(n, m, x as int, l);
        }
        assert(b.lane_of(t, l) == x) by {
            lemma_lane_slot(t, l, x as int, l);
        }
        assert(b.lane_of(x as int, l) == succ_in(c, pt)) by {
            lemma_lane_slot(t, l, x as int, l);
        }
        // x is new on level l; the nodes of level l are distinct
        assert(!c.contains(x));
        assert forall|i: int, j: int| 0 <= i < j < c.len() implies c[i] != c[j] by {
            assert(K::key_lt(a.key_of(c[i] as int), a.key_of(c[j] as int)));
            K::lemma_lt_irreflexive(a.key_of(c[i] as int));
        }
        assert(b.chain_ok(l)) by {
            assert(b.chain(l) == d);
            assert forall|p: int| 0 <= p < d.len() implies #[trigger] b.lane_of(d[p] as int, l) == succ_in(d, p) by {
                if p < pt + 1 {
                    assert(d[p] == c[p]);
                    if p == pt {
                    } else {
                        assert(c[p] != t);
                        assert(a.lane_of(c[p] as int, l) == succ_in(c, p));
                    }
                } else if p == pt + 1 {
                } else {
                    assert(d[p] == c[p - 1]);
                    assert(c[p - 1] != t) by {
                        if pt >= 0 {
                            assert(c[pt] != c[p - 1]);
                        }
                    }
                    assert(a.lane_of(c[p - 1] as int, l) == succ_in(c, p - 1));
                }
            }
            if pt >= 0 {
                assert(b.lane_of(0, l) == a.lane_of(0, l));
            }
            assert forall|i: int, j: int| #![trigger d[i], d[j]] 0 <= i < j < d.len() implies K::key_lt(b.key_of(d[i] as int), b.key_of(d[j] as int)) by {
                if j < pt + 1 {
                    assert(d[i] == c[i] && d[j] == c[j]);
                } else if j == pt + 1 {
                    assert(d[i] == c[i]);
                    if i < pt {
                        K::lemma_lt_transitive(a.key_of(c[i] as int), a.key_of(c[pt] as int), a.key_of(x as int));
                    }
                } else if i == pt + 1 {
                    assert(d[j] == c[j - 1]);
                    if j - 1 > pt + 1 {
                        K::lemma_lt_transitive(a.key_of(x as int), a.key_of(c[pt + 1] as int), a.key_of(c[j - 1] as int));
                    }
                } else if i < pt + 1 {
                    assert(d[i] == c[i] && d[j] == c[j - 1]);
                } else {
                    assert(d[i] == c[i - 1] && d[j] == c[j - 1]);
                }
            }
        }
        assert forall|m: int| 0 <= m < 25 && m != l implies #[trigger] b.chain_ok(m) by {
            assert(a.chain_ok(m));
            let e = a.chain(m);
            assert(b.chain(m) == e);
            assert forall|p: int| 0 <= p < e.len() implies #[trigger] b.lane_of(e[p] as int, m) == succ_in(e, p) by {
                assert(a.lane_of(e[p] as int, m) == succ_in(e, p));
            }
        }
        assert forall|m: int| a.height < m < 25 implies #[trigger] b.chain(m).len() == 0 by {
            assert(a.chain(m).len() == 0);
        }
        assert forall|y: usize| #[trigger] b.nested_for(y) by {
            assert(a.nested_for(y));
            assert forall|m: int| 0 <= m < 25 implies (b.chain(m).contains(y) <==> (a.chain(m).contains(y) || (m == l && y == x))) by {
                if m == l {
                    if d.contains(y) && y != x {
                        let i = choose|i: int| 0 <= i < d.len() && d[i] == y;
                        if i < pt + 1 {
                            assert(c[i] == y);
                        } else {
                            assert(c[i - 1] == y);
                        }
                    }
                    if c.contains(y) {
                        let i = choose|i: int| 0 <= i < c.len() && c[i] == y;
                        if i < pt + 1 {
                            assert(d[i] == y);
                        } else {
                            assert(d[i + 1] == y);
                        }
                    }
                    assert(d[pt + 1] == x);
                }
            }
        }
        assert forall|p: int| 0 <= p < b.chain(0).len() implies (#[trigger] b.values@[b.chain(0)[p] as int]) is Some by {
            assert(a.chain_ok(0));
            if l == 0 {
                if p < pt + 1 {
                    assert(d[p] == c[p]);
                } else if p > pt + 1 {
                    assert(d[p] == c[p - 1]);
                }
            }
        }
        if l != 0 {
            assert(b.chain(0) == a.chain(0));
        }
        assert(b.chain(0).len() < b.keys@.len());
        assert(b.shape());
        assert forall|m: int| 0 <= m < 25 implies (#[trigger] b.chain(m).contains(x) <==> m <= l) by {
            if m == l {
                assert(d[pt + 1] == x);
            } else {
                assert(b.chain(m) == a.chain(m));
                assert(a.chain(m).contains(x) <==> m < l);
            }
        }
    }

    /// Inserts data into the skip map, or updates the value of a present key;
    /// returns the value the key had.
    pub fn insert_or_update(&mut self, key: K, value: V) -> (r: Option<V>)
        requires
            old(self).inv(),
        ensures
            final(self).inv(),
            r == lookup::<K, V>(old(self).entries(), key@),
            final(self).entries() == upsert::<K, V>(old(self).entries(), key@, value),
            r is None ==> final(self).entries().len() <= usize::MAX,
    {
        let ghost e0 = self.entries();
        let ghost q = lower_index::<K, V>(e0, key@);
        proof {
            self.lemma_entries_sorted();
            lemma_lookup_index::<K, V>(e0, key@);
            lemma_lower_index_split::<K, V>(e0, key@);
            assert(self.chain_ok(0));
        }
        // check for update
        if let Some(n) = self.find(&key) {
            let ghost pre = *self;
            let mut t = Some(value);
            std::mem::swap(&mut self.values[n], &mut t);
            proof {
                let c = pre.chain(0);
                assert forall|p: int| 0 <= p < c.len() && p != q implies c[p] != n by {
                    if p < q {
                        assert(K::key_lt(pre.key_of(c[p] as int), pre.key_of(c[q] as int)));
                    } else {
                        assert(K::key_lt(pre.key_of(c[q] as int), pre.key_of(c[p] as int)));
                    }
                    K::lemma_lt_irreflexive(pre.key_of(n as int));
                }
                assert(self.entries() =~= e0.update(q, (key@, value)));
                Self::lemma_values_changed(pre, *self);
            }
            return t;
        }
        // insert from the base
        let ghost a = *self;
        let height = random_height();
        let current_height = self.height;
        if height > current_height {
            self.height = height;
        }
        let x = self.keys.len();
        self.keys.push(key);
        self.values.push(Some(value));
        let mut l: usize = 0;
        while l < LANES
            invariant
                l <= LANES,
                self.lanes@.len() == a.lanes@.len() + l,
                forall|i: int| 0 <= i < a.lanes@.len() ==> self.lanes@[i] == a.lanes@[i],
                forall|i: int| a.lanes@.len() <= i < self.lanes@.len() ==> self.lanes@[i] == 0,
                self.keys@.len() == a.keys@.len() + 1,
                self.values@.len() == a.values@.len() + 1,
                forall|n: int| 0 <= n < a.keys@.len() ==> self.keys@[n] == a.keys@[n],
                forall|n: int| 0 <= n < a.values@.len() ==> self.values@[n] == a.values@[n],
                self.keys@[x as int]@ == key@,
                self.values@[x as int] == Some(value),
                self.chains == a.chains,
                a.height <= self.height < 25,
                height <= self.height,
                x == a.keys@.len(),
            decreases LANES - l,
        {
            self.lanes.push(0);
            l = l + 1;
        }
        proof {
            Self::lemma_push_node(a, *self, x);
        }
        let ghost b = *self;
        let tower = self.lower_bound_before_all_levels(&self.keys[x]);
        let ghost pt0 = b.lemma_pred_bottom(tower@[0], key@);
        proof {
            b.lemma_entries_sorted();
            assert(b.chain_ok(0));
            assert forall|p: int| 0 <= p < b.chain(0).len() implies #[trigger] b.key_of(b.chain(0)[p] as int) != key@ by {
                assert(e0[p].0 == a.key_of(a.chain(0)[p] as int));
                assert(b.chain(0)[p] < a.node_count());
            }
        }
        let mut i: usize = 0;
        while i <= height
            invariant
                b.inv(),
                self.inv(),
                x as int == a.node_count(),
                1 <= x < b.node_count(),
                b.key_of(x as int) == key@,
                b.values@[x as int] is Some,
                self.keys@ == b.keys@,
                self.values@ == b.values@,
                self.height == b.height,
                height <= b.height < 25,
                tower@.len() == b.top() + 1,
                forall|m: int| 0 <= m <= b.top() ==> #[trigger] b.is_pred_at(m, tower@[m], key@),
                forall|m: int| 0 <= m <= b.top() ==> #[trigger] tower@[m] < b.node_count(),
                forall|m: int| 0 <= m < 25 ==> !#[trigger] b.chain(m).contains(x),
                forall|m: int, n: int| 0 <= m < 25 && 0 <= n < b.node_count() ==> #[trigger] b.lane_of(n, m) == (if n < a.node_count() { a.lane_of(n, m) } else { 0 }),
                forall|p: int| 0 <= p < b.chain(0).len() ==> #[trigger] b.key_of(b.chain(0)[p] as int) != key@,
                pt0 + 1 == q,
                node_in(b.chain(0), pt0) == tower@[0],
                b.entries() == e0,
                e0.len() == b.chain(0).len(),
                0 <= q <= e0.len(),
                e0 == a.entries(),
                i <= height + 1,
                forall|m: int| 0 <= m < 25 ==> (#[trigger] self.chain(m).contains(x) <==> m < i),
                forall|m: int| i <= m < 25 ==> #[trigger] self.chain(m) == b.chain(m),
                forall|m: int, n: int| i <= m < 25 && 0 <= n < self.node_count() ==> #[trigger] self.lane_of(n, m) == b.lane_of(n, m),
                i > 0 ==> self.chain(0) == b.chain(0).insert(q, x),
                i == 0 ==> self.chain(0).len() + 1 < self.keys@.len(),
                b.chain(0).len() + 1 < b.keys@.len(),
                b.keys@.len() == x + 1,
            decreases height + 1 - i,
        {
            let t = tower[i];
            let ghost s0 = *self;
            proof {
                assert(b.is_pred_at(i as int, t, key@));
                assert(self.chain(i as int) == b.chain(i as int));
                assert(s0.lane_of(t as int, i as int) == b.lane_of(t as int, i as int));
            }
            let ghost pt = s0.lemma_position(i as int, t);
            let next = self.lane(t, i);
            if next != 0 {
                self.set_lane(x, i, next);
            }
            self.set_lane(t, i, x);
            self.chains = Ghost(s0.chains@.update(i as int, s0.chain(i as int).insert(pt + 1, x)));
            proof {
                let c = s0.chain(i as int);
                assert(s0.chain_ok(i as int));
                assert(s0.lane_of(x as int, i as int) == 0);
                assert(0 <= x * 25 + i < s0.lanes@.len()) by (nonlinear_arith)
                    requires x < s0.node_count(), i < 25, s0.lanes@.len() == 25 * s0.node_count();
                if next == 0 {
                    assert(s0.lanes@.update(x * 25 + i, 0usize) =~= s0.lanes@);
                }
                assert(self.lanes@ =~= s0.lanes@.update(x * 25 + i, succ_in(c, pt) as usize).update(
                    node_in(c, pt) * 25 + i, x));
                if pt + 1 < c.len() {
                    let sn = c[pt + 1];
                    assert(b.nested_for(sn));
                    assert(c.contains(sn));
                    assert(b.chain(0).contains(sn));
                    let k0 = choose|k0: int| 0 <= k0 < b.chain(0).len() && b.chain(0)[k0] == sn;
                    assert(b.key_of(b.chain(0)[k0] as int) != key@);
                    lemma_not_lt::<K>(b.key_of(sn as int), key@);
                }
                Self::lemma_splice(s0, *self, i as int, pt, x);
                assert forall|m: int| i < m < 25 implies #[trigger] self.chain(m) == b.chain(m) by {
                    assert(s0.chain(m) == b.chain(m));
                }
                assert forall|m: int, n: int| i < m < 25 && 0 <= n < self.node_count() implies #[trigger] self.lane_of(n, m) == b.lane_of(n, m) by {
                    assert(s0.lane_of(n, m) == b.lane_of(n, m));
                    assert(self.lane_of(n, m) == s0.lane_of(n, m));
                }
                if i == 0 && pt != pt0 {
                    assert(b.chain_ok(0));
                    assert(c == b.chain(0));
                    assert(b.entries() == e0);
                    assert(e0.len() == b.chain(0).len());
                    assert(node_in(c, pt) == node_in(c, pt0));
                    if pt >= 0 && pt0 >= 0 {
                        K::lemma_lt_irreflexive(b.key_of(c[pt] as int));
                        if pt < pt0 {
                            assert(K::key_lt(b.key_of(c[pt] as int), b.key_of(c[pt0] as int)));
                        } else {
                            assert(K::key_lt(b.key_of(c[pt0] as int), b.key_of(c[pt] as int)));
                        }
                    }
                }
            }
            i = i + 1;
        }
        proof {
            assert(b.chain_ok(0));
            let c0 = b.chain(0);
            assert forall|p: int| 0 <= p < c0.len() implies #[trigger] b.values@[c0[p] as int] == a.values@[c0[p] as int] && b.keys@[c0[p] as int] == a.keys@[c0[p] as int] by {
                assert(a.chain(0) == c0);
                assert(a.chain_ok(0));
            }
            assert(self.entries() =~= e0.insert(q, (key@, value)));
        }
        None
    }

    /// Nodes of the bottom level are told apart by their keys.
    proof fn lemma_key_unique(&self, y1: usize, y2: usize)
        requires
            self.shape(),
            self.chain(0).contains(y1),
            self.chain(0).contains(y2),
            self.key_of(y1 as int) == self.key_of(y2 as int),
        ensures
            y1 == y2,
    {
        assert(self.chain_ok(0));
        let c = self.chain(0);
        let i1 = choose|i: int| 0 <= i < c.len() && c[i] == y1;
        let i2 = choose|i: int| 0 <= i < c.len() && c[i] == y2;
        if i1 != i2 {
            K::lemma_lt_irreflexive(self.key_of(y1 as int));
            if i1 < i2 {
                assert(K::key_lt(self.key_of(c[i1] as int), self.key_of(c[i2] as int)));
            } else {
                assert(K::key_lt(self.key_of(c[i2] as int), self.key_of(c[i1] as int)));
            }
        }
    }

    /// If the first bottom node not below `k` is on level `l`, it follows the
    /// predecessor of `k` on level `l`.
    proof fn lemma_first_at_level(&self, l: int, t: usize, k: K::V, head: usize, next: usize)
        requires
            self.inv(),
            0 <= l < 25,
            self.is_pred_at(l, t, k),
            self.is_pred_at(0, head, k),
            next as int == self.lane_of(head as int, 0),
            next != 0,
            self.chain(l).contains(next),
        ensures
            self.lane_of(t as int, l) == next,
    {
        let c = self.chain(l);
        let c0 = self.chain(0);
        assert(self.chain_ok(l));
        assert(self.chain_ok(0));
        let pt = self.lemma_position(l, t);
        let ph = self.lemma_position(0, head);
        assert(c0[ph + 1] == next);
        let m = choose|i: int| 0 <= i < c.len() && c[i] == next;
        lemma_not_lt::<K>(self.key_of(next as int), k);
        if m <= pt {
            if m < pt {
                K::lemma_lt_transitive(self.key_of(c[m] as int), self.key_of(c[pt] as int), k);
            }
            lemma_lt_asymmetric::<K>(self.key_of(next as int), k);
        } else if m > pt + 1 {
            let sn = c[pt + 1];
            assert(self.lane_of(t as int, l) == sn);
            assert(K::key_lt(self.key_of(sn as int), self.key_of(next as int)));
            assert(self.nested_for(sn));
            assert(c.contains(sn));
            assert(c0.contains(sn));
            let ms = choose|i: int| 0 <= i < c0.len() && c0[i] == sn;
            if ms <= ph {
                if ms < ph {
                    K::lemma_lt_transitive(self.key_of(c0[ms] as int), self.key_of(c0[ph] as int), k);
                }
                lemma_lt_asymmetric::<K>(self.key_of(sn as int), k);
                lemma_not_lt::<K>(self.key_of(sn as int), k);
            } else if ms == ph + 1 {
                K::lemma_lt_irreflexive(self.key_of(sn as int));
            } else {
                assert(K::key_lt(self.key_of(c0[ph + 1] as int), self.key_of(c0[ms] as int)));
                lemma_lt_asymmetric::<K>(self.key_of(next as int), self.key_of(sn as int));
            }
        }
    }

    /// Unlinking the node after position `pt` of level `l` keeps the shape.
    proof fn lemma_unsplice(a: Self, b: Self, l: int, pt: int)
        requires
            a.shape(),
            0 <= l < 25,
            -1 <= pt,
            pt + 1 < a.chain(l).len(),
            b.keys@ == a.keys@,
            b.values@ == a.values@,
            b.height == a.height,
            b.chains@ == a.chains@.update(l, a.chain(l).remove(pt + 1)),
            b.lanes@ == a.lanes@.update(node_in(a.chain(l), pt) * 25 + l, succ_in(a.chain(l), pt + 1) as usize),
        ensures
            b.shape(),
            b.chain(l) == a.chain(l).remove(pt + 1),
            forall|m: int, n: int| 0 <= m < 25 && m != l && 0 <= n < b.node_count() ==> #[trigger] b.lane_of(n, m) == a.lane_of(n, m),
            forall|m: int, y: usize| 0 <= m < 25 ==> (#[trigger] b.chain(m).contains(y) <==> (a.chain(m).contains(y) && !(m == l && y == a.chain(l)[pt + 1]))),
    {
        let c = a.chain(l);
        let d = c.remove(pt + 1);
        let t = node_in(c, pt);
        let x = c[pt + 1];
        assert(a.chain_ok(l));
        assert(0 <= t < a.node_count());
        assert(0 <= succ_in(c, pt + 1) < a.node_count());
        assert(t * 25 + l < a.lanes@.len()) by (nonlinear_arith)
            requires 0 <= t < a.node_count(), 0 <= l < 25, a.lanes@.len() == 25 * a.node_count();
        assert forall|m: int, n: int| 0 <= m < 25 && 0 <= n < b.node_count() && !(m == l && n == t) implies #[trigger] b.lane_of(n, m) == a.lane_of(n, m) by {
            lemma_lane_slot(n, m, t, l);
        }
        assert(b.lane_of(t, l) == succ_in(c, pt + 1));
        assert forall|i: int, j: int| 0 <= i < j < c.len() implies c[i] != c[j] by {
            assert(K::key_lt(a.key_of(c[i] as int), a.key_of(c[j] as int)));
            K::lemma_lt_irreflexive(a.key_of(c[i] as int));
        }
        assert(b.chain_ok(l)) by {
            assert(b.chain(l) == d);
            assert forall|p: int| 0 <= p < d.len() implies #[trigger] b.lane_of(d[p] as int, l) == succ_in(d, p) by {
                if p < pt {
                    assert(d[p] == c[p]);
                    assert(c[p] != t);
                    assert(a.lane_of(c[p] as int, l) == succ_in(c, p));
                } else if p == pt {
                    assert(d[p] == c[p]);
                } else {
                    assert(d[p] == c[p + 1]);
                    assert(c[p + 1] != t) by {
                        if pt >= 0 {
                            assert(c[pt] != c[p + 1]);
                        }
                    }
                    assert(a.lane_of(c[p + 1] as int, l) == succ_in(c, p + 1));
                }
            }
            if pt >= 0 {
                assert(b.lane_of(0, l) == a.lane_of(0, l));
            }
            assert forall|i: int, j: int| #![trigger d[i], d[j]] 0 <= i < j < d.len() implies K::key_lt(b.key_of(d[i] as int), b.key_of(d[j] as int)) by {
                let ii = if i <= pt { i } else { i + 1 };
                let jj = if j <= pt { j } else { j + 1 };
                assert(d[i] == c[ii] && d[j] == c[jj]);
            }
        }
        assert forall|m: int| 0 <= m < 25 && m != l implies #[trigger] b.chain_ok(m) by {
            assert(a.chain_ok(m));
            let e = a.chain(m);
            assert(b.chain(m) == e);
            assert forall|p: int| 0 <= p < e.len() implies #[trigger] b.lane_of(e[p] as int, m) == succ_in(e, p) by {
                assert(a.lane_of(e[p] as int, m) == succ_in(e, p));
            }
        }
        assert forall|m: int| a.height < m < 25 implies #[trigger] b.chain(m).len() == 0 by {
            assert(a.chain(m).len() == 0);
        }
        assert forall|m: int, y: usize| 0 <= m < 25 implies (#[trigger] b.chain(m).contains(y) <==> (a.chain(m).contains(y) && !(m == l && y == x))) by {
            if m == l {
                if d.contains(y) {
                    let i = choose|i: int| 0 <= i < d.len() && d[i] == y;
                    if i <= pt {
                        assert(c[i] == y);
                    } else {
                        assert(c[i + 1] == y);
                    }
                }
                if c.contains(y) && y != x {
                    let i = choose|i: int| 0 <= i < c.len() && c[i] == y;
                    if i <= pt {
                        assert(d[i] == y);
                    } else {
                        assert(d[i - 1] == y);
                    }
                }
            } else {
                assert(b.chain(m) == a.chain(m));
            }
        }
        assert forall|p: int| 0 <= p < b.chain(0).len() implies (#[trigger] b.values@[b.chain(0)[p] as int]) is Some by {
            let y = b.chain(0)[p];
            assert(b.chain(0).contains(y));
            assert(a.chain(0).contains(y));
            let i = choose|i: int| 0 <= i < a.chain(0).len() && a.chain(0)[i] == y;
            assert(a.values@[a.chain(0)[i] as int] is Some);
        }
    }

    /// References to the values with `key <= k <= range_end`, in key order.
    pub fn get_range(&self, key: &K, range_end: &K) -> (r: Vec<&V>)
        requires
            self.inv(),
        ensures
            r@.unref() == range_values::<K, V>(self.entries(), key@, range_end@),
    {
        let ghost e = self.entries();
        let ghost c = self.chain(0);
        let ghost a = lower_index::<K, V>(e, key@);
        let mut p = self.lower_bound_before(key);
        let ghost pos = self.lemma_pred_bottom(p, key@);
        proof {
            self.lemma_entries_sorted();
            lemma_lower_index_split::<K, V>(e, key@);
            assert(self.chain_ok(0));
        }
        p = self.lane(p, 0);
        if p == 0 {
            proof {
                lemma_bounded_block::<K, V>(e, key@, range_end@, true, a);
                assert(e.subrange(a, a) =~= Seq::<(K::V, V)>::empty());
            }
            return Vec::new();
        }
        let mut rst: Vec<&V> = Vec::new();
        let ghost mut j: int = a;
        loop
            invariant
                self.inv(),
                e == self.entries(),
                c == self.chain(0),
                strictly_sorted::<K, V>(e),
                e.len() == c.len(),
                a == lower_index::<K, V>(e, key@),
                forall|i: int| a <= i < e.len() ==> !K::key_lt(#[trigger] e[i].0, key@),
                a <= j <= e.len(),
                j < e.len() ==> p == c[j],
                j == e.len() ==> p == 0,
                forall|i: int| a <= i < j ==> key_in_bounds::<K>(#[trigger] e[i].0, key@, range_end@, true),
                rst@.len() == j - a,
                rst@.unref() == values_of::<K, V>(e.subrange(a, j)),
            ensures
                a <= j <= e.len(),
                forall|i: int| a <= i < j ==> key_in_bounds::<K>(#[trigger] e[i].0, key@, range_end@, true),
                j < e.len() ==> !key_in_bounds::<K>(e[j].0, key@, range_end@, true),
                rst@.unref() == values_of::<K, V>(e.subrange(a, j)),
            decreases e.len() - j,
        {
            assert(self.chain_ok(0));
            if p == 0 {
                break;
            }
            assert(e[j].0 == self.key_of(p as int));
            if self.keys[p].compare(range_end) == KeyOrder::Greater {
                proof {
                    lemma_lt_asymmetric::<K>(range_end@, e[j].0);
                }
                break;
            }
            proof {
                lemma_not_lt::<K>(e[j].0, key@);
            }
            assert(self.values@[c[j] as int] is Some);
            let ghost r0 = rst@;
            rst.push(self.values[p].as_ref().unwrap());
            proof {
                assert(e.subrange(a, j + 1) =~= e.subrange(a, j).push(e[j]));
                assert forall|t: int| 0 <= t < rst@.len() implies rst@.unref()[t] == values_of::<K, V>(e.subrange(a, j + 1))[t] by {
                    if t < r0.len() {
                        assert(r0.unref()[t] == values_of::<K, V>(e.subrange(a, j))[t]);
                        assert(rst@[t] == r0[t]);
                    } else {
                        assert(e.subrange(a, j + 1)[t] == e[j]);
                    }
                }
                assert(rst@.unref() =~= values_of::<K, V>(e.subrange(a, j + 1)));
            }
            p = self.lane(p, 0);
            proof {
                j = j + 1;
            }
        }
        proof {
            lemma_bounded_block::<K, V>(e, key@, range_end@, true, j);
        }
        rst
    }

    /// A node stands at one position of a level.
    proof fn lemma_position_unique(&self, l: int, p1: int, p2: int)
        requires
            self.shape(),
            0 <= l < 25,
            -1 <= p1 < self.chain(l).len(),
            -1 <= p2 < self.chain(l).len(),
            node_in(self.chain(l), p1) == node_in(self.chain(l), p2),
        ensures
            p1 == p2,
    {
        let c = self.chain(l);
        assert(self.chain_ok(l));
        if p1 != p2 {
            if p1 >= 0 && p2 >= 0 {
                K::lemma_lt_irreflexive(self.key_of(c[p1] as int));
                if p1 < p2 {
                    assert(K::key_lt(self.key_of(c[p1] as int), self.key_of(c[p2] as int)));
                } else {
                    assert(K::key_lt(self.key_of(c[p2] as int), self.key_of(c[p1] as int)));
                }
            }
        }
    }

    /// Delete the entries with `key <= k <= range_end`; returns their values in
    /// key order.
    pub fn del_range(&mut self, key: &K, range_end: &K) -> (r: Vec<V>)
        requires
            old(self).inv(),
        ensures
            final(self).inv(),
            r@ == range_values::<K, V>(old(self).entries(), key@, range_end@),
            final(self).entries() == outside_range::<K, V>(old(self).entries(), key@, range_end@),
    {
        let ghost s0 = *self;
        let ghost e0 = self.entries();
        let ghost c0 = self.chain(0);
        let ghost a = lower_index::<K, V>(e0, key@);
        let tower = self.lower_bound_before_all_levels(key);
        let head = tower[0];
        let ghost ph = self.lemma_pred_bottom(head, key@);
        proof {
            self.lemma_entries_sorted();
            lemma_lower_index_split::<K, V>(e0, key@);
            assert(self.chain_ok(0));
            assert(self.chain(0) =~= c0.subrange(0, a) + c0.subrange(a, c0.len() as int));
            assert(e0.subrange(a, a) =~= Seq::<(K::V, V)>::empty());
            assert forall|i: int, k: int| 0 <= i < k < c0.len() implies #[trigger] c0[i] != #[trigger] c0[k] by {
                assert(K::key_lt(s0.key_of(c0[i] as int), s0.key_of(c0[k] as int)));
                K::lemma_lt_irreflexive(s0.key_of(c0[i] as int));
            }
        }
        let mut rst: Vec<V> = Vec::new();
        let ghost mut j: int = a;
        loop
            invariant
                self.inv(),
                s0.inv(),
                e0 == s0.entries(),
                c0 == s0.chain(0),
                strictly_sorted::<K, V>(e0),
                e0.len() == c0.len(),
                a == lower_index::<K, V>(e0, key@),
                ph + 1 == a,
                node_in(c0, ph) == head,
                forall|i: int| a <= i < e0.len() ==> !K::key_lt(#[trigger] e0[i].0, key@),
                forall|i: int| 0 <= i < c0.len() ==> 1 <= #[trigger] c0[i] < s0.node_count(),
                forall|i: int, k: int| 0 <= i < k < c0.len() ==> #[trigger] c0[i] != #[trigger] c0[k],
                forall|i: int| 0 <= i < c0.len() ==> #[trigger] s0.values@[c0[i] as int] is Some,
                self.keys@ == s0.keys@,
                self.values@.len() == s0.values@.len(),
                self.height == s0.height,
                forall|i: int| 0 <= i < c0.len() && !(a <= i < j) ==> #[trigger] self.values@[c0[i] as int] == s0.values@[c0[i] as int],
                tower@.len() == self.top() + 1,
                head == tower@[0],
                forall|l: int| 0 <= l <= self.top() ==> #[trigger] self.is_pred_at(l, tower@[l], key@),
                forall|l: int| 0 <= l <= self.top() ==> #[trigger] tower@[l] < self.node_count(),
                a <= j <= e0.len(),
                self.chain(0) == c0.subrange(0, a) + c0.subrange(j, c0.len() as int),
                self.lane_of(head as int, 0) == (if j < c0.len() { c0[j] as int } else { 0 }),
                forall|i: int| a <= i < j ==> key_in_bounds::<K>(#[trigger] e0[i].0, key@, range_end@, true),
                rst@ == values_of::<K, V>(e0.subrange(a, j)),
            ensures
                self.inv(),
                self.keys@ == s0.keys@,
                self.values@.len() == s0.values@.len(),
                forall|i: int| 0 <= i < c0.len() && !(a <= i < j) ==> #[trigger] self.values@[c0[i] as int] == s0.values@[c0[i] as int],
                a <= j <= e0.len(),
                self.chain(0) == c0.subrange(0, a) + c0.subrange(j, c0.len() as int),
                forall|i: int| a <= i < j ==> key_in_bounds::<K>(#[trigger] e0[i].0, key@, range_end@, true),
                j < e0.len() ==> !key_in_bounds::<K>(e0[j].0, key@, range_end@, true),
                rst@ == values_of::<K, V>(e0.subrange(a, j)),
            decreases e0.len() - j,
        {
            assert(self.chain_ok(0));
            let next = self.lane(head, 0);
            if next == 0 {
                break;
            }
            assert(e0[j].0 == s0.key_of(c0[j] as int));
            if self.keys[next].compare(range_end) == KeyOrder::Greater {
                proof {
                    lemma_lt_asymmetric::<K>(range_end@, e0[j].0);
                }
                break;
            }
            proof {
                lemma_not_lt::<K>(e0[j].0, key@);
            }
            let ghost pre = *self;
            proof {
                assert(pre.chain(0)[a] == next);
                assert(pre.chain(0).contains(next));
                assert(pre.is_pred_at(0, head, key@));
            }
            let mut i: usize = 0;
            loop
                invariant
                    pre.inv(),
                    self.shape(),
                    self.keys@ == pre.keys@,
                    self.values@ == pre.values@,
                    self.height == pre.height,
                    tower@.len() == pre.top() + 1,
                    head == tower@[0],
                    0 <= i <= tower@.len(),
                    next as int == pre.lane_of(head as int, 0),
                    1 <= next < pre.node_count(),
                    pre.chain(0)[a] == next,
                    0 <= a < pre.chain(0).len(),
                    !K::key_lt(pre.key_of(next as int), key@),
                    forall|l: int| 0 <= l <= pre.top() ==> #[trigger] pre.is_pred_at(l, tower@[l], key@),
                    forall|l: int| 0 <= l <= pre.top() ==> #[trigger] tower@[l] < pre.node_count(),
                    forall|m: int| i <= m < 25 ==> #[trigger] self.chain(m) == pre.chain(m),
                    forall|m: int, n: int| i <= m < 25 && 0 <= n < self.node_count() ==> #[trigger] self.lane_of(n, m) == pre.lane_of(n, m),
                    forall|m: int, y: usize| 0 <= m < 25 ==> (#[trigger] self.chain(m).contains(y) <==> (pre.chain(m).contains(y) && !(m < i && y == next))),
                    forall|m: int| 0 <= m < i ==> #[trigger] pre.chain(m).contains(next),
                    forall|l: int| 0 <= l < i ==> #[trigger] self.is_pred_at(l, tower@[l], key@),
                    i > 0 ==> self.chain(0) == pre.chain(0).remove(a),
                    i > 0 ==> self.lane_of(head as int, 0) == pre.lane_of(next as int, 0),
                    pre.chain(0) == c0.subrange(0, a) + c0.subrange(j, c0.len() as int),
                    node_in(c0, ph) == head,
                    ph + 1 == a,
                    a <= j < c0.len(),
                ensures
                    self.shape(),
                    self.keys@ == pre.keys@,
                    self.values@ == pre.values@,
                    self.height == pre.height,
                    forall|m: int, y: usize| 0 <= m < 25 ==> (#[trigger] self.chain(m).contains(y) <==> (pre.chain(m).contains(y) && y != next)),
                    forall|l: int| 0 <= l <= pre.top() ==> #[trigger] self.is_pred_at(l, tower@[l], key@),
                    self.chain(0) == pre.chain(0).remove(a),
                    self.lane_of(head as int, 0) == pre.lane_of(next as int, 0),
                decreases tower@.len() - i,
            {
                if i >= tower.len() {
                    proof {
                        assert forall|m: int, y: usize| 0 <= m < 25 implies (#[trigger] self.chain(m).contains(y) <==> (pre.chain(m).contains(y) && y != next)) by {
                            if m > pre.top() {
                                assert(pre.chain(m).len() == 0);
                            }
                        }
                    }
                    break;
                }
                let t = tower[i];
                let succ = self.lane(t, i);
                proof {
                    assert(pre.is_pred_at(i as int, t, key@));
                    assert(self.chain(i as int) == pre.chain(i as int));
                    assert(self.lane_of(t as int, i as int) == pre.lane_of(t as int, i as int));
                    assert(pre.chain_ok(i as int));
                }
                if succ != 0 && self.keys[succ].compare(&self.keys[next]) == KeyOrder::Equal {
                    let ghost s1 = *self;
                    let ghost pt = pre.lemma_position(i as int, t);
                    proof {
                        let c = pre.chain(i as int);
                        assert(succ == c[pt + 1]);
                        assert(pre.nested_for(succ));
                        assert(c.contains(succ));
                        assert(pre.chain(0).contains(succ));
                        pre.lemma_key_unique(succ, next);
                        assert(pre.chain(i as int).contains(next));
                        assert(self.chain_ok(i as int));
                        assert(self.lane_of(succ as int, i as int) == succ_in(c, pt + 1));
                        assert(pre.lane_of(next as int, i as int) == succ_in(c, pt + 1));
                    }
                    let after = self.lane(next, i);
                    self.set_lane(t, i, after);
                    self.chains = Ghost(s1.chains@.update(i as int, s1.chain(i as int).remove(pt + 1)));
                    proof {
                        let c = pre.chain(i as int);
                        assert(0 <= t * 25 + i < s1.lanes@.len()) by (nonlinear_arith)
                            requires t < s1.node_count(), i < 25, s1.lanes@.len() == 25 * s1.node_count();
                        Self::lemma_unsplice(s1, *self, i as int, pt);
                        assert forall|m: int| i < m < 25 implies #[trigger] self.chain(m) == pre.chain(m) by {
                            assert(s1.chain(m) == pre.chain(m));
                        }
                        assert forall|m: int, n: int| i < m < 25 && 0 <= n < self.node_count() implies #[trigger] self.lane_of(n, m) == pre.lane_of(n, m) by {
                            assert(s1.lane_of(n, m) == pre.lane_of(n, m));
                            assert(self.lane_of(n, m) == s1.lane_of(n, m));
                        }
                        assert forall|m: int, y: usize| 0 <= m < 25 implies (#[trigger] self.chain(m).contains(y) <==> (pre.chain(m).contains(y) && !(m < i + 1 && y == next))) by {
                            assert(s1.chain(m).contains(y) <==> (pre.chain(m).contains(y) && !(m < i && y == next)));
                        }
                        // the new successor of t is past next, so not below key
                        if after != 0 {
                            assert(pt + 2 < c.len());
                            assert(K::key_lt(pre.key_of(c[pt + 1] as int), pre.key_of(c[pt + 2] as int)));
                            lemma_not_lt::<K>(pre.key_of(next as int), key@);
                            lemma_lt_le_transitive::<K>(key@, pre.key_of(next as int), pre.key_of(after as int));
                            lemma_lt_asymmetric::<K>(key@, pre.key_of(after as int));
                        }
                        assert(self.lane_of(t as int, i as int) == after);
                        assert forall|l: int| 0 <= l < i + 1 implies #[trigger] self.is_pred_at(l, tower@[l], key@) by {
                            if l < i {
                                assert(s1.is_pred_at(l, tower@[l], key@));
                                assert(s1.chain(l).contains(tower@[l]) ==> self.chain(l).contains(tower@[l]));
                                assert(self.lane_of(tower@[l] as int, l) == s1.lane_of(tower@[l] as int, l));
                            } else {
                                assert(pre.is_pred_at(l, tower@[l], key@));
                                if t != 0 {
                                    assert(pre.chain(l).contains(t));
                                    assert(t != next) by {
                                        K::lemma_lt_irreflexive(pre.key_of(t as int));
                                    }
                                    assert(self.chain(l).contains(t));
                                }
                            }
                        }
                        if i == 0 {
                            let ph2 = ph;
                            assert(pre.chain(0) == c0.subrange(0, a) + c0.subrange(j, c0.len() as int));
                            assert(node_in(pre.chain(0), a - 1) == head);
                            pre.lemma_position_unique(0, pt, a - 1);
                            assert(self.lane_of(head as int, 0) == after);
                        } else {
                            assert(self.chain(0) == s1.chain(0));
                            assert(self.lane_of(head as int, 0) == s1.lane_of(head as int, 0));
                        }
                    }
                    i = i + 1;
                } else {
                    proof {
                        if pre.chain(i as int).contains(next) {
                            pre.lemma_first_at_level(i as int, t, key@, head, next);
                        }
                        assert(!pre.chain(i as int).contains(next));
                        assert(pre.nested_for(next));
                        assert forall|m: int, y: usize| 0 <= m < 25 implies (#[trigger] self.chain(m).contains(y) <==> (pre.chain(m).contains(y) && y != next)) by {
                            if m >= i && y == next && pre.chain(m).contains(next) {
                                assert(pre.chain(i as int).contains(next));
                            }
                        }
                        assert(i > 0) by {
                            if i == 0 {
                                assert(pre.chain(0).contains(next));
                            }
                        }
                        assert forall|l: int| 0 <= l <= pre.top() implies #[trigger] self.is_pred_at(l, tower@[l], key@) by {
                            if l >= i {
                                assert(pre.is_pred_at(l, tower@[l], key@));
                                assert(self.chain(l) == pre.chain(l));
                                assert(self.lane_of(tower@[l] as int, l) == pre.lane_of(tower@[l] as int, l));
                            }
                        }
                    }
                    break;
                }
            }
            let ghost s2 = *self;
            proof {
                assert forall|y: usize| #[trigger] self.nested_for(y) by {
                    assert(pre.nested_for(y));
                    assert forall|l: int, m: int| #![trigger self.chain(l).contains(y), self.chain(m).contains(y)]
                        0 <= m <= l < 25 && self.chain(l).contains(y) implies self.chain(m).contains(y) by {
                        assert(pre.chain(l).contains(y));
                    }
                }
                assert(!self.chain(0).contains(next));
                assert(self.chain(0).len() < self.keys@.len());
            }
            let mut taken: Option<V> = None;
            std::mem::swap(&mut self.values[next], &mut taken);
            proof {
                assert forall|p: int| 0 <= p < s2.chain(0).len() implies (#[trigger] self.values@[s2.chain(0)[p] as int]) is Some by {
                    assert(s2.chain(0).contains(s2.chain(0)[p]));
                    assert(s2.values@[s2.chain(0)[p] as int] is Some);
                }
                Self::lemma_values_changed(s2, *self);
                assert forall|l: int| 0 <= l <= self.top() implies #[trigger] self.is_pred_at(l, tower@[l], key@) by {
                    assert(s2.is_pred_at(l, tower@[l], key@));
                }
                assert(pre.values@[next as int] == s0.values@[c0[j] as int]);
                assert(taken == s0.values@[c0[j] as int]);
            }
            let v = taken.unwrap();
            let ghost r0 = rst@;
            rst.push(v);
            proof {
                assert(e0[j].1 == v);
                assert(e0.subrange(a, j + 1) =~= e0.subrange(a, j).push(e0[j]));
                assert(rst@ =~= values_of::<K, V>(e0.subrange(a, j + 1)));
                assert(self.chain(0) =~= c0.subrange(0, a) + c0.subrange(j + 1, c0.len() as int));
                assert(pre.chain_ok(0));
                assert(pre.lane_of(next as int, 0) == succ_in(pre.chain(0), a));
                j = j + 1;
            }
        }
        proof {
            lemma_bounded_block::<K, V>(e0, key@, range_end@, true, j);
            assert forall|i: int| 0 <= i < c0.len() && !(a <= i < j) implies #[trigger] self.values@[c0[i] as int] == s0.values@[c0[i] as int] by {}
            assert(self.entries() =~= e0.subrange(0, a) + e0.subrange(j, e0.len() as int));
        }
        rst
    }
}

} // verus!
