//! A skip list of linked levels: each level is a sorted list linked by `next`
//! from its own head link, and each node above the bottom links `down` to the
//! node of the same key one level lower. Nodes live in an arena and link by
//! index; a deleted node stays in the arena, linked from nowhere.
use vstd::prelude::*;
use crate::key::{IndexKey, KeyOrder, lemma_lt_asymmetric, lemma_not_lt, lemma_lt_le_transitive};
use crate::sorted::{
    strictly_sorted, key_in_bounds, lower_index, lookup, upsert, remove_key, range_values, values_of,
    lemma_lower_index, lemma_bounded_block,
};
use crate::random::random_bool;

verus! {

#[derive(Debug)]
pub struct Node<K, V> {
    key: K,
    value: V,
    down: Option<usize>,
    next: Option<usize>,
}

impl<K: Copy, V: Copy> Node<K, V> {
    pub closed spec fn key_spec(&self) -> K {
        self.key
    }

    pub closed spec fn value_spec(&self) -> V {
        self.value
    }

    pub closed spec fn down_spec(&self) -> Option<usize> {
        self.down
    }

    pub closed spec fn next_spec(&self) -> Option<usize> {
        self.next
    }

    /// A node that links nowhere yet.
    pub fn new(key: K, value: V) -> (r: Self)
        ensures
            r.key_spec() == key,
            r.value_spec() == value,
            r.down_spec() is None,
            r.next_spec() is None,
    {
        Self { key, value, down: None, next: None }
    }

    /// Put a new unlinked node into the arena; returns its index.
    pub fn new_ref_node(arena: &mut Vec<Node<K, V>>, key: K, value: V) -> (id: usize)
        ensures
            id == old(arena)@.len(),
            final(arena)@.len() == old(arena)@.len() + 1,
            final(arena)@.subrange(0, id as int) == old(arena)@,
            final(arena)@[id as int].key_spec() == key,
            final(arena)@[id as int].value_spec() == value,
            final(arena)@[id as int].down_spec() is None,
            final(arena)@[id as int].next_spec() is None,
    {
        let id = Node::new_with_node(arena, Node::new(key, value));
        assert(arena@.subrange(0, id as int) =~= old(arena)@);
        id
    }

    /// Put `node` into the arena; returns its index.
    pub fn new_with_node(arena: &mut Vec<Node<K, V>>, node: Node<K, V>) -> (id: usize)
        ensures
            final(arena)@ == old(arena)@.push(node),
            id == old(arena)@.len(),
    {
        let id = arena.len();
        arena.push(node);
        id
    }
}

/// The successor of position `p` in a level; position -1 is the head link.
pub open spec fn succ_of(c: Seq<usize>, p: int) -> Option<usize> {
    if 0 <= p + 1 < c.len() {
        Some(c[p + 1])
    } else {
        None
    }
}

/// The node at position `p` of a level; the head link at -1 holds none.
pub open spec fn node_at(c: Seq<usize>, p: int) -> Option<usize> {
    if 0 <= p < c.len() {
        Some(c[p])
    } else {
        None
    }
}

pub struct SkipList<K, V> {
    nodes: Vec<Node<K, V>>,
    /// For each level (0 is the bottom), the first node linked on it.
    heads: Vec<Option<usize>>,
    /// The top level; there are `max_level + 1` levels.
    max_level: usize,
    /// For each level, its nodes in key order.
    chains: Ghost<Seq<Seq<usize>>>,
    /// The level of each node.
    levels: Ghost<Seq<int>>,
}

impl<K: IndexKey + Copy, V: Copy> SkipList<K, V> {
    pub closed spec fn count(&self) -> int {
        self.nodes.len() as int
    }

    pub closed spec fn key_of(&self, n: int) -> K::V {
        self.nodes@[n].key@
    }

    pub closed spec fn val_of(&self, n: int) -> V {
        self.nodes@[n].value
    }

    pub closed spec fn down_of(&self, n: int) -> Option<usize> {
        self.nodes@[n].down
    }

    pub closed spec fn next_of(&self, n: int) -> Option<usize> {
        self.nodes@[n].next
    }

    pub closed spec fn lvl_of(&self, n: int) -> int {
        self.levels@[n]
    }

    /// Number of levels.
    pub closed spec fn height(&self) -> int {
        self.max_level + 1
    }

    pub closed spec fn chain(&self, l: int) -> Seq<usize> {
        self.chains@[l]
    }

    /// The number of levels the list was made with.
    pub closed spec fn levels_spec(&self) -> nat {
        (self.max_level + 1) as nat
    }

    /// Key `k` has a node linked on level `l`.
    pub open spec fn on_level(&self, l: int, k: K::V) -> bool {
        exists|i: int| 0 <= i < self.chain(l).len() && #[trigger] self.key_of(self.chain(l)[i] as int) == k
    }

    /// Key `k` is linked on exactly the levels below `h`.
    pub open spec fn tower_is(&self, k: K::V, h: int) -> bool {
        forall|j: int| 0 <= j < self.levels_spec() ==> (#[trigger] self.on_level(j, k) <==> j < h)
    }

    /// Node `n` is linked on its level.
    pub closed spec fn live(&self, n: int) -> bool {
        0 <= n < self.count() && self.chain(self.lvl_of(n)).contains(n as usize)
    }

    /// Level `l` is linked from its head in strictly increasing key order.
    pub closed spec fn level_ok(&self, l: int) -> bool {
        let c = self.chain(l);
        &&& self.heads@[l] == succ_of(c, -1)
        &&& forall|p: int| 0 <= p < c.len() ==> #[trigger] c[p] < self.count()
        &&& forall|p: int| 0 <= p < c.len() ==> #[trigger] self.lvl_of(c[p] as int) == l
        &&& forall|p: int| 0 <= p < c.len() ==> #[trigger] self.next_of(c[p] as int) == succ_of(c, p)
        &&& forall|i: int, j: int|
            #![trigger c[i], c[j]]
            0 <= i < j < c.len() ==> K::key_lt(self.key_of(c[i] as int), self.key_of(c[j] as int))
    }

    /// Node `n` links down to the linked node of its key one level lower,
    /// holding the same value; a bottom node links down to nothing.
    pub closed spec fn down_ok(&self, n: int) -> bool {
        if self.lvl_of(n) == 0 {
            self.down_of(n) is None
        } else {
            &&& self.down_of(n) is Some
            &&& self.chain(self.lvl_of(n) - 1).contains(self.down_of(n)->0)
            &&& self.key_of(self.down_of(n)->0 as int) == self.key_of(n)
            &&& self.val_of(self.down_of(n)->0 as int) == self.val_of(n)
        }
    }

    /// Every linked node but `skip` links down as it should.
    pub closed spec fn links_ok(&self, skip: Option<usize>) -> bool {
        forall|n: int| self.live(n) && skip != Some(n as usize) ==> #[trigger] self.down_ok(n)
    }

    /// The levels, their head links and their `next` links.
    pub closed spec fn structure(&self) -> bool {
        &&& self.max_level < usize::MAX
        &&& self.chains@.len() == self.height()
        &&& self.heads@.len() == self.height()
        &&& self.levels@.len() == self.count()
        &&& forall|l: int| 0 <= l < self.height() ==> #[trigger] self.level_ok(l)
        &&& forall|n: int| 0 <= n < self.count() ==> 0 <= #[trigger] self.lvl_of(n) < self.height()
    }

    pub closed spec fn wf(&self) -> bool {
        self.structure() && self.links_ok(None)
    }

    /// The entries in key order: the bottom level.
    pub closed spec fn entries(&self) -> Seq<(K::V, V)> {
        self.chain(0).map_values(|n: usize| (self.nodes@[n as int].key@, self.nodes@[n as int].value))
    }

    proof fn lemma_entries_sorted(&self)
        requires
            self.structure(),
        ensures
            strictly_sorted::<K, V>(self.entries()),
            self.entries().len() == self.chain(0).len(),
            forall|i: int|
                0 <= i < self.chain(0).len() ==> #[trigger] self.entries()[i] == (
                    self.key_of(self.chain(0)[i] as int),
                    self.val_of(self.chain(0)[i] as int),
                ),
    {
        assert(self.level_ok(0));
        let e = self.entries();
        let c = self.chain(0);
        assert forall|i: int, j: int| #![trigger e[i], e[j]] 0 <= i < j < e.len() implies K::key_lt(e[i].0, e[j].0) by {
            assert(e[i].0 == self.key_of(c[i] as int));
            assert(e[j].0 == self.key_of(c[j] as int));
        }
    }

    /// The entries of a well-formed list are in strictly increasing key
    /// order.
    pub proof fn law_entries_sorted(&self)
        requires
            self.wf(),
        ensures
            strictly_sorted::<K, V>(self.entries()),
    {
        self.lemma_entries_sorted();
    }

    /// The nodes of a level are linked, and distinct.
    proof fn lemma_members(&self, l: int)
        requires
            self.structure(),
            0 <= l < self.height(),
        ensures
            forall|p: int| 0 <= p < self.chain(l).len() ==> #[trigger] self.live(self.chain(l)[p] as int),
            forall|i: int, j: int|
                0 <= i < j < self.chain(l).len() ==> #[trigger] self.chain(l)[i] != #[trigger] self.chain(l)[j],
    {
        let c = self.chain(l);
        assert(self.level_ok(l));
        assert forall|p: int| 0 <= p < c.len() implies #[trigger] self.live(c[p] as int) by {
            assert(self.lvl_of(c[p] as int) == l);
            assert(c.contains(c[p]));
        }
        assert forall|i: int, j: int| 0 <= i < j < c.len() implies #[trigger] c[i] != #[trigger] c[j] by {
            assert(K::key_lt(self.key_of(c[i] as int), self.key_of(c[j] as int)));
            K::lemma_lt_irreflexive(self.key_of(c[i] as int));
        }
    }

    /// Where a linked node stands in its level.
    proof fn lemma_position(&self, n: int) -> (p: int)
        requires
            self.structure(),
            self.live(n),
        ensures
            0 <= self.lvl_of(n) < self.height(),
            0 <= p < self.chain(self.lvl_of(n)).len(),
            self.chain(self.lvl_of(n))[p] == n,
    {
        let c = self.chain(self.lvl_of(n));
        choose|p: int| 0 <= p < c.len() && c[p] == n as usize
    }

    /// One level links one node of a key.
    proof fn lemma_unique_key(&self, n: int, m: int)
        requires
            self.structure(),
            self.live(n),
            self.live(m),
            self.lvl_of(n) == self.lvl_of(m),
            self.key_of(n) == self.key_of(m),
        ensures
            n == m,
    {
        let pn = self.lemma_position(n);
        let pm = self.lemma_position(m);
        let c = self.chain(self.lvl_of(n));
        assert(self.level_ok(self.lvl_of(n)));
        K::lemma_lt_irreflexive(self.key_of(n));
        if pn < pm {
            assert(K::key_lt(self.key_of(c[pn] as int), self.key_of(c[pm] as int)));
        } else if pm < pn {
            assert(K::key_lt(self.key_of(c[pm] as int), self.key_of(c[pn] as int)));
        }
    }

    /// Following the down links from a linked node reaches the bottom entry
    /// of its key, which holds the same value.
    proof fn lemma_tower(&self, n: int) -> (q: int)
        requires
            self.wf(),
            self.live(n),
        ensures
            0 <= q < self.chain(0).len(),
            self.key_of(self.chain(0)[q] as int) == self.key_of(n),
            self.val_of(self.chain(0)[q] as int) == self.val_of(n),
        decreases self.lvl_of(n),
    {
        assert(self.down_ok(n));
        let p = self.lemma_position(n);
        if self.lvl_of(n) == 0 {
            p
        } else {
            let d = self.down_of(n)->0;
            let l = self.lvl_of(n) - 1;
            let i = choose|i: int| 0 <= i < self.chain(l).len() && self.chain(l)[i] == d;
            self.lemma_members(l);
            assert(self.live(self.chain(l)[i] as int));
            assert(self.level_ok(l));
            assert(self.lvl_of(d as int) == l);
            self.lemma_tower(d as int)
        }
    }

    /// A linked node's key looks up to its value.
    proof fn lemma_found(&self, n: int)
        requires
            self.wf(),
            self.live(n),
        ensures
            lookup::<K, V>(self.entries(), self.key_of(n)) == Some(self.val_of(n)),
    {
        let q = self.lemma_tower(n);
        self.lemma_entries_sorted();
        crate::sorted::lemma_lookup_index::<K, V>(self.entries(), self.key_of(n));
        assert(self.entries()[q].0 == self.key_of(n));
    }

    /// Position `p` of the bottom level (-1 for the head link) holds a key
    /// below `k`, and the key after it is not below `k`: `k` stands or
    /// would stand at `p + 1`.
    proof fn lemma_bottom(&self, p: int, k: K::V)
        requires
            self.structure(),
            -1 <= p < self.chain(0).len(),
            p >= 0 ==> K::key_lt(self.key_of(self.chain(0)[p] as int), k),
            p + 1 < self.chain(0).len() ==> !K::key_lt(self.key_of(self.chain(0)[p + 1] as int), k),
        ensures
            lower_index::<K, V>(self.entries(), k) == p + 1,
            forall|i: int| p + 1 <= i < self.entries().len() ==> !K::key_lt(#[trigger] self.entries()[i].0, k),
    {
        self.lemma_entries_sorted();
        let e = self.entries();
        assert forall|i: int| 0 <= i < p + 1 implies K::key_lt(#[trigger] e[i].0, k) by {
            if i < p {
                assert(K::key_lt(e[i].0, e[p].0));
                K::lemma_lt_transitive(e[i].0, e[p].0, k);
            }
        }
        assert forall|i: int| p + 1 <= i < e.len() implies !K::key_lt(#[trigger] e[i].0, k) by {
            if i > p + 1 {
                assert(K::key_lt(e[p + 1].0, e[i].0));
                lemma_not_lt::<K>(e[p + 1].0, k);
                lemma_lt_le_transitive::<K>(k, e[p + 1].0, e[i].0);
                lemma_lt_asymmetric::<K>(k, e[i].0);
            }
        }
        lemma_lower_index::<K, V>(e, k, p + 1);
    }

    /// An empty list of `max_level` levels.
    pub fn new(max_level: usize) -> (r: Self)
        requires
            max_level >= 1,
        ensures
            r.wf(),
            r.entries() == Seq::<(K::V, V)>::empty(),
            r.levels_spec() == max_level,
    {
        let mut heads: Vec<Option<usize>> = Vec::new();
        let mut i: usize = 0;
        while i < max_level
            invariant
                i <= max_level,
                heads@.len() == i,
                forall|j: int| 0 <= j < i ==> heads@[j] is None,
            decreases max_level - i,
        {
            heads.push(None);
            i = i + 1;
        }
        let r = SkipList {
            nodes: Vec::new(),
            heads,
            max_level: max_level - 1,
            chains: Ghost(Seq::new(max_level as nat, |l: int| Seq::<usize>::empty())),
            levels: Ghost(Seq::empty()),
        };
        assert forall|l: int| 0 <= l < r.height() implies #[trigger] r.level_ok(l) by {
            assert(r.heads@[l] is None);
        }
        assert(r.entries() =~= Seq::<(K::V, V)>::empty());
        r
    }

    /// A level for a new node: each further level with probability one half,
    /// up to the top.
    fn random_level(&self) -> (n: usize)
        ensures
            n <= self.max_level,
    {
        let mut n: usize = 0;
        loop
            invariant
                n <= self.max_level,
            decreases self.max_level - n,
        {
            let flip = random_bool();
            if !(flip && n < self.max_level) {
                break;
            }
            n = n + 1;
        }
        n
    }

    /// The link after position `p` of level `l`.
    fn next_from(&self, l: usize, cur: Option<usize>, Ghost(p): Ghost<int>) -> (r: Option<usize>)
        requires
            self.structure(),
            l < self.height(),
            -1 <= p < self.chain(l as int).len(),
            cur == node_at(self.chain(l as int), p),
        ensures
            r == succ_of(self.chain(l as int), p),
    {
        proof {
            assert(self.level_ok(l as int));
        }
        match cur {
            None => {
                proof {
                    assert(p == -1);
                    assert(self.heads@[l as int] == succ_of(self.chain(l as int), -1));
                }
                let h = self.heads[l];
                h
            },
            Some(c) => {
                proof {
                    assert(c == self.chain(l as int)[p]);
                    assert(self.next_of(c as int) == succ_of(self.chain(l as int), p));
                }
                self.nodes[c].next
            },
        }
    }

    /// On level `l`, from position `p`, go right past the keys below `key`;
    /// returns the last node passed (none for the head link) and its
    /// position.
    fn walk_level(&self, l: usize, cur: Option<usize>, key: &K, Ghost(p): Ghost<int>) -> (r: (
        Option<usize>,
        Ghost<int>,
    ))
        requires
            self.structure(),
            l < self.height(),
            -1 <= p < self.chain(l as int).len(),
            cur == node_at(self.chain(l as int), p),
            p >= 0 ==> K::key_lt(self.key_of(self.chain(l as int)[p] as int), key@),
        ensures
            p <= r.1@ < self.chain(l as int).len(),
            r.0 == node_at(self.chain(l as int), r.1@),
            r.1@ >= 0 ==> K::key_lt(self.key_of(self.chain(l as int)[r.1@] as int), key@),
            r.1@ + 1 < self.chain(l as int).len() ==> !K::key_lt(
                self.key_of(self.chain(l as int)[r.1@ + 1] as int),
                key@,
            ),
    {
        let ghost c = self.chain(l as int);
        let mut cur = cur;
        let ghost mut q: int = p;
        loop
            invariant
                self.structure(),
                l < self.height(),
                c == self.chain(l as int),
                -1 <= p <= q < c.len(),
                cur == node_at(c, q),
                q >= 0 ==> K::key_lt(self.key_of(c[q] as int), key@),
            ensures
                p <= q < c.len(),
                cur == node_at(c, q),
                q >= 0 ==> K::key_lt(self.key_of(c[q] as int), key@),
                q + 1 < c.len() ==> !K::key_lt(self.key_of(c[q + 1] as int), key@),
            decreases c.len() - q,
        {
            proof {
                assert(self.level_ok(l as int));
            }
            match self.next_from(l, cur, Ghost(q)) {
                Some(n) => {
                    let next_key = self.nodes[n].key;
                    proof {
                        assert(c[q + 1] == n);
                        assert(self.key_of(n as int) == next_key@);
                    }
                    if next_key.compare(key) == KeyOrder::Less {
                        cur = Some(n);
                        proof {
                            q = q + 1;
                        }
                    } else {
                        break;
                    }
                },
                None => {
                    break;
                },
            }
        }
        (cur, Ghost(q))
    }

    /// From position `p` of level `l` down to level `l - 1`: the head link
    /// to the head link, a node to the node of its key.
    fn down_from(&self, l: usize, cur: Option<usize>, Ghost(p): Ghost<int>) -> (r: (Option<usize>, Ghost<int>))
        requires
            self.structure(),
            1 <= l < self.height(),
            -1 <= p < self.chain(l as int).len(),
            cur == node_at(self.chain(l as int), p),
            cur matches Some(c) ==> self.down_ok(c as int),
        ensures
            -1 <= r.1@ < self.chain(l - 1).len(),
            r.0 == node_at(self.chain(l - 1), r.1@),
            (r.1@ == -1) == (p == -1),
            p >= 0 ==> self.key_of(self.chain(l - 1)[r.1@] as int) == self.key_of(self.chain(l as int)[p] as int),
    {
        match cur {
            None => (None, Ghost(-1)),
            Some(c) => {
                proof {
                    assert(self.level_ok(l as int));
                    assert(self.lvl_of(c as int) == l);
                }
                let d = self.nodes[c].down;
                let ghost cl = self.chain(l - 1);
                let ghost q = choose|i: int| 0 <= i < cl.len() && cl[i] == d->0;
                (d, Ghost(q))
            },
        }
    }

    /// The value of `key`, if it is in the list.
    pub fn find(&self, key: K) -> (r: Option<V>)
        requires
            self.wf(),
        ensures
            r == lookup::<K, V>(self.entries(), key@),
    {
        let mut l: usize = self.max_level;
        let mut cur: Option<usize> = None;
        let ghost mut p: int = -1;
        loop
            invariant
                self.wf(),
                l < self.height(),
                -1 <= p < self.chain(l as int).len(),
                cur == node_at(self.chain(l as int), p),
                p >= 0 ==> K::key_lt(self.key_of(self.chain(l as int)[p] as int), key@),
            decreases l,
        {
            let (c, gp) = self.walk_level(l, cur, &key, Ghost(p));
            cur = c;
            proof {
                p = gp@;
            }
            let ghost ch = self.chain(l as int);
            if let Some(n) = self.next_from(l, cur, Ghost(p)) {
                proof {
                    assert(self.level_ok(l as int));
                    assert(ch[p + 1] == n);
                }
                let next_key = self.nodes[n].key;
                if next_key.compare(&key) == KeyOrder::Equal {
                    proof {
                        self.lemma_members(l as int);
                        assert(ch[p + 1] == n);
                        assert(self.live(n as int));
                        self.lemma_found(n as int);
                    }
                    return Some(self.nodes[n].value);
                }
                proof {
                    assert(ch[p + 1] == n);
                    assert(self.key_of(n as int) == next_key@);
                }
            }
            if l == 0 {
                proof {
                    self.lemma_bottom(p, key@);
                    self.lemma_entries_sorted();
                }
                return None;
            }
            proof {
                if p >= 0 {
                    self.lemma_members(l as int);
                    assert(self.live(ch[p] as int));
                    assert(self.down_ok(ch[p] as int));
                }
            }
            let (d, gq) = self.down_from(l, cur, Ghost(p));
            cur = d;
            l = l - 1;
            proof {
                p = gq@;
            }
        }
    }

    /// Values, in key order, of the keys in `[key, range_end]`: the walk
    /// goes down to where `key` stands on the bottom level, then along it.
    pub fn get_range(&self, key: &K, range_end: &K) -> (r: Vec<V>)
        requires
            self.wf(),
        ensures
            r@ == range_values::<K, V>(self.entries(), key@, range_end@),
    {
        let mut l: usize = self.max_level;
        let mut cur: Option<usize> = None;
        let ghost mut p: int = -1;
        loop
            invariant
                self.wf(),
                l < self.height(),
                -1 <= p < self.chain(l as int).len(),
                cur == node_at(self.chain(l as int), p),
                p >= 0 ==> K::key_lt(self.key_of(self.chain(l as int)[p] as int), key@),
            ensures
                l == 0,
                -1 <= p < self.chain(0).len(),
                cur == node_at(self.chain(0), p),
                p >= 0 ==> K::key_lt(self.key_of(self.chain(0)[p] as int), key@),
                p + 1 < self.chain(0).len() ==> !K::key_lt(self.key_of(self.chain(0)[p + 1] as int), key@),
            decreases l,
        {
            let (c, gp) = self.walk_level(l, cur, key, Ghost(p));
            cur = c;
            proof {
                p = gp@;
            }
            if l == 0 {
                break;
            }
            proof {
                if p >= 0 {
                    self.lemma_members(l as int);
                    assert(self.live(self.chain(l as int)[p] as int));
                    assert(self.down_ok(self.chain(l as int)[p] as int));
                }
            }
            let (d, gq) = self.down_from(l, cur, Ghost(p));
            cur = d;
            l = l - 1;
            proof {
                p = gq@;
            }
        }
        let ghost e = self.entries();
        let ghost c = self.chain(0);
        let ghost a = p + 1;
        proof {
            self.lemma_bottom(p, key@);
            self.lemma_entries_sorted();
            assert(self.level_ok(0));
        }
        let mut result: Vec<V> = Vec::new();
        let mut next = self.next_from(0, cur, Ghost(p));
        let ghost mut i: int = a;
        loop
            invariant
                self.wf(),
                e == self.entries(),
                c == self.chain(0),
                a == lower_index::<K, V>(e, key@),
                0 <= a <= i <= c.len(),
                next == succ_of(c, i - 1),
                result@ == values_of::<K, V>(e.subrange(a, i)),
                forall|m: int| a <= m < i ==> key_in_bounds::<K>(#[trigger] e[m].0, key@, range_end@, true),
                forall|m: int| a <= m < c.len() ==> !K::key_lt(#[trigger] e[m].0, key@),
            ensures
                0 <= a <= i <= c.len(),
                result@ == values_of::<K, V>(e.subrange(a, i)),
                forall|m: int| a <= m < i ==> key_in_bounds::<K>(#[trigger] e[m].0, key@, range_end@, true),
                i < c.len() ==> !key_in_bounds::<K>(e[i].0, key@, range_end@, true),
            decreases c.len() - i,
        {
            proof {
                assert(self.level_ok(0));
            }
            match next {
                Some(n) => {
                    proof {
                        assert(c[i] == n);
                    }
                    let next_key = self.nodes[n].key;
                    proof {
                        assert(e[i].0 == next_key@);
                        lemma_not_lt::<K>(e[i].0, key@);
                    }
                    if next_key.compare(range_end) == KeyOrder::Greater {
                        proof {
                            lemma_lt_asymmetric::<K>(range_end@, next_key@);
                        }
                        break;
                    }
                    proof {
                        lemma_not_lt::<K>(range_end@, next_key@);
                    }
                    result.push(self.nodes[n].value);
                    next = self.nodes[n].next;
                    proof {
                        assert(self.next_of(n as int) == succ_of(c, i));
                        assert(e[i].1 == self.val_of(n as int));
                        assert(values_of::<K, V>(e.subrange(a, i + 1)) =~= values_of::<K, V>(e.subrange(a, i)).push(
                            e[i].1,
                        ));
                        i = i + 1;
                    }
                },
                None => {
                    break;
                },
            }
        }
        proof {
            lemma_bounded_block::<K, V>(e, key@, range_end@, true, i);
        }
        result
    }

    /// A node of level `l`'s chain is linked, on level `l`.
    proof fn lemma_member(&self, l: int, n: usize)
        requires
            self.structure(),
            0 <= l < self.height(),
            self.chain(l).contains(n),
        ensures
            self.lvl_of(n as int) == l,
            self.live(n as int),
            (n as int) < self.count(),
    {
        let i = choose|i: int| 0 <= i < self.chain(l).len() && self.chain(l)[i] == n;
        assert(self.level_ok(l));
        assert(self.lvl_of(self.chain(l)[i] as int) == l);
    }

    /// The structure depends on the levels, heads, keys and `next` links only.
    proof fn lemma_same_structure(a: Self, b: Self)
        requires
            a.structure(),
            b.count() == a.count(),
            b.chains == a.chains,
            b.levels == a.levels,
            b.heads@ == a.heads@,
            b.max_level == a.max_level,
            forall|n: int| 0 <= n < a.count() ==> #[trigger] b.key_of(n) == a.key_of(n),
            forall|n: int| 0 <= n < a.count() ==> #[trigger] b.next_of(n) == a.next_of(n),
        ensures
            b.structure(),
            forall|n: int| #[trigger] b.live(n) == a.live(n),
    {
        assert forall|l: int| 0 <= l < b.height() implies #[trigger] b.level_ok(l) by {
            assert(a.level_ok(l));
            let c = a.chain(l);
            assert(b.chain(l) == c);
            assert forall|i: int| 0 <= i < c.len() implies #[trigger] c[i] < b.count() by {}
            assert forall|i: int| 0 <= i < c.len() implies #[trigger] b.lvl_of(c[i] as int) == l by {
                assert(a.lvl_of(c[i] as int) == l);
            }
            assert forall|i: int| 0 <= i < c.len() implies #[trigger] b.next_of(c[i] as int) == succ_of(c, i) by {
                assert(a.next_of(c[i] as int) == succ_of(c, i));
            }
            assert forall|i: int, j: int| #![trigger c[i], c[j]] 0 <= i < j < c.len() implies K::key_lt(
                b.key_of(c[i] as int),
                b.key_of(c[j] as int),
            ) by {
                assert(K::key_lt(a.key_of(c[i] as int), a.key_of(c[j] as int)));
            }
        }
        assert forall|n: int| 0 <= n < b.count() implies 0 <= #[trigger] b.lvl_of(n) < b.height() by {
            assert(0 <= a.lvl_of(n) < a.height());
        }
    }

    /// Splicing node `x`, of key `k` and value `v`, into level `l` after
    /// position `p` (-1: first), where it belongs in key order, and linking
    /// the pending node `up` of the level above down to it, keeps the
    /// structure; `x` then waits for its own down link, unless it is on the
    /// bottom level.
    #[verifier::rlimit(40)]
    proof fn lemma_splice(a: Self, b: Self, l: int, p: int, x: usize, up: Option<usize>, k: K::V, v: V)
        requires
            a.structure(),
            a.links_ok(up),
            0 <= l < a.height(),
            -1 <= p < a.chain(l).len(),
            x == a.count(),
            p >= 0 ==> K::key_lt(a.key_of(a.chain(l)[p] as int), k),
            p + 1 < a.chain(l).len() ==> K::key_lt(k, a.key_of(a.chain(l)[p + 1] as int)),
            up matches Some(u) ==> a.live(u as int) && a.lvl_of(u as int) == l + 1 && a.key_of(u as int) == k
                && a.val_of(u as int) == v,
            b.count() == a.count() + 1,
            b.key_of(x as int) == k,
            b.val_of(x as int) == v,
            b.down_of(x as int) is None,
            b.next_of(x as int) == succ_of(a.chain(l), p),
            forall|n: int| 0 <= n < a.count() ==> #[trigger] b.key_of(n) == a.key_of(n),
            forall|n: int| 0 <= n < a.count() ==> #[trigger] b.val_of(n) == a.val_of(n),
            forall|n: int|
                0 <= n < a.count() ==> #[trigger] b.next_of(n) == (if p >= 0 && n == a.chain(l)[p] {
                    Some(x)
                } else {
                    a.next_of(n)
                }),
            forall|n: int|
                0 <= n < a.count() ==> #[trigger] b.down_of(n) == (if up == Some(n as usize) {
                    Some(x)
                } else {
                    a.down_of(n)
                }),
            b.heads@ == (if p == -1 {
                a.heads@.update(l, Some(x))
            } else {
                a.heads@
            }),
            b.chains@ == a.chains@.update(l, a.chain(l).insert(p + 1, x)),
            b.levels@ == a.levels@.push(l),
            b.max_level == a.max_level,
        ensures
            b.structure(),
            b.links_ok(Some(x)),
            l == 0 ==> b.links_ok(None),
            b.chain(l) == a.chain(l).insert(p + 1, x),
            forall|m: int| 0 <= m < b.height() && m != l ==> #[trigger] b.chain(m) == a.chain(m),
            forall|n: int| 0 <= n < a.count() ==> #[trigger] b.live(n) == a.live(n),
            b.live(x as int),
            b.lvl_of(x as int) == l,
    {
        let c = a.chain(l);
        let d = c.insert(p + 1, x);
        assert(a.level_ok(l));
        assert(b.chain(l) == d);
        assert(b.lvl_of(x as int) == l);
        assert forall|n: int| 0 <= n < a.count() implies #[trigger] b.lvl_of(n) == a.lvl_of(n) by {}
        a.lemma_members(l);
        assert(!c.contains(x)) by {
            if c.contains(x) {
                let i = choose|i: int| 0 <= i < c.len() && c[i] == x;
                assert(c[i] < a.count());
            }
        }
        assert(b.level_ok(l)) by {
            assert(b.heads@[l] == succ_of(d, -1)) by {
                if p >= 0 {
                    assert(d[0] == c[0]);
                }
            }
            assert forall|i: int| 0 <= i < d.len() implies #[trigger] d[i] < b.count() by {
                if i < p + 1 {
                    assert(d[i] == c[i]);
                } else if i > p + 1 {
                    assert(d[i] == c[i - 1]);
                }
            }
            assert forall|i: int| 0 <= i < d.len() implies #[trigger] b.lvl_of(d[i] as int) == l by {
                if i < p + 1 {
                    assert(d[i] == c[i]);
                } else if i > p + 1 {
                    assert(d[i] == c[i - 1]);
                }
            }
            assert forall|i: int| 0 <= i < d.len() implies #[trigger] b.next_of(d[i] as int) == succ_of(d, i) by {
                if i < p {
                    assert(d[i] == c[i]);
                    assert(c[i] != c[p]);
                    assert(a.next_of(c[i] as int) == succ_of(c, i));
                } else if i == p {
                    assert(d[i] == c[p]);
                } else if i == p + 1 {
                } else {
                    assert(d[i] == c[i - 1]);
                    if p >= 0 {
                        assert(c[i - 1] != c[p]);
                    }
                    assert(a.next_of(c[i - 1] as int) == succ_of(c, i - 1));
                }
            }
            assert forall|i: int, j: int| #![trigger d[i], d[j]] 0 <= i < j < d.len() implies K::key_lt(
                b.key_of(d[i] as int),
                b.key_of(d[j] as int),
            ) by {
                if j < p + 1 {
                    assert(d[i] == c[i] && d[j] == c[j]);
                } else if j == p + 1 {
                    assert(d[i] == c[i]);
                    if i < p {
                        K::lemma_lt_transitive(a.key_of(c[i] as int), a.key_of(c[p] as int), k);
                    }
                } else if i == p + 1 {
                    assert(d[j] == c[j - 1]);
                    if j - 1 > p + 1 {
                        K::lemma_lt_transitive(k, a.key_of(c[p + 1] as int), a.key_of(c[j - 1] as int));
                    }
                } else if i < p + 1 {
                    assert(d[i] == c[i] && d[j] == c[j - 1]);
                } else {
                    assert(d[i] == c[i - 1] && d[j] == c[j - 1]);
                }
            }
        }
        assert forall|m: int| 0 <= m < b.height() && m != l implies #[trigger] b.level_ok(m) by {
            assert(a.level_ok(m));
            let e = a.chain(m);
            assert(b.chain(m) == e);
            assert forall|i: int| 0 <= i < e.len() implies #[trigger] b.next_of(e[i] as int) == succ_of(e, i) by {
                assert(a.next_of(e[i] as int) == succ_of(e, i));
                assert(a.lvl_of(e[i] as int) == m);
                if p >= 0 {
                    assert(a.lvl_of(c[p] as int) == l);
                }
            }
            assert forall|i: int| 0 <= i < e.len() implies #[trigger] b.lvl_of(e[i] as int) == m by {
                assert(a.lvl_of(e[i] as int) == m);
            }
            assert forall|i: int, j: int| #![trigger e[i], e[j]] 0 <= i < j < e.len() implies K::key_lt(
                b.key_of(e[i] as int),
                b.key_of(e[j] as int),
            ) by {
                assert(K::key_lt(a.key_of(e[i] as int), a.key_of(e[j] as int)));
            }
        }
        assert forall|n: int| 0 <= n < b.count() implies 0 <= #[trigger] b.lvl_of(n) < b.height() by {
            if n < a.count() {
                assert(0 <= a.lvl_of(n) < a.height());
            }
        }
        assert(b.structure());
        // which nodes are linked
        assert forall|n: int| 0 <= n < a.count() implies #[trigger] b.live(n) == a.live(n) by {
            if a.lvl_of(n) == l {
                if c.contains(n as usize) {
                    let i = choose|i: int| 0 <= i < c.len() && c[i] == n as usize;
                    if i < p + 1 {
                        assert(d[i] == n as usize);
                    } else {
                        assert(d[i + 1] == n as usize);
                    }
                }
                if d.contains(n as usize) {
                    let i = choose|i: int| 0 <= i < d.len() && d[i] == n as usize;
                    if i < p + 1 {
                        assert(c[i] == n as usize);
                    } else if i > p + 1 {
                        assert(c[i - 1] == n as usize);
                    }
                }
            }
        }
        assert(d[p + 1] == x);
        assert(b.live(x as int));
        assert forall|n: int| b.live(n) && Some(x) != Some(n as usize) implies #[trigger] b.down_ok(n) by {
            assert(n < a.count());
            assert(a.live(n));
            if up == Some(n as usize) {
                assert(b.chain(l).contains(x));
            } else {
                assert(a.down_ok(n));
                if a.lvl_of(n) != 0 {
                    let dn = a.down_of(n)->0;
                    let m = a.lvl_of(n) - 1;
                    a.lemma_member(m, dn);
                    if m == l {
                        let i = choose|i: int| 0 <= i < c.len() && c[i] == dn;
                        if i < p + 1 {
                            assert(d[i] == dn);
                        } else {
                            assert(d[i + 1] == dn);
                        }
                    }
                    assert(b.chain(m).contains(dn));
                }
            }
        }
        if l == 0 {
            assert forall|n: int| b.live(n) && None::<usize> != Some(n as usize) implies #[trigger] b.down_ok(n) by {
                if n != x {
                    assert(Some(x) != Some(n as usize));
                }
            }
        }
    }

    /// Unlinking the node after position `p` (-1: the first) of level `l`,
    /// when no linked node of the level above holds its key, keeps the
    /// structure and the down links.
    #[verifier::rlimit(40)]
    proof fn lemma_unsplice(a: Self, b: Self, l: int, p: int)
        requires
            a.structure(),
            a.links_ok(None),
            0 <= l < a.height(),
            -1 <= p,
            p + 1 < a.chain(l).len(),
            forall|n: int|
                a.live(n) && a.lvl_of(n) == l + 1 ==> #[trigger] a.key_of(n) != a.key_of(a.chain(l)[p + 1] as int),
            b.count() == a.count(),
            forall|n: int| 0 <= n < a.count() ==> #[trigger] b.key_of(n) == a.key_of(n),
            forall|n: int| 0 <= n < a.count() ==> #[trigger] b.val_of(n) == a.val_of(n),
            forall|n: int| 0 <= n < a.count() ==> #[trigger] b.down_of(n) == a.down_of(n),
            forall|n: int|
                0 <= n < a.count() ==> #[trigger] b.next_of(n) == (if p >= 0 && n == a.chain(l)[p] {
                    a.next_of(a.chain(l)[p + 1] as int)
                } else {
                    a.next_of(n)
                }),
            b.heads@ == (if p == -1 {
                a.heads@.update(l, a.next_of(a.chain(l)[p + 1] as int))
            } else {
                a.heads@
            }),
            b.chains@ == a.chains@.update(l, a.chain(l).remove(p + 1)),
            b.levels == a.levels,
            b.max_level == a.max_level,
        ensures
            b.structure(),
            b.links_ok(None),
            b.chain(l) == a.chain(l).remove(p + 1),
            forall|m: int| 0 <= m < b.height() && m != l ==> #[trigger] b.chain(m) == a.chain(m),
            forall|n: int| 0 <= n < a.count() ==> #[trigger] b.live(n) == (a.live(n) && n != a.chain(l)[p + 1]),
    {
        let c = a.chain(l);
        let d = c.remove(p + 1);
        let t = c[p + 1];
        assert(a.level_ok(l));
        assert(b.chain(l) == d);
        a.lemma_members(l);
        assert(a.next_of(t as int) == succ_of(c, p + 1));
        assert(b.level_ok(l)) by {
            assert(b.heads@[l] == succ_of(d, -1)) by {
                if p >= 0 {
                    assert(d[0] == c[0]);
                } else if d.len() > 0 {
                    assert(d[0] == c[1]);
                }
            }
            assert forall|i: int| 0 <= i < d.len() implies #[trigger] d[i] < b.count() by {
                if i < p + 1 {
                    assert(d[i] == c[i]);
                } else {
                    assert(d[i] == c[i + 1]);
                }
            }
            assert forall|i: int| 0 <= i < d.len() implies #[trigger] b.lvl_of(d[i] as int) == l by {
                if i < p + 1 {
                    assert(d[i] == c[i]);
                } else {
                    assert(d[i] == c[i + 1]);
                }
            }
            assert forall|i: int| 0 <= i < d.len() implies #[trigger] b.next_of(d[i] as int) == succ_of(d, i) by {
                if i < p {
                    assert(d[i] == c[i]);
                    assert(c[i] != c[p]);
                    assert(a.next_of(c[i] as int) == succ_of(c, i));
                } else if i == p {
                    assert(d[i] == c[p]);
                } else {
                    assert(d[i] == c[i + 1]);
                    if p >= 0 {
                        assert(c[i + 1] != c[p]);
                    }
                    assert(a.next_of(c[i + 1] as int) == succ_of(c, i + 1));
                }
            }
            assert forall|i: int, j: int| #![trigger d[i], d[j]] 0 <= i < j < d.len() implies K::key_lt(
                b.key_of(d[i] as int),
                b.key_of(d[j] as int),
            ) by {
                let ii = if i < p + 1 { i } else { i + 1 };
                let jj = if j < p + 1 { j } else { j + 1 };
                assert(d[i] == c[ii] && d[j] == c[jj]);
            }
        }
        assert forall|m: int| 0 <= m < b.height() && m != l implies #[trigger] b.level_ok(m) by {
            assert(a.level_ok(m));
            let e = a.chain(m);
            assert(b.chain(m) == e);
            assert forall|i: int| 0 <= i < e.len() implies #[trigger] b.next_of(e[i] as int) == succ_of(e, i) by {
                assert(a.next_of(e[i] as int) == succ_of(e, i));
                assert(a.lvl_of(e[i] as int) == m);
                if p >= 0 {
                    assert(a.lvl_of(c[p] as int) == l);
                }
            }
            assert forall|i: int| 0 <= i < e.len() implies #[trigger] b.lvl_of(e[i] as int) == m by {
                assert(a.lvl_of(e[i] as int) == m);
            }
            assert forall|i: int, j: int| #![trigger e[i], e[j]] 0 <= i < j < e.len() implies K::key_lt(
                b.key_of(e[i] as int),
                b.key_of(e[j] as int),
            ) by {
                assert(K::key_lt(a.key_of(e[i] as int), a.key_of(e[j] as int)));
            }
        }
        assert forall|n: int| 0 <= n < b.count() implies 0 <= #[trigger] b.lvl_of(n) < b.height() by {
            assert(0 <= a.lvl_of(n) < a.height());
        }
        assert(b.structure());
        assert forall|n: int| 0 <= n < a.count() implies #[trigger] b.live(n) == (a.live(n) && n != t) by {
            if a.lvl_of(n) == l {
                if c.contains(n as usize) && n != t {
                    let i = choose|i: int| 0 <= i < c.len() && c[i] == n as usize;
                    if i < p + 1 {
                        assert(d[i] == n as usize);
                    } else {
                        assert(i != p + 1);
                        assert(d[i - 1] == n as usize);
                    }
                }
                if d.contains(n as usize) {
                    let i = choose|i: int| 0 <= i < d.len() && d[i] == n as usize;
                    if i < p + 1 {
                        assert(c[i] == n as usize);
                        assert(c[i] != c[p + 1]);
                    } else {
                        assert(c[i + 1] == n as usize);
                        assert(c[i + 1] != c[p + 1]);
                    }
                }
            }
        }
        assert forall|n: int| b.live(n) && None::<usize> != Some(n as usize) implies #[trigger] b.down_ok(n) by {
            assert(a.live(n));
            assert(a.down_ok(n));
            if a.lvl_of(n) != 0 {
                let dn = a.down_of(n)->0;
                let m = a.lvl_of(n) - 1;
                a.lemma_member(m, dn);
                if m == l {
                    assert(dn != t);
                    let i = choose|i: int| 0 <= i < c.len() && c[i] == dn;
                    if i < p + 1 {
                        assert(d[i] == dn);
                    } else {
                        assert(d[i - 1] == dn);
                    }
                }
                assert(b.chain(m).contains(dn));
            }
        }
    }

    fn set_next(&mut self, i: usize, nx: Option<usize>)
        requires
            i < old(self).count(),
        ensures
            final(self).count() == old(self).count(),
            forall|n: int| 0 <= n < old(self).count() ==> #[trigger] final(self).key_of(n) == old(self).key_of(n),
            forall|n: int| 0 <= n < old(self).count() ==> #[trigger] final(self).val_of(n) == old(self).val_of(n),
            forall|n: int| 0 <= n < old(self).count() ==> #[trigger] final(self).down_of(n) == old(self).down_of(n),
            forall|n: int|
                0 <= n < old(self).count() ==> #[trigger] final(self).next_of(n) == (if n == i {
                    nx
                } else {
                    old(self).next_of(n)
                }),
            final(self).heads == old(self).heads,
            final(self).max_level == old(self).max_level,
            final(self).chains == old(self).chains,
            final(self).levels == old(self).levels,
    {
        self.nodes[i].next = nx;
    }

    fn set_down(&mut self, i: usize, d: Option<usize>)
        requires
            i < old(self).count(),
        ensures
            final(self).count() == old(self).count(),
            forall|n: int| 0 <= n < old(self).count() ==> #[trigger] final(self).key_of(n) == old(self).key_of(n),
            forall|n: int| 0 <= n < old(self).count() ==> #[trigger] final(self).val_of(n) == old(self).val_of(n),
            forall|n: int| 0 <= n < old(self).count() ==> #[trigger] final(self).next_of(n) == old(self).next_of(n),
            forall|n: int|
                0 <= n < old(self).count() ==> #[trigger] final(self).down_of(n) == (if n == i {
                    d
                } else {
                    old(self).down_of(n)
                }),
            final(self).heads == old(self).heads,
            final(self).max_level == old(self).max_level,
            final(self).chains == old(self).chains,
            final(self).levels == old(self).levels,
    {
        self.nodes[i].down = d;
    }

    fn set_value(&mut self, i: usize, v: V)
        requires
            i < old(self).count(),
        ensures
            final(self).count() == old(self).count(),
            forall|n: int| 0 <= n < old(self).count() ==> #[trigger] final(self).key_of(n) == old(self).key_of(n),
            forall|n: int| 0 <= n < old(self).count() ==> #[trigger] final(self).down_of(n) == old(self).down_of(n),
            forall|n: int| 0 <= n < old(self).count() ==> #[trigger] final(self).next_of(n) == old(self).next_of(n),
            forall|n: int|
                0 <= n < old(self).count() ==> #[trigger] final(self).val_of(n) == (if n == i {
                    v
                } else {
                    old(self).val_of(n)
                }),
            final(self).heads == old(self).heads,
            final(self).max_level == old(self).max_level,
            final(self).chains == old(self).chains,
            final(self).levels == old(self).levels,
    {
        self.nodes[i].value = v;
    }

    fn set_head(&mut self, l: usize, h: Option<usize>)
        requires
            l < old(self).heads@.len(),
        ensures
            final(self).heads@ == old(self).heads@.update(l as int, h),
            final(self).nodes == old(self).nodes,
            final(self).max_level == old(self).max_level,
            final(self).chains == old(self).chains,
            final(self).levels == old(self).levels,
    {
        self.heads.set(l, h);
    }

    /// Sets `value` on the tower of `top`, the highest linked node of its
    /// key, from `top` down to the bottom, and links the pending node `up`
    /// above it down to `top`. Afterwards every linked node of that key holds
    /// `value`.
    fn update_tower(&mut self, top: usize, value: V, up: Option<usize>, Ghost(l): Ghost<int>)
        requires
            old(self).structure(),
            old(self).links_ok(up),
            old(self).live(top as int),
            old(self).lvl_of(top as int) == l,
            0 <= l < old(self).height(),
            up matches Some(u) ==> old(self).live(u as int) && old(self).lvl_of(u as int) == l + 1
                && old(self).key_of(u as int) == old(self).key_of(top as int) && old(self).val_of(u as int) == value,
            forall|n: int|
                old(self).live(n) && old(self).lvl_of(n) > l && #[trigger] old(self).key_of(n) == old(
                    self,
                ).key_of(top as int) ==> old(self).val_of(n) == value,
            forall|n: int|
                old(self).live(n) && old(self).lvl_of(n) == l + 1 && #[trigger] old(self).key_of(n) == old(
                    self,
                ).key_of(top as int) ==> up == Some(n as usize),
        ensures
            final(self).wf(),
            final(self).count() == old(self).count(),
            final(self).heads == old(self).heads,
            final(self).max_level == old(self).max_level,
            final(self).chains == old(self).chains,
            final(self).levels == old(self).levels,
            forall|n: int| 0 <= n < old(self).count() ==> #[trigger] final(self).key_of(n) == old(self).key_of(n),
            forall|n: int|
                0 <= n < old(self).count() ==> #[trigger] final(self).val_of(n) == (if old(self).live(n)
                    && old(self).key_of(n) == old(self).key_of(top as int) {
                    value
                } else {
                    old(self).val_of(n)
                }),
    {
        let ghost s0 = *self;
        let ghost k = self.key_of(top as int);
        if let Some(u) = up {
            self.set_down(u, Some(top));
        }
        proof {
            Self::lemma_same_structure(s0, *self);
            assert forall|n: int| self.live(n) && up != Some(n as usize) implies #[trigger] self.down_ok(n) by {
                assert(s0.live(n));
                assert(s0.down_ok(n));
                if s0.lvl_of(n) != 0 {
                    s0.lemma_member(s0.lvl_of(n) - 1, s0.down_of(n)->0);
                }
            }
        }
        let mut t = top;
        let ghost mut j: int = l;
        let ghost mut prev: Option<usize> = up;
        loop
            invariant_except_break
                forall|n: int|
                    0 <= n < self.count() ==> #[trigger] self.val_of(n) == (if self.live(n) && s0.key_of(n) == k
                        && self.lvl_of(n) > j {
                        value
                    } else {
                        s0.val_of(n)
                    }),
            invariant
                self.structure(),
                self.links_ok(prev),
                self.count() == s0.count(),
                self.heads == s0.heads,
                self.max_level == s0.max_level,
                self.chains == s0.chains,
                self.levels == s0.levels,
                forall|n: int| #[trigger] self.live(n) == s0.live(n),
                forall|n: int| 0 <= n < s0.count() ==> #[trigger] self.key_of(n) == s0.key_of(n),
                self.live(t as int),
                self.lvl_of(t as int) == j,
                0 <= j <= l,
                self.key_of(t as int) == k,
                prev matches Some(pv) ==> self.live(pv as int) && self.lvl_of(pv as int) == j + 1 && self.key_of(
                    pv as int,
                ) == k && self.val_of(pv as int) == value && self.down_of(pv as int) == Some(t),
                forall|n: int|
                    self.live(n) && self.lvl_of(n) == j + 1 && #[trigger] self.key_of(n) == k ==> prev == Some(
                        n as usize,
                    ),
            ensures
                self.structure(),
                self.links_ok(None),
                self.count() == s0.count(),
                self.heads == s0.heads,
                self.max_level == s0.max_level,
                self.chains == s0.chains,
                self.levels == s0.levels,
                forall|n: int| 0 <= n < s0.count() ==> #[trigger] self.key_of(n) == s0.key_of(n),
                forall|n: int|
                    0 <= n < self.count() ==> #[trigger] self.val_of(n) == (if s0.live(n) && s0.key_of(n) == k {
                        value
                    } else {
                        s0.val_of(n)
                    }),
            decreases j,
        {
            let ghost a = *self;
            proof {
                assert(a.down_ok(t as int));
            }
            self.set_value(t, value);
            proof {
                Self::lemma_same_structure(a, *self);
                assert forall|n: int| self.live(n) && Some(t) != Some(n as usize) implies #[trigger] self.down_ok(n) by {
                    if prev == Some(n as usize) {
                        assert(self.chain(j).contains(t)) by {
                            let q = self.lemma_position(t as int);
                        }
                    } else {
                        assert(a.live(n));
                        assert(a.down_ok(n));
                        if a.lvl_of(n) != 0 {
                            a.lemma_member(a.lvl_of(n) - 1, a.down_of(n)->0);
                            if a.down_of(n) == Some(t) {
                                assert(a.key_of(n) == k);
                            }
                        }
                    }
                }
            }
            match self.nodes[t].down {
                Some(d) => {
                    proof {
                        assert(self.down_of(t as int) == a.down_of(t as int));
                        a.lemma_member(j - 1, d);
                        prev = Some(t);
                        assert forall|n: int|
                            self.live(n) && self.lvl_of(n) == j && #[trigger] self.key_of(n) == k implies prev == Some(
                                n as usize,
                            ) by {
                            self.lemma_unique_key(n, t as int);
                        }
                        assert forall|n: int| 0 <= n < self.count() implies #[trigger] self.val_of(n) == (if self.live(n)
                            && s0.key_of(n) == k && self.lvl_of(n) > j - 1 {
                            value
                        } else {
                            s0.val_of(n)
                        }) by {
                            if self.live(n) && s0.key_of(n) == k && self.lvl_of(n) == j && n != t {
                                self.lemma_unique_key(n, t as int);
                            }
                        }
                        j = j - 1;
                    }
                    t = d;
                },
                None => {
                    proof {
                        assert(self.down_of(t as int) == a.down_of(t as int));
                        assert(j == 0);
                        assert forall|n: int| self.live(n) && None::<usize> != Some(n as usize) implies #[trigger] self.down_ok(n) by {
                            if n != t {
                                assert(Some(t) != Some(n as usize));
                            }
                        }
                        assert forall|n: int| 0 <= n < self.count() implies #[trigger] self.val_of(n) == (if s0.live(n)
                            && s0.key_of(n) == k {
                            value
                        } else {
                            s0.val_of(n)
                        }) by {
                            if s0.live(n) && s0.key_of(n) == k && self.lvl_of(n) == 0 && n != t {
                                self.lemma_unique_key(n, t as int);
                            }
                        }
                    }
                    break;
                },
            }
        }
    }

    /// Bottom entries after the linked nodes of key `k` took the value `v`.
    proof fn lemma_entries_update(s0: Self, b: Self, k: K::V, v: V, m: int)
        requires
            s0.structure(),
            b.wf(),
            b.chain(0) == s0.chain(0),
            forall|n: int| 0 <= n < s0.count() ==> #[trigger] b.key_of(n) == s0.key_of(n),
            forall|n: int|
                0 <= n < s0.count() ==> #[trigger] b.val_of(n) == (if s0.live(n) && s0.key_of(n) == k {
                    v
                } else {
                    s0.val_of(n)
                }),
            b.live(m),
            b.key_of(m) == k,
        ensures
            b.entries() == upsert::<K, V>(s0.entries(), k, v),
    {
        let e0 = s0.entries();
        let e1 = b.entries();
        let c = s0.chain(0);
        assert(s0.level_ok(0));
        s0.lemma_members(0);
        s0.lemma_entries_sorted();
        b.lemma_entries_sorted();
        b.lemma_found(m);
        crate::sorted::lemma_lookup_index::<K, V>(e1, k);
        crate::sorted::lemma_lookup_index::<K, V>(e0, k);
        let q = lower_index::<K, V>(e1, k);
        assert(e1[q].0 == k);
        assert(b.key_of(c[q] as int) == s0.key_of(c[q] as int));
        assert(e0[q].0 == k);
        assert(lower_index::<K, V>(e0, k) == q);
        assert forall|i: int| 0 <= i < e0.len() implies #[trigger] e1[i] == upsert::<K, V>(e0, k, v)[i] by {
            assert(b.key_of(c[i] as int) == s0.key_of(c[i] as int));
            assert(s0.live(c[i] as int));
            if i != q {
                assert(e0[i].0 != k) by {
                    if i < q {
                        assert(K::key_lt(e0[i].0, e0[q].0));
                    } else {
                        assert(K::key_lt(e0[q].0, e0[i].0));
                    }
                    K::lemma_lt_irreflexive(k);
                }
            }
        }
        assert(e1 =~= upsert::<K, V>(e0, k, v));
    }

    /// Bottom entries after node `x`, of key `k` and value `v`, went in after
    /// position `p` (-1: first), between a key below `k` and one above it.
    proof fn lemma_entries_insert(s0: Self, b: Self, p: int, x: usize, k: K::V, v: V)
        requires
            s0.structure(),
            -1 <= p < s0.chain(0).len(),
            p >= 0 ==> K::key_lt(s0.key_of(s0.chain(0)[p] as int), k),
            p + 1 < s0.chain(0).len() ==> K::key_lt(k, s0.key_of(s0.chain(0)[p + 1] as int)),
            b.chain(0) == s0.chain(0).insert(p + 1, x),
            forall|n: int| 0 <= n < s0.count() ==> #[trigger] b.key_of(n) == s0.key_of(n),
            forall|n: int| 0 <= n < s0.count() ==> #[trigger] b.val_of(n) == s0.val_of(n),
            b.key_of(x as int) == k,
            b.val_of(x as int) == v,
        ensures
            b.entries() == upsert::<K, V>(s0.entries(), k, v),
    {
        let e0 = s0.entries();
        let e1 = b.entries();
        let c = s0.chain(0);
        assert(s0.level_ok(0));
        s0.lemma_entries_sorted();
        if p + 1 < c.len() {
            lemma_lt_asymmetric::<K>(k, s0.key_of(c[p + 1] as int));
        }
        s0.lemma_bottom(p, k);
        if p + 1 < c.len() {
            assert(e0[p + 1].0 != k);
        }
        let u = upsert::<K, V>(e0, k, v);
        assert(u == e0.insert(p + 1, (k, v)));
        assert forall|i: int| 0 <= i < e1.len() implies #[trigger] e1[i] == u[i] by {
            if i < p + 1 {
                assert(b.chain(0)[i] == c[i]);
                assert(c[i] < s0.count());
                assert(b.key_of(c[i] as int) == s0.key_of(c[i] as int));
                assert(b.val_of(c[i] as int) == s0.val_of(c[i] as int));
            } else if i > p + 1 {
                assert(b.chain(0)[i] == c[i - 1]);
                assert(c[i - 1] < s0.count());
                assert(b.key_of(c[i - 1] as int) == s0.key_of(c[i - 1] as int));
                assert(b.val_of(c[i - 1] as int) == s0.val_of(c[i - 1] as int));
            } else {
                assert(b.chain(0)[i] == x);
            }
        }
        assert(e1 =~= u);
    }

    /// Bottom entries after the node of key `k` after position `p` went out.
    proof fn lemma_entries_remove(s0: Self, b: Self, p: int, k: K::V)
        requires
            s0.structure(),
            -1 <= p,
            p + 1 < s0.chain(0).len(),
            p >= 0 ==> K::key_lt(s0.key_of(s0.chain(0)[p] as int), k),
            s0.key_of(s0.chain(0)[p + 1] as int) == k,
            b.chain(0) == s0.chain(0).remove(p + 1),
            forall|n: int| 0 <= n < s0.count() ==> #[trigger] b.key_of(n) == s0.key_of(n),
            forall|n: int| 0 <= n < s0.count() ==> #[trigger] b.val_of(n) == s0.val_of(n),
        ensures
            b.entries() == remove_key::<K, V>(s0.entries(), k),
    {
        let e0 = s0.entries();
        let e1 = b.entries();
        let c = s0.chain(0);
        assert(s0.level_ok(0));
        s0.lemma_entries_sorted();
        K::lemma_lt_irreflexive(k);
        s0.lemma_bottom(p, k);
        let r = remove_key::<K, V>(e0, k);
        assert(r == e0.remove(p + 1));
        assert forall|i: int| 0 <= i < e1.len() implies #[trigger] e1[i] == r[i] by {
            let ii = if i < p + 1 { i } else { i + 1 };
            assert(b.chain(0)[i] == c[ii]);
            assert(c[ii] < s0.count());
            assert(b.key_of(c[ii] as int) == s0.key_of(c[ii] as int));
            assert(b.val_of(c[ii] as int) == s0.val_of(c[ii] as int));
        }
        assert(e1 =~= r);
    }

    /// Links a new node of `key` and `value` into level `l` after position
    /// `p` (-1: first), where it belongs in key order, and links the pending
    /// node `up` of the level above down to it.
    fn splice_at(
        &mut self,
        l: usize,
        cur: Option<usize>,
        nx: Option<usize>,
        up: Option<usize>,
        key: K,
        value: V,
        Ghost(p): Ghost<int>,
    ) -> (x: usize)
        requires
            old(self).structure(),
            old(self).links_ok(up),
            l < old(self).height(),
            -1 <= p < old(self).chain(l as int).len(),
            cur == node_at(old(self).chain(l as int), p),
            nx == succ_of(old(self).chain(l as int), p),
            p >= 0 ==> K::key_lt(old(self).key_of(old(self).chain(l as int)[p] as int), key@),
            p + 1 < old(self).chain(l as int).len() ==> K::key_lt(key@, old(self).key_of(old(self).chain(l as int)[p + 1] as int)),
            up matches Some(u) ==> old(self).live(u as int) && old(self).lvl_of(u as int) == l + 1 && old(self).key_of(
                u as int,
            ) == key@ && old(self).val_of(u as int) == value,
        ensures
            final(self).structure(),
            final(self).links_ok(Some(x)),
            l == 0 ==> final(self).links_ok(None),
            x == old(self).count(),
            final(self).count() == old(self).count() + 1,
            final(self).key_of(x as int) == key@,
            final(self).val_of(x as int) == value,
            final(self).lvl_of(x as int) == l,
            final(self).live(x as int),
            final(self).chain(l as int) == old(self).chain(l as int).insert(p + 1, x),
            forall|m: int| 0 <= m < final(self).height() && m != l ==> #[trigger] final(self).chain(m) == old(self).chain(m),
            forall|n: int| 0 <= n < old(self).count() ==> #[trigger] final(self).key_of(n) == old(self).key_of(n),
            forall|n: int| 0 <= n < old(self).count() ==> #[trigger] final(self).val_of(n) == old(self).val_of(n),
            forall|n: int| 0 <= n < old(self).count() ==> #[trigger] final(self).lvl_of(n) == old(self).lvl_of(n),
            forall|n: int| 0 <= n < old(self).count() ==> #[trigger] final(self).live(n) == old(self).live(n),
            final(self).max_level == old(self).max_level,
    {
        let ghost a = *self;
        let ghost ch = self.chain(l as int);
        let ghost k = key@;
        proof {
            assert(a.level_ok(l as int));
            if p >= 0 {
                assert(ch[p] < a.count());
            }
        }
        self.chains = Ghost(a.chains@.update(l as int, ch.insert(p + 1, a.count() as usize)));
        self.levels = Ghost(a.levels@.push(l as int));
        let x = Node::new_with_node(&mut self.nodes, Node { key, value, down: None, next: nx });
        let ghost a1 = *self;
        proof {
            assert(a1.nodes@.len() == a1.nodes.len());
            assert(a.nodes@.len() == a.nodes.len());
            assert(x == a.count());
            assert forall|n: int| 0 <= n < a.count() implies #[trigger] a1.key_of(n) == a.key_of(n)
                && a1.val_of(n) == a.val_of(n) && a1.next_of(n) == a.next_of(n) && a1.down_of(n)
                == a.down_of(n) by {
                assert(a1.nodes@[n] == a.nodes@[n]);
            }
            assert(a1.nodes@[x as int] == Node { key, value, down: None, next: nx });
        }
        match cur {
            None => {
                self.set_head(l, Some(x));
            },
            Some(c) => {
                self.set_next(c, Some(x));
            },
        }
        let ghost a2 = *self;
        if let Some(u) = up {
            self.set_down(u, Some(x));
        }
        proof {
            assert forall|n: int| 0 <= n < a1.count() implies #[trigger] self.key_of(n) == a1.key_of(n)
                && self.val_of(n) == a1.val_of(n) && self.next_of(n) == a2.next_of(n) && self.down_of(n)
                == (if up == Some(n as usize) {
                Some(x)
            } else {
                a1.down_of(n)
            }) by {
                assert(a2.key_of(n) == a1.key_of(n) && a2.val_of(n) == a1.val_of(n) && a2.down_of(n)
                    == a1.down_of(n));
            }
            assert forall|n: int| 0 <= n < a.count() implies #[trigger] self.key_of(n) == a.key_of(n) by {
                assert(a1.key_of(n) == a.key_of(n));
            }
            assert forall|n: int| 0 <= n < a.count() implies #[trigger] self.val_of(n) == a.val_of(n) by {
                assert(a1.val_of(n) == a.val_of(n));
            }
            assert forall|n: int| 0 <= n < a.count() implies #[trigger] self.next_of(n) == (if p >= 0 && n
                == ch[p] {
                Some(x)
            } else {
                a.next_of(n)
            }) by {
                assert(a1.next_of(n) == a.next_of(n));
                assert(self.next_of(n) == a2.next_of(n));
            }
            assert forall|n: int| 0 <= n < a.count() implies #[trigger] self.down_of(n) == (if up == Some(
                n as usize,
            ) {
                Some(x)
            } else {
                a.down_of(n)
            }) by {
                assert(a1.down_of(n) == a.down_of(n));
            }
            assert(a2.key_of(x as int) == a1.key_of(x as int));
            assert(self.key_of(x as int) == k && self.val_of(x as int) == value);
            assert(a1.next_of(x as int) == nx);
            assert(a2.next_of(x as int) == a1.next_of(x as int));
            assert(self.next_of(x as int) == succ_of(ch, p));
            assert(self.down_of(x as int) is None);
            Self::lemma_splice(a, *self, l as int, p, x, up, k, value);
        }
        x
    }

    /// Binds `key` to `value` in one walk down the levels: on each level the
    /// walk goes right past the keys below `key`; a key already there takes
    /// the new value on every level it is on, a new key is linked in on the
    /// levels below the one drawn. Returns the number of levels drawn.
    /// After a new key's tower of `level` nodes is linked above the old
    /// nodes, the key is on exactly the levels below `level`.
    proof fn lemma_new_tower(&self, s0: Self, k: K::V, level: int)
        requires
            self.structure(),
            1 <= level <= self.height(),
            s0.count() + level == self.count(),
            forall|n: int| s0.count() <= n < self.count() ==> #[trigger] self.lvl_of(n) == level - 1 - (n - s0.count()),
            forall|n: int| s0.count() <= n < self.count() ==> #[trigger] self.key_of(n) == k && self.live(n),
            forall|n: int| 0 <= n < s0.count() ==> #[trigger] self.key_of(n) == s0.key_of(n),
            forall|n: int| 0 <= n < s0.count() ==> #[trigger] self.lvl_of(n) == s0.lvl_of(n),
            forall|n: int| 0 <= n < s0.count() ==> #[trigger] self.live(n) == s0.live(n),
            forall|n: int| 0 <= n < s0.count() && s0.live(n) ==> #[trigger] s0.key_of(n) != k,
        ensures
            self.tower_is(k, level),
    {
        let oc = s0.count();
        assert forall|j: int| 0 <= j < self.height() implies (#[trigger] self.on_level(j, k) <==> j < level) by {
            assert(self.level_ok(j));
            let c = self.chain(j);
            if j < level {
                let n = oc + level - 1 - j;
                assert(self.lvl_of(n) == j);
                assert(self.key_of(n) == k);
                assert(self.live(n));
                assert(c.contains(n as usize));
                let i = choose|i: int| 0 <= i < c.len() && c[i] == n as usize;
                assert(self.key_of(c[i] as int) == k);
            } else if self.on_level(j, k) {
                let i = choose|i: int| 0 <= i < c.len() && #[trigger] self.key_of(c[i] as int) == k;
                let m = c[i] as int;
                assert(self.lvl_of(m) == j);
                assert(self.live(m));
                if m >= oc {
                    assert(self.lvl_of(m) == level - 1 - (m - oc));
                } else {
                    assert(s0.live(m));
                }
            }
        }
    }

    fn put(&mut self, key: K, value: V) -> (level: usize)
        requires
            old(self).wf(),
        ensures
            final(self).wf(),
            final(self).entries() == upsert::<K, V>(old(self).entries(), key@, value),
            final(self).levels_spec() == old(self).levels_spec(),
            1 <= level <= old(self).levels_spec(),
            old(self).entries().len() == 0 ==> level == old(self).levels_spec(),
            lookup::<K, V>(old(self).entries(), key@) is None ==> final(self).tower_is(key@, level as int),
    {
        let ghost s0 = *self;
        let ghost oc = s0.count();
        let ghost k = key@;
        proof {
            assert(s0.level_ok(0));
        }
        let level = if self.heads[0].is_none() {
            self.max_level + 1
        } else {
            1 + self.random_level()
        };
        let mut l: usize = self.max_level;
        let mut cur: Option<usize> = None;
        let ghost mut p: int = -1;
        let mut up: Option<usize> = None;
        loop
            invariant
                s0.wf(),
                s0 == *old(self),
                oc == s0.count(),
                k == key@,
                self.structure(),
                self.links_ok(up),
                self.max_level == s0.max_level,
                1 <= level <= self.height(),
                l < self.height(),
                -1 <= p < self.chain(l as int).len(),
                cur == node_at(self.chain(l as int), p),
                p >= 0 ==> K::key_lt(self.key_of(self.chain(l as int)[p] as int), k),
                oc <= self.count(),
                forall|n: int| 0 <= n < oc ==> #[trigger] self.key_of(n) == s0.key_of(n),
                forall|n: int| 0 <= n < oc ==> #[trigger] self.val_of(n) == s0.val_of(n),
                forall|n: int| 0 <= n < oc ==> #[trigger] self.lvl_of(n) == s0.lvl_of(n),
                forall|n: int| 0 <= n < oc ==> #[trigger] self.live(n) == s0.live(n),
                self.chain(0) == s0.chain(0),
                forall|n: int|
                    oc <= n < self.count() ==> #[trigger] self.key_of(n) == k && self.val_of(n) == value && l
                        < self.lvl_of(n) < level && self.live(n),
                forall|n: int| oc <= n < self.count() ==> #[trigger] self.lvl_of(n) == level - 1 - (n - oc),
                self.count() == oc + (if l + 1 < level { level - 1 - l } else { 0 }),
                s0.entries().len() == 0 ==> level == s0.height(),
                (up is Some) == (l + 1 < level),
                up matches Some(u) ==> oc <= u < self.count() && self.lvl_of(u as int) == l + 1,
                up is None ==> self.count() == oc,
                forall|n: int| 0 <= n < oc && s0.live(n) && s0.lvl_of(n) > l ==> #[trigger] s0.key_of(n) != k,
            decreases l,
        {
            let (c1, gp) = self.walk_level(l, cur, &key, Ghost(p));
            cur = c1;
            proof {
                p = gp@;
            }
            let ghost ch = self.chain(l as int);
            proof {
                self.lemma_members(l as int);
                assert(self.level_ok(l as int));
                // the nodes of this level were all there before
                assert forall|i: int| 0 <= i < ch.len() implies #[trigger] ch[i] < oc by {
                    assert(self.lvl_of(ch[i] as int) == l);
                    if ch[i] >= oc {
                        assert(self.key_of(ch[i] as int) == k);
                    }
                }
            }
            let nx = self.next_from(l, cur, Ghost(p));
            if let Some(n) = nx {
                proof {
                    assert(ch[p + 1] == n);
                }
                let next_key = self.nodes[n].key;
                if next_key.compare(&key) == KeyOrder::Equal {
                    let ghost a = *self;
                    proof {
                        assert(a.key_of(n as int) == k);
                        assert(a.live(n as int));
                        assert forall|m: int|
                            a.live(m) && a.lvl_of(m) > l && #[trigger] a.key_of(m) == a.key_of(n as int) implies a.val_of(m)
                            == value by {
                            if m < oc {
                                assert(s0.live(m) && s0.lvl_of(m) > l);
                                assert(s0.key_of(m) != k);
                            } else {
                                assert(self.key_of(m) == k && self.val_of(m) == value);
                            }
                        }
                        assert forall|m: int|
                            a.live(m) && a.lvl_of(m) == l + 1 && #[trigger] a.key_of(m) == a.key_of(n as int) implies up
                            == Some(m as usize) by {
                            if m < oc {
                                assert(s0.live(m) && s0.lvl_of(m) > l);
                                assert(s0.key_of(m) != k);
                            } else {
                                assert(self.key_of(m) == k);
                                let u = up->0 as int;
                                assert(oc <= u < self.count());
                                assert(self.key_of(u) == k && self.live(u));
                                a.lemma_unique_key(m, u);
                            }
                        }
                        if let Some(u) = up {
                            assert(oc <= u < self.count());
                            assert(self.key_of(u as int) == k);
                            assert(self.val_of(u as int) == value);
                            assert(self.live(u as int));
                        }
                    }
                    self.update_tower(n, value, up, Ghost(l as int));
                    proof {
                        assert forall|m: int| 0 <= m < s0.count() implies #[trigger] self.val_of(m) == (if s0.live(m)
                            && s0.key_of(m) == k {
                            value
                        } else {
                            s0.val_of(m)
                        }) by {
                            assert(a.key_of(m) == s0.key_of(m) && a.val_of(m) == s0.val_of(m) && a.live(m) == s0.live(
                                m,
                            ));
                            assert(self.val_of(m) == (if a.live(m) && a.key_of(m) == a.key_of(n as int) {
                                value
                            } else {
                                a.val_of(m)
                            }));
                        }
                        assert forall|m: int| 0 <= m < s0.count() implies #[trigger] self.key_of(m) == s0.key_of(m) by {
                            assert(a.key_of(m) == s0.key_of(m));
                        }
                        assert(self.live(n as int));
                        Self::lemma_entries_update(s0, *self, k, value, n as int);
                        assert(self.entries().len() == s0.entries().len());
                    }
                    return level;
                }
                proof {
                    assert(self.key_of(n as int) == next_key@);
                }
            }
            proof {
                // `key` is on no linked node of this level that was there before
                if p + 1 < ch.len() {
                    lemma_not_lt::<K>(self.key_of(ch[p + 1] as int), k);
                    lemma_lt_asymmetric::<K>(k, self.key_of(ch[p + 1] as int));
                }
                assert forall|n: int| 0 <= n < oc && s0.live(n) && s0.lvl_of(n) == l implies #[trigger] s0.key_of(n)
                    != k by {
                    assert(self.live(n) && self.lvl_of(n) == l);
                    let q = self.lemma_position(n);
                    if q < p {
                        assert(K::key_lt(self.key_of(ch[q] as int), self.key_of(ch[p] as int)));
                        K::lemma_lt_transitive(self.key_of(n), self.key_of(ch[p] as int), k);
                        lemma_lt_asymmetric::<K>(self.key_of(n), k);
                    } else if q == p {
                        lemma_lt_asymmetric::<K>(self.key_of(n), k);
                    } else if q > p + 1 {
                        assert(K::key_lt(self.key_of(ch[p + 1] as int), self.key_of(ch[q] as int)));
                        K::lemma_lt_transitive(k, self.key_of(ch[p + 1] as int), self.key_of(n));
                        lemma_lt_asymmetric::<K>(k, self.key_of(n));
                    }
                }
            }
            if l < level {
                proof {
                    if let Some(u) = up {
                        assert(oc <= u < self.count());
                        assert(self.key_of(u as int) == k);
                        assert(self.val_of(u as int) == value);
                        assert(self.live(u as int));
                    }
                }
                let ghost a = *self;
                proof {
                    assert forall|n: int| oc <= n < a.count() implies #[trigger] a.key_of(n) == k && a.val_of(n)
                        == value && l < a.lvl_of(n) < level && a.live(n) by {
                        assert(oc <= n < self.count());
                        assert(self.key_of(n) == k);
                    }
                    if p + 1 < ch.len() {
                        assert(nx == Some(ch[p + 1]));
                    }
                }
                let x = self.splice_at(l, cur, nx, up, key, value, Ghost(p));
                proof {
                    assert forall|n: int| oc <= n < self.count() implies #[trigger] self.key_of(n) == k && self.val_of(n)
                        == value && l as int - 1 < self.lvl_of(n) < level && self.live(n) by {
                        if n < a.count() {
                            assert(oc <= n && n < a.count());
                            assert(a.key_of(n) == k);
                            assert(a.val_of(n) == value);
                            assert(l < a.lvl_of(n));
                            assert(a.live(n));
                            assert(self.key_of(n) == a.key_of(n) && self.val_of(n) == a.val_of(n));
                            assert(self.lvl_of(n) == a.lvl_of(n) && self.live(n) == a.live(n));
                        } else {
                            assert(n == x);
                        }
                    }
                    assert forall|n: int| 0 <= n < oc implies #[trigger] self.live(n) == s0.live(n) by {
                        assert(a.live(n) == s0.live(n));
                    }
                    assert forall|n: int| 0 <= n < oc implies #[trigger] self.lvl_of(n) == s0.lvl_of(n) by {
                        assert(a.lvl_of(n) == s0.lvl_of(n));
                    }
                    assert forall|n: int| 0 <= n < oc implies #[trigger] self.key_of(n) == s0.key_of(n) by {
                        assert(a.key_of(n) == s0.key_of(n));
                    }
                    assert forall|n: int| 0 <= n < oc implies #[trigger] self.val_of(n) == s0.val_of(n) by {
                        assert(a.val_of(n) == s0.val_of(n));
                    }
                    if l > 0 {
                        assert(self.chain(0) == a.chain(0));
                    }
                    if l == 0 {
                        assert(self.chain(0) == s0.chain(0).insert(p + 1, x));
                    }
                }
                up = Some(x);
            }
            if l == 0 {
                proof {
                    let x = up->0;
                    if p + 1 < s0.chain(0).len() {
                        lemma_not_lt::<K>(s0.key_of(s0.chain(0)[p + 1] as int), k);
                        lemma_lt_asymmetric::<K>(k, s0.key_of(s0.chain(0)[p + 1] as int));
                    }
                    assert(self.links_ok(None));
                    Self::lemma_entries_insert(s0, *self, p, x, k, value);
                    self.lemma_new_tower(s0, k, level as int);
                }
                return level;
            }
            proof {
                if p >= 0 {
                    let c = self.chain(l as int)[p];
                    self.lemma_members(l as int);
                    assert(self.live(c as int));
                    assert(up != Some(c));
                    assert(self.down_ok(c as int));
                }
            }
            let (d, gq) = self.down_from(l, cur, Ghost(p));
            cur = d;
            proof {
                p = gq@;
                if p >= 0 {
                    self.lemma_members(l - 1);
                    assert(self.level_ok(l - 1));
                }
            }
            l = l - 1;
            proof {
                assert forall|n: int| oc <= n < self.count() implies #[trigger] self.key_of(n) == k && self.val_of(n)
                    == value && l < self.lvl_of(n) < level && self.live(n) by {
                    if l + 1 >= level {
                        assert(self.count() == oc);
                    } else {
                        assert(self.key_of(n) == k);
                        assert(self.val_of(n) == value);
                        assert(l < self.lvl_of(n) < level);
                        assert(self.live(n));
                    }
                }
            }
        }
    }

    /// Binds `key` to `value`: a key already there takes the new value on
    /// every level it is on; a new key goes in on the levels below a height
    /// drawn at random, or on every level when the list is empty.
    pub fn insert_or_update(&mut self, key: K, value: V)
        requires
            old(self).wf(),
        ensures
            final(self).wf(),
            final(self).entries() == upsert::<K, V>(old(self).entries(), key@, value),
            final(self).levels_spec() == old(self).levels_spec(),
            old(self).entries().len() == 0 ==> forall|j: int|
                0 <= j < old(self).levels_spec() ==> #[trigger] final(self).on_level(j, key@),
            lookup::<K, V>(old(self).entries(), key@) is None ==> exists|h: int|
                1 <= h <= old(self).levels_spec() && #[trigger] final(self).tower_is(key@, h),
    {
        let level = self.put(key, value);
        assert(lookup::<K, V>(old(self).entries(), key@) is None ==> self.tower_is(key@, level as int));
    }

    /// Adds `key` with `value` and returns the height of its tower: a new
    /// key is linked on the levels below that height, which is drawn at
    /// random, or is every level when the list is empty. A key already there
    /// takes the new value on every level it is on; the list never holds a
    /// key twice.
    pub fn insert(&mut self, key: K, value: V) -> (level: usize)
        requires
            old(self).wf(),
        ensures
            final(self).wf(),
            final(self).entries() == upsert::<K, V>(old(self).entries(), key@, value),
            final(self).levels_spec() == old(self).levels_spec(),
            1 <= level <= old(self).levels_spec(),
            old(self).entries().len() == 0 ==> level == old(self).levels_spec(),
            lookup::<K, V>(old(self).entries(), key@) is None ==> final(self).tower_is(key@, level as int),
    {
        self.put(key, value)
    }

    /// Unlinks the node after position `p` (-1: the first) of level `l`,
    /// when no linked node of the level above holds its key.
    fn unlink_after(&mut self, l: usize, cur: Option<usize>, Ghost(p): Ghost<int>)
        requires
            old(self).structure(),
            old(self).links_ok(None),
            l < old(self).height(),
            -1 <= p,
            p + 1 < old(self).chain(l as int).len(),
            cur == node_at(old(self).chain(l as int), p),
            forall|n: int|
                old(self).live(n) && old(self).lvl_of(n) == l + 1 ==> #[trigger] old(self).key_of(n) != old(
                    self,
                ).key_of(old(self).chain(l as int)[p + 1] as int),
        ensures
            final(self).structure(),
            final(self).links_ok(None),
            final(self).count() == old(self).count(),
            final(self).chain(l as int) == old(self).chain(l as int).remove(p + 1),
            forall|m: int| 0 <= m < final(self).height() && m != l ==> #[trigger] final(self).chain(m) == old(self).chain(m),
            forall|n: int| 0 <= n < old(self).count() ==> #[trigger] final(self).key_of(n) == old(self).key_of(n),
            forall|n: int| 0 <= n < old(self).count() ==> #[trigger] final(self).val_of(n) == old(self).val_of(n),
            forall|n: int| 0 <= n < old(self).count() ==> #[trigger] final(self).lvl_of(n) == old(self).lvl_of(n),
            final(self).max_level == old(self).max_level,
    {
        let ghost a = *self;
        let ghost c = self.chain(l as int);
        proof {
            assert(a.level_ok(l as int));
        }
        let t = match self.next_from(l, cur, Ghost(p)) {
            Some(t) => t,
            None => {
                proof {
                    assert(false);
                }
                return;
            },
        };
        proof {
            assert(t == c[p + 1]);
            assert(t < a.count());
        }
        let after = self.nodes[t].next;
        self.chains = Ghost(a.chains@.update(l as int, c.remove(p + 1)));
        let ghost a1 = *self;
        proof {
            assert forall|n: int| 0 <= n < a.count() implies #[trigger] a1.key_of(n) == a.key_of(n) && a1.val_of(n)
                == a.val_of(n) && a1.next_of(n) == a.next_of(n) && a1.down_of(n) == a.down_of(n) by {}
        }
        match cur {
            None => {
                self.set_head(l, after);
            },
            Some(n) => {
                self.set_next(n, after);
            },
        }
        proof {
            assert forall|n: int| 0 <= n < a.count() implies #[trigger] self.key_of(n) == a.key_of(n) by {
                assert(a1.key_of(n) == a.key_of(n));
            }
            assert forall|n: int| 0 <= n < a.count() implies #[trigger] self.val_of(n) == a.val_of(n) by {
                assert(a1.val_of(n) == a.val_of(n));
            }
            assert forall|n: int| 0 <= n < a.count() implies #[trigger] self.down_of(n) == a.down_of(n) by {
                assert(a1.down_of(n) == a.down_of(n));
            }
            assert forall|n: int| 0 <= n < a.count() implies #[trigger] self.next_of(n) == (if p >= 0 && n == c[p] {
                a.next_of(c[p + 1] as int)
            } else {
                a.next_of(n)
            }) by {
                assert(a1.next_of(n) == a.next_of(n));
            }
        }
        proof {
            assert(after == a.next_of(t as int));
            if p >= 0 {
                assert(c[p] < a.count());
            }
            Self::lemma_unsplice(a, *self, l as int, p);
        }
    }

    /// Removes `key`, if it is there: the walk goes down the levels, and on
    /// each level unlinks the node of `key` where it finds one.
    pub fn delete(&mut self, key: K)
        requires
            old(self).wf(),
        ensures
            final(self).wf(),
            final(self).entries() == remove_key::<K, V>(old(self).entries(), key@),
            final(self).levels_spec() == old(self).levels_spec(),
    {
        let ghost s0 = *self;
        let ghost k = key@;
        let mut l: usize = self.max_level;
        let mut cur: Option<usize> = None;
        let ghost mut p: int = -1;
        loop
            invariant
                s0.wf(),
                s0 == *old(self),
                k == key@,
                self.wf(),
                self.max_level == s0.max_level,
                self.count() == s0.count(),
                forall|n: int| 0 <= n < s0.count() ==> #[trigger] self.key_of(n) == s0.key_of(n),
                forall|n: int| 0 <= n < s0.count() ==> #[trigger] self.val_of(n) == s0.val_of(n),
                l < self.height(),
                -1 <= p < self.chain(l as int).len(),
                cur == node_at(self.chain(l as int), p),
                p >= 0 ==> K::key_lt(self.key_of(self.chain(l as int)[p] as int), k),
                self.chain(0) == s0.chain(0),
                forall|n: int| self.live(n) && self.lvl_of(n) > l ==> #[trigger] self.key_of(n) != k,
            decreases l,
        {
            let (c1, gp) = self.walk_level(l, cur, &key, Ghost(p));
            cur = c1;
            proof {
                p = gp@;
            }
            let ghost ch = self.chain(l as int);
            let ghost a = *self;
            proof {
                assert(self.level_ok(l as int));
            }
            let mut found = false;
            if let Some(n) = self.next_from(l, cur, Ghost(p)) {
                proof {
                    assert(ch[p + 1] == n);
                }
                let next_key = self.nodes[n].key;
                if next_key.compare(&key) == KeyOrder::Equal {
                    proof {
                        assert(self.key_of(n as int) == k);
                    }
                    self.unlink_after(l, cur, Ghost(p));
                    found = true;
                    if l == 0 {
                        proof {
                            Self::lemma_entries_remove(s0, *self, p, k);
                        }
                        return;
                    }
                } else {
                    proof {
                        assert(self.key_of(n as int) == next_key@);
                    }
                }
            }
            proof {
                let c = self.chain(l as int);
                assert(self.level_ok(l as int));
                assert forall|n: int| self.live(n) && self.lvl_of(n) == l + 1 implies #[trigger] self.key_of(n) != k by {
                    assert(a.live(n));
                }
                // the node after position `p` is now past `key`
                if p + 1 < c.len() {
                    if found {
                        assert(c[p + 1] == ch[p + 2]);
                        assert(K::key_lt(a.key_of(ch[p + 1] as int), a.key_of(ch[p + 2] as int)));
                        assert(a.key_of(ch[p + 1] as int) == k);
                    } else {
                        assert(c[p + 1] == ch[p + 1]);
                        lemma_not_lt::<K>(a.key_of(ch[p + 1] as int), k);
                    }
                    assert(K::key_lt(k, self.key_of(c[p + 1] as int)));
                }
                if p >= 0 {
                    if found {
                        assert(c[p] == ch[p]);
                    }
                }
                assert forall|n: int| self.live(n) && self.lvl_of(n) > l as int - 1 implies #[trigger] self.key_of(n)
                    != k by {
                    if self.lvl_of(n) == l {
                        let q = self.lemma_position(n);
                        if q < p {
                            assert(K::key_lt(self.key_of(c[q] as int), self.key_of(c[p] as int)));
                            K::lemma_lt_transitive(self.key_of(n), self.key_of(c[p] as int), k);
                            lemma_lt_asymmetric::<K>(self.key_of(n), k);
                        } else if q == p {
                            lemma_lt_asymmetric::<K>(self.key_of(n), k);
                        } else {
                            if q > p + 1 {
                                assert(K::key_lt(self.key_of(c[p + 1] as int), self.key_of(c[q] as int)));
                                K::lemma_lt_transitive(k, self.key_of(c[p + 1] as int), self.key_of(n));
                            }
                            lemma_lt_asymmetric::<K>(k, self.key_of(n));
                        }
                    } else {
                        if !(a.live(n) && a.lvl_of(n) > l) {
                            assert(self.live(n) && self.lvl_of(n) > l);
                        }
                    }
                }
            }
            if l == 0 {
                proof {
                    let c = self.chain(0);
                    assert(!found);
                    if p + 1 < c.len() {
                        assert(c[p + 1] == ch[p + 1]);
                        lemma_not_lt::<K>(self.key_of(c[p + 1] as int), k);
                    }
                    s0.lemma_bottom(p, k);
                    s0.lemma_entries_sorted();
                    self.lemma_entries_sorted();
                    assert(s0.level_ok(0));
                    if p + 1 < c.len() {
                        s0.lemma_members(0);
                        assert(self.live(c[p + 1] as int));
                        assert(s0.entries()[p + 1].0 != k);
                    }
                    assert forall|i: int| 0 <= i < c.len() implies #[trigger] self.entries()[i] == s0.entries()[i] by {
                        assert(c[i] < s0.count());
                        assert(self.key_of(c[i] as int) == s0.key_of(c[i] as int));
                        assert(self.val_of(c[i] as int) == s0.val_of(c[i] as int));
                    }
                    assert(self.entries() =~= s0.entries());
                }
                return;
            }
            proof {
                if p >= 0 {
                    let c = self.chain(l as int);
                    self.lemma_members(l as int);
                    assert(self.live(c[p] as int));
                    assert(self.down_ok(c[p] as int));
                }
            }
            let (d, gq) = self.down_from(l, cur, Ghost(p));
            cur = d;
            proof {
                p = gq@;
            }
            l = l - 1;
        }
    }
}

} // verus!
