//! A FIFO queue in the shape of the Michael-Scott queue: a linked list that
//! starts at an empty sentinel node; `push` links after the tail, `pop` moves
//! the head to the next node and takes its item, making it the new sentinel.
//! Nodes live in an arena and link by index.
use vstd::prelude::*;

verus! {

pub struct Node<T> {
    item: Option<T>,
    next: Option<usize>,
}

impl<T> Node<T> {
    pub closed spec fn item_of(&self) -> Option<T> {
        self.item
    }

    pub closed spec fn next_of(&self) -> Option<usize> {
        self.next
    }

    pub fn new_empty() -> (r: Self)
        ensures
            r.item_of() is None,
            r.next_of() is None,
    {
        Self { item: None, next: None }
    }

    pub fn new(data: T) -> (r: Self)
        ensures
            r.item_of() == Some(data),
            r.next_of() is None,
    {
        Self { item: Some(data), next: None }
    }
}

pub struct Queue<T> {
    len: usize,
    head: usize,
    tail: usize,
    nodes: Vec<Node<T>>,
    /// The nodes from the head (the sentinel) to the tail, in link order.
    chain: Ghost<Seq<usize>>,
}

impl<T> Queue<T> {
    /// The node indices from the sentinel to the tail.
    pub closed spec fn node_chain(&self) -> Seq<usize> {
        self.chain@
    }

    /// The items in the queue, oldest first.
    pub closed spec fn items(&self) -> Seq<T> {
        self.chain@.skip(1).map_values(|n: usize| self.nodes@[n as int].item->0)
    }

    pub closed spec fn inv(&self) -> bool {
        let c = self.chain@;
        &&& c.len() >= 1
        &&& c[0] == self.head
        &&& c.last() == self.tail
        &&& forall|p: int| 0 <= p < c.len() ==> #[trigger] c[p] < self.nodes@.len()
        &&& forall|p: int, q: int| 0 <= p < q < c.len() ==> #[trigger] c[p] != #[trigger] c[q]
        &&& forall|p: int| 0 <= p < c.len() - 1 ==> #[trigger] self.nodes@[c[p] as int].next == Some(c[p + 1])
        &&& self.nodes@[self.tail as int].next is None
        &&& forall|p: int| 1 <= p < c.len() ==> (#[trigger] self.nodes@[c[p] as int]).item is Some
        &&& self.len == c.len() - 1
        &&& self.len < self.nodes@.len()
    }

    pub fn new() -> (q: Self)
        ensures
            q.inv(),
            q.items() == Seq::<T>::empty(),
    {
        let mut nodes: Vec<Node<T>> = Vec::new();
        nodes.push(Node::new_empty());
        let ghost first: Seq<usize> = seq![0usize];
        let q = Queue { len: 0, head: 0, tail: 0, nodes, chain: Ghost(first) };
        assert(q.items() =~= Seq::<T>::empty());
        q
    }

    /// Number of items.
    pub fn size(&self) -> (n: usize)
        requires
            self.inv(),
        ensures
            n == self.items().len(),
    {
        self.len
    }

    pub fn is_empty(&self) -> (b: bool)
        requires
            self.inv(),
        ensures
            b == (self.items().len() == 0),
    {
        0 == self.len
    }

    /// Append an item at the tail.
    pub fn push(&mut self, data: T)
        requires
            old(self).inv(),
        ensures
            final(self).inv(),
            final(self).items() == old(self).items().push(data),
    {
        let ghost c = self.chain@;
        let ghost q0 = self.items();
        let n = self.nodes.len();
        self.nodes.push(Node::new(data));
        let tail = self.tail;
        self.nodes[tail].next = Some(n);
        self.tail = n;
        self.len = self.len + 1;
        self.chain = Ghost(c.push(n));
        proof {
            let c1 = self.chain@;
            assert forall|p: int| 0 <= p < c.len() implies c[p] != n by {}
            assert forall|p: int| 0 <= p < c1.len() - 1 implies #[trigger] self.nodes@[c1[p] as int].next == Some(c1[p + 1]) by {
                if p < c.len() - 1 {
                    assert(c1[p] == c[p]);
                    assert(c[p] != tail);
                }
            }
            assert forall|p: int| 1 <= p < c1.len() implies (#[trigger] self.nodes@[c1[p] as int]).item is Some by {
                if p < c.len() {
                    assert(c1[p] == c[p]);
                }
            }
            assert(self.items() =~= q0.push(data));
        }
    }

    /// Take the item at the head, if any.
    pub fn pop(&mut self) -> (r: Option<T>)
        requires
            old(self).inv(),
        ensures
            final(self).inv(),
            old(self).items().len() == 0 ==> r is None && final(self).items() == old(self).items(),
            old(self).items().len() > 0 ==> r == Some(old(self).items()[0])
                && final(self).items() == old(self).items().drop_first(),
    {
        let mut data: Option<T> = None;
        if self.is_empty() {
            return data;
        }
        let ghost c = self.chain@;
        let ghost q0 = self.items();
        let head = self.head;
        let next = self.nodes[head].next;
        match next {
            None => {
                return None;
            },
            Some(nx) => {
                self.head = nx;
                std::mem::swap(&mut self.nodes[nx].item, &mut data);
                self.len = self.len - 1;
                self.chain = Ghost(c.drop_first());
                proof {
                    let c1 = self.chain@;
                    assert(nx == c[1]);
                    assert forall|p: int| 0 <= p < c1.len() - 1 implies #[trigger] self.nodes@[c1[p] as int].next == Some(c1[p + 1]) by {
                        assert(c1[p] == c[p + 1]);
                    }
                    assert forall|p: int| 1 <= p < c1.len() implies (#[trigger] self.nodes@[c1[p] as int]).item is Some by {
                        assert(c1[p] == c[p + 1]);
                        assert(c[p + 1] != c[1]);
                    }
                    assert forall|p: int, q: int| 0 <= p < q < c1.len() implies #[trigger] c1[p] != #[trigger] c1[q] by {
                        assert(c1[p] == c[p + 1] && c1[q] == c[q + 1]);
                    }
                    assert forall|p: int| 1 <= p < c1.len() implies self.nodes@[c1[p] as int].item == old(self).nodes@[c1[p] as int].item by {
                        assert(c1[p] == c[p + 1]);
                        assert(c[p + 1] != c[1]);
                    }
                    assert(self.items() =~= q0.drop_first());
                }
            },
        }
        data
    }

    /// The node indices from the sentinel to the tail, found by following the
    /// links.
    pub fn walk_nodes(&self) -> (r: Vec<usize>)
        requires
            self.inv(),
        ensures
            r@ == self.node_chain(),
            r@.len() == self.items().len() + 1,
    {
        let ghost c = self.chain@;
        let mut r: Vec<usize> = Vec::new();
        let mut start = Some(self.head);
        let ghost mut p: int = 0;
        while start.is_some()
            invariant
                self.inv(),
                c == self.chain@,
                0 <= p <= c.len(),
                p < c.len() ==> start == Some(c[p]),
                p == c.len() ==> start is None,
                r@ == c.subrange(0, p),
            decreases c.len() - p,
        {
            let n = start.unwrap();
            r.push(n);
            start = self.nodes[n].next;
            proof {
                assert(r@ =~= c.subrange(0, p + 1));
                p = p + 1;
            }
        }
        assert(r@ =~= c);
        r
    }
}

impl<T> Default for Queue<T> {
    fn default() -> (q: Self)
        ensures
            q.inv(),
            q.items() == Seq::<T>::empty(),
    {
        Self::new()
    }
}

} // verus!
