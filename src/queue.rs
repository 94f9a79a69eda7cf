use vstd::prelude::*;

verus! {

/// What a removal does to the contents `s`, and what it returns: the oldest
/// value leaves and is returned; on empty contents nothing changes and
/// nothing is returned.
pub open spec fn removed<T>(s: Seq<T>) -> (Seq<T>, Option<T>) {
    if s.len() == 0 {
        (s, None)
    } else {
        (s.drop_first(), Some(s[0]))
    }
}

/// One link of the chain: an optional payload and the slot of its successor.
/// The successor is written once, when the producer links the next node.
struct Node<T> {
    next: Option<usize>,
    value: Option<T>,
}

/// A queue handing values from one producer to one consumer in FIFO order.
///
/// The nodes live in slots of an arena. The chain starts at the consumption
/// point `tail` (the payload-free sentinel) and runs through successor links
/// to the insertion point `head`. A slot that the consumer has released goes
/// to the free list, from which the producer takes it again before it grows
/// the arena. Every slot is owned by exactly one of the two: the chain or the
/// free list.
pub struct Queue<T> {
    nodes: Vec<Node<T>>,
    head: usize,
    tail: usize,
    free: Vec<usize>,
    chain: Ghost<Seq<usize>>,
}

impl<T> View for Queue<T> {
    type V = Seq<T>;

    /// The values waiting in the queue, oldest first: the payloads of the
    /// nodes after the sentinel.
    closed spec fn view(&self) -> Seq<T> {
        self.chain@.drop_first().map_values(|k: usize| self.nodes@[k as int].value->0)
    }
}

impl<T> Queue<T> {
    /// The chain is linked from the sentinel to the insertion point, holds a
    /// payload in each node but the sentinel, and shares no slot with the
    /// free list; together they own every slot of the arena.
    pub closed spec fn wf(&self) -> bool {
        let c = self.chain@;
        let n = self.nodes@;
        let f = self.free@;
        &&& c.len() >= 1
        &&& c[0] == self.tail
        &&& c.last() == self.head
        &&& forall|i: int| 0 <= i < c.len() ==> c[i] < n.len()
        &&& forall|i: int, j: int| 0 <= i < j < c.len() ==> c[i] != c[j]
        &&& forall|i: int| 0 <= i < c.len() - 1 ==> n[c[i] as int].next == Some(c[i + 1])
        &&& n[self.head as int].next is None
        &&& n[self.tail as int].value is None
        &&& forall|i: int| 1 <= i < c.len() ==> n[c[i] as int].value is Some
        &&& forall|j: int|
            0 <= j < f.len() ==> f[j] < n.len() && n[f[j] as int].value is None && !c.contains(
                f[j],
            )
        &&& forall|j: int, k: int| 0 <= j < k < f.len() ==> f[j] != f[k]
        &&& forall|k: usize| k < n.len() ==> c.contains(k) || f.contains(k)
    }

    /// Creates an empty queue: a lone sentinel at both cursors.
    pub fn new() -> (q: Queue<T>)
        ensures
            q.wf(),
            q@ == Seq::<T>::empty(),
    {
        let mut nodes: Vec<Node<T>> = Vec::new();
        nodes.push(Node { next: None, value: None });
        let ghost c: Seq<usize> = seq![0usize];
        let q = Queue { nodes, head: 0, tail: 0, free: Vec::new(), chain: Ghost(c) };
        assert(c[0] == 0usize);
        assert(q@ =~= Seq::<T>::empty());
        q
    }

    /// Appends `t` at the insertion point. The new node takes a released
    /// slot if there is one and a fresh slot otherwise. It is first published
    /// as the insertion point and then linked from its predecessor.
    pub fn push(&mut self, t: T)
        requires
            old(self).wf(),
        ensures
            final(self).wf(),
            final(self)@ == old(self)@.push(t),
    {
        let ghost c = self.chain@;
        let ghost f = self.free@;
        let node = Node { next: None, value: Some(t) };
        let n: usize = match self.free.pop() {
            Some(k) => {
                assert(f[f.len() - 1] == k);
                self.nodes.set(k, node);
                k
            },
            None => {
                self.nodes.push(node);
                self.nodes.len() - 1
            },
        };
        assert(!c.contains(n));
        let prev = self.head;
        self.head = n;
        self.nodes[prev].next = Some(n);
        self.chain = Ghost(c.push(n));
        proof {
            let c2 = self.chain@;
            let f2 = self.free@;
            let nd = self.nodes@;
            assert forall|i: int| 0 <= i < c2.len() - 1 implies nd[c2[i] as int].next == Some(
                c2[i + 1],
            ) by {
                if i < c.len() - 1 {
                    assert(c[i] != prev);
                }
            }
            assert forall|j: int| 0 <= j < f2.len() implies f2[j] < nd.len() && nd[f2[j] as int].value is None
                && !c2.contains(f2[j]) by {
                assert(f2[j] == f[j]);
                assert(f[j] != n);
                if c2.contains(f2[j]) {
                    let i = choose|i: int| 0 <= i < c2.len() && c2[i] == f2[j];
                    assert(i < c.len());
                    assert(c.contains(f[j]));
                }
            }
            assert forall|k: usize| k < nd.len() implies c2.contains(k) || f2.contains(k) by {
                if k == n {
                    assert(c2[c2.len() - 1] == n);
                } else if c.contains(k) {
                    let i = choose|i: int| 0 <= i < c.len() && c[i] == k;
                    assert(c2[i] == k);
                } else {
                    let j = choose|j: int| 0 <= j < f.len() && f[j] == k;
                    assert(f2[j] == k);
                }
            }
            assert(self@ =~= old(self)@.push(t));
        }
    }

    /// Removes the oldest value, or returns `None` at once when the queue is
    /// empty. The successor of the sentinel becomes the new sentinel: its
    /// payload is moved out and returned, and the old sentinel's slot is
    /// released.
    pub fn pop(&mut self) -> (r: Option<T>)
        requires
            old(self).wf(),
        ensures
            final(self).wf(),
            (final(self)@, r) == removed(old(self)@),
            old(self)@.len() == 0 ==> r is None && final(self)@ == old(self)@,
            old(self)@.len() > 0 ==> r == Some(old(self)@[0]) && final(self)@ == old(
                self,
            )@.drop_first(),
    {
        let ghost c = self.chain@;
        let ghost f = self.free@;
        let ghost nd = self.nodes@;
        let tail = self.tail;
        match self.nodes[tail].next {
            None => {
                assert(c.len() == 1);
                None
            },
            Some(next) => {
                assert(c.len() > 1);
                assert(next == c[1]);
                assert(nd[tail as int].value is None);
                assert(nd[next as int].value is Some);
                self.tail = next;
                let taken = self.nodes[next].value.take();
                self.nodes.set(tail, Node { next: None, value: None });
                self.free.push(tail);
                self.chain = Ghost(c.drop_first());
                proof {
                    let c2 = self.chain@;
                    let f2 = self.free@;
                    let nd2 = self.nodes@;
                    assert forall|i: int| 0 <= i < c2.len() implies nd2[c2[i] as int].next
                        == nd[c2[i] as int].next && (i > 0 ==> nd2[c2[i] as int].value
                        == nd[c2[i] as int].value) by {
                        assert(c2[i] == c[i + 1]);
                        assert(c[i + 1] != c[0]);
                        if i > 0 {
                            assert(c[i + 1] != c[1]);
                        }
                    }
                    assert forall|j: int| 0 <= j < f2.len() implies f2[j] < nd2.len()
                        && nd2[f2[j] as int].value is None && !c2.contains(f2[j]) by {
                        if j < f.len() {
                            assert(f2[j] == f[j]);
                            assert(f[j] != tail) by {
                                assert(c[0] == tail);
                            }
                            if c2.contains(f2[j]) {
                                let i = choose|i: int| 0 <= i < c2.len() && c2[i] == f2[j];
                                assert(c[i + 1] == f[j]);
                                assert(c.contains(f[j]));
                            }
                        } else {
                            assert(f2[j] == tail);
                            if c2.contains(tail) {
                                let i = choose|i: int| 0 <= i < c2.len() && c2[i] == tail;
                                assert(c[i + 1] == c[0]);
                            }
                        }
                    }
                    assert forall|j: int, k: int| 0 <= j < k < f2.len() implies f2[j] != f2[k] by {
                        if k == f.len() {
                            assert(f2[j] == f[j]);
                            assert(c[0] == tail);
                        }
                    }
                    assert forall|k: usize| k < nd2.len() implies c2.contains(k) || f2.contains(
                        k,
                    ) by {
                        if k == tail {
                            assert(f2[f.len() as int] == k);
                        } else if c.contains(k) {
                            let i = choose|i: int| 0 <= i < c.len() && c[i] == k;
                            assert(i > 0);
                            assert(c2[i - 1] == k);
                        } else {
                            let j = choose|j: int| 0 <= j < f.len() && f[j] == k;
                            assert(f2[j] == k);
                        }
                    }
                    assert(self@ =~= old(self)@.drop_first());
                }
                Some(taken.unwrap())
            },
        }
    }
}

} // verus!
