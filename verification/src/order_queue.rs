//! The FIFO of one price level, linked through the pool's nodes.
use vstd::prelude::*;

use crate::order_pool::{Node, OrderPool};

verus! {

/// A FIFO of pool slots linked through the nodes' `prev`/`next` fields.
#[derive(Clone, Copy)]
pub struct OrderQueue {
    pub head: Option<usize>,
    pub tail: Option<usize>,
    /// The slots in the queue, front first.
    pub members: Ghost<Seq<usize>>,
}

/// The link that the node at position `k` of `s` carries forward.
pub open spec fn next_of(s: Seq<usize>, k: int) -> Option<usize> {
    if k + 1 < s.len() {
        Some(s[k + 1])
    } else {
        None
    }
}

/// The link that the node at position `k` of `s` carries backward.
pub open spec fn prev_of(s: Seq<usize>, k: int) -> Option<usize> {
    if k > 0 {
        Some(s[k - 1])
    } else {
        None
    }
}

impl OrderQueue {
    /// The slots of the queue, front first.
    pub open spec fn seq(&self) -> Seq<usize> {
        self.members@
    }

    /// The queue is a well-formed doubly linked list over `nodes`.
    pub open spec fn wf_in(&self, nodes: Seq<Node>) -> bool {
        let s = self.members@;
        &&& s.no_duplicates()
        &&& forall|k: int| 0 <= k < s.len() ==> #[trigger] s[k] < nodes.len()
        &&& self.head == (if s.len() == 0 { None } else { Some(s[0]) })
        &&& self.tail == (if s.len() == 0 { None } else { Some(s.last()) })
        &&& forall|k: int|
            0 <= k < s.len() ==> (#[trigger] nodes[s[k] as int]).next == next_of(s, k) && nodes[s[k] as int].prev
                == prev_of(s, k)
    }

    /// An empty queue.
    pub fn new() -> (q: Self)
        ensures
            q.head is None,
            q.tail is None,
            q.members@ == Seq::<usize>::empty(),
    {
        Self { head: None, tail: None, members: Ghost(Seq::empty()) }
    }

    /// Appends slot `node_index` at the back.
    pub fn push_back(&mut self, pool: &mut OrderPool, node_index: usize)
        requires
            old(self).wf_in(old(pool).nodes@),
            node_index < old(pool).nodes@.len(),
            !old(self).members@.contains(node_index),
        ensures
            final(self).members@ == old(self).members@.push(node_index),
            final(self).wf_in(final(pool).nodes@),
            final(pool).free_list@ == old(pool).free_list@,
            final(pool).nodes@.len() == old(pool).nodes@.len(),
            forall|j: int| 0 <= j < old(pool).nodes@.len() ==> #[trigger] final(pool).nodes@[j].order
                == old(pool).nodes@[j].order,
            forall|j: int|
                0 <= j < old(pool).nodes@.len() && j != node_index && Some(j as usize) != old(self).tail
                    ==> #[trigger] final(pool).nodes@[j] == old(pool).nodes@[j],
    {
        let ghost s = self.members@;
        match self.tail {
            Some(tail) => {
                pool.nodes[tail].next = Some(node_index);
                pool.nodes[node_index].prev = Some(tail);
                pool.nodes[node_index].next = None;
                self.tail = Some(node_index);
            },
            None => {
                self.tail = Some(node_index);
                self.head = Some(node_index);
                pool.nodes[node_index].next = None;
                pool.nodes[node_index].prev = None;
            },
        }
        self.members = Ghost(s.push(node_index));
        proof {
            let t = s.push(node_index);
            let nodes = pool.nodes@;
            assert forall|k: int| 0 <= k < t.len() implies (#[trigger] nodes[t[k] as int]).next == next_of(t, k)
                && nodes[t[k] as int].prev == prev_of(t, k) by {
                if k < s.len() {
                    assert(t[k] == s[k]);
                    assert(s[k] != node_index);
                }
            }
            assert forall|i: int, j: int| 0 <= i < t.len() && 0 <= j < t.len() && i != j implies t[i] != t[j] by {
                if i == s.len() {
                    assert(s[j] == t[j]);
                } else if j == s.len() {
                    assert(s[i] == t[i]);
                }
            }
        }
    }

    /// Removes slot `node_index` from the queue and clears its links.
    pub fn unlink(&mut self, pool: &mut OrderPool, node_index: usize)
        requires
            old(self).wf_in(old(pool).nodes@),
            old(self).members@.contains(node_index),
        ensures
            ({
                let s = old(self).members@;
                let k = s.index_of(node_index);
                &&& final(self).members@ == s.remove(k)
                &&& forall|j: int|
                    0 <= j < old(pool).nodes@.len() && j != node_index && Some(j as usize) != prev_of(s, k)
                        && Some(j as usize) != next_of(s, k) ==> #[trigger] final(pool).nodes@[j]
                        == old(pool).nodes@[j]
            }),
            final(self).wf_in(final(pool).nodes@),
            final(pool).free_list@ == old(pool).free_list@,
            final(pool).nodes@.len() == old(pool).nodes@.len(),
            forall|j: int| 0 <= j < old(pool).nodes@.len() ==> #[trigger] final(pool).nodes@[j].order
                == old(pool).nodes@[j].order,
            final(pool).nodes@[node_index as int].next is None,
            final(pool).nodes@[node_index as int].prev is None,
    {
        let ghost s = self.members@;
        let ghost k = s.index_of(node_index);
        proof {
            assert(0 <= k < s.len() && s[k] == node_index);
        }
        let prev = pool.nodes[node_index].prev;
        let next = pool.nodes[node_index].next;

        if let Some(p) = prev {
            pool.nodes[p].next = next;
        } else {
            self.head = next;
        }

        if let Some(n) = next {
            pool.nodes[n].prev = prev;
        } else {
            self.tail = prev;
        }

        pool.nodes[node_index].prev = None;
        pool.nodes[node_index].next = None;
        self.members = Ghost(s.remove(k));
        proof {
            let t = s.remove(k);
            let nodes = pool.nodes@;
            s.remove_ensures(k);
            assert forall|a: int| 0 <= a < t.len() implies (#[trigger] nodes[t[a] as int]).next == next_of(t, a)
                && nodes[t[a] as int].prev == prev_of(t, a) by {
                if a < k {
                    assert(t[a] == s[a]);
                } else {
                    assert(t[a] == s[a + 1]);
                }
                assert(t[a] != node_index);
            }
            assert forall|i: int, j: int| 0 <= i < t.len() && 0 <= j < t.len() && i != j implies t[i] != t[j] by {
                let i2 = if i < k { i } else { i + 1 };
                let j2 = if j < k { j } else { j + 1 };
                assert(t[i] == s[i2]);
                assert(t[j] == s[j2]);
            }
            assert forall|a: int| 0 <= a < t.len() implies #[trigger] t[a] < nodes.len() by {
                if a < k {
                    assert(t[a] == s[a]);
                } else {
                    assert(t[a] == s[a + 1]);
                }
            }
        }
    }
}

} // verus!
