//! The arena of order nodes with a stack of free slots.
use vstd::prelude::*;

use crate::order::Order;

verus! {

/// A slot of the pool: an order and its neighbours in a price-level queue.
#[derive(Clone, Copy, Debug)]
pub struct Node {
    pub order: Order,
    pub next: Option<usize>,
    pub prev: Option<usize>,
}

/// An arena of nodes with a stack of free slots.
pub struct OrderPool {
    pub nodes: Vec<Node>,
    pub free_list: Vec<usize>,
}

impl OrderPool {
    /// Every free slot lies inside the arena and is listed once.
    pub open spec fn wf(&self) -> bool {
        &&& self.free_list@.no_duplicates()
        &&& forall|k: int| 0 <= k < self.free_list@.len() ==> #[trigger] self.free_list@[k] < self.nodes@.len()
    }

    /// An empty pool.
    pub fn new(capacity: usize) -> (pool: Self)
        ensures
            pool.nodes@ == Seq::<Node>::empty(),
            pool.free_list@ == Seq::<usize>::empty(),
            pool.wf(),
    {
        Self { nodes: Vec::with_capacity(capacity), free_list: Vec::with_capacity(capacity) }
    }

    /// Stores `order` in a fresh node (no neighbours) and returns its slot: the
    /// most recently freed slot when there is one, else a new slot at the end.
    pub fn allocate(&mut self, order: Order) -> (index: usize)
        requires
            old(self).wf(),
        ensures
            ({
                let fresh = Node { order, next: None, prev: None };
                let free = old(self).free_list@;
                if free.len() > 0 {
                    &&& index == free.last()
                    &&& final(self).free_list@ == free.drop_last()
                    &&& final(self).nodes@ == old(self).nodes@.update(index as int, fresh)
                } else {
                    &&& index == old(self).nodes@.len()
                    &&& final(self).free_list@ == free
                    &&& final(self).nodes@ == old(self).nodes@.push(fresh)
                }
            }),
            final(self).wf(),
    {
        let new_node = Node { order, next: None, prev: None };
        match self.free_list.pop() {
            Some(index) => {
                proof {
                    assert(old(self).free_list@[old(self).free_list@.len() - 1] == index);
                }
                self.nodes[index] = new_node;
                index
            },
            None => {
                let index = self.nodes.len();
                self.nodes.push(new_node);
                index
            },
        }
    }

    /// Returns slot `index` to the free stack.
    pub fn deallocate(&mut self, index: usize)
        ensures
            final(self).free_list@ == old(self).free_list@.push(index),
            final(self).nodes@ == old(self).nodes@,
            old(self).wf() && index < old(self).nodes@.len() && !old(self).free_list@.contains(index)
                ==> final(self).wf(),
    {
        self.free_list.push(index);
        proof {
            if old(self).wf() && index < old(self).nodes@.len() && !old(self).free_list@.contains(index) {
                let f = self.free_list@;
                assert forall|i: int, j: int| 0 <= i < f.len() && 0 <= j < f.len() && i != j implies f[i] != f[j] by {
                    if i == f.len() - 1 {
                        assert(old(self).free_list@[j] == f[j]);
                    } else if j == f.len() - 1 {
                        assert(old(self).free_list@[i] == f[i]);
                    }
                }
            }
        }
    }
}

} // verus!
