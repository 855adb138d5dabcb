//! A queue of edges that hands out a lightest edge first.

use crate::graph::edge::Edge;
use crate::graph::edge_weighted_graph::pointees;
use std::rc::Rc;
use vstd::multiset::Multiset;
use vstd::prelude::*;

verus! {

/// Edges waiting to be handed out in the order of their weights.
pub struct EdgeQueue {
    edges: Vec<Rc<Edge>>,
}

impl EdgeQueue {
    /// The edges in the queue.
    pub closed spec fn bag(&self) -> Multiset<Edge> {
        pointees(self.edges@).to_multiset()
    }

    /// The number of edges in the queue.
    pub closed spec fn len(&self) -> nat {
        self.edges@.len()
    }

    /// As many edges as the bag holds are in the queue.
    pub proof fn lemma_len(&self)
        ensures
            self.bag().len() == self.len(),
    {
        broadcast use vstd::seq_lib::group_to_multiset_ensures;

    }

    /// An empty queue.
    pub fn new() -> (q: Self)
        ensures
            q.bag() == Multiset::<Edge>::empty(),
            q.len() == 0,
    {
        let q = EdgeQueue { edges: Vec::new() };
        proof {
            broadcast use vstd::seq_lib::group_to_multiset_ensures;

            assert(pointees(q.edges@) =~= Seq::<Edge>::empty());
            assert(q.bag() =~= Multiset::<Edge>::empty());
        }
        q
    }

    /// Whether the queue holds no edge.
    pub fn is_empty(&self) -> (r: bool)
        ensures
            r == (self.len() == 0),
    {
        self.edges.len() == 0
    }

    /// Adds `edge` to the queue.
    pub fn push(&mut self, edge: Rc<Edge>)
        ensures
            final(self).bag() == old(self).bag().insert(*edge),
            final(self).len() == old(self).len() + 1,
    {
        let ghost before = pointees(self.edges@);
        self.edges.push(edge);
        proof {
            assert(pointees(self.edges@) =~= before.push(*edge));
            vstd::seq_lib::to_multiset_build(before, *edge);
        }
    }

    /// Takes an edge out of the queue that no edge in it is lighter than.
    pub fn pop(&mut self) -> (edge: Rc<Edge>)
        requires
            old(self).len() > 0,
        ensures
            old(self).bag().contains(*edge),
            final(self).bag() == old(self).bag().remove(*edge),
            final(self).len() == old(self).len() - 1,
            forall|e: Edge| #[trigger] old(self).bag().contains(e) ==> edge.bits() <= e.bits(),
    {
        let mut best: usize = 0;
        let mut i: usize = 1;
        while i < self.edges.len()
            invariant
                best < i <= self.edges@.len(),
                forall|k: int| 0 <= k < i ==> self.edges@[best as int].bits() <= (
                #[trigger] self.edges@[k]).bits(),
            decreases self.edges@.len() - i,
        {
            if self.edges[i].lighter(&self.edges[best]) {
                best = i;
            }
            i += 1;
        }
        let ghost before = pointees(self.edges@);
        let edge = self.edges.remove(best);
        proof {
            broadcast use vstd::seq_lib::group_to_multiset_ensures;

            assert(pointees(self.edges@) =~= before.remove(best as int));
            vstd::seq_lib::to_multiset_remove(before, best as int);
            assert(before[best as int] == *edge);
            assert(before.contains(*edge));
            assert forall|e: Edge| #[trigger] old(self).bag().contains(e) implies edge.bits()
                <= e.bits() by {
                assert(before.contains(e));
                let k = choose|k: int| 0 <= k < before.len() && before[k] == e;
                assert(old(self).edges@[k].bits() == e.bits());
            }
        }
        edge
    }
}

} // verus!
