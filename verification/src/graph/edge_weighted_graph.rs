//! An undirected graph with weighted edges.

use crate::graph::edge::Edge;
use std::rc::Rc;
use vstd::prelude::*;

verus! {

/// An undirected graph on the vertices `0..v`: for each vertex the edges
/// that end there, in the order in which they were added.
pub struct EdgeWeightedGraph {
    v: usize,
    e: usize,
    adj: Vec<Vec<Rc<Edge>>>,
}

/// Calls `clone` of the standard reference-counted pointer, which hands out
/// a second pointer to the same value.
#[verifier::external_body]
pub(crate) fn share(edge: &Rc<Edge>) -> (r: Rc<Edge>)
    ensures
        *r == **edge,
{
    edge.clone()
}

/// The edges among the first `k` of `list` that lead from `v` to a vertex
/// with a greater number.
pub open spec fn upward(list: Seq<Rc<Edge>>, v: usize, k: int) -> Seq<Edge>
    decreases k,
{
    if k <= 0 {
        Seq::empty()
    } else {
        let e = *list[k - 1];
        if e.far(v) is Some && e.far(v).unwrap() > v {
            upward(list, v, k - 1).push(e)
        } else {
            upward(list, v, k - 1)
        }
    }
}

/// The edges of the first `n` lists that lead upward, list after list.
pub open spec fn all_upward(lists: Seq<Seq<Rc<Edge>>>, n: int) -> Seq<Edge>
    decreases n,
{
    if n <= 0 {
        Seq::empty()
    } else {
        all_upward(lists, n - 1) + upward(lists[n - 1], (n - 1) as usize, lists[n - 1].len() as int)
    }
}

/// The edges that `list` points to.
pub open spec fn pointees(list: Seq<Rc<Edge>>) -> Seq<Edge> {
    Seq::new(list.len(), |i: int| *list[i])
}

impl View for EdgeWeightedGraph {
    type V = Seq<Seq<Rc<Edge>>>;

    /// The lists of edges, one for each vertex.
    closed spec fn view(&self) -> Seq<Seq<Rc<Edge>>> {
        Seq::new(self.adj@.len(), |i: int| self.adj@[i]@)
    }
}

impl EdgeWeightedGraph {
    /// The number of edges, as `e` reports it.
    pub closed spec fn edge_count(&self) -> int {
        self.e as int
    }

    /// There is one list for each vertex, and every edge in the list of a
    /// vertex has that vertex for an end and a vertex for its other end.
    pub closed spec fn wf(&self) -> bool {
        &&& self.v == self.adj@.len()
        &&& forall|x: int, k: int|
            0 <= x < self@.len() && 0 <= k < self@[x].len() ==> (#[trigger] self@[x][k]).far(
                x as usize,
            ) is Some && self@[x][k].far(x as usize).unwrap() < self@.len()
    }

    /// Every edge in the list of a vertex joins it to a vertex.
    pub proof fn lemma_ends(&self, x: int, k: int)
        requires
            self.wf(),
            0 <= x < self@.len(),
            0 <= k < self@[x].len(),
        ensures
            self@[x][k].far(x as usize) is Some,
            self@[x][k].far(x as usize).unwrap() < self@.len(),
    {
    }

    /// A graph with the vertices `0..capacity` and no edge.
    pub fn with_capacity(capacity: usize) -> (g: Self)
        ensures
            g.wf(),
            g@.len() == capacity,
            forall|i: int| 0 <= i < capacity ==> (#[trigger] g@[i]).len() == 0,
            g.edge_count() == 0,
    {
        let mut this = EdgeWeightedGraph { v: capacity, e: 0, adj: Vec::with_capacity(capacity) };
        let mut i: usize = 0;
        while i < capacity
            invariant
                i <= capacity,
                this.v == capacity,
                this.e == 0,
                this.adj@.len() == i,
                forall|k: int| 0 <= k < i ==> (#[trigger] this.adj@[k])@.len() == 0,
            decreases capacity - i,
        {
            this.adj.push(Vec::new());
            i += 1;
        }
        this
    }

    /// The number of vertices.
    pub fn v(&self) -> (n: usize)
        requires
            self.wf(),
        ensures
            n == self@.len(),
    {
        self.v
    }

    /// The number of edges.
    pub fn e(&self) -> (n: usize)
        ensures
            n == self.edge_count(),
    {
        self.e
    }

    /// Adds `edge` to the lists of its two ends.
    pub fn add_edge(&mut self, edge: Edge)
        requires
            old(self).wf(),
            edge.first() < old(self)@.len(),
            edge.second() < old(self)@.len(),
            old(self).edge_count() < usize::MAX,
        ensures
            final(self).wf(),
            final(self)@.len() == old(self)@.len(),
            final(self).edge_count() == old(self).edge_count() + 1,
            forall|x: int|
                0 <= x < old(self)@.len() && x != edge.first() && x != edge.second() ==> (
                #[trigger] final(self)@[x]) == old(self)@[x],
            edge.first() != edge.second() ==> pointees(final(self)@[edge.first() as int])
                == pointees(old(self)@[edge.first() as int]).push(edge) && pointees(
                final(self)@[edge.second() as int],
            ) == pointees(old(self)@[edge.second() as int]).push(edge),
            edge.first() == edge.second() ==> pointees(final(self)@[edge.first() as int])
                == pointees(old(self)@[edge.first() as int]).push(edge).push(edge),
    {
        let ghost g0 = self@;
        let edge = Rc::new(edge);
        let v = edge.either();
        if let Some(w) = edge.other(v) {
            let first = share(&edge);
            self.adj[v].push(first);
            let ghost g1 = self@;
            let second = share(&edge);
            self.adj[w].push(second);
            self.e += 1;
            proof {
                let g2 = self@;
                assert(g1 =~= g0.update(v as int, g0[v as int].push(first)));
                assert(g2 =~= g1.update(w as int, g1[w as int].push(second)));
                assert forall|x: int, k: int|
                    0 <= x < g2.len() && 0 <= k < g2[x].len() implies (#[trigger] g2[x][k]).far(
                    x as usize,
                ) is Some && g2[x][k].far(x as usize).unwrap() < g2.len() by {
                    if k < g0[x].len() {
                        assert(g2[x][k] == g0[x][k]);
                    }
                }
                if v != w {
                    assert(pointees(g2[v as int]) =~= pointees(g0[v as int]).push(*edge));
                    assert(pointees(g2[w as int]) =~= pointees(g0[w as int]).push(*edge));
                } else {
                    assert(pointees(g2[v as int]) =~= pointees(g0[v as int]).push(*edge).push(
                        *edge,
                    ));
                }
            }
        }
    }

    /// The edges that end at `v`.
    pub fn adj(&self, v: usize) -> (list: &Vec<Rc<Edge>>)
        requires
            v < self@.len(),
        ensures
            list@ == self@[v as int],
    {
        &self.adj[v]
    }

    /// Every edge between two different vertices once: the edges in the
    /// list of each vertex that lead to a vertex with a greater number.
    pub fn edges(&self) -> (edges: Vec<Rc<Edge>>)
        requires
            self.wf(),
        ensures
            pointees(edges@) == all_upward(self@, self@.len() as int),
    {
        let mut edges: Vec<Rc<Edge>> = Vec::with_capacity(self.e());
        let mut v: usize = 0;
        proof {
            assert(pointees(edges@) =~= all_upward(self@, 0));
        }
        while v < self.v()
            invariant
                self.wf(),
                v <= self@.len(),
                pointees(edges@) == all_upward(self@, v as int),
            decreases self@.len() - v,
        {
            let list = self.adj(v);
            let mut k: usize = 0;
            let ghost before = pointees(edges@);
            proof {
                assert(pointees(edges@) =~= before + upward(list@, v, 0));
            }
            while k < list.len()
                invariant
                    list@ == self@[v as int],
                    k <= list@.len(),
                    pointees(edges@) == before + upward(list@, v, k as int),
                decreases list@.len() - k,
            {
                let ghost e0 = edges@;
                let edge = &list[k];
                if let Some(w) = edge.other(v) {
                    if w > v {
                        edges.push(share(edge));
                        proof {
                            assert(pointees(edges@) =~= pointees(e0).push(**edge));
                            assert(before + upward(list@, v, k as int).push(**edge) =~= (before
                                + upward(list@, v, k as int)).push(**edge));
                        }
                    }
                }
                k += 1;
            }
            v += 1;
        }
        edges
    }
}

} // verus!
