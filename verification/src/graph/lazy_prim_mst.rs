//! Prim's algorithm with a queue of edges: a tree grown from vertex 0 along
//! the lightest edge that leaves it.

use crate::graph::edge::Edge;
use crate::graph::edge_queue::EdgeQueue;
use crate::graph::edge_weighted_graph::{pointees, share, EdgeWeightedGraph};
use crate::graph::graph::{count_true, lemma_count_bound, lemma_count_set};
use crate::graph::kruskal_mst::within;
use std::rc::Rc;
use vstd::multiset::Multiset;
use vstd::prelude::*;

verus! {

/// The tree that Prim's algorithm has grown in a graph.
pub struct LazyPrimMST {
    marked: Vec<bool>,
    mst: Vec<Rc<Edge>>,
    pq: EdgeQueue,
}

/// `e` stands in one of the lists of `g`.
pub open spec fn listed(g: Seq<Seq<Rc<Edge>>>, e: Edge) -> bool {
    exists|x: int, k: int| 0 <= x < g.len() && 0 <= k < g[x].len() && *(#[trigger] g[x][k]) == e
}

/// `e` is an edge of `g` between two vertices of which one is marked.
pub open spec fn waiting(g: Seq<Seq<Rc<Edge>>>, marked: Seq<bool>, e: Edge) -> bool {
    &&& listed(g, e)
    &&& within(e, g.len() as int)
    &&& (marked[e.first() as int] || marked[e.second() as int])
}

/// Every edge in the list of a marked vertex leads to a marked vertex, or
/// waits in `bag`, or is `hole`.
pub open spec fn pending(
    g: Seq<Seq<Rc<Edge>>>,
    marked: Seq<bool>,
    bag: Multiset<Edge>,
    hole: Option<Edge>,
) -> bool {
    forall|x: int, k: int|
        #![trigger g[x][k]]
        0 <= x < g.len() && marked[x] && 0 <= k < g[x].len() ==> marked[g[x][k].far(
            x as usize,
        ).unwrap() as int] || bag.contains(*g[x][k]) || hole == Some(*g[x][k])
}

/// `x` is a vertex of the tree that grows from vertex 0 by the edges
/// `edges`: vertex 0 itself or an end of one of the edges.
pub open spec fn in_tree(edges: Seq<Edge>, x: int) -> bool {
    x == 0 || exists|k: int|
        0 <= k < edges.len() && ((#[trigger] edges[k]).first() == x || edges[k].second() == x)
}

/// No edge in the list of a vertex of the tree of `edges` that leads out of
/// that tree is lighter than `e`.
pub open spec fn lightest_out(g: Seq<Seq<Rc<Edge>>>, edges: Seq<Edge>, e: Edge) -> bool {
    forall|x: int, j: int|
        #![trigger g[x][j]]
        0 <= x < g.len() && 0 <= j < g[x].len() && in_tree(edges, x) && !in_tree(
            edges,
            g[x][j].far(x as usize).unwrap() as int,
        ) ==> e.bits() <= g[x][j].bits()
}

/// One end of `e` is a vertex of the tree of `edges` and the other is not.
pub open spec fn leads_out(edges: Seq<Edge>, e: Edge) -> bool {
    in_tree(edges, e.first() as int) != in_tree(edges, e.second() as int)
}

/// The tree of `edges` with `e` added has the vertices of the tree of
/// `edges` and the two ends of `e`.
proof fn lemma_tree_grows(edges: Seq<Edge>, e: Edge, x: int)
    ensures
        in_tree(edges.push(e), x) <==> in_tree(edges, x) || x == e.first() || x == e.second(),
{
    let more = edges.push(e);
    if in_tree(edges, x) && x != 0 {
        let k = choose|k: int|
            0 <= k < edges.len() && ((#[trigger] edges[k]).first() == x || edges[k].second() == x);
        assert(more[k] == edges[k]);
    }
    if x == e.first() || x == e.second() {
        assert(more[edges.len() as int] == e);
    }
    if in_tree(more, x) && x != 0 {
        let k = choose|k: int|
            0 <= k < more.len() && ((#[trigger] more[k]).first() == x || more[k].second() == x);
        if k < edges.len() {
            assert(more[k] == edges[k]);
        }
    }
}

impl LazyPrimMST {
    /// The mark of each vertex: whether the tree has reached it.
    pub closed spec fn marks(&self) -> Seq<bool> {
        self.marked@
    }

    /// The edges of the tree, in the order in which they were chosen.
    pub closed spec fn chosen(&self) -> Seq<Edge> {
        pointees(self.mst@)
    }

    /// The edges in the queue.
    pub closed spec fn queued(&self) -> Multiset<Edge> {
        self.pq.bag()
    }

    /// There is a mark for each vertex of `g`, the edges in the queue are
    /// edges of `g` with a marked end, the edges of the tree are edges of
    /// `g`, and the tree has one edge fewer than it has reached vertices.
    pub closed spec fn grown_in(&self, g: Seq<Seq<Rc<Edge>>>) -> bool {
        &&& self.marked@.len() == g.len()
        &&& forall|e: Edge| #[trigger] self.pq.bag().contains(e) ==> waiting(g, self.marked@, e)
        &&& forall|k: int| 0 <= k < self.mst@.len() ==> listed(g, #[trigger] pointees(self.mst@)[k])
    }

    /// Grows a tree from vertex 0: as long as an edge is waiting, takes the
    /// lightest, and where it leads to a vertex not yet reached, adds the
    /// edge to the tree and the vertex to the reached ones. The edges of
    /// the tree are edges of `g`, and there is one fewer of them than there
    /// are reached vertices. The reached vertices are vertex 0 and the ends
    /// of the chosen edges. Each chosen edge leads from the tree of the
    /// edges chosen before it to a vertex outside that tree, and it is a
    /// lightest such edge: no edge in the list of a vertex of that tree
    /// that leads out of it is lighter.
    pub fn new(g: &EdgeWeightedGraph) -> (r: Self)
        requires
            g.wf(),
            g@.len() >= 1,
        ensures
            r.grown_in(g@),
            r.marks().len() == g@.len(),
            r.marks()[0],
            r.queued().len() == 0,
            forall|i: int| 0 <= i < r.chosen().len() ==> listed(g@, #[trigger] r.chosen()[i]),
            r.chosen().len() + 1 == count_true(r.marks(), g@.len() as int),
            forall|x: int, k: int|
                #![trigger g@[x][k]]
                0 <= x < g@.len() && r.marks()[x] && 0 <= k < g@[x].len() ==> r.marks()[g@[x][k].far(
                    x as usize,
                ).unwrap() as int],
            forall|x: int| 0 <= x < g@.len() ==> (#[trigger] r.marks()[x] <==> in_tree(r.chosen(), x)),
            forall|k: int|
                0 <= k < r.chosen().len() ==> leads_out(r.chosen().take(k), #[trigger] r.chosen()[k]),
            forall|k: int|
                0 <= k < r.chosen().len() ==> lightest_out(
                    g@,
                    r.chosen().take(k),
                    #[trigger] r.chosen()[k],
                ),
    {
        let n = g.v();
        let mut this = LazyPrimMST {
            marked: Vec::with_capacity(n),
            mst: Vec::with_capacity(n - 1),
            pq: EdgeQueue::new(),
        };
        let mut i: usize = 0;
        while i < n
            invariant
                i <= n,
                this.marked@.len() == i,
                this.mst@.len() == 0,
                this.pq.bag() == Multiset::<Edge>::empty(),
                forall|k: int| 0 <= k < i ==> !this.marked@[k],
            decreases n - i,
        {
            this.marked.push(false);
            i += 1;
        }
        proof {
            crate::graph::graph::lemma_count_none(this.marked@, n as int);
            lemma_count_set(this.marked@, n as int, 0);
        }
        proof {
            assert(pending(g@, this.marked@, this.pq.bag(), None));
        }
        this.visit(g, 0);
        proof {
            assert(pointees(this.mst@).len() == this.mst@.len());
            assert(pointees(this.mst@) =~= Seq::<Edge>::empty());
        }
        while !this.pq.is_empty()
            invariant
                g.wf(),
                n == g@.len(),
                n >= 1,
                this.grown_in(g@),
                this.marked@[0],
                this.mst@.len() + 1 == count_true(this.marked@, n as int),
                pending(g@, this.marked@, this.pq.bag(), None),
                this.marked@.len() == n,
                forall|x: int|
                    0 <= x < n ==> (#[trigger] this.marked@[x] <==> in_tree(pointees(this.mst@), x)),
                forall|k: int|
                    0 <= k < this.mst@.len() ==> leads_out(
                        pointees(this.mst@).take(k),
                        #[trigger] pointees(this.mst@)[k],
                    ),
                forall|k: int|
                    0 <= k < this.mst@.len() ==> lightest_out(
                        g@,
                        pointees(this.mst@).take(k),
                        #[trigger] pointees(this.mst@)[k],
                    ),
            decreases n - count_true(this.marked@, n as int), this.pq.len(),
        {
            proof {
                lemma_count_bound(this.marked@, n as int);
            }
            let ghost before = this.pq.bag();
            let edge = this.pq.pop();
            let v = edge.either();
            let w = edge.other(v).unwrap();
            proof {
                assert(waiting(g@, this.marked@, *edge));
                assert forall|e: Edge| #[trigger] this.pq.bag().contains(e) implies waiting(
                    g@,
                    this.marked@,
                    e,
                ) by {
                    assert(before.contains(e));
                }
            }
            proof {
                assert(pending(g@, this.marked@, this.pq.bag(), Some(*edge)));
            }
            if this.marked[v] && this.marked[w] {
                proof {
                    assert forall|x: int, k: int|
                        #![trigger g@[x][k]]
                        0 <= x < g@.len() && this.marked@[x] && 0 <= k
                            < g@[x].len() implies this.marked@[g@[x][k].far(x as usize).unwrap() as int]
                        || this.pq.bag().contains(*g@[x][k]) by {
                        g.lemma_ends(x, k);
                    }
                }
                continue ;
            }
            let ghost chosen = pointees(this.mst@);
            let ghost m0 = this.marked@;
            proof {
                assert(within(*edge, n as int));
                assert(m0[v as int] != m0[w as int]);
                assert(edge.first() == v);
                assert(edge.second() == w || v == w);
                assert(leads_out(chosen, *edge));
                assert forall|x: int, j: int|
                    #![trigger g@[x][j]]
                    0 <= x < g@.len() && 0 <= j < g@[x].len() && in_tree(chosen, x) && !in_tree(
                        chosen,
                        g@[x][j].far(x as usize).unwrap() as int,
                    ) implies edge.bits() <= g@[x][j].bits() by {
                    g.lemma_ends(x, j);
                    assert(m0[x]);
                    assert(!m0[g@[x][j].far(x as usize).unwrap() as int]);
                    assert(before.contains(*g@[x][j]));
                }
                assert(lightest_out(g@, chosen, *edge));
            }
            this.mst.push(share(&edge));
            proof {
                assert(pointees(this.mst@) =~= chosen.push(*edge));
                assert forall|k: int| 0 <= k < this.mst@.len() implies listed(
                    g@,
                    #[trigger] pointees(this.mst@)[k],
                ) by {
                    if k < chosen.len() {
                        assert(pointees(this.mst@)[k] == chosen[k]);
                    }
                }
            }
            if !this.marked[v] {
                proof {
                    lemma_count_set(this.marked@, n as int, v as int);
                    lemma_count_bound(this.marked@.update(v as int, true), n as int);
                }
                this.visit(g, v);
            }
            if !this.marked[w] {
                proof {
                    lemma_count_set(this.marked@, n as int, w as int);
                    lemma_count_bound(this.marked@.update(w as int, true), n as int);
                }
                this.visit(g, w);
            }
            proof {
                assert(pending(g@, this.marked@, this.pq.bag(), Some(*edge)));
                assert forall|x: int, k: int|
                    #![trigger g@[x][k]]
                    0 <= x < g@.len() && this.marked@[x] && 0 <= k
                        < g@[x].len() implies this.marked@[g@[x][k].far(x as usize).unwrap() as int]
                    || this.pq.bag().contains(*g@[x][k]) by {
                    g.lemma_ends(x, k);
                }
                let now = pointees(this.mst@);
                let m1 = this.marked@;
                assert forall|x: int| 0 <= x < n implies (#[trigger] m1[x] <==> in_tree(now, x)) by {
                    lemma_tree_grows(chosen, *edge, x);
                    assert(m0[x] <==> in_tree(chosen, x));
                    assert(m1[x] <==> m0[x] || x == v || x == w);
                }
                assert forall|k: int| 0 <= k < now.len() implies leads_out(
                    now.take(k),
                    #[trigger] now[k],
                ) && lightest_out(g@, now.take(k), now[k]) by {
                    if k < chosen.len() {
                        assert(now[k] == chosen[k]);
                        assert(now.take(k) =~= chosen.take(k));
                        assert(leads_out(chosen.take(k), chosen[k]));
                        assert(lightest_out(g@, chosen.take(k), chosen[k]));
                    } else {
                        assert(now.take(k) =~= chosen);
                    }
                }
            }
        }
        proof {
            this.pq.lemma_len();
            assert forall|x: int, k: int|
                #![trigger g@[x][k]]
                0 <= x < g@.len() && this.marked@[x] && 0 <= k
                    < g@[x].len() implies this.marked@[g@[x][k].far(x as usize).unwrap() as int] by {
                assert(!this.pq.bag().contains(*g@[x][k]));
            }
        }
        this
    }

    /// Marks `v` and puts the edges from `v` to unmarked vertices into the
    /// queue.
    pub fn visit(&mut self, g: &EdgeWeightedGraph, v: usize)
        requires
            g.wf(),
            old(self).grown_in(g@),
            v < g@.len(),
        ensures
            final(self).grown_in(g@),
            final(self).marks() == old(self).marks().update(v as int, true),
            final(self).chosen() == old(self).chosen(),
            final(self).queued().len() >= old(self).queued().len(),
            forall|hole: Option<Edge>|
                pending(g@, old(self).marks(), old(self).queued(), hole) ==> pending(
                    g@,
                    final(self).marks(),
                    final(self).queued(),
                    hole,
                ),
    {
        self.marked[v] = true;
        let list = g.adj(v);
        let mut i: usize = 0;
        proof {
            assert forall|e: Edge| #[trigger] self.pq.bag().contains(e) implies waiting(
                g@,
                self.marked@,
                e,
            ) by {
                assert(waiting(g@, old(self).marked@, e));
            }
        }
        while i < list.len()
            invariant
                g.wf(),
                v < g@.len(),
                list@ == g@[v as int],
                i <= list@.len(),
                old(self).marked@.len() == g@.len(),
                self.marked@ == old(self).marked@.update(v as int, true),
                self.mst@ == old(self).mst@,
                self.grown_in(g@),
                self.pq.bag().len() >= old(self).pq.bag().len(),
                forall|e: Edge| old(self).pq.bag().contains(e) ==> self.pq.bag().contains(e),
                forall|k: int|
                    0 <= k < i ==> self.marked@[(#[trigger] list@[k]).far(v).unwrap() as int]
                        || self.pq.bag().contains(*list@[k]),
            decreases list@.len() - i,
        {
            let edge = &list[i];
            proof {
                g.lemma_ends(v as int, i as int);
            }
            let w = edge.other(v).unwrap();
            if !self.marked[w] {
                let ghost before = self.pq.bag();
                self.pq.push(share(edge));
                proof {
                    assert(g@[v as int][i as int] == *edge);
                    assert(listed(g@, **edge));
                    assert(edge.first() == v || edge.second() == v);
                    assert(within(**edge, g@.len() as int));
                    assert(self.marked@[v as int]);
                    assert(self.marked@[edge.first() as int] || self.marked@[edge.second() as int]);
                    assert(waiting(g@, self.marked@, **edge));
                    assert forall|e: Edge| #[trigger] self.pq.bag().contains(e) implies waiting(
                        g@,
                        self.marked@,
                        e,
                    ) by {
                        if !before.contains(e) {
                            assert(e == **edge);
                        } else {
                            assert(waiting(g@, self.marked@, e));
                        }
                    }
                }
            }
            i += 1;
        }
        proof {
            assert forall|hole: Option<Edge>|
                pending(g@, old(self).marked@, old(self).pq.bag(), hole) implies pending(
                g@,
                self.marked@,
                self.pq.bag(),
                hole,
            ) by {
                assert forall|x: int, k: int|
                    #![trigger g@[x][k]]
                    0 <= x < g@.len() && self.marked@[x] && 0 <= k
                        < g@[x].len() implies self.marked@[g@[x][k].far(x as usize).unwrap() as int]
                    || self.pq.bag().contains(*g@[x][k]) || hole == Some(*g@[x][k]) by {
                    g.lemma_ends(x, k);
                    if x == v {
                        assert(list@[k] == g@[x][k]);
                    } else {
                        assert(old(self).marked@[x]);
                        let far = g@[x][k].far(x as usize).unwrap() as int;
                        if old(self).marked@[far] {
                        } else if old(self).pq.bag().contains(*g@[x][k]) {
                        }
                    }
                }
            }
        }
    }

    /// The edges of the tree.
    pub fn edges(&self) -> (edges: Vec<Rc<Edge>>)
        ensures
            pointees(edges@) == self.chosen(),
    {
        let mut edges: Vec<Rc<Edge>> = Vec::new();
        let mut i: usize = 0;
        while i < self.mst.len()
            invariant
                i <= self.mst@.len(),
                edges@.len() == i,
                forall|k: int| 0 <= k < i ==> *(#[trigger] edges@[k]) == *self.mst@[k],
            decreases self.mst@.len() - i,
        {
            edges.push(share(&self.mst[i]));
            i += 1;
        }
        proof {
            assert(pointees(edges@) =~= pointees(self.mst@));
        }
        edges
    }
}

} // verus!
