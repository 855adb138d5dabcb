//! Kruskal's algorithm: a spanning forest grown from the lightest edges.

use crate::graph::edge::Edge;
use crate::graph::edge_queue::EdgeQueue;
use crate::graph::edge_weighted_graph::{all_upward, pointees, share, upward, EdgeWeightedGraph};
use crate::graph::union_find::UnionFind;
use std::rc::Rc;
use vstd::prelude::*;

verus! {

/// The edges that Kruskal's algorithm has chosen in a graph.
pub struct KruskalMST {
    mst: Vec<Rc<Edge>>,
    pq: EdgeQueue,
    un: UnionFind,
}

/// Both ends of `e` are vertices below `n`.
pub open spec fn within(e: Edge, n: int) -> bool {
    e.first() < n && e.second() < n
}

/// The edges of `edges` lead from `v` to `w`: the two are one vertex, or
/// the edges before the last one lead from `v` to `w`, or they lead from
/// `v` to one end of the last edge and from its other end to `w`.
pub open spec fn linked_by(edges: Seq<Edge>, v: int, w: int) -> bool
    decreases edges.len(),
{
    if edges.len() == 0 {
        v == w
    } else {
        let rest = edges.drop_last();
        let e = edges.last();
        ||| linked_by(rest, v, w)
        ||| (linked_by(rest, v, e.first() as int) && linked_by(rest, e.second() as int, w))
        ||| (linked_by(rest, v, e.second() as int) && linked_by(rest, e.first() as int, w))
    }
}

/// The edges that lead upward from the lists of a well-formed graph are
/// edges between its vertices.
proof fn lemma_upward_within(g: &EdgeWeightedGraph, n: int, e: Edge)
    requires
        g.wf(),
        0 <= n <= g@.len(),
        all_upward(g@, n).contains(e),
    ensures
        within(e, g@.len() as int),
    decreases n,
{
    if n > 0 {
        let a = all_upward(g@, n - 1);
        let b = upward(g@[n - 1], (n - 1) as usize, g@[n - 1].len() as int);
        let i = choose|i: int| 0 <= i < (a + b).len() && (a + b)[i] == e;
        if i < a.len() {
            assert(a[i] == e);
            lemma_upward_within(g, n - 1, e);
        } else {
            assert(b[i - a.len()] == e);
            lemma_upward_list(g, n - 1, g@[n - 1].len() as int, e);
        }
    }
}

proof fn lemma_upward_list(g: &EdgeWeightedGraph, x: int, k: int, e: Edge)
    requires
        g.wf(),
        0 <= x < g@.len(),
        0 <= k <= g@[x].len(),
        upward(g@[x], x as usize, k).contains(e),
    ensures
        within(e, g@.len() as int),
    decreases k,
{
    if k > 0 {
        let list = g@[x];
        let last = *list[k - 1];
        let rest = upward(list, x as usize, k - 1);
        g.lemma_ends(x, k - 1);
        if last.far(x as usize) is Some && last.far(x as usize).unwrap() > x as usize {
            let i = choose|i: int| 0 <= i < rest.push(last).len() && rest.push(last)[i] == e;
            if i < rest.len() {
                assert(rest[i] == e);
                lemma_upward_list(g, x, k - 1, e);
            }
        } else {
            lemma_upward_list(g, x, k - 1, e);
        }
    }
}

impl KruskalMST {
    /// The edges chosen, in the order in which they were chosen.
    pub closed spec fn chosen(&self) -> Seq<Edge> {
        pointees(self.mst@)
    }

    /// The chosen edges lead from `v` to `w`.
    pub open spec fn joined(&self, v: int, w: int) -> bool {
        linked_by(self.chosen(), v, w)
    }

    /// Takes the edges of `g` from the lightest on and keeps each edge
    /// whose ends no edge kept before joins, until one edge fewer than `g`
    /// has vertices is kept or no edge is left.
    ///
    /// The edges kept are edges of `g`, and none of them is lighter than one
    /// kept before it. They hold no cycle: the edges kept before an edge do
    /// not lead from one of its ends to the other. Each of them is a
    /// lightest edge across a cut: no edge of `g` whose ends the edges kept
    /// before it do not join is lighter. Together they lead from one end of
    /// every edge of `g` to the other, so they span every component of `g`.
    pub fn new(g: &EdgeWeightedGraph) -> (r: Self)
        requires
            g.wf(),
            g@.len() >= 1,
        ensures
            forall|i: int|
                0 <= i < r.chosen().len() ==> all_upward(g@, g@.len() as int).contains(
                    #[trigger] r.chosen()[i],
                ),
            r.chosen().len() <= g@.len() - 1,
            forall|i: int, j: int|
                #![trigger r.chosen()[i], r.chosen()[j]]
                0 <= i < j < r.chosen().len() ==> r.chosen()[i].bits() <= r.chosen()[j].bits(),
            forall|k: int|
                0 <= k < r.chosen().len() ==> !linked_by(
                    r.chosen().take(k),
                    (#[trigger] r.chosen()[k]).first() as int,
                    r.chosen()[k].second() as int,
                ),
            forall|k: int, e: Edge|
                #![trigger r.chosen()[k], all_upward(g@, g@.len() as int).contains(e)]
                0 <= k < r.chosen().len() && all_upward(g@, g@.len() as int).contains(e)
                    && !linked_by(r.chosen().take(k), e.first() as int, e.second() as int)
                    ==> r.chosen()[k].bits() <= e.bits(),
            forall|e: Edge| #[trigger]
                all_upward(g@, g@.len() as int).contains(e) ==> r.joined(
                    e.first() as int,
                    e.second() as int,
                ),
    {
        let mut this = KruskalMST {
            mst: Vec::new(),
            pq: EdgeQueue::new(),
            un: UnionFind::with_capacity(g.v()),
        };
        let edges = g.edges();
        let ghost all = all_upward(g@, g@.len() as int);
        let mut i: usize = 0;
        while i < edges.len()
            invariant
                i <= edges@.len(),
                pointees(edges@) == all,
                this.mst@.len() == 0,
                this.un.wf(),
                this.un.capacity() == g@.len(),
                this.un.sets() == g@.len(),
                forall|p: int| 0 <= p < g@.len() ==> #[trigger] this.un.root(p) == p,
                forall|e: Edge| #[trigger] this.pq.bag().contains(e) ==> all.contains(e),
                forall|k: int| 0 <= k < i ==> this.pq.bag().contains(#[trigger] all[k]),
            decreases edges@.len() - i,
        {
            let ghost before = this.pq.bag();
            this.pq.push(share(&edges[i]));
            proof {
                assert forall|e: Edge| #[trigger] this.pq.bag().contains(e) implies all.contains(
                    e,
                ) by {
                    if !before.contains(e) {
                        assert(e == *edges@[i as int]);
                        assert(pointees(edges@)[i as int] == e);
                    }
                }
                assert forall|k: int| 0 <= k < i + 1 implies this.pq.bag().contains(
                    #[trigger] all[k],
                ) by {
                    if k < i {
                        assert(before.contains(all[k]));
                    } else {
                        assert(all[k] == *edges@[i as int]);
                    }
                }
            }
            i += 1;
        }
        proof {
            assert forall|e: Edge| #[trigger] all.contains(e) implies this.pq.bag().contains(e) by {
                let k = choose|k: int| 0 <= k < all.len() && all[k] == e;
                assert(this.pq.bag().contains(all[k]));
            }
            assert(pointees(this.mst@) =~= Seq::<Edge>::empty());
            assert forall|x: int, y: int| 0 <= x < g@.len() && 0 <= y < g@.len() implies (
            #[trigger] this.un.joined(x, y) <==> linked_by(pointees(this.mst@), x, y)) by {
                assert(this.un.root(x) == x && this.un.root(y) == y);
            }
        }
        while !this.pq.is_empty() && this.mst.len() < g.v() - 1
            invariant
                g.wf(),
                g@.len() >= 1,
                all == all_upward(g@, g@.len() as int),
                this.un.wf(),
                this.un.capacity() == g@.len(),
                this.mst@.len() + this.un.sets() == g@.len(),
                this.mst@.len() <= g@.len() - 1,
                forall|e: Edge| #[trigger] this.pq.bag().contains(e) ==> all.contains(e),
                forall|k: int|
                    0 <= k < this.mst@.len() ==> all.contains(#[trigger] pointees(this.mst@)[k]),
                forall|e: Edge| #[trigger]
                    all.contains(e) ==> this.pq.bag().contains(e) || this.un.joined(
                        e.first() as int,
                        e.second() as int,
                    ),
                forall|e: Edge, k: int|
                    #![trigger this.pq.bag().contains(e), pointees(this.mst@)[k]]
                    this.pq.bag().contains(e) && 0 <= k < this.mst@.len() ==> pointees(
                        this.mst@,
                    )[k].bits() <= e.bits(),
                forall|i: int, j: int|
                    #![trigger pointees(this.mst@)[i], pointees(this.mst@)[j]]
                    0 <= i < j < this.mst@.len() ==> pointees(this.mst@)[i].bits() <= pointees(
                        this.mst@,
                    )[j].bits(),
                forall|x: int, y: int|
                    0 <= x < g@.len() && 0 <= y < g@.len() ==> (#[trigger] this.un.joined(x, y)
                        <==> linked_by(pointees(this.mst@), x, y)),
                forall|k: int|
                    0 <= k < this.mst@.len() ==> !linked_by(
                        pointees(this.mst@).take(k),
                        (#[trigger] pointees(this.mst@)[k]).first() as int,
                        pointees(this.mst@)[k].second() as int,
                    ),
                forall|k: int, e: Edge|
                    #![trigger pointees(this.mst@)[k], all.contains(e)]
                    0 <= k < this.mst@.len() && all.contains(e) && !linked_by(
                        pointees(this.mst@).take(k),
                        e.first() as int,
                        e.second() as int,
                    ) ==> pointees(this.mst@)[k].bits() <= e.bits(),
            decreases this.pq.len(),
        {
            let ghost before = this.pq.bag();
            let edge = this.pq.pop();
            proof {
                lemma_upward_within(g, g@.len() as int, *edge);
                assert forall|e: Edge| #[trigger] this.pq.bag().contains(e) implies all.contains(
                    e,
                ) by {
                    assert(before.contains(e));
                }
            }
            let v = edge.either();
            let w = edge.other(v).unwrap();
            let ghost un0 = this.un;
            proof {
                un0.lemma_root(v as int);
                un0.lemma_root(w as int);
                assert forall|e: Edge, k: int|
                    #![trigger this.pq.bag().contains(e), pointees(this.mst@)[k]]
                    this.pq.bag().contains(e) && 0 <= k < this.mst@.len() implies pointees(
                    this.mst@,
                )[k].bits() <= e.bits() by {
                    assert(before.contains(e));
                }
            }
            if this.un.connected(v, w) {
                proof {
                    assert forall|e: Edge| #[trigger] all.contains(e) implies this.pq.bag().contains(
                        e,
                    ) || this.un.joined(e.first() as int, e.second() as int) by {
                        if !this.pq.bag().contains(e) && before.contains(e) {
                            assert(e == *edge);
                        }
                    }
                }
                continue ;
            }
            this.un.union(v, w);
            let ghost chosen = pointees(this.mst@);
            this.mst.push(edge);
            proof {
                assert forall|e: Edge| #[trigger] all.contains(e) implies this.pq.bag().contains(e)
                    || this.un.joined(e.first() as int, e.second() as int) by {
                    lemma_upward_within(g, g@.len() as int, e);
                    if !this.pq.bag().contains(e) {
                        if before.contains(e) {
                            assert(e == *edge);
                            assert(un0.joined(v as int, v as int));
                            assert(un0.joined(w as int, w as int));
                            assert(this.un.joined(e.first() as int, e.second() as int));
                        } else {
                            assert(un0.joined(e.first() as int, e.second() as int));
                            assert(this.un.joined(e.first() as int, e.second() as int));
                        }
                    }
                }
                assert(pointees(this.mst@) =~= chosen.push(*edge));
                assert forall|e: Edge, k: int|
                    #![trigger this.pq.bag().contains(e), pointees(this.mst@)[k]]
                    this.pq.bag().contains(e) && 0 <= k < this.mst@.len() implies pointees(
                    this.mst@,
                )[k].bits() <= e.bits() by {
                    assert(before.contains(e));
                    if k < chosen.len() {
                        assert(pointees(this.mst@)[k] == chosen[k]);
                    }
                }
                assert forall|i: int, j: int|
                    #![trigger pointees(this.mst@)[i], pointees(this.mst@)[j]]
                    0 <= i < j < this.mst@.len() implies pointees(this.mst@)[i].bits() <= pointees(
                    this.mst@,
                )[j].bits() by {
                    assert(pointees(this.mst@)[i] == chosen[i]);
                    if j < chosen.len() {
                        assert(pointees(this.mst@)[j] == chosen[j]);
                    } else {
                        assert(before.contains(*edge));
                    }
                }
                assert forall|k: int| 0 <= k < this.mst@.len() implies all.contains(
                    #[trigger] pointees(this.mst@)[k],
                ) by {
                    if k < chosen.len() {
                        assert(pointees(this.mst@)[k] == chosen[k]);
                    }
                }
                let now = pointees(this.mst@);
                assert(now.drop_last() =~= chosen);
                assert(now.last() == *edge);
                assert(edge.first() == v);
                assert(edge.second() == w || v == w);
                assert forall|x: int, y: int| 0 <= x < g@.len() && 0 <= y < g@.len() implies (
                #[trigger] this.un.joined(x, y) <==> linked_by(now, x, y)) by {
                    assert(un0.joined(x, y) <==> linked_by(chosen, x, y));
                    assert(un0.joined(x, v as int) <==> linked_by(chosen, x, v as int));
                    assert(un0.joined(x, w as int) <==> linked_by(chosen, x, w as int));
                    assert(un0.joined(v as int, y) <==> linked_by(chosen, v as int, y));
                    assert(un0.joined(w as int, y) <==> linked_by(chosen, w as int, y));
                }
                assert forall|k: int| 0 <= k < now.len() implies !linked_by(
                    now.take(k),
                    (#[trigger] now[k]).first() as int,
                    now[k].second() as int,
                ) by {
                    if k < chosen.len() {
                        assert(now[k] == chosen[k]);
                        assert(now.take(k) =~= chosen.take(k));
                    } else {
                        assert(now.take(k) =~= chosen);
                        assert(!un0.joined(v as int, w as int));
                        assert(un0.joined(edge.first() as int, edge.second() as int)
                            <==> linked_by(chosen, edge.first() as int, edge.second() as int));
                    }
                }
                assert forall|k: int, e: Edge|
                    #![trigger now[k], all.contains(e)]
                    0 <= k < now.len() && all.contains(e) && !linked_by(
                        now.take(k),
                        e.first() as int,
                        e.second() as int,
                    ) implies now[k].bits() <= e.bits() by {
                    if k < chosen.len() {
                        assert(now[k] == chosen[k]);
                        assert(now.take(k) =~= chosen.take(k));
                        assert(all.contains(e));
                    } else {
                        assert(now.take(k) =~= chosen);
                        lemma_upward_within(g, g@.len() as int, e);
                        assert(un0.joined(e.first() as int, e.second() as int) <==> linked_by(
                            chosen,
                            e.first() as int,
                            e.second() as int,
                        ));
                        assert(before.contains(e));
                    }
                }
            }
        }
        proof {
            assert forall|e: Edge| #[trigger] all.contains(e) implies linked_by(
                pointees(this.mst@),
                e.first() as int,
                e.second() as int,
            ) by {
                lemma_upward_within(g, g@.len() as int, e);
                if this.pq.bag().contains(e) {
                    this.pq.lemma_len();
                    this.un.lemma_one_set(e.first() as int, e.second() as int);
                }
                assert(this.un.joined(e.first() as int, e.second() as int));
            }
        }
        this
    }

    /// The edges chosen.
    pub fn edges(&self) -> (edges: Vec<Rc<Edge>>)
        ensures
            pointees(edges@) == self.chosen(),
    {
        let mut edges: Vec<Rc<Edge>> = Vec::new();
        let mut i: usize = 0;
        while i < self.mst.len()
            invariant
                i <= self.mst@.len(),
                edges@.len() == i,
                forall|k: int| 0 <= k < i ==> *(#[trigger] edges@[k]) == *self.mst@[k],
            decreases self.mst@.len() - i,
        {
            edges.push(share(&self.mst[i]));
            i += 1;
        }
        proof {
            assert(pointees(edges@) =~= pointees(self.mst@));
        }
        edges
    }
}

} // verus!
