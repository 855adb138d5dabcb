//! Prim's algorithm with a queue of vertices: a tree grown from vertex 0
//! towards the vertex that the lightest edge leads to.

use crate::graph::edge::Edge;
use crate::graph::edge_weighted_graph::{share, EdgeWeightedGraph};
use crate::graph::graph::{count_true, lemma_count_bound, lemma_count_set};
use crate::graph::lazy_prim_mst::listed;
use crate::order::{lemma_u32_order, lt};
use crate::queue::index_min_pq::IndexMinPQ;
use std::rc::Rc;
use vstd::prelude::*;

verus! {

/// The bits of the weight that is greater than every weight of an edge.
pub const INFINITY: u32 = 0x7f80_0000;

/// For each vertex that Prim's algorithm has seen, the lightest edge that
/// joins it to the tree.
pub struct PrimMST {
    edge_to: Vec<Option<Rc<Edge>>>,
    dist_to: Vec<u32>,
    marked: Vec<bool>,
    pq: IndexMinPQ<u32>,
    order: Ghost<Seq<int>>,
}

/// No edge in the list of a vertex of `tree` that leads to a vertex
/// outside `tree` is lighter than `e`.
pub open spec fn lightest_leaving(g: Seq<Seq<Rc<Edge>>>, tree: Seq<int>, e: Edge) -> bool {
    forall|x: int, j: int|
        #![trigger g[x][j]]
        0 <= x < g.len() && 0 <= j < g[x].len() && tree.contains(x) && !tree.contains(
            g[x][j].far(x as usize).unwrap() as int,
        ) ==> e.bits() <= g[x][j].bits()
}

/// The vertex that came into the tree as number `k` has a link that joins
/// it to one of the vertices that came before it, and no edge that leads
/// out of the tree of those vertices is lighter than this link.
pub open spec fn joined_at(
    g: Seq<Seq<Rc<Edge>>>,
    order: Seq<int>,
    links: Seq<Option<Rc<Edge>>>,
    k: int,
) -> bool {
    &&& 0 <= order[k] < links.len()
    &&& links[order[k]] is Some
    &&& links[order[k]].unwrap().far(order[k] as usize) is Some
    &&& order.take(k).contains(links[order[k]].unwrap().far(order[k] as usize).unwrap() as int)
    &&& lightest_leaving(g, order.take(k), *links[order[k]].unwrap())
}

/// The edges among the first `k` links, in their order.
pub open spec fn linked_edges(links: Seq<Option<Rc<Edge>>>, k: int) -> Seq<Edge>
    decreases k,
{
    if k <= 0 {
        Seq::empty()
    } else {
        match links[k - 1] {
            Some(e) => linked_edges(links, k - 1).push(*e),
            None => linked_edges(links, k - 1),
        }
    }
}

impl PrimMST {
    /// The mark of each vertex: whether it is in the tree.
    pub closed spec fn marks(&self) -> Seq<bool> {
        self.marked@
    }

    /// For each vertex the edge that joins it to the tree, if there is one.
    pub closed spec fn links(&self) -> Seq<Option<Rc<Edge>>> {
        self.edge_to@
    }

    /// The vertices of the tree in the order in which they came into it.
    pub closed spec fn order(&self) -> Seq<int> {
        self.order@
    }

    /// Every vertex outside the tree that an edge joins to the tree is
    /// waiting in the queue, `hole` left aside, with the weight of the
    /// lightest such edge, which is its link.
    spec fn settled(&self, g: Seq<Seq<Rc<Edge>>>, hole: int) -> bool {
        &&& forall|w: int| 0 <= w < g.len() ==> (#[trigger] self.dist_to@[w]) <= INFINITY
        &&& forall|w: int|
            0 <= w < g.len() && !self.marked@[w] && w != hole && (#[trigger] self.dist_to@[w])
                < INFINITY ==> self.pq@.contains_key(w)
        &&& forall|w: int| #[trigger]
            self.pq@.contains_key(w) ==> self.pq@[w] == self.dist_to@[w] && self.dist_to@[w]
                < INFINITY
        &&& forall|x: int, j: int|
            #![trigger g[x][j]]
            0 <= x < g.len() && self.marked@[x] && 0 <= j < g[x].len()
                ==> self.marked@[g[x][j].far(x as usize).unwrap() as int]
                || self.dist_to@[g[x][j].far(x as usize).unwrap() as int] <= g[x][j].bits()
        &&& forall|w: int|
            0 <= w < g.len() && (#[trigger] self.edge_to@[w]) is Some
                ==> self.edge_to@[w].unwrap().far(w as usize).unwrap() < g.len()
                && self.marked@[self.edge_to@[w].unwrap().far(w as usize).unwrap() as int]
        &&& forall|w: int|
            0 <= w < g.len() && (#[trigger] self.dist_to@[w]) < INFINITY ==> w == 0
                || self.edge_to@[w] is Some
    }

    /// There are a mark, a link and a distance for each vertex of `g`; the
    /// vertices in the queue are unmarked vertices of `g`; and the link of
    /// a vertex is an edge of `g` that ends there, with the weight that is
    /// the distance of the vertex.
    pub closed spec fn grown_in(&self, g: Seq<Seq<Rc<Edge>>>) -> bool {
        &&& self.marked@.len() == g.len()
        &&& self.edge_to@.len() == g.len()
        &&& self.dist_to@.len() == g.len()
        &&& self.pq.wf()
        &&& self.pq.capacity() == g.len()
        &&& forall|i: int| #[trigger]
            self.pq@.contains_key(i) ==> 0 <= i < g.len() && !self.marked@[i]
        &&& forall|w: int|
            0 <= w < g.len() && (#[trigger] self.edge_to@[w]) is Some ==> listed(
                g,
                *self.edge_to@[w].unwrap(),
            ) && self.edge_to@[w].unwrap().far(w as usize) is Some && self.edge_to@[w].unwrap().bits()
                == self.dist_to@[w]
    }

    /// Grows a tree from vertex 0: as long as a vertex is waiting, takes
    /// the one that the lightest edge joins to the tree, puts it into the
    /// tree, and looks at the edges that lead on from it. The link of a
    /// vertex is an edge of `g` that ends there.
    ///
    /// The marked vertices are those of the tree. Vertex 0 came into it
    /// first; every other has a link that joins it to a vertex that came
    /// before it, and when it came, no edge that led out of the tree was
    /// lighter than this link. In the end no edge with a weight below
    /// `INFINITY` leads out of the tree.
    pub fn new(g: &EdgeWeightedGraph) -> (r: Self)
        requires
            g.wf(),
            1 <= g@.len() < usize::MAX,
        ensures
            r.grown_in(g@),
            r.marks().len() == g@.len(),
            r.links().len() == g@.len(),
            r.marks()[0],
            forall|w: int|
                0 <= w < g@.len() && (#[trigger] r.links()[w]) is Some ==> listed(
                    g@,
                    *r.links()[w].unwrap(),
                ) && r.links()[w].unwrap().far(w as usize) is Some,
            r.order().len() >= 1,
            r.order()[0] == 0,
            r.order().no_duplicates(),
            forall|x: int| 0 <= x < g@.len() ==> (#[trigger] r.marks()[x] <==> r.order().contains(x)),
            forall|k: int| 1 <= k < r.order().len() ==> #[trigger] joined_at(
                g@,
                r.order(),
                r.links(),
                k,
            ),
            forall|x: int, j: int|
                #![trigger g@[x][j]]
                0 <= x < g@.len() && r.marks()[x] && 0 <= j < g@[x].len() && g@[x][j].bits()
                    < INFINITY ==> r.marks()[g@[x][j].far(x as usize).unwrap() as int],
    {
        let n = g.v();
        let mut this = PrimMST {
            edge_to: Vec::with_capacity(n),
            dist_to: Vec::with_capacity(n),
            marked: Vec::with_capacity(n),
            pq: IndexMinPQ::with_capacity(n),
            order: Ghost(Seq::empty()),
        };
        let mut i: usize = 0;
        while i < n
            invariant
                i <= n,
                this.marked@.len() == i,
                this.edge_to@.len() == i,
                this.dist_to@.len() == i,
                this.pq.wf(),
                this.pq.capacity() == n,
                this.pq.len() == 0,
                this.pq@ == Map::<int, u32>::empty(),
                forall|k: int| 0 <= k < i ==> !this.marked@[k],
                forall|k: int| 0 <= k < i ==> (#[trigger] this.edge_to@[k]) is None,
                forall|k: int| 0 <= k < i ==> (#[trigger] this.dist_to@[k]) == INFINITY,
                this.order@ == Seq::<int>::empty(),
            decreases n - i,
        {
            this.edge_to.push(None);
            this.dist_to.push(INFINITY);
            this.marked.push(false);
            i += 1;
        }
        this.dist_to[0] = 0;
        this.pq.push(0, 0);
        proof {
            crate::graph::graph::lemma_count_none(this.marked@, n as int);
        }
        let ghost mut seen: bool = false;
        proof {
            assert(this.settled(g@, -1));
        }
        while !this.pq.is_empty()
            invariant
                g.wf(),
                n == g@.len(),
                1 <= n < usize::MAX,
                this.grown_in(g@),
                !seen ==> this.pq@.contains_key(0),
                seen ==> this.marked@[0],
                this.settled(g@, -1),
                !seen ==> forall|w: int| 0 < w < n ==> (#[trigger] this.dist_to@[w]) == INFINITY,
                seen == (this.order@.len() > 0),
                seen ==> this.order@[0] == 0,
                this.order@.no_duplicates(),
                forall|x: int| 0 <= x < n ==> (#[trigger] this.marked@[x] <==> this.order@.contains(x)),
                forall|k: int| 1 <= k < this.order@.len() ==> #[trigger] joined_at(
                    g@,
                    this.order@,
                    this.edge_to@,
                    k,
                ),
            decreases n - count_true(this.marked@, n as int),
        {
            proof {
                lemma_count_bound(this.marked@, n as int);
                this.pq.lemma_len();
            }
            let ghost before = this.pq@;
            let ghost order = this.order@;
            let ghost links = this.edge_to@;
            let ghost m0 = this.marked@;
            let ghost dist = this.dist_to@;
            let v = this.pq.pop();
            proof {
                lemma_u32_order();
                assert(this.settled(g@, v as int));
                if !seen {
                    assert(before.contains_key(v as int));
                    assert(dist[v as int] < INFINITY);
                    assert(v == 0);
                } else {
                    assert(before.contains_key(v as int));
                    assert(!m0[v as int]);
                    assert(v != 0);
                    assert(dist[v as int] < INFINITY);
                    assert(links[v as int] is Some);
                    let e = *links[v as int].unwrap();
                    let from = e.far(v).unwrap() as int;
                    assert(m0[from]);
                    assert(order.contains(from));
                    assert forall|x: int, j: int|
                        #![trigger g@[x][j]]
                        0 <= x < g@.len() && 0 <= j < g@[x].len() && order.contains(x)
                            && !order.contains(
                            g@[x][j].far(x as usize).unwrap() as int,
                        ) implies e.bits() <= g@[x][j].bits() by {
                        g.lemma_ends(x, j);
                        let far = g@[x][j].far(x as usize).unwrap() as int;
                        assert(m0[x]);
                        assert(!m0[far]);
                        assert(dist[far] <= g@[x][j].bits());
                        if dist[far] < INFINITY {
                            assert(before.contains_key(far));
                            assert(!lt(before[far], before[v as int]));
                        }
                    }
                    assert(lightest_leaving(g@, order, e));
                }
                lemma_count_set(this.marked@, n as int, v as int);
                lemma_count_bound(this.marked@.update(v as int, true), n as int);
                assert forall|i: int| #[trigger] this.pq@.contains_key(i) implies 0 <= i < n
                    && !this.marked@[i] && i != v by {
                    assert(before.contains_key(i));
                }
                if !seen {
                    lemma_u32_order();
                }
            }
            let ghost waits = this.queued(0);
            this.order = Ghost(order.push(v as int));
            this.grow(g, v);
            proof {
                if !seen {
                    if v != 0 {
                        assert(waits);
                        assert(this.queued(0));
                    } else {
                        seen = true;
                    }
                }
                let now = this.order@;
                assert(this.settled(g@, -1));
                assert forall|x: int| 0 <= x < n implies (#[trigger] this.marked@[x] <==> now.contains(
                    x,
                )) by {
                    if order.contains(x) {
                        let k = choose|k: int| 0 <= k < order.len() && order[k] == x;
                        assert(now[k] == x);
                    }
                    if x == v {
                        assert(now[order.len() as int] == x);
                    }
                    if now.contains(x) {
                        let k = choose|k: int| 0 <= k < now.len() && now[k] == x;
                        if k < order.len() {
                            assert(order[k] == x);
                        }
                    }
                }
                assert(now.no_duplicates()) by {
                    assert forall|a: int, b: int|
                        0 <= a < now.len() && 0 <= b < now.len() && a != b implies now[a] != now[b] by {
                        if a < order.len() {
                            assert(order.contains(order[a]));
                        }
                        if b < order.len() {
                            assert(order.contains(order[b]));
                        }
                    }
                }
                assert forall|k: int| 1 <= k < now.len() implies #[trigger] joined_at(
                    g@,
                    now,
                    this.edge_to@,
                    k,
                ) by {
                    if k < order.len() {
                        assert(joined_at(g@, order, links, k));
                        assert(now[k] == order[k]);
                        assert(now.take(k) =~= order.take(k));
                        assert(order.contains(order[k]));
                        assert(m0[order[k]]);
                        assert(this.links()[order[k]] == links[order[k]]);
                    } else {
                        assert(now.take(k) =~= order);
                        assert(now[k] == v);
                        assert(this.links()[v as int] == links[v as int]);
                    }
                }
            }
        }
        proof {
            this.pq.lemma_len();
            if !seen {
                assert(this.pq@.dom().contains(0));
                assert(this.pq@.dom().len() > 0);
            }
            assert forall|x: int, j: int|
                #![trigger g@[x][j]]
                0 <= x < g@.len() && this.marked@[x] && 0 <= j < g@[x].len() && g@[x][j].bits()
                    < INFINITY implies this.marked@[g@[x][j].far(x as usize).unwrap() as int] by {
                g.lemma_ends(x, j);
                let far = g@[x][j].far(x as usize).unwrap() as int;
                if !this.marked@[far] {
                    assert(this.dist_to@[far] <= g@[x][j].bits());
                    assert(this.pq@.dom().contains(far));
                    assert(this.pq@.dom().len() > 0);
                }
            }
        }
        this
    }

    /// Puts `v` into the tree and makes each edge from `v` to a vertex
    /// outside the tree the link of that vertex if it is lighter than the
    /// link that the vertex has. The links of `v` and of the vertices in
    /// the tree stay as they are.
    pub fn visit(&mut self, g: &EdgeWeightedGraph, v: usize)
        requires
            g.wf(),
            g@.len() < usize::MAX,
            old(self).grown_in(g@),
            v < g@.len(),
            !old(self).queued(v as int),
        ensures
            final(self).grown_in(g@),
            final(self).marks() == old(self).marks().update(v as int, true),
            forall|i: int| old(self).queued(i) ==> final(self).queued(i),
            final(self).order() == old(self).order(),
            forall|w: int|
                0 <= w < g@.len() && (old(self).marks()[w] || w == v) ==> (
                #[trigger] final(self).links()[w]) == old(self).links()[w],
    {
        self.grow(g, v);
    }

    /// What `visit` does; it keeps the queue and the distances as `settled`
    /// asks.
    fn grow(&mut self, g: &EdgeWeightedGraph, v: usize)
        requires
            g.wf(),
            g@.len() < usize::MAX,
            old(self).grown_in(g@),
            v < g@.len(),
            !old(self).queued(v as int),
        ensures
            final(self).grown_in(g@),
            final(self).marks() == old(self).marks().update(v as int, true),
            forall|i: int| old(self).queued(i) ==> final(self).queued(i),
            final(self).order() == old(self).order(),
            forall|w: int|
                0 <= w < g@.len() && (old(self).marks()[w] || w == v) ==> (
                #[trigger] final(self).links()[w]) == old(self).links()[w],
            old(self).settled(g@, v as int) ==> final(self).settled(g@, -1),
    {
        let ghost tight = self.settled(g@, v as int);
        let ghost n = g@.len() as int;
        proof {
            if tight {
                assert forall|x: int, j: int|
                    #![trigger g@[x][j]]
                    0 <= x < n && self.marked@[x] && 0 <= j < g@[x].len() implies g@[x][j].far(
                    x as usize,
                ) is Some && g@[x][j].far(x as usize).unwrap() < n by {
                    g.lemma_ends(x, j);
                }
            }
        }
        self.marked[v] = true;
        let list = g.adj(v);
        let mut i: usize = 0;
        while i < list.len()
            invariant
                g.wf(),
                g@.len() < usize::MAX,
                v < g@.len(),
                list@ == g@[v as int],
                i <= list@.len(),
                old(self).marked@.len() == g@.len(),
                self.marked@ == old(self).marked@.update(v as int, true),
                self.grown_in(g@),
                !self.pq@.contains_key(v as int),
                forall|k: int| old(self).pq@.contains_key(k) ==> self.pq@.contains_key(k),
                self.order@ == old(self).order@,
                n == g@.len(),
                forall|w: int|
                    0 <= w < n && (old(self).marked@[w] || w == v) ==> (#[trigger] self.edge_to@[w])
                        == old(self).edge_to@[w],
                tight ==> forall|w: int| 0 <= w < n ==> (#[trigger] self.dist_to@[w]) <= INFINITY,
                tight ==> forall|w: int|
                    0 <= w < n && !self.marked@[w] && (#[trigger] self.dist_to@[w]) < INFINITY
                        ==> self.pq@.contains_key(w),
                tight ==> forall|w: int| #[trigger]
                    self.pq@.contains_key(w) ==> self.pq@[w] == self.dist_to@[w] && self.dist_to@[w]
                        < INFINITY,
                tight ==> forall|x: int, j: int|
                    #![trigger g@[x][j]]
                    0 <= x < n && x != v && self.marked@[x] && 0 <= j < g@[x].len()
                        ==> self.marked@[g@[x][j].far(x as usize).unwrap() as int]
                        || self.dist_to@[g@[x][j].far(x as usize).unwrap() as int] <= g@[x][j].bits(),
                tight ==> forall|j: int|
                    0 <= j < i ==> self.marked@[(#[trigger] list@[j]).far(v).unwrap() as int]
                        || self.dist_to@[list@[j].far(v).unwrap() as int] <= list@[j].bits(),
                tight ==> forall|w: int|
                    0 <= w < n && (#[trigger] self.edge_to@[w]) is Some
                        ==> self.edge_to@[w].unwrap().far(w as usize).unwrap() < n
                        && self.marked@[self.edge_to@[w].unwrap().far(w as usize).unwrap() as int],
                tight ==> forall|w: int|
                    0 <= w < n && (#[trigger] self.dist_to@[w]) < INFINITY ==> w == 0
                        || self.edge_to@[w] is Some,
            decreases list@.len() - i,
        {
            let e = &list[i];
            proof {
                g.lemma_ends(v as int, i as int);
                assert(g@[v as int][i as int] == *e);
                assert(listed(g@, **e));
            }
            let w = e.other(v).unwrap();
            if self.marked[w] {
                i += 1;
                continue ;
            }
            let ghost marks = self.marked@;
            if e.weight() < self.dist_to[w] {
                let ghost links = self.edge_to@;
                let ghost dists = self.dist_to@;
                let ghost queue = self.pq@;
                self.edge_to[w] = Some(share(e));
                self.dist_to[w] = e.weight();
                if self.pq.contains(w) {
                    self.pq.change(w, e.weight());
                } else {
                    proof {
                        self.pq.lemma_len();
                        let all = vstd::set_lib::set_int_range(0, g@.len() as int);
                        vstd::set_lib::lemma_int_range(0, g@.len() as int);
                        assert(self.pq@.dom().subset_of(all.remove(w as int)));
                        vstd::set_lib::lemma_len_subset(self.pq@.dom(), all.remove(w as int));
                    }
                    self.pq.push(w, e.weight());
                }
                proof {
                    assert(e.far(w) is Some);
                    assert forall|x: int|
                        0 <= x < g@.len() && (#[trigger] self.edge_to@[x]) is Some implies listed(
                        g@,
                        *self.edge_to@[x].unwrap(),
                    ) && self.edge_to@[x].unwrap().far(x as usize) is Some
                        && self.edge_to@[x].unwrap().bits() == self.dist_to@[x] by {
                        if x != w {
                            assert(links[x] is Some);
                        }
                    }
                    assert forall|k: int| #[trigger] self.pq@.contains_key(k) implies 0 <= k
                        < g@.len() && !self.marked@[k] by {
                        if k != w {
                            assert(queue.contains_key(k));
                        }
                    }
                    assert(w != v);
                    assert(e.far(w) == Some(v));
                    if tight {
                        assert forall|x: int| 0 <= x < n implies (#[trigger] self.dist_to@[x])
                            <= INFINITY by {
                            if x != w {
                                assert(dists[x] <= INFINITY);
                            } else {
                                assert(dists[w as int] <= INFINITY);
                            }
                        }
                        assert forall|x: int|
                            0 <= x < n && !self.marked@[x] && (#[trigger] self.dist_to@[x])
                                < INFINITY implies self.pq@.contains_key(x) by {
                            if x != w {
                                assert(dists[x] < INFINITY);
                                assert(queue.contains_key(x));
                            }
                        }
                        assert forall|x: int| #[trigger] self.pq@.contains_key(x) implies self.pq@[x]
                            == self.dist_to@[x] && self.dist_to@[x] < INFINITY by {
                            if x != w {
                                assert(queue.contains_key(x));
                            } else {
                                assert(dists[w as int] <= INFINITY);
                            }
                        }
                        assert forall|x: int, j: int|
                            #![trigger g@[x][j]]
                            0 <= x < n && x != v && self.marked@[x] && 0 <= j
                                < g@[x].len() implies self.marked@[g@[x][j].far(
                                x as usize,
                            ).unwrap() as int] || self.dist_to@[g@[x][j].far(
                                x as usize,
                            ).unwrap() as int] <= g@[x][j].bits() by {
                            g.lemma_ends(x, j);
                            let far = g@[x][j].far(x as usize).unwrap() as int;
                            if !marks[far] {
                                assert(dists[far] <= g@[x][j].bits());
                            }
                        }
                        assert forall|j: int| 0 <= j < i + 1 implies self.marked@[(
                        #[trigger] list@[j]).far(v).unwrap() as int] || self.dist_to@[list@[j].far(
                            v,
                        ).unwrap() as int] <= list@[j].bits() by {
                            g.lemma_ends(v as int, j);
                            let far = list@[j].far(v).unwrap() as int;
                            if j < i {
                                if !marks[far] {
                                    assert(dists[far] <= list@[j].bits());
                                }
                            }
                        }
                        assert forall|x: int|
                            0 <= x < n && (#[trigger] self.edge_to@[x]) is Some
                                implies self.edge_to@[x].unwrap().far(x as usize).unwrap() < n
                            && self.marked@[self.edge_to@[x].unwrap().far(
                            x as usize,
                        ).unwrap() as int] by {
                            if x != w {
                                assert(links[x] is Some);
                            }
                        }
                        assert forall|x: int|
                            0 <= x < n && (#[trigger] self.dist_to@[x]) < INFINITY implies x == 0
                            || self.edge_to@[x] is Some by {
                            if x != w {
                                assert(dists[x] < INFINITY);
                            }
                        }
                    }
                }
            } else {
                proof {
                    if tight {
                        assert forall|j: int| 0 <= j < i + 1 implies self.marked@[(
                        #[trigger] list@[j]).far(v).unwrap() as int] || self.dist_to@[list@[j].far(
                            v,
                        ).unwrap() as int] <= list@[j].bits() by {}
                    }
                }
            }
            i += 1;
        }
        proof {
            if tight {
                assert forall|x: int, j: int|
                    #![trigger g@[x][j]]
                    0 <= x < n && self.marked@[x] && 0 <= j < g@[x].len()
                        implies self.marked@[g@[x][j].far(x as usize).unwrap() as int]
                    || self.dist_to@[g@[x][j].far(x as usize).unwrap() as int] <= g@[x][j].bits() by {
                    if x == v {
                        assert(list@[j] == g@[x][j]);
                    }
                }
                assert(self.settled(g@, -1));
            }
        }
    }

    /// Whether `i` is waiting in the queue.
    pub closed spec fn queued(&self, i: int) -> bool {
        self.pq@.contains_key(i)
    }

    /// The links of the vertices that have one, in the order of the
    /// vertices.
    pub fn edges(&self) -> (edges: Vec<Rc<Edge>>)
        ensures
            crate::graph::edge_weighted_graph::pointees(edges@) == linked_edges(
                self.links(),
                self.links().len() as int,
            ),
    {
        let mut edges: Vec<Rc<Edge>> = Vec::new();
        let mut i: usize = 0;
        proof {
            assert(crate::graph::edge_weighted_graph::pointees(edges@) =~= linked_edges(
                self.edge_to@,
                0,
            ));
        }
        while i < self.edge_to.len()
            invariant
                i <= self.edge_to@.len(),
                crate::graph::edge_weighted_graph::pointees(edges@) == linked_edges(
                    self.edge_to@,
                    i as int,
                ),
            decreases self.edge_to@.len() - i,
        {
            let ghost before = crate::graph::edge_weighted_graph::pointees(edges@);
            if let Some(e) = &self.edge_to[i] {
                edges.push(share(e));
                proof {
                    assert(crate::graph::edge_weighted_graph::pointees(edges@) =~= before.push(**e));
                }
            }
            i += 1;
        }
        edges
    }
}

} // verus!
