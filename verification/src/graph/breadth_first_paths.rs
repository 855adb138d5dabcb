//! Paths from one vertex, found by breadth-first search.

use crate::graph::depth_first_paths::{
    hangs, is_tree, lemma_tree_reach, levelled, path_along, walk,
};
use crate::graph::graph::{
    closed_marks, count_true, has_edge, is_path, lemma_closed_holds_reachable, lemma_count_bound,
    lemma_count_set, reachable, Graph,
};
use std::collections::VecDeque;
use vstd::prelude::*;

verus! {

/// For every vertex that a breadth-first search from a source has reached,
/// the vertex from which it was reached.
pub struct BreadthFirstPaths {
    marked: Vec<bool>,
    edge_to: Vec<Option<usize>>,
    s: usize,
    g: Ghost<Seq<Seq<usize>>>,
    depth: Ghost<Seq<nat>>,
}

/// `x` waits in `queue`.
spec fn waits(queue: Seq<usize>, x: int) -> bool {
    exists|j: int| 0 <= j < queue.len() && #[trigger] queue[j] == x
}

/// Every marked vertex other than `v` waits in `queue` or has its neighbours
/// marked.
spec fn explored(g: Seq<Seq<usize>>, marked: Seq<bool>, queue: Seq<usize>, v: int) -> bool {
    forall|x: int, k: int|
        #![trigger g[x][k]]
        0 <= x < g.len() && x != v && marked[x] && !waits(queue, x) && 0 <= k
            < g[x].len() ==> marked[g[x][k] as int]
}

/// No neighbour of a marked vertex other than `v` that does not wait in
/// `queue` is more than one deeper than it.
spec fn stepped(
    g: Seq<Seq<usize>>,
    marked: Seq<bool>,
    depth: Seq<nat>,
    queue: Seq<usize>,
    v: int,
) -> bool {
    forall|x: int, k: int|
        #![trigger g[x][k]]
        0 <= x < g.len() && x != v && marked[x] && !waits(queue, x) && 0 <= k < g[x].len()
            ==> depth[g[x][k] as int] <= depth[x] + 1
}

/// The vertices in `queue` stand in the order of their depths, the last of
/// them is at most one deeper than the first, and no marked vertex that
/// does not wait is deeper than one that waits.
spec fn in_order(marked: Seq<bool>, depth: Seq<nat>, queue: Seq<usize>) -> bool {
    &&& forall|i: int, j: int|
        #![trigger queue[i], queue[j]]
        0 <= i < j < queue.len() ==> depth[queue[i] as int] <= depth[queue[j] as int]
    &&& forall|i: int, j: int|
        #![trigger queue[i], queue[j]]
        0 <= i < queue.len() && 0 <= j < queue.len() ==> depth[queue[j] as int] <= depth[queue[i] as int]
            + 1
    &&& forall|x: int, j: int|
        #![trigger marked[x], queue[j]]
        0 <= x < marked.len() && marked[x] && !waits(queue, x) && 0 <= j < queue.len()
            ==> depth[x] <= depth[queue[j] as int]
}

/// In a graph in which no neighbour of a marked vertex is more than one
/// deeper than it, a vertex is no deeper than a walk to it from a vertex of
/// depth zero has edges.
proof fn lemma_depth_bound(
    g: Seq<Seq<usize>>,
    marked: Seq<bool>,
    depth: Seq<nat>,
    p: Seq<int>,
    i: int,
)
    requires
        marked.len() == g.len(),
        depth.len() == g.len(),
        closed_marks(g, marked),
        stepped(g, marked, depth, Seq::empty(), -1),
        crate::graph::graph::is_path(g, p),
        marked[p[0]],
        depth[p[0]] == 0,
        0 <= i < p.len(),
    ensures
        0 <= p[i] < g.len(),
        marked[p[i]],
        depth[p[i]] <= i,
    decreases i,
{
    if i > 0 {
        lemma_depth_bound(g, marked, depth, p, i - 1);
        assert(has_edge(g, p[i - 1], p[i - 1 + 1]));
        let x = p[i - 1];
        let k = choose|k: int| 0 <= k < g[x].len() && #[trigger] g[x][k] == p[i];
        assert(marked[g[x][k] as int]);
        assert(!waits(Seq::<usize>::empty(), x));
        assert(depth[g[x][k] as int] <= depth[x] + 1);
    }
}

impl BreadthFirstPaths {
    /// The mark of each vertex.
    pub closed spec fn marks(&self) -> Seq<bool> {
        self.marked@
    }

    /// The graph that was searched.
    pub closed spec fn graph(&self) -> Seq<Seq<usize>> {
        self.g@
    }

    /// The vertex at which the search started.
    pub closed spec fn source(&self) -> int {
        self.s as int
    }

    /// The links from the marked vertices towards the source make a tree in
    /// the graph in which every vertex hangs as high as the graph allows,
    /// and the source is marked.
    pub closed spec fn wf(&self) -> bool {
        &&& is_tree(self.g@, self.marked@, self.edge_to@, self.s as int, self.depth@)
        &&& self.marked@[self.s as int]
        &&& levelled(self.marked@, self.edge_to@, self.s as int, self.depth@)
        &&& closed_marks(self.g@, self.marked@)
        &&& stepped(self.g@, self.marked@, self.depth@, Seq::empty(), -1)
    }

    /// Searches `g` breadth first from `s`: marks what is reachable from
    /// `s`, and nothing else, and notes for each vertex from where it was
    /// reached.
    pub fn new(g: &Graph, s: usize) -> (r: Self)
        requires
            g.wf(),
            s < g@.len(),
        ensures
            r.wf(),
            r.graph() == g@,
            r.source() == s,
            r.marks().len() == g@.len(),
            forall|v: int| 0 <= v < g@.len() ==> (r.marks()[v] <==> reachable(g@, s as int, v)),
    {
        let n = g.v();
        let mut this = BreadthFirstPaths {
            marked: Vec::with_capacity(n),
            edge_to: Vec::with_capacity(n),
            s,
            g: Ghost(g@),
            depth: Ghost(Seq::new(n as nat, |i: int| 0nat)),
        };
        let mut i: usize = 0;
        while i < n
            invariant
                i <= n,
                n == g@.len(),
                this.marked@.len() == i,
                this.edge_to@.len() == i,
                this.s == s,
                this.g@ == g@,
                this.depth@.len() == n,
                this.depth@[s as int] == 0,
                forall|k: int| 0 <= k < i ==> !this.marked@[k],
            decreases n - i,
        {
            this.marked.push(false);
            this.edge_to.push(None);
            i += 1;
        }
        this.bfs(g, s);
        proof {
            assert forall|v: int| 0 <= v < g@.len() implies (this.marked@[v] <==> reachable(
                g@,
                s as int,
                v,
            )) by {
                if reachable(g@, s as int, v) {
                    lemma_closed_holds_reachable(g@, this.marked@, s as int, v);
                }
                if this.marked@[v] {
                    lemma_tree_reach(g@, this.marked@, this.edge_to@, s as int, this.depth@, v);
                }
            }
        }
        this
    }

    /// Marks `s` and then, in the order in which they were marked, the
    /// unmarked neighbours of every marked vertex.
    fn bfs(&mut self, g: &Graph, s: usize)
        requires
            g.wf(),
            old(self).g@ == g@,
            old(self).s == s,
            s < g@.len(),
            old(self).marked@.len() == g@.len(),
            old(self).edge_to@.len() == g@.len(),
            old(self).depth@.len() == g@.len(),
            old(self).depth@[s as int] == 0,
            forall|k: int| 0 <= k < g@.len() ==> !old(self).marked@[k],
        ensures
            final(self).g@ == g@,
            final(self).s == s,
            is_tree(g@, final(self).marked@, final(self).edge_to@, s as int, final(self).depth@),
            final(self).marked@[s as int],
            closed_marks(g@, final(self).marked@),
            levelled(final(self).marked@, final(self).edge_to@, s as int, final(self).depth@),
            stepped(g@, final(self).marked@, final(self).depth@, Seq::empty(), -1),
    {
        let ghost n = g@.len() as int;
        let mut queue: VecDeque<usize> = VecDeque::new();
        queue.push_back(s);
        self.marked[s] = true;
        proof {
            assert(queue@[0] == s);
            assert(waits(queue@, s as int));
            lemma_count_bound(self.marked@, n);
        }
        while queue.len() > 0
            invariant
                g.wf(),
                self.g@ == g@,
                self.s == s,
                n == g@.len(),
                s < n,
                is_tree(g@, self.marked@, self.edge_to@, s as int, self.depth@),
                levelled(self.marked@, self.edge_to@, s as int, self.depth@),
                self.marked@[s as int],
                forall|j: int|
                    0 <= j < queue@.len() ==> (#[trigger] queue@[j]) < n && self.marked@[queue@[j] as int],
                explored(g@, self.marked@, queue@, -1),
                stepped(g@, self.marked@, self.depth@, queue@, -1),
                in_order(self.marked@, self.depth@, queue@),
                queue@.no_duplicates(),
            decreases 2 * (n - count_true(self.marked@, n)) + queue@.len(),
        {
            let ghost q0 = queue@;
            let ghost measure = 2 * (n - count_true(self.marked@, n)) + q0.len();
            let v = queue.pop_front().unwrap();
            proof {
                assert(q0[0] == v);
                assert(!waits(queue@, v as int)) by {
                    if waits(queue@, v as int) {
                        let j = choose|j: int| 0 <= j < queue@.len() && #[trigger] queue@[j] == v as int;
                        assert(q0[j + 1] == q0[0]);
                    }
                }
                assert(queue@.no_duplicates()) by {
                    assert forall|a: int, b: int|
                        0 <= a < queue@.len() && 0 <= b < queue@.len() && a != b implies queue@[a]
                        != queue@[b] by {
                        assert(queue@[a] == q0[a + 1] && queue@[b] == q0[b + 1]);
                    }
                }
                assert forall|x: int| x != v && waits(q0, x) implies waits(queue@, x) by {
                    let j = choose|j: int| 0 <= j < q0.len() && #[trigger] q0[j] == x;
                    assert(queue@[j - 1] == x);
                }
                assert forall|j: int| 0 <= j < queue@.len() implies (#[trigger] queue@[j]) < n
                    && self.marked@[queue@[j] as int] && queue@[j] == q0[j + 1] by {
                    assert(queue@[j] == q0[j + 1]);
                }
                assert forall|x: int, j: int|
                    #![trigger self.marked@[x], queue@[j]]
                    0 <= x < n && self.marked@[x] && !waits(queue@, x) && 0 <= j
                        < queue@.len() implies self.depth@[x] <= self.depth@[queue@[j] as int] by {
                    assert(queue@[j] == q0[j + 1]);
                    if x == v {
                        assert(self.depth@[q0[0] as int] <= self.depth@[q0[j + 1] as int]);
                    } else {
                        assert(!waits(q0, x));
                    }
                }
                assert forall|x: int| 0 <= x < n && self.marked@[x] && !waits(
                    queue@,
                    x,
                ) implies self.depth@[x] <= self.depth@[v as int] by {
                    if x != v {
                        assert(!waits(q0, x));
                        assert(self.marked@[x]);
                        assert(self.depth@[x] <= self.depth@[q0[0] as int]);
                    }
                }
                assert forall|j: int| 0 <= j < queue@.len() implies self.depth@[(
                #[trigger] queue@[j]) as int] <= self.depth@[v as int] + 1 by {
                    assert(queue@[j] == q0[j + 1]);
                    assert(self.depth@[q0[j + 1] as int] <= self.depth@[q0[0] as int] + 1);
                }
                lemma_count_bound(self.marked@, n);
            }
            let list = g.adj(v);
            let mut i: usize = 0;
            while i < list.len()
                invariant
                    g.wf(),
                    self.g@ == g@,
                    self.s == s,
                    n == g@.len(),
                    s < n,
                    v < n,
                    list@ == g@[v as int],
                    i <= list@.len(),
                    is_tree(g@, self.marked@, self.edge_to@, s as int, self.depth@),
                    levelled(self.marked@, self.edge_to@, s as int, self.depth@),
                    self.marked@[s as int],
                    self.marked@[v as int],
                    !waits(queue@, v as int),
                    forall|j: int|
                        0 <= j < queue@.len() ==> (#[trigger] queue@[j]) < n && self.marked@[queue@[j] as int],
                    explored(g@, self.marked@, queue@, v as int),
                    stepped(g@, self.marked@, self.depth@, queue@, v as int),
                    in_order(self.marked@, self.depth@, queue@),
                    queue@.no_duplicates(),
                    forall|x: int|
                        0 <= x < n && self.marked@[x] && !waits(queue@, x) ==> self.depth@[x]
                            <= self.depth@[v as int],
                    forall|j: int|
                        0 <= j < queue@.len() ==> self.depth@[(#[trigger] queue@[j]) as int]
                            <= self.depth@[v as int] + 1,
                    forall|k: int|
                        0 <= k < i ==> self.marked@[(#[trigger] list@[k]) as int]
                            && self.depth@[list@[k] as int] <= self.depth@[v as int] + 1,
                    2 * (n - count_true(self.marked@, n)) + queue@.len() < measure,
                    0 <= n - count_true(self.marked@, n),
                decreases list@.len() - i,
            {
                let w = list[i];
                proof {
                    g.lemma_neighbours(v as int, i as int);
                    assert(g@[v as int][i as int] == w);
                    assert(has_edge(g@, v as int, w as int));
                }
                if !self.marked[w] {
                    let ghost m2 = self.marked@;
                    let ghost e2 = self.edge_to@;
                    let ghost d2 = self.depth@;
                    let ghost q2 = queue@;
                    self.edge_to[w] = Some(v);
                    self.marked[w] = true;
                    self.depth = Ghost(d2.update(w as int, d2[v as int] + 1));
                    queue.push_back(w);
                    proof {
                        lemma_count_set(m2, n, w as int);
                        lemma_count_bound(self.marked@, n);
                        let m3 = self.marked@;
                        let d3 = self.depth@;
                        assert(queue@[q2.len() as int] == w);
                        assert forall|x: int| waits(q2, x) implies waits(queue@, x) by {
                            let j = choose|j: int| 0 <= j < q2.len() && #[trigger] q2[j] == x;
                            assert(queue@[j] == x);
                        }
                        assert forall|x: int| waits(queue@, x) && x != w implies waits(q2, x) by {
                            let j = choose|j: int| 0 <= j < queue@.len() && #[trigger] queue@[j] == x;
                            assert(q2[j] == x);
                        }
                        assert(waits(queue@, w as int));
                        assert(queue@.no_duplicates()) by {
                            assert forall|a: int, b: int|
                                0 <= a < queue@.len() && 0 <= b < queue@.len() && a
                                    != b implies queue@[a] != queue@[b] by {
                                if a < q2.len() {
                                    assert(queue@[a] == q2[a]);
                                    assert(m2[q2[a] as int]);
                                }
                                if b < q2.len() {
                                    assert(queue@[b] == q2[b]);
                                    assert(m2[q2[b] as int]);
                                }
                            }
                        }
                        assert forall|x: int| 0 <= x < n && m3[x] && x != s implies #[trigger] hangs(
                            g@,
                            m3,
                            self.edge_to@,
                            d3,
                            x,
                        ) by {
                            if x != w {
                                assert(hangs(g@, m2, e2, d2, x));
                            }
                        }
                        assert forall|x: int|
                            0 <= x < m3.len() && m3[x] && x != s && (
                            #[trigger] self.edge_to@[x]) is Some implies d3[x] == d3[self.edge_to@[x].unwrap() as int]
                            + 1 by {
                            if x != w {
                                assert(hangs(g@, m2, e2, d2, x));
                                assert(e2[x] is Some);
                            }
                        }
                        assert forall|j: int| 0 <= j < queue@.len() implies (#[trigger] queue@[j])
                            < n && m3[queue@[j] as int] && d3[queue@[j] as int] <= d3[v as int]
                            + 1 by {
                            if j < q2.len() {
                                assert(queue@[j] == q2[j]);
                                assert(m2[q2[j] as int]);
                            }
                        }
                        assert forall|x: int, k: int|
                            #![trigger g@[x][k]]
                            0 <= x < n && x != v && m3[x] && !waits(queue@, x) && 0 <= k
                                < g@[x].len() implies m3[g@[x][k] as int] && d3[g@[x][k] as int]
                            <= d3[x] + 1 by {
                            g.lemma_neighbours(x, k);
                            assert(x != w);
                            assert(!waits(q2, x));
                            assert(m2[g@[x][k] as int]);
                            assert(d2[g@[x][k] as int] <= d2[x] + 1);
                        }
                        assert forall|a: int, b: int|
                            #![trigger queue@[a], queue@[b]]
                            0 <= a < b < queue@.len() implies d3[queue@[a] as int] <= d3[queue@[b] as int] by {
                            assert(queue@[a] == q2[a]);
                            assert(m2[q2[a] as int]);
                            if b < q2.len() {
                                assert(queue@[b] == q2[b]);
                                assert(m2[q2[b] as int]);
                                assert(d2[q2[a] as int] <= d2[q2[b] as int]);
                            } else {
                                assert(d2[q2[a] as int] <= d2[v as int] + 1);
                            }
                        }
                        assert forall|a: int, b: int|
                            #![trigger queue@[a], queue@[b]]
                            0 <= a < queue@.len() && 0 <= b < queue@.len() implies d3[queue@[b] as int]
                            <= d3[queue@[a] as int] + 1 by {
                            if a < q2.len() {
                                assert(queue@[a] == q2[a]);
                                assert(m2[q2[a] as int]);
                                assert(d2[v as int] <= d2[q2[a] as int]);
                            }
                            if b < q2.len() {
                                assert(queue@[b] == q2[b]);
                                assert(m2[q2[b] as int]);
                                assert(d2[q2[b] as int] <= d2[v as int] + 1);
                                if a < q2.len() {
                                    assert(d2[q2[b] as int] <= d2[q2[a] as int] + 1);
                                }
                            }
                        }
                        assert forall|x: int, j: int|
                            #![trigger m3[x], queue@[j]]
                            0 <= x < n && m3[x] && !waits(queue@, x) && 0 <= j
                                < queue@.len() implies d3[x] <= d3[queue@[j] as int] by {
                            assert(x != w);
                            assert(!waits(q2, x));
                            assert(m2[x]);
                            assert(d2[x] <= d2[v as int]);
                            if j < q2.len() {
                                assert(queue@[j] == q2[j]);
                                assert(m2[q2[j] as int]);
                                assert(d2[x] <= d2[q2[j] as int]);
                            }
                        }
                        assert forall|x: int| 0 <= x < n && m3[x] && !waits(
                            queue@,
                            x,
                        ) implies d3[x] <= d3[v as int] by {
                            assert(x != w);
                            assert(!waits(q2, x));
                        }
                        assert forall|k: int| 0 <= k < i + 1 implies m3[(#[trigger] list@[k]) as int]
                            && d3[list@[k] as int] <= d3[v as int] + 1 by {
                            g.lemma_neighbours(v as int, k);
                            if k < i {
                                assert(m2[list@[k] as int]);
                            }
                        }
                    }
                } else {
                    proof {
                        if waits(queue@, w as int) {
                            let j = choose|j: int|
                                0 <= j < queue@.len() && #[trigger] queue@[j] == w as int;
                            assert(self.depth@[queue@[j] as int] <= self.depth@[v as int] + 1);
                        }
                    }
                }
                i += 1;
            }
            proof {
                assert forall|x: int, k: int|
                    #![trigger g@[x][k]]
                    0 <= x < n && x != -1 && self.marked@[x] && !waits(queue@, x) && 0 <= k
                        < g@[x].len() implies self.marked@[g@[x][k] as int]
                    && self.depth@[g@[x][k] as int] <= self.depth@[x] + 1 by {
                    if x == v {
                        assert(self.marked@[list@[k] as int]);
                    }
                }
            }
        }
        proof {
            assert forall|x: int, k: int|
                #![trigger g@[x][k]]
                0 <= x < n && self.marked@[x] && 0 <= k < g@[x].len() implies self.marked@[g@[x][k] as int]
                && self.depth@[g@[x][k] as int] <= self.depth@[x] + 1 by {
                assert(!waits(queue@, x));
            }
            assert forall|x: int, k: int|
                #![trigger g@[x][k]]
                0 <= x < n && x != -1 && self.marked@[x] && !waits(Seq::<usize>::empty(), x) && 0
                    <= k < g@[x].len() implies self.depth@[g@[x][k] as int] <= self.depth@[x] + 1 by {
                assert(!waits(queue@, x));
            }
        }
    }

    /// Whether a walk leads from the source to `v`.
    pub fn has_path_to(&self, v: usize) -> (r: bool)
        requires
            v < self.marks().len(),
        ensures
            r == self.marks()[v as int],
    {
        self.marked[v]
    }

    /// The walk from the source to `s` along which the search reached `s`,
    /// which no walk from the source to `s` is shorter than; `None` where
    /// the search did not reach `s`.
    pub fn path_to(&self, s: usize) -> (r: Option<Vec<usize>>)
        requires
            self.wf(),
            s < self.marks().len(),
        ensures
            match r {
                Some(p) => self.marks()[s as int] && is_path(self.graph(), walk(p@)) && walk(
                    p@,
                ).first() == self.source() && walk(p@).last() == s && p@.no_duplicates()
                    && forall|q: Seq<int>|
                    is_path(self.graph(), q) && #[trigger] q.first() == self.source() && q.last()
                        == s ==> p@.len() <= q.len(),
                None => !self.marks()[s as int],
            },
    {
        if !self.has_path_to(s) {
            return None;
        }
        let p = path_along(
            &self.marked,
            &self.edge_to,
            self.s,
            s,
            Ghost(self.g@),
            Ghost(self.depth@),
        );
        proof {
            assert forall|q: Seq<int>|
                is_path(self.g@, q) && #[trigger] q.first() == self.s && q.last() == s implies p@.len()
                <= q.len() by {
                lemma_depth_bound(self.g@, self.marked@, self.depth@, q, q.len() - 1);
            }
        }
        Some(p)
    }
}

} // verus!
