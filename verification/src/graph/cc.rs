//! The connected components of a graph.

use crate::graph::graph::{
    count_true, has_edge, is_path, lemma_count_bound, lemma_count_grows, lemma_reach_self,
    lemma_reach_step, lemma_reach_symmetric, lemma_reach_transitive, reachable, Graph,
};
use vstd::prelude::*;

verus! {

/// The connected components of a graph, numbered from zero in the order of
/// their least vertices.
pub struct CC {
    marked: Vec<bool>,
    id: Vec<usize>,
    count: usize,
}

/// The numbers `id` of the marked vertices are the same along every edge
/// that starts at a marked vertex, and the neighbours of the marked are
/// marked.
spec fn settled(g: Seq<Seq<usize>>, marked: Seq<bool>, id: Seq<usize>) -> bool {
    forall|x: int, k: int|
        #![trigger g[x][k]]
        0 <= x < g.len() && marked[x] && 0 <= k < g[x].len() ==> marked[g[x][k] as int]
            && id[g[x][k] as int] == id[x]
}

/// Some vertex has the number `c`.
pub open spec fn numbered(ids: Seq<usize>, c: int) -> bool {
    exists|v: int| 0 <= v < ids.len() && #[trigger] ids[v] == c
}

/// Some vertex before `v` has the number `c`.
pub open spec fn numbered_before(ids: Seq<usize>, v: int, c: int) -> bool {
    exists|u: int| 0 <= u < v && u < ids.len() && #[trigger] ids[u] == c
}

/// Some marked vertex before `v` has the number `c`.
spec fn marked_before(marked: Seq<bool>, ids: Seq<usize>, v: int, c: int) -> bool {
    exists|u: int| 0 <= u < v && u < ids.len() && marked[u] && #[trigger] ids[u] == c
}

/// Along a walk that starts at a marked vertex the number stays the same.
proof fn lemma_settled_along(
    g: Seq<Seq<usize>>,
    marked: Seq<bool>,
    id: Seq<usize>,
    p: Seq<int>,
    i: int,
)
    requires
        marked.len() == g.len(),
        id.len() == g.len(),
        settled(g, marked, id),
        is_path(g, p),
        marked[p[0]],
        0 <= i < p.len(),
    ensures
        0 <= p[i] < g.len(),
        marked[p[i]],
        id[p[i]] == id[p[0]],
    decreases i,
{
    if i > 0 {
        lemma_settled_along(g, marked, id, p, i - 1);
        assert(has_edge(g, p[i - 1], p[i - 1 + 1]));
        let x = p[i - 1];
        let k = choose|k: int| 0 <= k < g[x].len() && #[trigger] g[x][k] == p[i];
        assert(marked[g[x][k] as int]);
    }
}

impl CC {
    /// The number of the component of each vertex.
    pub closed spec fn ids(&self) -> Seq<usize> {
        self.id@
    }

    /// The number of components, as `count` reports it.
    pub closed spec fn components(&self) -> int {
        self.count as int
    }

    /// Numbers the components of `g`: two vertices get one number where a
    /// walk leads from one to the other, and nowhere else; the numbers are
    /// those below the number of components, and each of them is used. The
    /// components are numbered in the order of their least vertices: every
    /// number below that of a vertex is the number of a vertex before it.
    pub fn new(g: &Graph) -> (r: Self)
        requires
            g.wf(),
        ensures
            r.ids().len() == g@.len(),
            forall|v: int| 0 <= v < g@.len() ==> (#[trigger] r.ids()[v]) < r.components(),
            forall|v: int, w: int|
                #![trigger r.ids()[v], r.ids()[w]]
                0 <= v < g@.len() && 0 <= w < g@.len() ==> (r.ids()[v] == r.ids()[w] <==> reachable(
                    g@,
                    v,
                    w,
                )),
            forall|c: int| 0 <= c < r.components() ==> #[trigger] numbered(r.ids(), c),
            forall|v: int, c: int|
                0 <= v < g@.len() && 0 <= c < r.ids()[v] ==> #[trigger] numbered_before(
                    r.ids(),
                    v,
                    c,
                ),
    {
        let n = g.v();
        let mut this = CC { marked: Vec::with_capacity(n), id: Vec::with_capacity(n), count: 0 };
        let mut i: usize = 0;
        while i < n
            invariant
                i <= n,
                this.marked@.len() == i,
                this.id@.len() == i,
                this.count == 0,
                forall|k: int| 0 <= k < i ==> !this.marked@[k],
            decreases n - i,
        {
            this.marked.push(false);
            this.id.push(0);
            i += 1;
        }
        proof {
            g.lemma_symmetric();
        }
        let mut v: usize = 0;
        while v < n
            invariant
                g.wf(),
                n == g@.len(),
                v <= n,
                this.marked@.len() == n,
                this.id@.len() == n,
                this.count <= v,
                forall|x: int| 0 <= x < v ==> this.marked@[x],
                forall|x: int| 0 <= x < n && this.marked@[x] ==> (#[trigger] this.id@[x]) < this.count,
                settled(g@, this.marked@, this.id@),
                forall|x: int, y: int|
                    #![trigger this.id@[x], this.id@[y]]
                    0 <= x < n && 0 <= y < n && this.marked@[x] && this.marked@[y] && this.id@[x]
                        == this.id@[y] ==> reachable(g@, x, y),
                forall|c: int|
                    0 <= c < this.count ==> #[trigger] marked_before(
                        this.marked@,
                        this.id@,
                        v as int,
                        c,
                    ),
                forall|x: int, c: int|
                    0 <= x < n && this.marked@[x] && 0 <= c < this.id@[x] ==> #[trigger] marked_before(
                        this.marked@,
                        this.id@,
                        x,
                        c,
                    ),
            decreases n - v,
        {
            if !this.marked[v] {
                let ghost m0 = this.marked@;
                let ghost id0 = this.id@;
                this.dfs(g, v);
                let ghost m1 = this.marked@;
                let ghost id1 = this.id@;
                let ghost c = this.count as int;
                proof {
                    g.lemma_symmetric();
                    assert forall|x: int| 0 <= x < n && m0[x] implies m1[x] && #[trigger] id1[x]
                        == id0[x] by {}
                    assert forall|x: int| 0 <= x < n && m1[x] && !m0[x] implies reachable(
                        g@,
                        v as int,
                        x,
                    ) && #[trigger] id1[x] == c by {}
                    assert forall|x: int| 0 <= x < n && m1[x] implies (#[trigger] id1[x]) < c + 1 by {
                        if m0[x] {
                            assert(id0[x] < c);
                        }
                    }
                    assert forall|x: int, k: int|
                        #![trigger g@[x][k]]
                        0 <= x < n && m1[x] && 0 <= k < g@[x].len() implies m1[g@[x][k] as int]
                        && id1[g@[x][k] as int] == id1[x] by {
                        let y = g@[x][k] as int;
                        g.lemma_neighbours(x, k);
                        if m0[x] {
                            assert(m0[y] && id0[y] == id0[x]);
                            assert(id1[y] == id0[y] && id1[x] == id0[x]);
                        } else {
                            assert(m1[y]);
                            assert(id1[x] == c);
                            if m0[y] {
                                assert(has_edge(g@, y, x));
                                let k2 = choose|k2: int|
                                    0 <= k2 < g@[y].len() && #[trigger] g@[y][k2] == x;
                                assert(m0[g@[y][k2] as int]);
                                assert(false);
                            }
                            assert(id1[y] == c);
                        }
                    }
                    assert forall|x: int, y: int|
                        #![trigger id1[x], id1[y]]
                        0 <= x < n && 0 <= y < n && m1[x] && m1[y] && id1[x]
                            == id1[y] implies reachable(g@, x, y) by {
                        if m0[x] && m0[y] {
                            assert(id1[x] == id0[x] && id1[y] == id0[y]);
                            assert(id0[x] == id0[y]);
                        } else if !m0[x] && !m0[y] {
                            assert(reachable(g@, v as int, x));
                            assert(reachable(g@, v as int, y));
                            assert forall|a: int, k: int|
                                0 <= a < g@.len() && 0 <= k < g@[a].len() implies (
                            #[trigger] g@[a][k]) < g@.len() by {
                                g.lemma_neighbours(a, k);
                            }
                            lemma_reach_symmetric(g@, v as int, x);
                            lemma_reach_transitive(g@, x, v as int, y);
                        } else if m0[x] {
                            assert(id1[x] == id0[x] && id0[x] < c && id1[y] == c);
                        } else {
                            assert(id1[y] == id0[y] && id0[y] < c && id1[x] == c);
                        }
                    }
                    assert forall|d: int| 0 <= d < c + 1 implies #[trigger] marked_before(
                        m1,
                        id1,
                        v + 1,
                        d,
                    ) by {
                        if d < c {
                            assert(marked_before(m0, id0, v as int, d));
                            let x = choose|x: int|
                                0 <= x < v && x < id0.len() && m0[x] && #[trigger] id0[x] == d;
                            assert(m1[x] && id1[x] == d);
                        } else {
                            assert(m1[v as int] && id1[v as int] == d);
                        }
                    }
                    assert forall|x: int, d: int|
                        0 <= x < n && m1[x] && 0 <= d < id1[x] implies #[trigger] marked_before(
                        m1,
                        id1,
                        x,
                        d,
                    ) by {
                        if m0[x] {
                            assert(id1[x] == id0[x]);
                            assert(marked_before(m0, id0, x, d));
                            let u = choose|u: int|
                                0 <= u < x && u < id0.len() && m0[u] && #[trigger] id0[u] == d;
                            assert(m1[u] && id1[u] == d);
                        } else {
                            assert(id1[x] == c);
                            assert(x >= v);
                            assert(marked_before(m0, id0, v as int, d));
                            let u = choose|u: int|
                                0 <= u < v && u < id0.len() && m0[u] && #[trigger] id0[u] == d;
                            assert(m1[u] && id1[u] == d);
                        }
                    }
                }
                this.count += 1;
            } else {
                proof {
                    let m = this.marked@;
                    let id = this.id@;
                    assert forall|d: int| 0 <= d < this.count implies #[trigger] marked_before(
                        m,
                        id,
                        v + 1,
                        d,
                    ) by {
                        assert(marked_before(m, id, v as int, d));
                        let u = choose|u: int|
                            0 <= u < v && u < id.len() && m[u] && #[trigger] id[u] == d;
                        assert(m[u] && id[u] == d);
                    }
                }
            }
            v += 1;
        }
        proof {
            let m = this.marked@;
            let id = this.id@;
            assert forall|a: int, b: int|
                #![trigger id[a], id[b]]
                0 <= a < n && 0 <= b < n && reachable(g@, a, b) implies id[a] == id[b] by {
                let p = choose|p: Seq<int>|
                    is_path(g@, p) && #[trigger] p.first() == a && p.last() == b;
                lemma_settled_along(g@, m, id, p, p.len() - 1);
            }
            assert forall|c: int| 0 <= c < this.count implies #[trigger] numbered(id, c) by {
                assert(marked_before(m, id, n as int, c));
                let x = choose|x: int|
                    0 <= x < n && x < id.len() && m[x] && #[trigger] id[x] == c;
                assert(id[x] == c);
            }
            assert forall|x: int, c: int| 0 <= x < n && 0 <= c < id[x] implies #[trigger] numbered_before(
                id,
                x,
                c,
            ) by {
                assert(marked_before(m, id, x, c));
                let u = choose|u: int|
                    0 <= u < x && u < id.len() && m[u] && #[trigger] id[u] == c;
                assert(id[u] == c);
            }
        }
        this
    }

    /// Marks `v` and what can be reached from it through unmarked vertices
    /// and gives them the number of the component that is being explored.
    fn dfs(&mut self, g: &Graph, v: usize)
        requires
            g.wf(),
            old(self).marked@.len() == g@.len(),
            old(self).id@.len() == g@.len(),
            v < g@.len(),
            !old(self).marked@[v as int],
        ensures
            final(self).marked@.len() == g@.len(),
            final(self).id@.len() == g@.len(),
            final(self).count == old(self).count,
            final(self).marked@[v as int],
            forall|x: int|
                0 <= x < g@.len() && old(self).marked@[x] ==> final(self).marked@[x] && final(self).id@[x] == old(self).id@[x],
            forall|x: int|
                0 <= x < g@.len() && final(self).marked@[x] && !old(self).marked@[x] ==> reachable(
                    g@,
                    v as int,
                    x,
                ) && final(self).id@[x] == old(self).count,
            forall|x: int, k: int|
                #![trigger g@[x][k]]
                0 <= x < g@.len() && final(self).marked@[x] && !old(self).marked@[x] && 0 <= k
                    < g@[x].len() ==> final(self).marked@[g@[x][k] as int],
        decreases g@.len() - count_true(old(self).marked@, g@.len() as int),
    {
        let ghost n = g@.len() as int;
        let ghost m0 = self.marked@;
        let ghost id0 = self.id@;
        self.marked[v] = true;
        self.id[v] = self.count;
        proof {
            lemma_reach_self(g@, v as int);
        }
        let list = g.adj(v);
        let mut i: usize = 0;
        while i < list.len()
            invariant
                g.wf(),
                n == g@.len(),
                v < n,
                list@ == g@[v as int],
                i <= list@.len(),
                m0 == old(self).marked@,
                id0 == old(self).id@,
                m0.len() == n,
                !m0[v as int],
                self.marked@.len() == n,
                self.id@.len() == n,
                self.count == old(self).count,
                self.marked@[v as int],
                forall|x: int|
                    0 <= x < n && m0[x] ==> self.marked@[x] && self.id@[x] == id0[x],
                forall|x: int|
                    0 <= x < n && self.marked@[x] && !m0[x] ==> reachable(g@, v as int, x)
                        && self.id@[x] == self.count,
                forall|x: int, k: int|
                    #![trigger g@[x][k]]
                    0 <= x < n && x != v && self.marked@[x] && !m0[x] && 0 <= k < g@[x].len()
                        ==> self.marked@[g@[x][k] as int],
                forall|k: int| 0 <= k < i ==> self.marked@[(#[trigger] list@[k]) as int],
            decreases list@.len() - i,
        {
            let w = list[i];
            proof {
                g.lemma_neighbours(v as int, i as int);
                assert(g@[v as int][i as int] == w);
                assert(has_edge(g@, v as int, w as int));
            }
            if !self.marked[w] {
                let ghost m2 = self.marked@;
                proof {
                    lemma_count_grows(m0, m2, n, v as int);
                    lemma_count_bound(m2, n);
                }
                self.dfs(g, w);
                proof {
                    let m3 = self.marked@;
                    assert forall|x: int| 0 <= x < n && m3[x] && !m0[x] implies reachable(
                        g@,
                        v as int,
                        x,
                    ) && self.id@[x] == self.count by {
                        if !m2[x] {
                            lemma_reach_step(g@, v as int, w as int, x);
                        }
                    }
                    assert forall|x: int, k: int|
                        #![trigger g@[x][k]]
                        0 <= x < n && x != v && m3[x] && !m0[x] && 0 <= k
                            < g@[x].len() implies m3[g@[x][k] as int] by {
                        if m2[x] {
                            assert(m2[g@[x][k] as int]);
                            g.lemma_neighbours(x, k);
                        }
                    }
                    assert forall|k: int| 0 <= k < i + 1 implies m3[(#[trigger] list@[k]) as int] by {
                        g.lemma_neighbours(v as int, k);
                    }
                }
            }
            i += 1;
        }
    }

    /// Whether `v` and `w` are in one component.
    pub fn connected(&self, v: usize, w: usize) -> (r: bool)
        requires
            v < self.ids().len(),
            w < self.ids().len(),
        ensures
            r == (self.ids()[v as int] == self.ids()[w as int]),
    {
        self.id[v] == self.id[w]
    }

    /// The number of the component of each vertex.
    pub fn id(&self) -> (ids: &Vec<usize>)
        ensures
            ids@ == self.ids(),
    {
        &self.id
    }

    /// The number of components.
    pub fn count(&self) -> (n: usize)
        ensures
            n == self.components(),
    {
        self.count
    }
}

} // verus!
