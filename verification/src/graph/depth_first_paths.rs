//! Paths from one vertex, found by depth-first search.

use crate::graph::graph::{
    closed_marks, count_true, has_edge, is_path, lemma_closed_holds_reachable, lemma_count_bound,
    lemma_count_grows, lemma_reach_extend, lemma_reach_self, reachable, Graph,
};
use vstd::prelude::*;

verus! {

/// For every vertex that a depth-first search from a source has reached, the
/// vertex from which it was reached.
pub struct DepthFirstPaths {
    marked: Vec<bool>,
    edge_to: Vec<Option<usize>>,
    s: usize,
    g: Ghost<Seq<Seq<usize>>>,
    depth: Ghost<Seq<nat>>,
}

/// `x` hangs below a marked neighbour of lesser depth.
pub open spec fn hangs(
    g: Seq<Seq<usize>>,
    marked: Seq<bool>,
    edge_to: Seq<Option<usize>>,
    depth: Seq<nat>,
    x: int,
) -> bool {
    match edge_to[x] {
        Some(p) => p < g.len() && marked[p as int] && has_edge(g, p as int, x) && depth[p as int]
            < depth[x],
        None => false,
    }
}

/// The marked vertices other than `s` hang below marked neighbours: the
/// links `edge_to` make a tree with the root `s`.
pub open spec fn is_tree(
    g: Seq<Seq<usize>>,
    marked: Seq<bool>,
    edge_to: Seq<Option<usize>>,
    s: int,
    depth: Seq<nat>,
) -> bool {
    &&& marked.len() == g.len()
    &&& edge_to.len() == g.len()
    &&& depth.len() == g.len()
    &&& 0 <= s < g.len()
    &&& forall|x: int|
        0 <= x < g.len() && marked[x] && x != s ==> #[trigger] hangs(g, marked, edge_to, depth, x)
}

/// The depth of the root is zero, and every other marked vertex is one
/// deeper than the vertex it hangs below.
pub open spec fn levelled(
    marked: Seq<bool>,
    edge_to: Seq<Option<usize>>,
    s: int,
    depth: Seq<nat>,
) -> bool {
    &&& depth[s] == 0
    &&& forall|x: int|
        0 <= x < marked.len() && marked[x] && x != s && (#[trigger] edge_to[x]) is Some ==> depth[x]
            == depth[edge_to[x].unwrap() as int] + 1
}

/// The vertices of `p` as integers.
pub open spec fn walk(p: Seq<usize>) -> Seq<int> {
    p.map_values(|x: usize| x as int)
}

/// Every marked vertex of a tree is reachable from its root.
pub proof fn lemma_tree_reach(
    g: Seq<Seq<usize>>,
    marked: Seq<bool>,
    edge_to: Seq<Option<usize>>,
    s: int,
    depth: Seq<nat>,
    x: int,
)
    requires
        is_tree(g, marked, edge_to, s, depth),
        0 <= x < g.len(),
        marked[x],
    ensures
        reachable(g, s, x),
    decreases depth[x],
{
    if x == s {
        lemma_reach_self(g, s);
    } else {
        assert(hangs(g, marked, edge_to, depth, x));
        let p = edge_to[x].unwrap() as int;
        lemma_tree_reach(g, marked, edge_to, s, depth, p);
        lemma_reach_extend(g, s, p, x);
    }
}

/// Follows the links `edge_to` from `v` up to `s` and returns the vertices
/// passed in the order from `s` to `v`.
pub(crate) fn path_along(
    marked: &Vec<bool>,
    edge_to: &Vec<Option<usize>>,
    s: usize,
    v: usize,
    Ghost(g): Ghost<Seq<Seq<usize>>>,
    Ghost(depth): Ghost<Seq<nat>>,
) -> (res: Vec<usize>)
    requires
        is_tree(g, marked@, edge_to@, s as int, depth),
        v < g.len(),
        marked@[v as int],
    ensures
        is_path(g, walk(res@)),
        walk(res@).first() == s,
        walk(res@).last() == v,
        res@.no_duplicates(),
        levelled(marked@, edge_to@, s as int, depth) ==> res@.len() == depth[v as int] + 1,
{
    let mut res: Vec<usize> = Vec::new();
    let mut path: Vec<usize> = Vec::new();
    let mut x: usize = v;
    while x != s
        invariant
            is_tree(g, marked@, edge_to@, s as int, depth),
            levelled(marked@, edge_to@, s as int, depth) ==> path@.len() + depth[x as int]
                == depth[v as int],
            x < g.len(),
            v < g.len(),
            marked@[x as int],
            path@.len() == 0 ==> x == v,
            path@.len() > 0 ==> path@[0] == v && has_edge(g, x as int, path@.last() as int),
            forall|k: int|
                0 <= k < path@.len() - 1 ==> has_edge(g, path@[k + 1] as int, #[trigger] path@[k] as int),
            forall|k: int| 0 <= k < path@.len() ==> (#[trigger] path@[k]) < g.len(),
            forall|k: int|
                0 <= k < path@.len() ==> (#[trigger] path@[k]) != s && depth[path@[k] as int]
                    > depth[x as int],
            forall|a: int, b: int|
                #![trigger path@[a], path@[b]]
                0 <= a < b < path@.len() ==> depth[path@[a] as int] > depth[path@[b] as int],
        decreases depth[x as int],
    {
        proof {
            assert(hangs(g, marked@, edge_to@, depth, x as int));
        }
        path.push(x);
        x =
        match edge_to[x] {
            Some(p) => p,
            None => s,
        };
    }
    let ghost path_before = path@;
    path.push(s);
    let ghost chain = path@;
    let mut k: usize = path.len();
    while k > 0
        invariant
            k <= path@.len(),
            path@ == chain,
            res@.len() == chain.len() - k,
            forall|j: int| 0 <= j < res@.len() ==> #[trigger] res@[j] == chain[chain.len() - 1 - j],
        decreases k,
    {
        k -= 1;
        res.push(path[k]);
    }
    proof {
        let w = walk(res@);
        let n = chain.len() as int;
        assert(w.len() == n);
        assert forall|j: int| 0 <= j < n implies #[trigger] w[j] == chain[n - 1 - j] as int by {
            assert(res@[j] == chain[n - 1 - j]);
        }
        assert forall|i: int| 0 <= i < w.len() - 1 implies has_edge(g, #[trigger] w[i], w[i + 1]) by {
            let a = n - 2 - i;
            assert(w[i] == chain[a + 1] as int);
            assert(w[i + 1] == chain[a] as int);
            if a + 1 == n - 1 {
                assert(chain[a + 1] == s);
                assert(chain.subrange(0, n - 1).last() == chain[a]);
            } else {
                assert(has_edge(g, chain[a + 1] as int, chain[a] as int));
            }
        }
        assert(w[0] == chain[n - 1] as int);
        assert(w[n - 1] == chain[0] as int);
        assert forall|i: int, j: int| 0 <= i < j < res@.len() implies res@[i] != res@[j] by {
            assert(res@[i] == chain[n - 1 - i]);
            assert(res@[j] == chain[n - 1 - j]);
            if i > 0 {
                assert(depth[path_before[n - 1 - j] as int] > depth[path_before[n - 1 - i] as int]);
            } else {
                assert(path_before[n - 1 - j] != s);
            }
        }
    }
    res
}

impl DepthFirstPaths {
    /// The mark of each vertex.
    pub closed spec fn marks(&self) -> Seq<bool> {
        self.marked@
    }

    /// The graph that was searched.
    pub closed spec fn graph(&self) -> Seq<Seq<usize>> {
        self.g@
    }

    /// The vertex at which the search started.
    pub closed spec fn source(&self) -> int {
        self.s as int
    }

    /// The links from the marked vertices towards the source make a tree in
    /// the graph, and the source is marked.
    pub closed spec fn wf(&self) -> bool {
        &&& is_tree(self.g@, self.marked@, self.edge_to@, self.s as int, self.depth@)
        &&& self.marked@[self.s as int]
    }

    /// Searches `g` depth first from `s`: marks what is reachable from `s`,
    /// and nothing else, and notes for each vertex from where it was reached.
    pub fn new(g: &Graph, s: usize) -> (r: Self)
        requires
            g.wf(),
            s < g@.len(),
        ensures
            r.wf(),
            r.graph() == g@,
            r.source() == s,
            r.marks().len() == g@.len(),
            forall|v: int| 0 <= v < g@.len() ==> (r.marks()[v] <==> reachable(g@, s as int, v)),
    {
        let n = g.v();
        let mut this = DepthFirstPaths {
            marked: Vec::with_capacity(n),
            edge_to: Vec::with_capacity(n),
            s,
            g: Ghost(g@),
            depth: Ghost(Seq::new(n as nat, |i: int| 0nat)),
        };
        let mut i: usize = 0;
        while i < n
            invariant
                i <= n,
                n == g@.len(),
                this.marked@.len() == i,
                this.edge_to@.len() == i,
                this.s == s,
                this.g@ == g@,
                this.depth@.len() == n,
                forall|k: int| 0 <= k < i ==> !this.marked@[k],
            decreases n - i,
        {
            this.marked.push(false);
            this.edge_to.push(None);
            i += 1;
        }
        this.dfs(g, s);
        proof {
            assert(closed_marks(g@, this.marked@));
            assert forall|v: int| 0 <= v < g@.len() implies (this.marked@[v] <==> reachable(
                g@,
                s as int,
                v,
            )) by {
                if reachable(g@, s as int, v) {
                    lemma_closed_holds_reachable(g@, this.marked@, s as int, v);
                }
                if this.marked@[v] {
                    lemma_tree_reach(g@, this.marked@, this.edge_to@, s as int, this.depth@, v);
                }
            }
        }
        this
    }

    /// Marks `v` and what can be reached from it through unmarked vertices,
    /// and links each vertex reached to the one it was reached from.
    fn dfs(&mut self, g: &Graph, v: usize)
        requires
            g.wf(),
            old(self).g@ == g@,
            is_tree(g@, old(self).marked@, old(self).edge_to@, old(self).s as int, old(self).depth@),
            v < g@.len(),
            !old(self).marked@[v as int],
            v != old(self).s ==> hangs(
                g@,
                old(self).marked@,
                old(self).edge_to@,
                old(self).depth@,
                v as int,
            ),
        ensures
            final(self).g@ == g@,
            final(self).s == old(self).s,
            is_tree(
                g@,
                final(self).marked@,
                final(self).edge_to@,
                final(self).s as int,
                final(self).depth@,
            ),
            forall|x: int| 0 <= x < g@.len() && old(self).marked@[x] ==> final(self).marked@[x],
            final(self).marked@[v as int],
            forall|x: int, k: int|
                #![trigger g@[x][k]]
                0 <= x < g@.len() && final(self).marked@[x] && !old(self).marked@[x] && 0 <= k
                    < g@[x].len() ==> final(self).marked@[g@[x][k] as int],
        decreases g@.len() - count_true(old(self).marked@, g@.len() as int),
    {
        let ghost n = g@.len() as int;
        let ghost m0 = self.marked@;
        let ghost e0 = self.edge_to@;
        let ghost d0 = self.depth@;
        self.marked[v] = true;
        proof {
            let m1 = self.marked@;
            assert forall|x: int| 0 <= x < n && m1[x] && x != self.s implies #[trigger] hangs(
                g@,
                m1,
                e0,
                d0,
                x,
            ) by {
                if x != v {
                    assert(hangs(g@, m0, e0, d0, x));
                }
            }
        }
        let list = g.adj(v);
        let mut i: usize = 0;
        while i < list.len()
            invariant
                g.wf(),
                self.g@ == g@,
                self.s == old(self).s,
                n == g@.len(),
                v < n,
                list@ == g@[v as int],
                i <= list@.len(),
                m0 == old(self).marked@,
                m0.len() == n,
                !m0[v as int],
                is_tree(g@, self.marked@, self.edge_to@, self.s as int, self.depth@),
                self.marked@[v as int],
                forall|x: int| 0 <= x < n && m0[x] ==> self.marked@[x],
                forall|x: int, k: int|
                    #![trigger g@[x][k]]
                    0 <= x < n && x != v && self.marked@[x] && !m0[x] && 0 <= k < g@[x].len()
                        ==> self.marked@[g@[x][k] as int],
                forall|k: int| 0 <= k < i ==> self.marked@[(#[trigger] list@[k]) as int],
            decreases list@.len() - i,
        {
            let w = list[i];
            proof {
                g.lemma_neighbours(v as int, i as int);
                assert(g@[v as int][i as int] == w);
                assert(has_edge(g@, v as int, w as int));
            }
            if !self.marked[w] {
                let ghost m2 = self.marked@;
                let ghost e2 = self.edge_to@;
                let ghost d2 = self.depth@;
                self.edge_to[w] = Some(v);
                self.depth = Ghost(d2.update(w as int, d2[v as int] + 1));
                proof {
                    lemma_count_grows(m0, m2, n, v as int);
                    lemma_count_bound(m2, n);
                    assert forall|x: int|
                        0 <= x < n && m2[x] && x != self.s implies #[trigger] hangs(
                        g@,
                        m2,
                        self.edge_to@,
                        self.depth@,
                        x,
                    ) by {
                        assert(hangs(g@, m2, e2, d2, x));
                    }
                }
                self.dfs(g, w);
                proof {
                    let m3 = self.marked@;
                    assert forall|x: int, k: int|
                        #![trigger g@[x][k]]
                        0 <= x < n && x != v && m3[x] && !m0[x] && 0 <= k
                            < g@[x].len() implies m3[g@[x][k] as int] by {
                        if m2[x] {
                            assert(m2[g@[x][k] as int]);
                            g.lemma_neighbours(x, k);
                        }
                    }
                    assert forall|k: int| 0 <= k < i + 1 implies m3[(#[trigger] list@[k]) as int] by {
                        g.lemma_neighbours(v as int, k);
                    }
                }
            }
            i += 1;
        }
    }

    /// Whether a walk leads from the source to `v`.
    pub fn has_path_to(&self, v: usize) -> (r: bool)
        requires
            v < self.marks().len(),
        ensures
            r == self.marks()[v as int],
    {
        self.marked[v]
    }

    /// The walk from the source to `v` along which the search reached `v`,
    /// which passes no vertex twice; `None` where it did not reach `v`.
    pub fn path_to(&self, v: usize) -> (r: Option<Vec<usize>>)
        requires
            self.wf(),
            v < self.marks().len(),
        ensures
            match r {
                Some(p) => self.marks()[v as int] && is_path(self.graph(), walk(p@)) && walk(
                    p@,
                ).first() == self.source() && walk(p@).last() == v && p@.no_duplicates(),
                None => !self.marks()[v as int],
            },
    {
        if !self.has_path_to(v) {
            return None;
        }
        Some(path_along(&self.marked, &self.edge_to, self.s, v, Ghost(self.g@), Ghost(self.depth@)))
    }
}

} // verus!
