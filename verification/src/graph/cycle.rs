//! A depth-first search for an edge that leads back to where the search
//! came from.

use crate::graph::graph::{
    count_true, has_edge, lemma_count_bound, lemma_count_grows, symmetric, Graph,
};
use vstd::prelude::*;

verus! {

/// What the search for a way back has found in a graph.
pub struct Cycle {
    marked: Vec<bool>,
    has_cycle: bool,
}

/// Some vertex of `g` has a neighbour.
pub open spec fn some_edge(g: Seq<Seq<usize>>) -> bool {
    exists|x: int| 0 <= x < g.len() && (#[trigger] g[x]).len() > 0
}

/// A way back has been found, or no marked vertex has a neighbour.
spec fn quiet(g: Seq<Seq<usize>>, marked: Seq<bool>, found: bool) -> bool {
    found || forall|x: int| 0 <= x < g.len() && marked[x] ==> (#[trigger] g[x]).len() == 0
}

impl Cycle {
    /// What `has_cycle` reports.
    pub closed spec fn found(&self) -> bool {
        self.has_cycle
    }

    /// Searches `g` depth first from every vertex not yet reached and
    /// notes whether a vertex has the vertex it was reached from among its
    /// neighbours, or a search starts at a vertex with a loop. In a graph
    /// that holds every edge in both directions that is the case as soon as
    /// there is an edge.
    pub fn new(g: &Graph) -> (r: Self)
        requires
            g.wf(),
        ensures
            r.found() == some_edge(g@),
    {
        let n = g.v();
        let mut this = Cycle { marked: Vec::with_capacity(n), has_cycle: false };
        let mut i: usize = 0;
        while i < n
            invariant
                i <= n,
                this.marked@.len() == i,
                !this.has_cycle,
                forall|k: int| 0 <= k < i ==> !this.marked@[k],
            decreases n - i,
        {
            this.marked.push(false);
            i += 1;
        }
        let mut s: usize = 0;
        while s < n
            invariant
                g.wf(),
                n == g@.len(),
                s <= n,
                this.marked@.len() == n,
                forall|x: int| 0 <= x < s ==> this.marked@[x],
                quiet(g@, this.marked@, this.has_cycle),
                this.has_cycle ==> some_edge(g@),
            decreases n - s,
        {
            if !this.marked[s] {
                this.dfs(g, s, s);
            }
            s += 1;
        }
        proof {
            if some_edge(g@) {
                let x = choose|x: int| 0 <= x < g@.len() && (#[trigger] g@[x]).len() > 0;
                assert(this.marked@[x]);
            }
        }
        this
    }

    /// Marks `v`, which was reached from `u` (or is where the search starts,
    /// if `u` is `v`), and goes on through its unmarked neighbours.
    fn dfs(&mut self, g: &Graph, v: usize, u: usize)
        requires
            g.wf(),
            old(self).marked@.len() == g@.len(),
            v < g@.len(),
            u < g@.len(),
            !old(self).marked@[v as int],
            u != v ==> old(self).marked@[u as int] && has_edge(g@, v as int, u as int),
            u == v ==> quiet(g@, old(self).marked@, old(self).has_cycle),
            old(self).has_cycle ==> some_edge(g@),
        ensures
            final(self).marked@.len() == g@.len(),
            forall|x: int| 0 <= x < g@.len() && old(self).marked@[x] ==> final(self).marked@[x],
            final(self).marked@[v as int],
            old(self).has_cycle ==> final(self).has_cycle,
            u != v ==> final(self).has_cycle,
            u == v ==> quiet(g@, final(self).marked@, final(self).has_cycle),
            final(self).has_cycle ==> some_edge(g@),
        decreases g@.len() - count_true(old(self).marked@, g@.len() as int),
    {
        let ghost n = g@.len() as int;
        let ghost m0 = self.marked@;
        let ghost f0 = self.has_cycle;
        self.marked[v] = true;
        let ghost m1 = self.marked@;
        let list = g.adj(v);
        let mut i: usize = 0;
        proof {
            g.lemma_symmetric();
        }
        while i < list.len()
            invariant
                g.wf(),
                symmetric(g@),
                n == g@.len(),
                v < n,
                u < n,
                list@ == g@[v as int],
                i <= list@.len(),
                m0 == old(self).marked@,
                f0 == old(self).has_cycle,
                m1 == m0.update(v as int, true),
                m0.len() == n,
                !m0[v as int],
                u != v ==> m0[u as int],
                u == v ==> quiet(g@, m0, f0),
                self.marked@.len() == n,
                self.marked@[v as int],
                forall|x: int| 0 <= x < n && m0[x] ==> self.marked@[x],
                f0 ==> self.has_cycle,
                self.has_cycle ==> some_edge(g@),
                i == 0 ==> self.marked@ == m1 && self.has_cycle == f0,
                u == v && i > 0 ==> self.has_cycle,
                u != v ==> forall|k: int| 0 <= k < i && #[trigger] list@[k] == u ==> self.has_cycle,
            decreases list@.len() - i,
        {
            let w = list[i];
            proof {
                g.lemma_neighbours(v as int, i as int);
                assert(g@[v as int][i as int] == w);
                assert(has_edge(g@, w as int, v as int));
                assert(g@[v as int].len() > 0);
                assert(g@[w as int].len() > 0);
            }
            if !self.marked[w] {
                let ghost m2 = self.marked@;
                proof {
                    lemma_count_grows(m0, m2, n, v as int);
                    lemma_count_bound(m2, n);
                }
                self.dfs(g, w, v);
            } else if w == u {
                self.has_cycle = true;
            } else {
                proof {
                    if u == v && i == 0 {
                        assert(m0[w as int]);
                    }
                }
            }
            i += 1;
        }
        proof {
            if u != v {
                let k = choose|k: int| 0 <= k < g@[v as int].len() && #[trigger] g@[v as int][k] == u;
                assert(list@[k] == u);
            } else if !self.has_cycle {
                assert(list@.len() == 0);
                assert forall|x: int| 0 <= x < g@.len() && self.marked@[x] implies (
                #[trigger] g@[x]).len() == 0 by {
                    if x != v {
                        assert(m0[x]);
                    }
                }
            }
        }
    }

    /// Whether a way back was found.
    pub fn has_cycle(&self) -> (r: bool)
        ensures
            r == self.found(),
    {
        self.has_cycle
    }
}

} // verus!
