//! Depth-first search from one vertex.

use crate::graph::graph::{
    closed_marks, count_true, has_edge, lemma_closed_holds_reachable, lemma_count_bound,
    lemma_count_grows, lemma_count_none, lemma_count_set, lemma_reach_self, lemma_reach_step,
    reachable, Graph,
};
use vstd::prelude::*;

verus! {

/// The vertices that a depth-first search from a source has reached.
pub struct DepthFirstSearch {
    marked: Vec<bool>,
    count: usize,
}

impl DepthFirstSearch {
    /// The mark of each vertex.
    pub closed spec fn marks(&self) -> Seq<bool> {
        self.marked@
    }

    /// The number of marked vertices, as `count` reports it.
    pub closed spec fn counted(&self) -> int {
        self.count as int
    }

    /// Marks what is reachable from `s` in `g`, and nothing else.
    pub fn new(g: &Graph, s: usize) -> (r: Self)
        requires
            g.wf(),
            s < g@.len(),
        ensures
            r.marks().len() == g@.len(),
            forall|v: int| 0 <= v < g@.len() ==> (r.marks()[v] <==> reachable(g@, s as int, v)),
            r.counted() == count_true(r.marks(), g@.len() as int),
    {
        let mut this = DepthFirstSearch { marked: Vec::with_capacity(g.v()), count: 0 };
        let mut i: usize = 0;
        while i < g.v()
            invariant
                g.wf(),
                i <= g@.len(),
                this.marked@.len() == i,
                this.count == 0,
                forall|k: int| 0 <= k < i ==> !this.marked@[k],
            decreases g@.len() - i,
        {
            this.marked.push(false);
            i += 1;
        }
        proof {
            lemma_count_none(this.marked@, g@.len() as int);
        }
        this.dfs(g, s);
        proof {
            assert(closed_marks(g@, this.marked@));
            assert forall|v: int| 0 <= v < g@.len() && reachable(
                g@,
                s as int,
                v,
            ) implies this.marked@[v] by {
                lemma_closed_holds_reachable(g@, this.marked@, s as int, v);
            }
        }
        this
    }

    /// Marks `v` and what can be reached from it through unmarked vertices.
    fn dfs(&mut self, g: &Graph, v: usize)
        requires
            g.wf(),
            old(self).marked@.len() == g@.len(),
            v < g@.len(),
            !old(self).marked@[v as int],
            old(self).count == count_true(old(self).marked@, g@.len() as int),
        ensures
            final(self).marked@.len() == g@.len(),
            forall|x: int| 0 <= x < g@.len() && old(self).marked@[x] ==> final(self).marked@[x],
            final(self).marked@[v as int],
            forall|x: int|
                0 <= x < g@.len() && final(self).marked@[x] && !old(self).marked@[x] ==> reachable(
                    g@,
                    v as int,
                    x,
                ),
            forall|x: int, k: int|
                #![trigger g@[x][k]]
                0 <= x < g@.len() && final(self).marked@[x] && !old(self).marked@[x] && 0 <= k
                    < g@[x].len() ==> final(self).marked@[g@[x][k] as int],
            final(self).count == count_true(final(self).marked@, g@.len() as int),
        decreases g@.len() - count_true(old(self).marked@, g@.len() as int),
    {
        let ghost n = g@.len() as int;
        let ghost m0 = self.marked@;
        let total: usize = self.marked.len();
        proof {
            lemma_count_bound(m0.update(v as int, true), n);
            lemma_count_set(m0, n, v as int);
        }
        self.marked[v] = true;
        self.count += 1;
        let ghost m1 = self.marked@;
        proof {
            lemma_reach_self(g@, v as int);
        }
        let list = g.adj(v);
        let mut i: usize = 0;
        while i < list.len()
            invariant
                g.wf(),
                n == g@.len(),
                v < n,
                list@ == g@[v as int],
                i <= list@.len(),
                m0 == old(self).marked@,
                m0.len() == n,
                !m0[v as int],
                m1 == m0.update(v as int, true),
                self.marked@.len() == n,
                self.marked@[v as int],
                forall|x: int| 0 <= x < n && m0[x] ==> self.marked@[x],
                forall|x: int|
                    0 <= x < n && self.marked@[x] && !m0[x] ==> reachable(g@, v as int, x),
                forall|x: int, k: int|
                    #![trigger g@[x][k]]
                    0 <= x < n && x != v && self.marked@[x] && !m0[x] && 0 <= k < g@[x].len()
                        ==> self.marked@[g@[x][k] as int],
                forall|k: int| 0 <= k < i ==> self.marked@[(#[trigger] list@[k]) as int],
                self.count == count_true(self.marked@, n),
            decreases list@.len() - i,
        {
            let w = list[i];
            proof {
                g.lemma_neighbours(v as int, i as int);
                assert(g@[v as int][i as int] == w);
                assert(has_edge(g@, v as int, w as int));
            }
            if !self.marked[w] {
                let ghost m2 = self.marked@;
                proof {
                    lemma_count_grows(m0, m2, n, v as int);
                    lemma_count_bound(m2, n);
                }
                self.dfs(g, w);
                proof {
                    let m3 = self.marked@;
                    assert forall|x: int| 0 <= x < n && m3[x] && !m0[x] implies reachable(
                        g@,
                        v as int,
                        x,
                    ) by {
                        if !m2[x] {
                            lemma_reach_step(g@, v as int, w as int, x);
                        }
                    }
                    assert forall|x: int, k: int|
                        #![trigger g@[x][k]]
                        0 <= x < n && x != v && m3[x] && !m0[x] && 0 <= k
                            < g@[x].len() implies m3[g@[x][k] as int] by {
                        if m2[x] {
                            assert(m2[g@[x][k] as int]);
                            g.lemma_neighbours(x, k);
                        }
                    }
                    assert forall|k: int| 0 <= k < i + 1 implies m3[(#[trigger] list@[k]) as int] by {
                        g.lemma_neighbours(v as int, k);
                    }
                }
            }
            i += 1;
        }
    }

    /// Whether `v` was reached.
    pub fn marked(&self, v: usize) -> (r: bool)
        requires
            v < self.marks().len(),
        ensures
            r == self.marks()[v as int],
    {
        self.marked[v]
    }

    /// The number of vertices that were reached.
    pub fn count(&self) -> (n: usize)
        ensures
            n == self.counted(),
    {
        self.count
    }
}

} // verus!
