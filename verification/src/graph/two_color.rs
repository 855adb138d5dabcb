//! Colouring a graph with two colours by depth-first search.

use crate::graph::graph::{
    closed_marks, count_true, has_edge, lemma_count_bound, lemma_count_grows, Graph,
};
use vstd::prelude::*;

verus! {

/// A colouring of the vertices of a graph with two colours, and whether it
/// gives the two ends of every edge different colours.
pub struct TwoColor {
    marked: Vec<bool>,
    color: Vec<bool>,
    is_two_colorable: bool,
}

/// No vertex of `g` has the colour of one of its neighbours.
pub open spec fn proper(g: Seq<Seq<usize>>, colors: Seq<bool>) -> bool {
    forall|x: int, k: int|
        #![trigger g[x][k]]
        0 <= x < g.len() && 0 <= k < g[x].len() ==> colors[x] != colors[g[x][k] as int]
}

/// Some marked vertex has the colour of a marked neighbour.
spec fn clash(g: Seq<Seq<usize>>, marked: Seq<bool>, colors: Seq<bool>) -> bool {
    exists|x: int, k: int|
        #![trigger g[x][k]]
        0 <= x < g.len() && 0 <= k < g[x].len() && marked[x] && marked[g[x][k] as int] && colors[x]
            == colors[g[x][k] as int]
}

/// No colouring of the vertices of `g` gives the two ends of every edge
/// different colours.
pub open spec fn uncolorable(g: Seq<Seq<usize>>) -> bool {
    forall|c: Seq<bool>| c.len() == g.len() ==> !#[trigger] proper(g, c)
}

/// Where the colouring `c` differs from `colors` at `root`, it differs at
/// every marked vertex that is not marked in `base`, and where it agrees at
/// `root`, it agrees at all of them.
spec fn tied(base: Seq<bool>, marked: Seq<bool>, colors: Seq<bool>, c: Seq<bool>, root: int) -> bool {
    forall|x: int|
        0 <= x < marked.len() && #[trigger] marked[x] && !base[x] ==> (c[x] == colors[x]) == (c[root]
            == colors[root])
}

/// Every colouring of `g` that gives the two ends of every edge different
/// colours is tied to `colors`.
spec fn all_tied(
    g: Seq<Seq<usize>>,
    base: Seq<bool>,
    marked: Seq<bool>,
    colors: Seq<bool>,
    root: int,
) -> bool {
    forall|c: Seq<bool>|
        c.len() == g.len() && #[trigger] proper(g, c) ==> tied(base, marked, colors, c, root)
}

impl TwoColor {
    /// The colour of each vertex.
    pub closed spec fn colors(&self) -> Seq<bool> {
        self.color@
    }

    /// What `is_two_colorable` reports.
    pub closed spec fn two_colorable(&self) -> bool {
        self.is_two_colorable
    }

    /// Colours `g` depth first: the vertex at which a search starts gets
    /// the first colour, every vertex reached the colour that the vertex it
    /// was reached from has not. Reports whether the two ends of every edge
    /// got different colours; where they did not, no colouring with two
    /// colours gives the two ends of every edge different colours.
    pub fn new(g: &Graph) -> (r: Self)
        requires
            g.wf(),
        ensures
            r.colors().len() == g@.len(),
            r.two_colorable() == proper(g@, r.colors()),
            !r.two_colorable() ==> uncolorable(g@),
    {
        let n = g.v();
        let mut this = TwoColor {
            marked: Vec::with_capacity(n),
            color: Vec::with_capacity(n),
            is_two_colorable: true,
        };
        let mut i: usize = 0;
        while i < n
            invariant
                i <= n,
                this.marked@.len() == i,
                this.color@.len() == i,
                this.is_two_colorable,
                forall|k: int| 0 <= k < i ==> !this.marked@[k],
            decreases n - i,
        {
            this.marked.push(false);
            this.color.push(false);
            i += 1;
        }
        let mut s: usize = 0;
        while s < n
            invariant
                g.wf(),
                n == g@.len(),
                s <= n,
                this.marked@.len() == n,
                this.color@.len() == n,
                forall|x: int| 0 <= x < s ==> this.marked@[x],
                closed_marks(g@, this.marked@),
                !this.is_two_colorable ==> uncolorable(g@),
                !this.is_two_colorable ==> clash(g@, this.marked@, this.color@),
                this.is_two_colorable ==> forall|x: int, k: int|
                    #![trigger g@[x][k]]
                    0 <= x < n && this.marked@[x] && 0 <= k < g@[x].len() ==> this.marked@[g@[x][k] as int]
                        && this.color@[x] != this.color@[g@[x][k] as int],
            decreases n - s,
        {
            if !this.marked[s] {
                let ghost m0 = this.marked@;
                let ghost c0 = this.color@;
                proof {
                    assert(all_tied(g@, m0, m0.update(s as int, true), c0, s as int));
                }
                this.dfs(g, s, Ghost(m0), Ghost(s as int));
                proof {
                    let m1 = this.marked@;
                    let c1 = this.color@;
                    assert forall|x: int, k: int|
                        #![trigger g@[x][k]]
                        0 <= x < n && m1[x] && 0 <= k < g@[x].len() implies m1[g@[x][k] as int] by {
                        g.lemma_neighbours(x, k);
                        if m0[x] {
                            assert(m0[g@[x][k] as int]);
                        }
                    }
                    if this.is_two_colorable {
                        assert forall|x: int, k: int|
                            #![trigger g@[x][k]]
                            0 <= x < n && m1[x] && 0 <= k < g@[x].len() implies m1[g@[x][k] as int]
                            && c1[x] != c1[g@[x][k] as int] by {
                            g.lemma_neighbours(x, k);
                            if m0[x] {
                                let y = g@[x][k] as int;
                                assert(m0[y] && c0[x] != c0[y]);
                                assert(c1[x] == c0[x] && c1[y] == c0[y]);
                            }
                        }
                    }
                }
            }
            s += 1;
        }
        proof {
            let m = this.marked@;
            let c = this.color@;
            if !this.is_two_colorable {
                let (x, k) = choose|x: int, k: int|
                    #![trigger g@[x][k]]
                    0 <= x < g@.len() && 0 <= k < g@[x].len() && m[x] && m[g@[x][k] as int] && c[x]
                        == c[g@[x][k] as int];
                assert(c[x] == c[g@[x][k] as int]);
            }
        }
        this
    }

    /// Marks `v` and colours and marks what can be reached from it through
    /// unmarked vertices.
    fn dfs(&mut self, g: &Graph, v: usize, Ghost(base): Ghost<Seq<bool>>, Ghost(root): Ghost<int>)
        requires
            g.wf(),
            old(self).marked@.len() == g@.len(),
            old(self).color@.len() == g@.len(),
            v < g@.len(),
            !old(self).marked@[v as int],
            !old(self).is_two_colorable ==> clash(g@, old(self).marked@, old(self).color@),
            base.len() == g@.len(),
            closed_marks(g@, base),
            forall|x: int| 0 <= x < g@.len() && base[x] ==> old(self).marked@[x],
            0 <= root < g@.len(),
            !base[root],
            root == v || old(self).marked@[root],
            all_tied(g@, base, old(self).marked@.update(v as int, true), old(self).color@, root),
            !old(self).is_two_colorable ==> uncolorable(g@),
        ensures
            all_tied(g@, base, final(self).marked@, final(self).color@, root),
            !final(self).is_two_colorable ==> uncolorable(g@),
            forall|x: int, k: int|
                #![trigger g@[x][k]]
                0 <= x < g@.len() && final(self).marked@[x] && !old(self).marked@[x] && 0 <= k
                    < g@[x].len() ==> final(self).marked@[g@[x][k] as int],
            final(self).marked@.len() == g@.len(),
            final(self).color@.len() == g@.len(),
            final(self).marked@[v as int],
            final(self).color@[v as int] == old(self).color@[v as int],
            forall|x: int|
                0 <= x < g@.len() && old(self).marked@[x] ==> final(self).marked@[x] && final(self).color@[x] == old(self).color@[x],
            !old(self).is_two_colorable ==> !final(self).is_two_colorable,
            !final(self).is_two_colorable ==> clash(g@, final(self).marked@, final(self).color@),
            final(self).is_two_colorable ==> forall|x: int, k: int|
                #![trigger g@[x][k]]
                0 <= x < g@.len() && final(self).marked@[x] && !old(self).marked@[x] && 0 <= k
                    < g@[x].len() ==> final(self).marked@[g@[x][k] as int] && final(self).color@[x] != final(self).color@[g@[x][k] as int],
        decreases g@.len() - count_true(old(self).marked@, g@.len() as int),
    {
        let ghost n = g@.len() as int;
        let ghost m0 = self.marked@;
        let ghost c0 = self.color@;
        self.marked[v] = true;
        proof {
            if !self.is_two_colorable {
                let (x, k) = choose|x: int, k: int|
                    #![trigger g@[x][k]]
                    0 <= x < g@.len() && 0 <= k < g@[x].len() && m0[x] && m0[g@[x][k] as int] && c0[x]
                        == c0[g@[x][k] as int];
                g.lemma_neighbours(x, k);
                assert(self.marked@[x] && self.marked@[g@[x][k] as int]);
            }
        }
        let list = g.adj(v);
        let mut i: usize = 0;
        while i < list.len()
            invariant
                g.wf(),
                n == g@.len(),
                v < n,
                list@ == g@[v as int],
                i <= list@.len(),
                m0 == old(self).marked@,
                c0 == old(self).color@,
                m0.len() == n,
                !m0[v as int],
                self.marked@.len() == n,
                self.color@.len() == n,
                self.marked@[v as int],
                self.color@[v as int] == c0[v as int],
                forall|x: int|
                    0 <= x < n && m0[x] ==> self.marked@[x] && self.color@[x] == c0[x],
                !old(self).is_two_colorable ==> !self.is_two_colorable,
                !self.is_two_colorable ==> clash(g@, self.marked@, self.color@),
                base.len() == n,
                closed_marks(g@, base),
                forall|x: int| 0 <= x < n && base[x] ==> m0[x],
                0 <= root < n,
                !base[root],
                !base[v as int],
                self.marked@[root],
                all_tied(g@, base, self.marked@, self.color@, root),
                !self.is_two_colorable ==> uncolorable(g@),
                forall|x: int, k: int|
                    #![trigger g@[x][k]]
                    0 <= x < n && x != v && self.marked@[x] && !m0[x] && 0 <= k < g@[x].len()
                        ==> self.marked@[g@[x][k] as int],
                forall|k: int| 0 <= k < i ==> self.marked@[(#[trigger] list@[k]) as int],
                self.is_two_colorable ==> forall|x: int, k: int|
                    #![trigger g@[x][k]]
                    0 <= x < n && x != v && self.marked@[x] && !m0[x] && 0 <= k < g@[x].len()
                        ==> self.marked@[g@[x][k] as int] && self.color@[x] != self.color@[g@[x][k] as int],
                self.is_two_colorable ==> forall|k: int|
                    0 <= k < i ==> self.marked@[(#[trigger] list@[k]) as int] && self.color@[v as int]
                        != self.color@[list@[k] as int],
            decreases list@.len() - i,
        {
            let w = list[i];
            proof {
                g.lemma_neighbours(v as int, i as int);
                assert(g@[v as int][i as int] == w);
            }
            if !self.marked[w] {
                let ghost m2 = self.marked@;
                let ghost c2 = self.color@;
                let c = !self.color[v];
                self.color[w] = c;
                let ghost c3 = self.color@;
                proof {
                    lemma_count_grows(m0, m2, n, v as int);
                    lemma_count_bound(m2, n);
                    assert forall|c: Seq<bool>|
                        c.len() == g@.len() && #[trigger] proper(g@, c) implies tied(
                        base,
                        m2.update(w as int, true),
                        c3,
                        c,
                        root,
                    ) by {
                        assert(tied(base, m2, c2, c, root));
                        assert(c[v as int] != c[g@[v as int][i as int] as int]);
                        assert(m2[v as int] && !base[v as int]);
                        assert(m2[root]);
                        assert forall|x: int|
                            0 <= x < n && #[trigger] m2.update(w as int, true)[x]
                                && !base[x] implies (c[x] == c3[x]) == (c[root] == c3[root]) by {
                            if x != w {
                                assert(m2[x]);
                            }
                        }
                    }
                    if !self.is_two_colorable {
                        let (x, k) = choose|x: int, k: int|
                            #![trigger g@[x][k]]
                            0 <= x < g@.len() && 0 <= k < g@[x].len() && m2[x] && m2[g@[x][k] as int]
                                && c2[x] == c2[g@[x][k] as int];
                        g.lemma_neighbours(x, k);
                        assert(c3[x] == c2[x] && c3[g@[x][k] as int] == c2[g@[x][k] as int]);
                    }
                }
                self.dfs(g, w, Ghost(base), Ghost(root));
                proof {
                    let m4 = self.marked@;
                    let c4 = self.color@;
                    assert forall|x: int, k: int|
                        #![trigger g@[x][k]]
                        0 <= x < n && x != v && m4[x] && !m0[x] && 0 <= k
                            < g@[x].len() implies m4[g@[x][k] as int] by {
                        g.lemma_neighbours(x, k);
                        if m2[x] {
                            assert(m2[g@[x][k] as int]);
                        }
                    }
                    assert forall|k: int| 0 <= k < i + 1 implies m4[(#[trigger] list@[k]) as int] by {
                        g.lemma_neighbours(v as int, k);
                        if k < i {
                            assert(m2[list@[k] as int]);
                        }
                    }
                    assert forall|x: int| 0 <= x < n && m0[x] implies m4[x] && c4[x] == c0[x] by {
                        assert(m2[x] && c2[x] == c0[x]);
                        assert(c3[x] == c2[x]);
                    }
                    if self.is_two_colorable {
                        assert forall|x: int, k: int|
                            #![trigger g@[x][k]]
                            0 <= x < n && x != v && m4[x] && !m0[x] && 0 <= k
                                < g@[x].len() implies m4[g@[x][k] as int] && c4[x] != c4[g@[x][k] as int] by {
                            g.lemma_neighbours(x, k);
                            let y = g@[x][k] as int;
                            if m2[x] {
                                assert(m2[y] && c2[x] != c2[y]);
                                assert(c3[x] == c2[x] && c3[y] == c2[y]);
                                assert(c4[x] == c3[x] && c4[y] == c3[y]);
                            }
                        }
                        assert forall|k: int| 0 <= k < i + 1 implies m4[(#[trigger] list@[k]) as int]
                            && c4[v as int] != c4[list@[k] as int] by {
                            g.lemma_neighbours(v as int, k);
                            let y = list@[k] as int;
                            if k < i {
                                assert(m2[y] && c2[v as int] != c2[y]);
                                assert(c3[y] == c2[y]);
                                assert(c4[y] == c3[y]);
                            }
                        }
                    }
                }
            } else if self.color[w] == self.color[v] {
                self.is_two_colorable = false;
                proof {
                    assert(self.marked@[g@[v as int][i as int] as int]);
                    let m = self.marked@;
                    let col = self.color@;
                    assert forall|c: Seq<bool>| c.len() == g@.len() implies !#[trigger] proper(
                        g@,
                        c,
                    ) by {
                        if proper(g@, c) {
                            assert(c[v as int] != c[g@[v as int][i as int] as int]);
                            if base[w as int] {
                                g.lemma_symmetric();
                                assert(has_edge(g@, g@[v as int][i as int] as int, v as int));
                                let k2 = choose|k2: int|
                                    0 <= k2 < g@[w as int].len() && #[trigger] g@[w as int][k2] == v;
                                assert(base[g@[w as int][k2] as int]);
                            } else {
                                assert(tied(base, m, col, c, root));
                                assert(m[w as int] && m[v as int]);
                            }
                        }
                    }
                }
            }
            i += 1;
        }
    }

    /// Whether the colouring gives the two ends of every edge different
    /// colours.
    pub fn is_two_colorable(&self) -> (r: bool)
        ensures
            r == self.two_colorable(),
    {
        self.is_two_colorable
    }
}

} // verus!
