//! Colouring a graph with two colours by depth-first search.

use crate::graph::{all_set, lemma_unmarked, unmarked, Graph};
use std::collections::HashMap;
use std::hash::Hash;
use vstd::prelude::*;
use vstd::std_specs::hash::obeys_key_model;

verus! {

/// A colouring of the vertices of a graph with two colours, and whether it
/// gives the two ends of every edge different colours.
pub struct TwoColor<T: Copy + Hash + Eq> {
    marked: HashMap<T, bool>,
    color: HashMap<T, bool>,
    pub is_two_color: bool,
}

/// The colour of `v` in `colors`; the first colour where `v` has none.
pub open spec fn color_of<T>(colors: Map<T, bool>, v: T) -> bool {
    colors.contains_key(v) && colors[v]
}

/// No vertex of `g` has the colour of one of its neighbours.
pub open spec fn proper<T>(g: Map<T, Seq<T>>, colors: Map<T, bool>) -> bool {
    forall|x: T, k: int|
        #![trigger g[x][k]]
        g.contains_key(x) && 0 <= k < g[x].len() ==> color_of(colors, x) != color_of(
            colors,
            g[x][k],
        )
}

/// Some marked vertex has the colour of a marked neighbour.
pub open spec fn clash<T>(g: Map<T, Seq<T>>, marked: Set<T>, colors: Map<T, bool>) -> bool {
    exists|x: T, k: int|
        #![trigger g[x][k]]
        g.contains_key(x) && 0 <= k < g[x].len() && marked.contains(x) && marked.contains(g[x][k])
            && color_of(colors, x) == color_of(colors, g[x][k])
}

/// Every vertex of `fresh` has its neighbours marked and in the other
/// colour.
pub open spec fn checked<T>(
    g: Map<T, Seq<T>>,
    fresh: Set<T>,
    marked: Set<T>,
    colors: Map<T, bool>,
) -> bool {
    forall|x: T, k: int|
        #![trigger g[x][k]]
        fresh.contains(x) && g.contains_key(x) && 0 <= k < g[x].len() ==> marked.contains(g[x][k])
            && color_of(colors, x) != color_of(colors, g[x][k])
}

/// No colouring gives the two ends of every edge of `g` different colours.
pub open spec fn uncolorable<T>(g: Map<T, Seq<T>>) -> bool {
    forall|c: Map<T, bool>| !#[trigger] proper(g, c)
}

/// Every neighbour of a vertex of `fresh` is in `marked`.
pub open spec fn surrounded<T>(g: Map<T, Seq<T>>, fresh: Set<T>, marked: Set<T>) -> bool {
    forall|x: T, k: int|
        #![trigger g[x][k]]
        fresh.contains(x) && g.contains_key(x) && 0 <= k < g[x].len() ==> marked.contains(g[x][k])
}

/// Where the colouring `c` differs from `colors` at `root`, it differs at
/// every marked vertex outside `base`, and where it agrees at `root`, it
/// agrees at all of them.
spec fn tied<T>(base: Set<T>, marked: Set<T>, colors: Map<T, bool>, c: Map<T, bool>, root: T) -> bool {
    forall|x: T| #[trigger]
        marked.contains(x) && !base.contains(x) ==> (color_of(c, x) == color_of(colors, x)) == (
        color_of(c, root) == color_of(colors, root))
}

/// Every colouring that gives the two ends of every edge of `g` different
/// colours is tied to `colors`.
spec fn all_tied<T>(
    g: Map<T, Seq<T>>,
    base: Set<T>,
    marked: Set<T>,
    colors: Map<T, bool>,
    root: T,
) -> bool {
    forall|c: Map<T, bool>| #[trigger] proper(g, c) ==> tied(base, marked, colors, c, root)
}

impl<T: Copy + Hash + Eq> TwoColor<T> {
    /// The vertices that have been coloured.
    pub closed spec fn marks(&self) -> Set<T> {
        self.marked@.dom()
    }

    /// The colour of each vertex that has one.
    pub closed spec fn colors(&self) -> Map<T, bool> {
        self.color@
    }

    /// What the field `is_two_color` holds.
    pub closed spec fn two_colorable(&self) -> bool {
        self.is_two_color
    }

    /// Every mark is set, and where the flag is down, a marked vertex has
    /// the colour of a marked neighbour.
    pub closed spec fn wf_in(&self, g: Map<T, Seq<T>>) -> bool {
        &&& all_set(self.marked@)
        &&& self.marked@.dom().finite()
        &&& self.marked@.dom().subset_of(g.dom())
        &&& (!self.is_two_color ==> clash(g, self.marked@.dom(), self.color@))
    }

    /// Colours `g` depth first: the vertex at which a search starts gets
    /// the first colour, every vertex reached the colour that the vertex it
    /// was reached from has not. Reports whether the two ends of every edge
    /// got different colours; where they did not, no colouring with two
    /// colours gives the two ends of every edge different colours.
    pub fn new(g: &Graph<T>) -> (r: Self)
        requires
            obeys_key_model::<T>(),
            g.wf(),
        ensures
            r.wf_in(g@),
            r.marks() == g@.dom(),
            r.two_colorable() == proper(g@, r.colors()),
            !r.two_colorable() ==> uncolorable(g@),
    {
        broadcast use vstd::std_specs::hash::group_hash_axioms;

        let mut two_color = TwoColor {
            marked: HashMap::new(),
            color: HashMap::new(),
            is_two_color: true,
        };
        let keys = g.vertices();
        proof {
            g.lemma_wf();
        }
        let mut i: usize = 0;
        while i < keys.len()
            invariant
                obeys_key_model::<T>(),
                g.wf(),
                keys@.to_set() == g@.dom(),
                i <= keys@.len(),
                two_color.wf_in(g@),
                forall|k: int| 0 <= k < i ==> two_color.marked@.contains_key(#[trigger] keys@[k]),
                surrounded(g@, two_color.marked@.dom(), two_color.marked@.dom()),
                !two_color.is_two_color ==> uncolorable(g@),
                two_color.is_two_color ==> checked(
                    g@,
                    two_color.marked@.dom(),
                    two_color.marked@.dom(),
                    two_color.color@,
                ),
            decreases keys@.len() - i,
        {
            let s = keys[i];
            proof {
                assert(keys@.to_set().contains(keys@[i as int]));
            }
            if !two_color.marked.contains_key(&s) {
                let ghost m0 = two_color.marked@.dom();
                let ghost c0 = two_color.color@;
                proof {
                    assert(all_tied(g@, m0, m0.insert(s), c0, s));
                }
                two_color.dfs(g, s, Ghost(m0), Ghost(s));
                proof {
                    g.lemma_wf();
                    let m1 = two_color.marked@.dom();
                    let c1 = two_color.color@;
                    assert forall|x: T, k: int|
                        #![trigger g@[x][k]]
                        m1.contains(x) && g@.contains_key(x) && 0 <= k
                            < g@[x].len() implies m1.contains(g@[x][k]) by {
                        if m0.contains(x) {
                            assert(m0.contains(g@[x][k]));
                        } else {
                            assert(m1.difference(m0).contains(x));
                        }
                    }
                    assert forall|k: int| 0 <= k < i + 1 implies m1.contains(#[trigger] keys@[k]) by {
                        if k < i {
                            assert(m0.contains(keys@[k]));
                            assert(color_of(c1, keys@[k]) == color_of(c0, keys@[k]));
                        }
                    }
                    if two_color.is_two_color {
                        assert forall|x: T, k: int|
                            #![trigger g@[x][k]]
                            m1.contains(x) && g@.contains_key(x) && 0 <= k
                                < g@[x].len() implies m1.contains(g@[x][k]) && color_of(c1, x)
                            != color_of(c1, g@[x][k]) by {
                            if m0.contains(x) {
                                let y = g@[x][k];
                                assert(m0.contains(y) && color_of(c0, x) != color_of(c0, y));
                                assert(color_of(c1, x) == color_of(c0, x));
                                assert(color_of(c1, y) == color_of(c0, y));
                            } else {
                                assert(m1.difference(m0).contains(x));
                            }
                        }
                    }
                }
            }
            i += 1;
        }
        proof {
            let m = two_color.marked@.dom();
            let c = two_color.color@;
            assert forall|x: T| g@.contains_key(x) implies m.contains(x) by {
                assert(keys@.to_set().contains(x));
                let k = choose|k: int| 0 <= k < keys@.len() && keys@[k] == x;
                assert(m.contains(keys@[k]));
            }
            assert(m =~= g@.dom());
            if !two_color.is_two_color {
                let (x, k) = choose|x: T, k: int|
                    #![trigger g@[x][k]]
                    g@.contains_key(x) && 0 <= k < g@[x].len() && m.contains(x) && m.contains(
                        g@[x][k],
                    ) && color_of(c, x) == color_of(c, g@[x][k]);
                assert(color_of(c, x) == color_of(c, g@[x][k]));
            }
        }
        two_color
    }

    /// Marks `v` and colours and marks what can be reached from it through
    /// unmarked vertices.
    fn dfs(&mut self, g: &Graph<T>, v: T, Ghost(base): Ghost<Set<T>>, Ghost(root): Ghost<T>)
        requires
            obeys_key_model::<T>(),
            g.wf(),
            old(self).wf_in(g@),
            g@.contains_key(v),
            !old(self).marked@.contains_key(v),
            surrounded(g@, base, base),
            base.subset_of(old(self).marked@.dom()),
            !base.contains(root),
            root == v || old(self).marked@.contains_key(root),
            all_tied(g@, base, old(self).marked@.dom().insert(v), old(self).color@, root),
            !old(self).is_two_color ==> uncolorable(g@),
        ensures
            all_tied(g@, base, final(self).marked@.dom(), final(self).color@, root),
            !final(self).is_two_color ==> uncolorable(g@),
            surrounded(
                g@,
                final(self).marked@.dom().difference(old(self).marked@.dom()),
                final(self).marked@.dom(),
            ),
            final(self).wf_in(g@),
            final(self).marked@.contains_key(v),
            color_of(final(self).color@, v) == color_of(old(self).color@, v),
            forall|x: T| #[trigger]
                old(self).marked@.contains_key(x) ==> final(self).marked@.contains_key(x)
                    && color_of(final(self).color@, x) == color_of(old(self).color@, x),
            !old(self).is_two_color ==> !final(self).is_two_color,
            final(self).is_two_color ==> checked(
                g@,
                final(self).marked@.dom().difference(old(self).marked@.dom()),
                final(self).marked@.dom(),
                final(self).color@,
            ),
        decreases unmarked(g@.dom(), old(self).marked@.dom()),
    {
        broadcast use vstd::std_specs::hash::group_hash_axioms;

        let ghost m0 = self.marked@.dom();
        let ghost c0 = self.color@;
        self.marked.insert(v, true);
        if !self.color.contains_key(&v) {
            self.color.insert(v, false);
        }
        proof {
            g.lemma_wf();
            assert forall|x: T| color_of(self.color@, x) == color_of(c0, x) by {}
            assert(self.marked@.dom() =~= m0.insert(v));
            assert forall|c: Map<T, bool>| #[trigger] proper(g@, c) implies tied(
                base,
                self.marked@.dom(),
                self.color@,
                c,
                root,
            ) by {
                assert(tied(base, m0.insert(v), c0, c, root));
            }
            if !self.is_two_color {
                let (x, k) = choose|x: T, k: int|
                    #![trigger g@[x][k]]
                    g@.contains_key(x) && 0 <= k < g@[x].len() && m0.contains(x) && m0.contains(
                        g@[x][k],
                    ) && color_of(c0, x) == color_of(c0, g@[x][k]);
                assert(self.marked@.dom().contains(x) && self.marked@.dom().contains(g@[x][k]));
            }
        }
        if let Some(edges) = g.adj(v) {
            let mut i: usize = 0;
            while i < edges.len()
                invariant
                    obeys_key_model::<T>(),
                    g.wf(),
                    g@.contains_key(v),
                    edges@ == g@[v],
                    i <= edges@.len(),
                    m0 == old(self).marked@.dom(),
                    c0 == old(self).color@,
                    !m0.contains(v),
                    self.wf_in(g@),
                    self.marked@.contains_key(v),
                    color_of(self.color@, v) == color_of(c0, v),
                    forall|x: T|
                        m0.contains(x) ==> self.marked@.contains_key(x) && color_of(self.color@, x)
                            == color_of(c0, x),
                    !old(self).is_two_color ==> !self.is_two_color,
                    surrounded(g@, base, base),
                    base.subset_of(m0),
                    !base.contains(root),
                    self.marked@.contains_key(root),
                    all_tied(g@, base, self.marked@.dom(), self.color@, root),
                    !self.is_two_color ==> uncolorable(g@),
                    surrounded(
                        g@,
                        self.marked@.dom().difference(m0).remove(v),
                        self.marked@.dom(),
                    ),
                    forall|k: int| 0 <= k < i ==> self.marked@.contains_key(#[trigger] edges@[k]),
                    self.is_two_color ==> checked(
                        g@,
                        self.marked@.dom().difference(m0).remove(v),
                        self.marked@.dom(),
                        self.color@,
                    ),
                    self.is_two_color ==> forall|k: int|
                        0 <= k < i ==> self.marked@.contains_key(#[trigger] edges@[k]) && color_of(
                            self.color@,
                            v,
                        ) != color_of(self.color@, edges@[k]),
                decreases edges@.len() - i,
            {
                let w = edges[i];
                proof {
                    g.lemma_wf();
                    assert(g@[v][i as int] == w);
                    assert(g@.contains_key(g@[v][i as int]));
                }
                if !self.marked.contains_key(&w) {
                    let ghost m2 = self.marked@.dom();
                    let ghost c2 = self.color@;
                    let color = !self.color(v);
                    self.color.insert(w, color);
                    let ghost c3 = self.color@;
                    proof {
                        lemma_unmarked(g@.dom(), m0, m2, v);
                        assert forall|x: T| x != w implies color_of(c3, x) == color_of(c2, x) by {}
                        assert forall|c: Map<T, bool>| #[trigger] proper(g@, c) implies tied(
                            base,
                            m2.insert(w),
                            c3,
                            c,
                            root,
                        ) by {
                            assert(tied(base, m2, c2, c, root));
                            assert(color_of(c, v) != color_of(c, g@[v][i as int]));
                            assert(m2.contains(v) && !base.contains(v));
                            assert(m2.contains(root));
                            assert(color_of(c3, w) == color);
                            assert(color_of(c3, v) == color_of(c2, v));
                            assert forall|x: T| #[trigger]
                                m2.insert(w).contains(x) && !base.contains(x) implies (color_of(c, x)
                                == color_of(c3, x)) == (color_of(c, root) == color_of(c3, root)) by {
                                if x != w {
                                    assert(m2.contains(x));
                                    assert(color_of(c3, x) == color_of(c2, x));
                                }
                            }
                        }
                        if !self.is_two_color {
                            let (x, k) = choose|x: T, k: int|
                                #![trigger g@[x][k]]
                                g@.contains_key(x) && 0 <= k < g@[x].len() && m2.contains(x)
                                    && m2.contains(g@[x][k]) && color_of(c2, x) == color_of(
                                    c2,
                                    g@[x][k],
                                );
                            assert(color_of(c3, x) == color_of(c2, x));
                            assert(color_of(c3, g@[x][k]) == color_of(c2, g@[x][k]));
                        }
                    }
                    self.dfs(g, w, Ghost(base), Ghost(root));
                    proof {
                        let m4 = self.marked@.dom();
                        let c4 = self.color@;
                        assert forall|x: T, k: int|
                            #![trigger g@[x][k]]
                            m4.difference(m0).remove(v).contains(x) && g@.contains_key(x) && 0 <= k
                                < g@[x].len() implies m4.contains(g@[x][k]) by {
                            if m2.contains(x) {
                                assert(m2.difference(m0).remove(v).contains(x));
                                assert(m2.contains(g@[x][k]));
                            } else {
                                assert(m4.difference(m2).contains(x));
                            }
                        }
                        assert forall|k: int| 0 <= k < i + 1 implies m4.contains(
                            #[trigger] edges@[k],
                        ) by {
                            if k < i {
                                assert(m2.contains(edges@[k]));
                            }
                        }
                        assert forall|x: T| m0.contains(x) implies m4.contains(x) && color_of(c4, x)
                            == color_of(c0, x) by {
                            assert(m2.contains(x) && color_of(c2, x) == color_of(c0, x));
                            assert(color_of(c3, x) == color_of(c2, x));
                        }
                        assert(color_of(c4, v) == color_of(c3, v));
                        if self.is_two_color {
                            assert forall|x: T, k: int|
                                #![trigger g@[x][k]]
                                m4.difference(m0).remove(v).contains(x) && g@.contains_key(x) && 0
                                    <= k < g@[x].len() implies m4.contains(g@[x][k]) && color_of(
                                c4,
                                x,
                            ) != color_of(c4, g@[x][k]) by {
                                let y = g@[x][k];
                                if m2.contains(x) {
                                    assert(m2.difference(m0).remove(v).contains(x));
                                    assert(m2.contains(y) && color_of(c2, x) != color_of(c2, y));
                                    assert(color_of(c3, x) == color_of(c2, x));
                                    assert(color_of(c3, y) == color_of(c2, y));
                                    assert(color_of(c4, x) == color_of(c3, x));
                                    assert(color_of(c4, y) == color_of(c3, y));
                                } else {
                                    assert(m4.difference(m2).contains(x));
                                }
                            }
                            assert forall|k: int| 0 <= k < i + 1 implies m4.contains(
                                #[trigger] edges@[k],
                            ) && color_of(c4, v) != color_of(c4, edges@[k]) by {
                                let y = edges@[k];
                                if k < i {
                                    assert(m2.contains(y) && color_of(c2, v) != color_of(c2, y));
                                    assert(color_of(c3, y) == color_of(c2, y));
                                    assert(color_of(c4, y) == color_of(c3, y));
                                } else {
                                    assert(color_of(c4, w) == color_of(c3, w));
                                }
                            }
                        }
                    }
                } else if self.color(w) == self.color(v) {
                    self.is_two_color = false;
                    proof {
                        assert(self.marked@.dom().contains(g@[v][i as int]));
                        let m = self.marked@.dom();
                        let col = self.color@;
                        assert forall|c: Map<T, bool>| !#[trigger] proper(g@, c) by {
                            if proper(g@, c) {
                                assert(color_of(c, v) != color_of(c, g@[v][i as int]));
                                if base.contains(w) {
                                    assert(crate::graph::joins(g@, g@[v][i as int], v));
                                    let k2 = choose|k2: int| 0 <= k2 < g@[w].len() && g@[w][k2] == v;
                                    assert(base.contains(g@[w][k2]));
                                    assert(m0.contains(v));
                                } else {
                                    assert(tied(base, m, col, c, root));
                                    assert(m.contains(w) && m.contains(v));
                                }
                            }
                        }
                    }
                }
                i += 1;
            }
            proof {
                let m5 = self.marked@.dom();
                assert forall|x: T, k: int|
                    #![trigger g@[x][k]]
                    m5.difference(m0).contains(x) && g@.contains_key(x) && 0 <= k
                        < g@[x].len() implies m5.contains(g@[x][k]) by {
                    if x == v {
                        assert(m5.contains(edges@[k]));
                    } else {
                        assert(m5.difference(m0).remove(v).contains(x));
                    }
                }
                if self.is_two_color {
                    let m4 = self.marked@.dom();
                    assert forall|x: T, k: int|
                        #![trigger g@[x][k]]
                        m4.difference(m0).contains(x) && g@.contains_key(x) && 0 <= k
                            < g@[x].len() implies m4.contains(g@[x][k]) && color_of(self.color@, x)
                        != color_of(self.color@, g@[x][k]) by {
                        if x == v {
                            assert(m4.contains(edges@[k]));
                        } else {
                            assert(m4.difference(m0).remove(v).contains(x));
                        }
                    }
                }
            }
        }
    }

    /// The colour of `v`; the first colour where `v` has none.
    fn color(&self, v: T) -> (r: bool)
        requires
            obeys_key_model::<T>(),
        ensures
            r == color_of(self.color@, v),
    {
        broadcast use vstd::std_specs::hash::group_hash_axioms;

        match self.color.get(&v) {
            Some(c) => *c,
            None => false,
        }
    }
}

} // verus!
