//! The connected components of a graph.

use crate::graph::{
    all_set, is_walk, joins, lemma_reaches_back, lemma_reaches_on, lemma_reaches_self,
    lemma_reaches_step, lemma_unmarked, reaches, unmarked, Graph,
};
use std::collections::HashMap;
use std::hash::Hash;
use vstd::prelude::*;
use vstd::std_specs::hash::obeys_key_model;

verus! {

/// The connected components of a graph, numbered from zero.
pub struct CC<T: Copy + Hash + Eq> {
    marked: HashMap<T, bool>,
    id: HashMap<T, usize>,
    pub count: usize,
}

/// The numbers `id` of the marked vertices are the same along every edge
/// that starts at a marked vertex, and the neighbours of the marked are
/// marked.
pub open spec fn settled<T>(g: Map<T, Seq<T>>, marked: Set<T>, id: Map<T, usize>) -> bool {
    forall|x: T, k: int|
        #![trigger g[x][k]]
        marked.contains(x) && g.contains_key(x) && 0 <= k < g[x].len() ==> marked.contains(g[x][k])
            && id[g[x][k]] == id[x]
}

/// Some marked vertex has the number `c`.
pub open spec fn numbered<T>(marked: Set<T>, id: Map<T, usize>, c: int) -> bool {
    exists|v: T| marked.contains(v) && #[trigger] id[v] == c
}

/// Along a walk that starts at a marked vertex the number stays the same.
proof fn lemma_settled_along<T>(
    g: Map<T, Seq<T>>,
    marked: Set<T>,
    id: Map<T, usize>,
    p: Seq<T>,
    i: int,
)
    requires
        settled(g, marked, id),
        is_walk(g, p),
        marked.contains(p[0]),
        0 <= i < p.len(),
    ensures
        marked.contains(p[i]),
        id[p[i]] == id[p[0]],
    decreases i,
{
    if i > 0 {
        lemma_settled_along(g, marked, id, p, i - 1);
        assert(joins(g, p[i - 1], p[i - 1 + 1]));
        let x = p[i - 1];
        let k = choose|k: int| 0 <= k < g[x].len() && g[x][k] == p[i];
        assert(marked.contains(g[x][k]));
    }
}

impl<T: Copy + Hash + Eq> CC<T> {
    /// The vertices that have a number.
    pub closed spec fn marks(&self) -> Set<T> {
        self.marked@.dom()
    }

    /// The number of the component of each vertex.
    pub closed spec fn ids(&self) -> Map<T, usize> {
        self.id@
    }

    /// The number of components found, as the field `count` holds it.
    pub closed spec fn counted(&self) -> int {
        self.count as int
    }

    /// Every mark is set, and the marked vertices are those with a number.
    pub closed spec fn wf(&self) -> bool {
        &&& all_set(self.marked@)
        &&& self.marked@.dom().finite()
        &&& self.id@.dom() == self.marked@.dom()
    }

    /// Numbers the components of `g`: two vertices get one number where a
    /// walk leads from one to the other, and nowhere else; the numbers are
    /// those below the number of components, and each of them is used.
    /// Which component gets which number goes by the order in which the
    /// graph hands out its vertices, and that order is not fixed.
    pub fn new(g: &Graph<T>) -> (r: Self)
        requires
            obeys_key_model::<T>(),
            g.wf(),
        ensures
            r.wf(),
            r.marks() == g@.dom(),
            forall|v: T| g@.contains_key(v) ==> (#[trigger] r.ids()[v]) < r.counted(),
            forall|v: T, w: T|
                #![trigger r.ids()[v], r.ids()[w]]
                g@.contains_key(v) && g@.contains_key(w) ==> (r.ids()[v] == r.ids()[w] <==> reaches(
                    g@,
                    v,
                    w,
                )),
            forall|c: int| 0 <= c < r.counted() ==> #[trigger] numbered(r.marks(), r.ids(), c),
    {
        broadcast use vstd::std_specs::hash::group_hash_axioms;

        let mut cc = CC { marked: HashMap::new(), id: HashMap::new(), count: 0 };
        let keys = g.vertices();
        proof {
            g.lemma_wf();
        }
        let mut i: usize = 0;
        while i < keys.len()
            invariant
                obeys_key_model::<T>(),
                g.wf(),
                keys@.to_set() == g@.dom(),
                i <= keys@.len(),
                cc.wf(),
                cc.count <= i,
                cc.marked@.dom().subset_of(g@.dom()),
                forall|k: int| 0 <= k < i ==> cc.marked@.contains_key(#[trigger] keys@[k]),
                forall|x: T| cc.marked@.contains_key(x) ==> (#[trigger] cc.id@[x]) < cc.count,
                settled(g@, cc.marked@.dom(), cc.id@),
                forall|x: T, y: T|
                    #![trigger cc.id@[x], cc.id@[y]]
                    cc.marked@.contains_key(x) && cc.marked@.contains_key(y) && cc.id@[x]
                        == cc.id@[y] ==> reaches(g@, x, y),
                forall|c: int|
                    0 <= c < cc.count ==> #[trigger] numbered(cc.marked@.dom(), cc.id@, c),
            decreases keys@.len() - i,
        {
            let v = keys[i];
            proof {
                assert(keys@.to_set().contains(keys@[i as int]));
            }
            if !cc.marked.contains_key(&v) {
                let ghost m0 = cc.marked@.dom();
                let ghost id0 = cc.id@;
                cc.dfs(g, v);
                let ghost m1 = cc.marked@.dom();
                let ghost id1 = cc.id@;
                let ghost c = cc.count as int;
                proof {
                    g.lemma_wf();
                    assert forall|x: T| m0.contains(x) implies m1.contains(x) && #[trigger] id1[x]
                        == id0[x] by {}
                    assert forall|x: T| m1.contains(x) && !m0.contains(x) implies reaches(g@, v, x)
                        && #[trigger] id1[x] == c by {}
                    assert forall|x: T| m1.contains(x) implies (#[trigger] id1[x]) < c + 1 by {
                        if m0.contains(x) {
                            assert(id0[x] < c);
                        }
                    }
                    assert forall|x: T, k: int|
                        #![trigger g@[x][k]]
                        m1.contains(x) && g@.contains_key(x) && 0 <= k
                            < g@[x].len() implies m1.contains(g@[x][k]) && id1[g@[x][k]] == id1[x] by {
                        let y = g@[x][k];
                        if m0.contains(x) {
                            assert(m0.contains(y) && id0[y] == id0[x]);
                            assert(id1[y] == id0[y] && id1[x] == id0[x]);
                        } else {
                            assert(m1.contains(y));
                            assert(id1[x] == c);
                            if m0.contains(y) {
                                assert(joins(g@, y, x));
                                let k2 = choose|k2: int| 0 <= k2 < g@[y].len() && g@[y][k2] == x;
                                assert(m0.contains(g@[y][k2]));
                                assert(false);
                            }
                            assert(id1[y] == c);
                        }
                    }
                    assert forall|x: T, y: T|
                        #![trigger id1[x], id1[y]]
                        m1.contains(x) && m1.contains(y) && id1[x] == id1[y] implies reaches(
                        g@,
                        x,
                        y,
                    ) by {
                        if m0.contains(x) && m0.contains(y) {
                            assert(id1[x] == id0[x] && id1[y] == id0[y]);
                            assert(id0[x] == id0[y]);
                        } else if !m0.contains(x) && !m0.contains(y) {
                            assert(reaches(g@, v, x));
                            assert(reaches(g@, v, y));
                            lemma_reaches_back(g@, v, x);
                            lemma_reaches_on(g@, x, v, y);
                        } else if m0.contains(x) {
                            assert(id1[x] == id0[x] && id0[x] < c && id1[y] == c);
                        } else {
                            assert(id1[y] == id0[y] && id0[y] < c && id1[x] == c);
                        }
                    }
                    assert forall|d: int| 0 <= d < c + 1 implies #[trigger] numbered(m1, id1, d) by {
                        if d < c {
                            assert(numbered(m0, id0, d));
                            let x = choose|x: T| m0.contains(x) && #[trigger] id0[x] == d;
                            assert(m1.contains(x) && id1[x] == d);
                        } else {
                            assert(m1.contains(v) && id1[v] == d);
                        }
                    }
                }
                cc.count += 1;
            }
            i += 1;
        }
        proof {
            let m = cc.marked@.dom();
            let id = cc.id@;
            assert forall|x: T| g@.contains_key(x) implies m.contains(x) by {
                assert(keys@.to_set().contains(x));
                let k = choose|k: int| 0 <= k < keys@.len() && keys@[k] == x;
                assert(m.contains(keys@[k]));
            }
            assert(m =~= g@.dom());
            assert forall|a: T, b: T|
                #![trigger id[a], id[b]]
                g@.contains_key(a) && g@.contains_key(b) && reaches(g@, a, b) implies id[a]
                == id[b] by {
                let p = choose|p: Seq<T>|
                    is_walk(g@, p) && #[trigger] p.first() == a && p.last() == b;
                lemma_settled_along(g@, m, id, p, p.len() - 1);
            }
        }
        cc
    }

    /// Marks `v` and what can be reached from it through unmarked vertices
    /// and gives them the number of the component that is being explored.
    pub fn dfs(&mut self, g: &Graph<T>, v: T)
        requires
            obeys_key_model::<T>(),
            g.wf(),
            old(self).wf(),
            old(self).marks().subset_of(g@.dom()),
            g@.contains_key(v),
            !old(self).marks().contains(v),
        ensures
            final(self).wf(),
            final(self).counted() == old(self).counted(),
            final(self).marks().subset_of(g@.dom()),
            final(self).marks().contains(v),
            forall|x: T|
                old(self).marks().contains(x) ==> final(self).marks().contains(x) && final(self).ids()[x] == old(self).ids()[x],
            forall|x: T|
                final(self).marks().contains(x) && !old(self).marks().contains(x) ==> reaches(
                    g@,
                    v,
                    x,
                ) && final(self).ids()[x] == old(self).counted(),
            forall|x: T, k: int|
                #![trigger g@[x][k]]
                final(self).marks().contains(x) && !old(self).marks().contains(x) && 0 <= k
                    < g@[x].len() ==> final(self).marks().contains(g@[x][k]),
        decreases unmarked(g@.dom(), old(self).marks()),
    {
        broadcast use vstd::std_specs::hash::group_hash_axioms;

        let ghost m0 = self.marked@.dom();
        let ghost id0 = self.id@;
        self.marked.insert(v, true);
        self.id.insert(v, self.count);
        proof {
            lemma_reaches_self(g@, v);
            g.lemma_wf();
        }
        if let Some(edges) = g.adj(v) {
            let mut i: usize = 0;
            while i < edges.len()
                invariant
                    obeys_key_model::<T>(),
                    g.wf(),
                    g@.contains_key(v),
                    edges@ == g@[v],
                    i <= edges@.len(),
                    m0 == old(self).marked@.dom(),
                    id0 == old(self).id@,
                    !m0.contains(v),
                    self.wf(),
                    self.count == old(self).count,
                    self.marked@.contains_key(v),
                    self.marked@.dom().subset_of(g@.dom()),
                    forall|x: T|
                        m0.contains(x) ==> self.marked@.contains_key(x) && self.id@[x] == id0[x],
                    forall|x: T|
                        self.marked@.contains_key(x) && !m0.contains(x) ==> reaches(g@, v, x)
                            && self.id@[x] == self.count,
                    forall|x: T, k: int|
                        #![trigger g@[x][k]]
                        x != v && self.marked@.contains_key(x) && !m0.contains(x) && 0 <= k
                            < g@[x].len() ==> self.marked@.contains_key(g@[x][k]),
                    forall|k: int| 0 <= k < i ==> self.marked@.contains_key(#[trigger] edges@[k]),
                decreases edges@.len() - i,
            {
                let w = edges[i];
                proof {
                    g.lemma_wf();
                    assert(g@[v][i as int] == w);
                    assert(g@.contains_key(g@[v][i as int]));
                    assert(joins(g@, v, w));
                }
                if !self.marked.contains_key(&w) {
                    let ghost m2 = self.marked@.dom();
                    proof {
                        lemma_unmarked(g@.dom(), m0, m2, v);
                    }
                    self.dfs(g, w);
                    proof {
                        let m3 = self.marked@.dom();
                        assert forall|x: T| m3.contains(x) && !m0.contains(x) implies reaches(
                            g@,
                            v,
                            x,
                        ) && self.id@[x] == self.count by {
                            if !m2.contains(x) {
                                lemma_reaches_step(g@, v, w, x);
                            }
                        }
                        assert forall|x: T, k: int|
                            #![trigger g@[x][k]]
                            x != v && m3.contains(x) && !m0.contains(x) && 0 <= k
                                < g@[x].len() implies m3.contains(g@[x][k]) by {
                            if m2.contains(x) {
                                assert(m2.contains(g@[x][k]));
                            }
                        }
                    }
                }
                i += 1;
            }
        }
    }

    /// Whether `v` and `w` have a number and it is the same.
    pub fn connected(&self, v: T, w: T) -> (r: bool)
        requires
            obeys_key_model::<T>(),
        ensures
            r == (self.ids().contains_key(v) && self.ids().contains_key(w) && self.ids()[v]
                == self.ids()[w]),
    {
        broadcast use vstd::std_specs::hash::group_hash_axioms;

        if let (Some(v_marked), Some(w_marked)) = (self.id.get(&v), self.id.get(&w)) {
            *v_marked == *w_marked
        } else {
            false
        }
    }
}

} // verus!
