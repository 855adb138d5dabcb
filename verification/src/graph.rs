//! Undirected graphs and the classic algorithms on them.
//!
//! The graph of this module has vertices of any type that can be a key of
//! a hash map; the modules below it work on graphs with the vertices
//! `0..v`.

pub mod breadth_first_paths;
pub mod cc;
pub mod cycle;
pub mod depth_first_paths;
pub mod depth_first_search;
pub mod edge;
pub mod edge_queue;
pub mod edge_weighted_graph;
pub mod graph;
pub mod kruskal_mst;
pub mod lazy_prim_mst;
pub mod prim_mst;
pub mod symbol_graph;
pub mod two_color;
pub mod union_find;

use std::collections::HashMap;
use std::collections::VecDeque;
use std::hash::Hash;
use vstd::prelude::*;
use vstd::std_specs::hash::obeys_key_model;
use vstd::std_specs::iter::IteratorSpec;

verus! {

/// An undirected graph: for each vertex that an edge ends at, the list of
/// its neighbours, in the order in which the edges were added.
pub struct Graph<T: Copy> {
    v: usize,
    e: usize,
    _adj: HashMap<T, Vec<T>>,
}

/// `w` is a neighbour of `v` in the lists `g`.
pub open spec fn joins<T>(g: Map<T, Seq<T>>, v: T, w: T) -> bool {
    g.contains_key(v) && g[v].contains(w)
}

/// `p` is a walk in `g`: a vertex, or vertices each of which is a neighbour
/// of the one before it.
pub open spec fn is_walk<T>(g: Map<T, Seq<T>>, p: Seq<T>) -> bool {
    &&& p.len() > 0
    &&& forall|i: int| 0 <= i < p.len() - 1 ==> joins(g, #[trigger] p[i], p[i + 1])
}

/// A walk in `g` leads from `s` to `t`.
pub open spec fn reaches<T>(g: Map<T, Seq<T>>, s: T, t: T) -> bool {
    exists|p: Seq<T>| is_walk(g, p) && #[trigger] p.first() == s && p.last() == t
}

/// Every neighbour in `g` has a list of its own.
pub open spec fn closed_lists<T>(g: Map<T, Seq<T>>) -> bool {
    forall|v: T, k: int|
        #![trigger g[v][k]]
        g.contains_key(v) && 0 <= k < g[v].len() ==> g.contains_key(g[v][k])
}

/// Every edge of `g` stands in the lists of both of its ends.
pub open spec fn two_way<T>(g: Map<T, Seq<T>>) -> bool {
    forall|v: T, k: int|
        #![trigger g[v][k]]
        g.contains_key(v) && 0 <= k < g[v].len() ==> joins(g, g[v][k], v)
}

/// In a graph that holds every edge in both directions, what is reachable
/// from `s` reaches `s`.
pub proof fn lemma_reaches_back<T>(g: Map<T, Seq<T>>, s: T, t: T)
    requires
        two_way(g),
        reaches(g, s, t),
    ensures
        reaches(g, t, s),
{
    let p = choose|p: Seq<T>| is_walk(g, p) && #[trigger] p.first() == s && p.last() == t;
    let q = p.reverse();
    assert forall|i: int| 0 <= i < q.len() - 1 implies joins(g, #[trigger] q[i], q[i + 1]) by {
        let j = p.len() - 2 - i;
        assert(q[i] == p[j + 1]);
        assert(q[i + 1] == p[j]);
        assert(joins(g, p[j], p[j + 1]));
        let k = choose|k: int| 0 <= k < g[p[j]].len() && g[p[j]][k] == p[j + 1];
        assert(joins(g, g[p[j]][k], p[j]));
    }
    assert(is_walk(g, q) && q.first() == t && q.last() == s);
}

/// What is reachable from something reachable from `s` is reachable from
/// `s`.
pub proof fn lemma_reaches_on<T>(g: Map<T, Seq<T>>, s: T, t: T, u: T)
    requires
        reaches(g, s, t),
        reaches(g, t, u),
    ensures
        reaches(g, s, u),
{
    let p = choose|p: Seq<T>| is_walk(g, p) && #[trigger] p.first() == s && p.last() == t;
    let q = choose|q: Seq<T>| is_walk(g, q) && #[trigger] q.first() == t && q.last() == u;
    let r = p + q.drop_first();
    assert forall|i: int| 0 <= i < r.len() - 1 implies joins(g, #[trigger] r[i], r[i + 1]) by {
        if i < p.len() - 1 {
            assert(r[i] == p[i] && r[i + 1] == p[i + 1]);
        } else if i == p.len() - 1 {
            assert(r[i] == p[i]);
            assert(r[i + 1] == q[1]);
            assert(joins(g, q[0int], q[0int + 1]));
        } else {
            let j = i - p.len() + 1;
            assert(r[i] == q[j]);
            assert(r[i + 1] == q[j + 1]);
        }
    }
    assert(r[0] == p[0]);
    assert(is_walk(g, r) && r.first() == s && r.last() == u);
}

/// The list of `v` in `g`; the empty list where `v` has none.
pub open spec fn list_of<T>(g: Map<T, Seq<T>>, v: T) -> Seq<T> {
    if g.contains_key(v) {
        g[v]
    } else {
        Seq::empty()
    }
}

/// The lists after an edge between `v` and `w` has been added: `w` at the
/// end of the list of `v`, and then `v` at the end of the list of `w`.
pub open spec fn linked<T>(g: Map<T, Seq<T>>, v: T, w: T) -> Map<T, Seq<T>> {
    let g1 = g.insert(v, list_of(g, v).push(w));
    g1.insert(w, list_of(g1, w).push(v))
}

/// A vertex is reachable from itself.
pub proof fn lemma_reaches_self<T>(g: Map<T, Seq<T>>, v: T)
    ensures
        reaches(g, v, v),
{
    let p = seq![v];
    assert(is_walk(g, p) && p.first() == v && p.last() == v);
}

/// What is reachable from a neighbour of `v` is reachable from `v`.
pub proof fn lemma_reaches_step<T>(g: Map<T, Seq<T>>, v: T, w: T, x: T)
    requires
        joins(g, v, w),
        reaches(g, w, x),
    ensures
        reaches(g, v, x),
{
    let p = choose|p: Seq<T>| is_walk(g, p) && #[trigger] p.first() == w && p.last() == x;
    let q = seq![v] + p;
    assert forall|i: int| 0 <= i < q.len() - 1 implies joins(g, #[trigger] q[i], q[i + 1]) by {
        if i > 0 {
            assert(q[i] == p[i - 1]);
            assert(q[i + 1] == p[i]);
        } else {
            assert(q[1] == p[0]);
        }
    }
    assert(is_walk(g, q) && q.first() == v && q.last() == x);
}

/// A neighbour of what is reachable from `s` is reachable from `s`.
pub proof fn lemma_reaches_extend<T>(g: Map<T, Seq<T>>, s: T, v: T, w: T)
    requires
        reaches(g, s, v),
        joins(g, v, w),
    ensures
        reaches(g, s, w),
{
    let p = choose|p: Seq<T>| is_walk(g, p) && #[trigger] p.first() == s && p.last() == v;
    let q = p.push(w);
    assert forall|i: int| 0 <= i < q.len() - 1 implies joins(g, #[trigger] q[i], q[i + 1]) by {
        if i < p.len() - 1 {
            assert(q[i] == p[i]);
            assert(q[i + 1] == p[i + 1]);
        } else {
            assert(q[i] == p.last());
        }
    }
    assert(is_walk(g, q) && q.first() == s && q.last() == w);
}

/// A set of vertices that holds the neighbours of its members and holds
/// `s` holds everything that is reachable from `s`.
pub proof fn lemma_closed_set_holds_reachable<T>(g: Map<T, Seq<T>>, marked: Set<T>, s: T, t: T)
    requires
        forall|x: T, k: int|
            #![trigger g[x][k]]
            marked.contains(x) && g.contains_key(x) && 0 <= k < g[x].len() ==> marked.contains(
                g[x][k],
            ),
        marked.contains(s),
        reaches(g, s, t),
    ensures
        marked.contains(t),
{
    let p = choose|p: Seq<T>| is_walk(g, p) && #[trigger] p.first() == s && p.last() == t;
    lemma_closed_along(g, marked, p, p.len() - 1);
}

proof fn lemma_closed_along<T>(g: Map<T, Seq<T>>, marked: Set<T>, p: Seq<T>, i: int)
    requires
        forall|x: T, k: int|
            #![trigger g[x][k]]
            marked.contains(x) && g.contains_key(x) && 0 <= k < g[x].len() ==> marked.contains(
                g[x][k],
            ),
        is_walk(g, p),
        marked.contains(p[0]),
        0 <= i < p.len(),
    ensures
        marked.contains(p[i]),
    decreases i,
{
    if i > 0 {
        lemma_closed_along(g, marked, p, i - 1);
        assert(joins(g, p[i - 1], p[i - 1 + 1]));
        let x = p[i - 1];
        let k = choose|k: int| 0 <= k < g[x].len() && g[x][k] == p[i];
        assert(marked.contains(g[x][k]));
    }
}

/// How many of the vertices of the finite set `all` are not in `marked`:
/// what grows smaller as a search goes on.
pub open spec fn unmarked<T>(all: Set<T>, marked: Set<T>) -> nat {
    all.difference(marked).len()
}

/// More marks leave no more vertices unmarked, and fewer where a vertex of
/// `all` is newly marked.
pub proof fn lemma_unmarked<T>(all: Set<T>, before: Set<T>, after: Set<T>, v: T)
    requires
        all.finite(),
        before.subset_of(after),
    ensures
        unmarked(all, after) <= unmarked(all, before),
        all.contains(v) && !before.contains(v) && after.contains(v) ==> unmarked(all, after)
            < unmarked(all, before),
{
    let a = all.difference(after);
    let b = all.difference(before);
    vstd::set_lib::lemma_len_subset(b, all);
    vstd::set_lib::lemma_len_subset(a, b);
    if all.contains(v) && !before.contains(v) && after.contains(v) {
        assert(a.subset_of(b.remove(v)));
        vstd::set_lib::lemma_len_subset(a, b.remove(v));
    }
}

impl<T: Copy + Hash + Eq> View for Graph<T> {
    type V = Map<T, Seq<T>>;

    /// The list of neighbours of each vertex that has one.
    closed spec fn view(&self) -> Map<T, Seq<T>> {
        self._adj@.map_values(|list: Vec<T>| list@)
    }
}

impl<T: Copy + Hash + Eq> Graph<T> {
    /// The number of vertices, as the graph counts them.
    pub closed spec fn vertex_count(&self) -> int {
        self.v as int
    }

    /// The number of edges that were added.
    pub closed spec fn edge_count(&self) -> int {
        self.e as int
    }

    /// The vertices are counted, and every neighbour is a vertex with a
    /// list of its own.
    pub closed spec fn wf(&self) -> bool {
        &&& self.v == self@.dom().len()
        &&& self@.dom().finite()
        &&& closed_lists(self@)
        &&& two_way(self@)
    }

    /// The vertices of a well-formed graph are finitely many, and their
    /// neighbours are vertices.
    pub proof fn lemma_wf(&self)
        requires
            self.wf(),
        ensures
            self@.dom().finite(),
            self@.dom().len() == self.vertex_count(),
            closed_lists(self@),
            two_way(self@),
    {
    }

    /// A graph without vertices.
    pub fn new() -> (g: Self)
        ensures
            g.wf(),
            g@ == Map::<T, Seq<T>>::empty(),
            g.edge_count() == 0,
    {
        let g = Graph { v: 0, e: 0, _adj: HashMap::new() };
        proof {
            assert(g@ =~= Map::<T, Seq<T>>::empty());
        }
        g
    }

    /// The number of vertices.
    pub fn v(&self) -> (n: usize)
        ensures
            n == self.vertex_count(),
    {
        self.v
    }

    /// The number of edges that were added.
    pub fn e(&self) -> (n: usize)
        ensures
            n == self.edge_count(),
    {
        self.e
    }

    /// Adds the edge between `v` and `w`, and with it the vertices `v` and
    /// `w` where they are new.
    pub fn add_edge(&mut self, v: T, w: T)
        requires
            obeys_key_model::<T>(),
            old(self).wf(),
            old(self).edge_count() < usize::MAX,
        ensures
            final(self).wf(),
            final(self)@ == linked(old(self)@, v, w),
            final(self).edge_count() == old(self).edge_count() + 1,
    {
        broadcast use vstd::std_specs::hash::group_hash_axioms;

        let ghost g0 = self@;
        let mut x_edge = match self._adj.remove(&v) {
            Some(list) => list,
            None => Vec::new(),
        };
        x_edge.push(w);
        self._adj.insert(v, x_edge);
        let ghost g1 = self@;
        proof {
            assert(g1 =~= g0.insert(v, list_of(g0, v).push(w)));
        }
        let mut y_edge = match self._adj.remove(&w) {
            Some(list) => list,
            None => Vec::new(),
        };
        y_edge.push(v);
        self._adj.insert(w, y_edge);
        self.v = self._adj.len();
        self.e += 1;
        proof {
            let g2 = self@;
            assert(g2 =~= g1.insert(w, list_of(g1, w).push(v)));
            assert(g2.dom() =~= self._adj@.dom());
            assert forall|x: T, k: int|
                #![trigger g2[x][k]]
                g2.contains_key(x) && 0 <= k < g2[x].len() implies g2.contains_key(g2[x][k]) by {
                if g0.contains_key(x) && k < g0[x].len() {
                    assert(g2[x][k] == g0[x][k]);
                    assert(g0.contains_key(g0[x][k]));
                }
            }
            assert(g2[v][list_of(g0, v).len() as int] == w);
            assert(g2[w][g2[w].len() - 1] == v);
            assert forall|x: T, k: int|
                #![trigger g2[x][k]]
                g2.contains_key(x) && 0 <= k < g2[x].len() implies joins(g2, g2[x][k], x) by {
                let y = g2[x][k];
                if g0.contains_key(x) && k < g0[x].len() {
                    assert(g2[x][k] == g0[x][k]);
                    assert(joins(g0, y, x));
                    let k2 = choose|k2: int| 0 <= k2 < g0[y].len() && g0[y][k2] == x;
                    assert(g2[y][k2] == x);
                } else if x == v && y == w {
                    assert(g2[w][g2[w].len() - 1] == v);
                } else {
                    assert(y == v);
                    assert(g2[v][list_of(g0, v).len() as int] == w);
                }
            }
        }
    }

    /// The neighbours of `v`; `None` where no edge ends at `v`.
    pub fn adj(&self, v: T) -> (list: Option<&Vec<T>>)
        requires
            obeys_key_model::<T>(),
        ensures
            match list {
                Some(l) => self@.contains_key(v) && l@ == self@[v],
                None => !self@.contains_key(v),
            },
    {
        broadcast use vstd::std_specs::hash::group_hash_axioms;

        self._adj.get(&v)
    }

    /// The vertices, each of them once, in an order that is not fixed.
    pub fn vertices(&self) -> (keys: Vec<T>)
        requires
            obeys_key_model::<T>(),
        ensures
            keys@.no_duplicates(),
            keys@.to_set() == self@.dom(),
    {
        broadcast use vstd::std_specs::hash::group_hash_axioms;

        let mut keys: Vec<T> = Vec::new();
        let ghost all = vstd::std_specs::hash::spec_keys_iter(&self._adj).remaining();
        for key in it: self._adj.keys()
            invariant
                it.seq() == all,
                keys@.len() == it.index(),
                forall|j: int| 0 <= j < keys@.len() ==> keys@[j] == *it.seq()[j],
        {
            keys.push(*key);
        }
        proof {
            assert(keys@ =~= all.unref());
            assert(self@.dom() =~= self._adj@.dom());
            assert forall|i: int, j: int|
                0 <= i < keys@.len() && 0 <= j < keys@.len() && i != j implies keys@[i]
                != keys@[j] by {
                assert(all[i] != all[j]);
            }
        }
        keys
    }
}

/// Every mark in `marked` is set.
pub open spec fn all_set<T>(marked: Map<T, bool>) -> bool {
    forall|v: T| #[trigger] marked.contains_key(v) ==> marked[v]
}

/// The neighbours of the vertices in `fresh` are in `marked`.
pub open spec fn explored<T>(g: Map<T, Seq<T>>, fresh: Set<T>, marked: Set<T>) -> bool {
    forall|x: T, k: int|
        #![trigger g[x][k]]
        fresh.contains(x) && g.contains_key(x) && 0 <= k < g[x].len() ==> marked.contains(g[x][k])
}

/// The vertices that a depth-first search from a source has reached.
pub struct DepthFirstSearch<T: Copy + Hash + Eq> {
    marked: HashMap<T, bool>,
    count: usize,
}

impl<T: Copy + Hash + Eq> DepthFirstSearch<T> {
    /// The vertices that were reached.
    pub closed spec fn reached(&self) -> Set<T> {
        self.marked@.dom()
    }

    /// The number of vertices that were reached, as the search counts them.
    pub closed spec fn counted(&self) -> int {
        self.count as int
    }

    /// Every mark is set, and the marked vertices are counted.
    pub closed spec fn wf(&self) -> bool {
        &&& all_set(self.marked@)
        &&& self.marked@.dom().finite()
        &&& self.count == self.marked@.dom().len()
    }

    /// Marks what is reachable from `s` in `g`, and nothing else.
    pub fn new(g: &Graph<T>, s: T) -> (r: Self)
        requires
            obeys_key_model::<T>(),
            g.wf(),
            g.vertex_count() < usize::MAX,
        ensures
            r.wf(),
            forall|v: T| r.reached().contains(v) <==> reaches(g@, s, v),
            r.counted() == r.reached().len(),
    {
        let mut dfs = DepthFirstSearch { marked: HashMap::new(), count: 0 };
        dfs.dfs(g, s, Ghost(s));
        proof {
            assert forall|v: T| reaches(g@, s, v) implies dfs.marked@.dom().contains(v) by {
                lemma_closed_set_holds_reachable(g@, dfs.marked@.dom(), s, v);
            }
        }
        dfs
    }

    /// Marks `s` and what can be reached from it through unmarked vertices.
    fn dfs(&mut self, g: &Graph<T>, s: T, Ghost(root): Ghost<T>)
        requires
            obeys_key_model::<T>(),
            g.wf(),
            g.vertex_count() < usize::MAX,
            old(self).wf(),
            !old(self).marked@.contains_key(s),
            old(self).marked@.dom().subset_of(g@.dom().insert(root)),
            g@.contains_key(s) || s == root,
        ensures
            final(self).wf(),
            old(self).marked@.dom().subset_of(final(self).marked@.dom()),
            final(self).marked@.dom().subset_of(g@.dom().insert(root)),
            final(self).marked@.contains_key(s),
            forall|x: T|
                final(self).marked@.contains_key(x) && !old(self).marked@.contains_key(x)
                    ==> reaches(g@, s, x),
            explored(
                g@,
                final(self).marked@.dom().difference(old(self).marked@.dom()),
                final(self).marked@.dom(),
            ),
        decreases unmarked(g@.dom(), old(self).marked@.dom()),
    {
        broadcast use vstd::std_specs::hash::group_hash_axioms;

        let ghost m0 = self.marked@.dom();
        let ghost all = g@.dom().insert(root);
        proof {
            g.lemma_wf();
            vstd::set_lib::lemma_len_subset(m0.insert(s), all);
            lemma_reaches_self(g@, s);
        }
        self.marked.insert(s, true);
        self.count += 1;
        if let Some(edges) = g.adj(s) {
            let mut i: usize = 0;
            while i < edges.len()
                invariant
                    obeys_key_model::<T>(),
                    g.wf(),
                    g.vertex_count() < usize::MAX,
                    g@.contains_key(s),
                    edges@ == g@[s],
                    i <= edges@.len(),
                    m0 == old(self).marked@.dom(),
                    all == g@.dom().insert(root),
                    !m0.contains(s),
                    self.wf(),
                    self.marked@.contains_key(s),
                    m0.subset_of(self.marked@.dom()),
                    self.marked@.dom().subset_of(all),
                    forall|x: T|
                        self.marked@.contains_key(x) && !m0.contains(x) ==> reaches(g@, s, x),
                    explored(g@, self.marked@.dom().difference(m0).remove(s), self.marked@.dom()),
                    forall|k: int| 0 <= k < i ==> self.marked@.contains_key(#[trigger] edges@[k]),
                decreases edges@.len() - i,
            {
                let w = edges[i];
                proof {
                    g.lemma_wf();
                    assert(g@[s][i as int] == w);
                    assert(g@.contains_key(g@[s][i as int]));
                    assert(joins(g@, s, w));
                }
                if !self.marked.contains_key(&w) {
                    let ghost m2 = self.marked@.dom();
                    proof {
                        lemma_unmarked(g@.dom(), m0, m2, s);
                    }
                    self.dfs(g, w, Ghost(root));
                    proof {
                        let m3 = self.marked@.dom();
                        assert forall|x: T|
                            self.marked@.contains_key(x) && !m0.contains(x) implies reaches(
                            g@,
                            s,
                            x,
                        ) by {
                            if !m2.contains(x) {
                                lemma_reaches_step(g@, s, w, x);
                            }
                        }
                        assert forall|x: T, k: int|
                            #![trigger g@[x][k]]
                            m3.difference(m0).remove(s).contains(x) && g@.contains_key(x) && 0 <= k
                                < g@[x].len() implies m3.contains(g@[x][k]) by {
                            if m2.contains(x) {
                                assert(m2.difference(m0).remove(s).contains(x));
                                assert(m2.contains(g@[x][k]));
                            } else {
                                assert(m3.difference(m2).contains(x));
                            }
                        }
                    }
                }
                i += 1;
            }
            proof {
                let m3 = self.marked@.dom();
                assert forall|x: T, k: int|
                    #![trigger g@[x][k]]
                    m3.difference(m0).contains(x) && g@.contains_key(x) && 0 <= k
                        < g@[x].len() implies m3.contains(g@[x][k]) by {
                    if x == s {
                        assert(m3.contains(edges@[k]));
                    } else {
                        assert(m3.difference(m0).remove(s).contains(x));
                    }
                }
            }
        } else {
            proof {
                let m3 = self.marked@.dom();
                assert forall|x: T, k: int|
                    #![trigger g@[x][k]]
                    m3.difference(m0).contains(x) && g@.contains_key(x) && 0 <= k
                        < g@[x].len() implies m3.contains(g@[x][k]) by {
                    assert(x == s);
                }
            }
        }
    }

    /// Whether `v` was reached.
    pub fn is_marked(&self, v: T) -> (r: bool)
        requires
            obeys_key_model::<T>(),
            self.wf(),
        ensures
            r == self.reached().contains(v),
    {
        broadcast use vstd::std_specs::hash::group_hash_axioms;

        match self.marked.get(&v) {
            Some(mark) => *mark,
            None => false,
        }
    }
}

/// `x` hangs below a neighbour of lesser depth that is the source or is
/// marked.
pub open spec fn hangs<T>(
    g: Map<T, Seq<T>>,
    marked: Set<T>,
    edge_to: Map<T, T>,
    s: T,
    depth: Map<T, nat>,
    x: T,
) -> bool {
    &&& edge_to.contains_key(x)
    &&& joins(g, edge_to[x], x)
    &&& (edge_to[x] == s || (marked.contains(edge_to[x]) && depth[edge_to[x]] < depth[x]))
}

/// The marked vertices other than `s` hang below neighbours: the links
/// `edge_to` make a tree with the root `s`.
pub open spec fn is_tree<T>(
    g: Map<T, Seq<T>>,
    marked: Set<T>,
    edge_to: Map<T, T>,
    s: T,
    depth: Map<T, nat>,
) -> bool {
    forall|x: T| marked.contains(x) && x != s ==> #[trigger] hangs(g, marked, edge_to, s, depth, x)
}

/// Every marked vertex of a tree is reachable from its root.
pub proof fn lemma_tree_reaches<T>(
    g: Map<T, Seq<T>>,
    marked: Set<T>,
    edge_to: Map<T, T>,
    s: T,
    depth: Map<T, nat>,
    x: T,
)
    requires
        is_tree(g, marked, edge_to, s, depth),
        marked.contains(x) || x == s,
    ensures
        reaches(g, s, x),
    decreases depth[x],
{
    if x == s {
        lemma_reaches_self(g, s);
    } else {
        assert(hangs(g, marked, edge_to, s, depth, x));
        let p = edge_to[x];
        if p == s {
            lemma_reaches_self(g, s);
        } else {
            lemma_tree_reaches(g, marked, edge_to, s, depth, p);
        }
        lemma_reaches_extend(g, s, p, x);
    }
}

/// Follows the links `edge_to` from `v` up to `s` and returns the vertices
/// passed in the order from `s` to `v`.
fn path_along<T: Copy + Hash + Eq>(
    edge_to: &HashMap<T, T>,
    s: T,
    v: T,
    Ghost(g): Ghost<Map<T, Seq<T>>>,
    Ghost(marked): Ghost<Set<T>>,
    Ghost(depth): Ghost<Map<T, nat>>,
) -> (res: Vec<T>)
    requires
        obeys_key_model::<T>(),
        vstd::laws_eq::obeys_concrete_eq::<T>(),
        is_tree(g, marked, edge_to@, s, depth),
        marked.contains(v) || v == s,
    ensures
        is_walk(g, res@),
        res@.first() == s,
        res@.last() == v,
        res@.no_duplicates(),
{
    broadcast use vstd::std_specs::hash::group_hash_axioms;

    proof {
        reveal(vstd::laws_eq::obeys_concrete_eq);
    }
    let mut res: Vec<T> = Vec::new();
    let mut path: Vec<T> = Vec::new();
    let mut x: T = v;
    while x != s
        invariant
            obeys_key_model::<T>(),
            vstd::laws_eq::obeys_concrete_eq::<T>(),
            is_tree(g, marked, edge_to@, s, depth),
            marked.contains(x) || x == s,
            path@.len() == 0 ==> x == v,
            path@.len() > 0 ==> path@[0] == v && joins(g, x, path@.last()),
            forall|k: int| 0 <= k < path@.len() - 1 ==> joins(g, path@[k + 1], #[trigger] path@[k]),
            forall|k: int|
                0 <= k < path@.len() ==> (#[trigger] path@[k]) != s && (x != s ==> depth[path@[k]]
                    > depth[x]),
            forall|a: int, b: int|
                #![trigger path@[a], path@[b]]
                0 <= a < b < path@.len() ==> depth[path@[a]] > depth[path@[b]],
        decreases
                (if x == s {
                    0nat
                } else {
                    depth[x] + 1
                }),
    {
        proof {
            reveal(vstd::laws_eq::obeys_concrete_eq);
            assert(hangs(g, marked, edge_to@, s, depth, x));
        }
        path.push(x);
        if let Some(w) = edge_to.get(&x) {
            x = *w;
        }
    }
    proof {
        reveal(vstd::laws_eq::obeys_concrete_eq);
    }
    let ghost path_before = path@;
    path.push(s);
    let ghost chain = path@;
    let mut k: usize = path.len();
    while k > 0
        invariant
            k <= path@.len(),
            path@ == chain,
            res@.len() == chain.len() - k,
            forall|j: int| 0 <= j < res@.len() ==> #[trigger] res@[j] == chain[chain.len() - 1 - j],
        decreases k,
    {
        k -= 1;
        res.push(path[k]);
    }
    proof {
        let w = res@;
        let n = chain.len() as int;
        assert forall|i: int| 0 <= i < w.len() - 1 implies joins(g, #[trigger] w[i], w[i + 1]) by {
            let a = n - 2 - i;
            assert(w[i] == chain[a + 1]);
            assert(w[i + 1] == chain[a]);
            if a + 1 == n - 1 {
                assert(chain[a + 1] == s);
                assert(chain.subrange(0, n - 1).last() == chain[a]);
            } else {
                assert(joins(g, chain[a + 1], chain[a]));
            }
        }
        assert(w[0] == chain[n - 1]);
        assert(w[n - 1] == chain[0]);
        assert forall|i: int, j: int| 0 <= i < j < res@.len() implies res@[i] != res@[j] by {
            assert(res@[i] == chain[n - 1 - i]);
            assert(res@[j] == chain[n - 1 - j]);
            if i > 0 {
                assert(depth[path_before[n - 1 - j]] > depth[path_before[n - 1 - i]]);
            } else {
                assert(path_before[n - 1 - j] != s);
            }
        }
    }
    res
}

/// For every vertex that a depth-first search from a source has reached,
/// the vertex from which it was reached.
#[verifier::reject_recursive_types(T)]
pub struct DepthFirstPaths<T: Copy + Hash + Eq> {
    marked: HashMap<T, bool>,
    edge_to: HashMap<T, T>,
    count: usize,
    s: T,
    g: Ghost<Map<T, Seq<T>>>,
    depth: Ghost<Map<T, nat>>,
}

impl<T: Copy + Hash + Eq> DepthFirstPaths<T> {
    /// The vertices that were reached.
    pub closed spec fn reached(&self) -> Set<T> {
        self.marked@.dom()
    }

    /// The graph that was searched.
    pub closed spec fn graph(&self) -> Map<T, Seq<T>> {
        self.g@
    }

    /// The vertex at which the search started.
    pub closed spec fn source(&self) -> T {
        self.s
    }

    /// Every mark is set, the marked vertices are counted, and the links
    /// from the marked vertices towards the source make a tree in the
    /// graph.
    pub closed spec fn wf(&self) -> bool {
        &&& all_set(self.marked@)
        &&& self.marked@.dom().finite()
        &&& self.count == self.marked@.dom().len()
        &&& is_tree(self.g@, self.marked@.dom(), self.edge_to@, self.s, self.depth@)
    }

    /// Searches `g` depth first from `s`: marks what is reachable from `s`,
    /// and nothing else, and notes for each vertex from where it was
    /// reached.
    pub fn new(g: &Graph<T>, s: T) -> (r: Self)
        requires
            obeys_key_model::<T>(),
            g.wf(),
            g.vertex_count() < usize::MAX,
        ensures
            r.wf(),
            r.graph() == g@,
            r.source() == s,
            forall|v: T| r.reached().contains(v) <==> reaches(g@, s, v),
    {
        let mut dfp = DepthFirstPaths {
            marked: HashMap::new(),
            edge_to: HashMap::new(),
            count: 0,
            s,
            g: Ghost(g@),
            depth: Ghost(Map::empty()),
        };
        dfp.dfs(g, s);
        proof {
            assert forall|v: T| dfp.marked@.dom().contains(v) <==> reaches(g@, s, v) by {
                if reaches(g@, s, v) {
                    lemma_closed_set_holds_reachable(g@, dfp.marked@.dom(), s, v);
                }
                if dfp.marked@.dom().contains(v) {
                    lemma_tree_reaches(g@, dfp.marked@.dom(), dfp.edge_to@, s, dfp.depth@, v);
                }
            }
        }
        dfp
    }

    /// Marks `v` and what can be reached from it through unmarked vertices,
    /// and links each vertex reached to the one it was reached from.
    fn dfs(&mut self, g: &Graph<T>, v: T)
        requires
            obeys_key_model::<T>(),
            g.wf(),
            g.vertex_count() < usize::MAX,
            old(self).g@ == g@,
            old(self).wf(),
            !old(self).marked@.contains_key(v),
            old(self).marked@.dom().subset_of(g@.dom().insert(old(self).s)),
            g@.contains_key(v) || v == old(self).s,
            v != old(self).s ==> hangs(
                g@,
                old(self).marked@.dom(),
                old(self).edge_to@,
                old(self).s,
                old(self).depth@,
                v,
            ),
        ensures
            final(self).g@ == g@,
            final(self).s == old(self).s,
            final(self).wf(),
            old(self).marked@.dom().subset_of(final(self).marked@.dom()),
            final(self).marked@.dom().subset_of(g@.dom().insert(old(self).s)),
            final(self).marked@.contains_key(v),
            explored(
                g@,
                final(self).marked@.dom().difference(old(self).marked@.dom()),
                final(self).marked@.dom(),
            ),
        decreases unmarked(g@.dom(), old(self).marked@.dom()),
    {
        broadcast use vstd::std_specs::hash::group_hash_axioms;

        let ghost m0 = self.marked@.dom();
        let ghost all = g@.dom().insert(self.s);
        let ghost e0 = self.edge_to@;
        let ghost d0 = self.depth@;
        proof {
            g.lemma_wf();
            vstd::set_lib::lemma_len_subset(m0.insert(v), all);
        }
        self.marked.insert(v, true);
        self.count += 1;
        proof {
            let m1 = self.marked@.dom();
            assert forall|x: T| m1.contains(x) && x != self.s implies #[trigger] hangs(
                g@,
                m1,
                e0,
                self.s,
                d0,
                x,
            ) by {
                if x != v {
                    assert(hangs(g@, m0, e0, self.s, d0, x));
                }
            }
        }
        if let Some(edges) = g.adj(v) {
            let mut i: usize = 0;
            while i < edges.len()
                invariant
                    obeys_key_model::<T>(),
                    g.wf(),
                    g.vertex_count() < usize::MAX,
                    self.g@ == g@,
                    self.s == old(self).s,
                    g@.contains_key(v),
                    edges@ == g@[v],
                    i <= edges@.len(),
                    m0 == old(self).marked@.dom(),
                    all == g@.dom().insert(self.s),
                    !m0.contains(v),
                    self.wf(),
                    self.marked@.contains_key(v),
                    m0.subset_of(self.marked@.dom()),
                    self.marked@.dom().subset_of(all),
                    explored(g@, self.marked@.dom().difference(m0).remove(v), self.marked@.dom()),
                    forall|k: int| 0 <= k < i ==> self.marked@.contains_key(#[trigger] edges@[k]),
                decreases edges@.len() - i,
            {
                let w = edges[i];
                proof {
                    g.lemma_wf();
                    assert(g@[v][i as int] == w);
                    assert(g@.contains_key(g@[v][i as int]));
                    assert(joins(g@, v, w));
                }
                if !self.marked.contains_key(&w) {
                    let ghost m2 = self.marked@.dom();
                    let ghost e2 = self.edge_to@;
                    let ghost d2 = self.depth@;
                    self.edge_to.insert(w, v);
                    self.depth = Ghost(d2.insert(w, d2[v] + 1));
                    proof {
                        lemma_unmarked(g@.dom(), m0, m2, v);
                        assert forall|x: T| m2.contains(x) && x != self.s implies #[trigger] hangs(
                            g@,
                            m2,
                            self.edge_to@,
                            self.s,
                            self.depth@,
                            x,
                        ) by {
                            assert(hangs(g@, m2, e2, self.s, d2, x));
                        }
                    }
                    self.dfs(g, w);
                    proof {
                        let m3 = self.marked@.dom();
                        assert forall|x: T, k: int|
                            #![trigger g@[x][k]]
                            m3.difference(m0).remove(v).contains(x) && g@.contains_key(x) && 0 <= k
                                < g@[x].len() implies m3.contains(g@[x][k]) by {
                            if m2.contains(x) {
                                assert(m2.difference(m0).remove(v).contains(x));
                                assert(m2.contains(g@[x][k]));
                            } else {
                                assert(m3.difference(m2).contains(x));
                            }
                        }
                    }
                }
                i += 1;
            }
            proof {
                let m3 = self.marked@.dom();
                assert forall|x: T, k: int|
                    #![trigger g@[x][k]]
                    m3.difference(m0).contains(x) && g@.contains_key(x) && 0 <= k
                        < g@[x].len() implies m3.contains(g@[x][k]) by {
                    if x == v {
                        assert(m3.contains(edges@[k]));
                    } else {
                        assert(m3.difference(m0).remove(v).contains(x));
                    }
                }
            }
        } else {
            proof {
                let m3 = self.marked@.dom();
                assert forall|x: T, k: int|
                    #![trigger g@[x][k]]
                    m3.difference(m0).contains(x) && g@.contains_key(x) && 0 <= k
                        < g@[x].len() implies m3.contains(g@[x][k]) by {
                    assert(x == v);
                }
            }
        }
    }

    /// Whether a walk leads from the source to `v`.
    pub fn has_path_to(&self, v: T) -> (r: bool)
        requires
            obeys_key_model::<T>(),
            self.wf(),
        ensures
            r == self.reached().contains(v),
    {
        broadcast use vstd::std_specs::hash::group_hash_axioms;

        match self.marked.get(&v) {
            Some(mark) => *mark,
            None => false,
        }
    }

    /// The walk from the source to `v` along which the search reached `v`;
    /// it passes no vertex twice.
    pub fn path_to(&self, v: T) -> (r: Vec<T>)
        requires
            obeys_key_model::<T>(),
            vstd::laws_eq::obeys_concrete_eq::<T>(),
            self.wf(),
            self.reached().contains(v),
        ensures
            is_walk(self.graph(), r@),
            r@.first() == self.source(),
            r@.last() == v,
            r@.no_duplicates(),
    {
        path_along(
            &self.edge_to,
            self.s,
            v,
            Ghost(self.g@),
            Ghost(self.marked@.dom()),
            Ghost(self.depth@),
        )
    }
}

/// A walk with at least one edge leads from `s` to `t`.
pub open spec fn reaches_by_edge<T>(g: Map<T, Seq<T>>, s: T, t: T) -> bool {
    exists|w: T| joins(g, s, w) && #[trigger] reaches(g, w, t)
}

/// `x` waits in `queue`.
pub open spec fn waits<T>(queue: Seq<T>, x: T) -> bool {
    exists|j: int| 0 <= j < queue.len() && #[trigger] queue[j] == x
}

/// Every vertex that is marked or is `s`, other than `v` and those that
/// wait in `queue`, has its neighbours marked.
pub open spec fn settled<T>(
    g: Map<T, Seq<T>>,
    marked: Set<T>,
    s: T,
    queue: Seq<T>,
    v: Option<T>,
) -> bool {
    forall|x: T, k: int|
        #![trigger g[x][k]]
        (marked.contains(x) || x == s) && Some(x) != v && !waits(queue, x) && g.contains_key(x)
            && 0 <= k < g[x].len() ==> marked.contains(g[x][k])
}

/// The source, if it is marked, has a link to a neighbour that is marked or
/// is the source itself.
pub open spec fn source_linked<T>(
    g: Map<T, Seq<T>>,
    marked: Set<T>,
    edge_to: Map<T, T>,
    s: T,
) -> bool {
    marked.contains(s) ==> edge_to.contains_key(s) && joins(g, edge_to[s], s) && (edge_to[s] == s
        || marked.contains(edge_to[s]))
}

/// Every marked vertex of a tree whose source is linked is reached from the
/// source by a walk with at least one edge.
pub proof fn lemma_tree_reaches_by_edge<T>(
    g: Map<T, Seq<T>>,
    marked: Set<T>,
    edge_to: Map<T, T>,
    s: T,
    depth: Map<T, nat>,
    x: T,
)
    requires
        is_tree(g, marked, edge_to, s, depth),
        source_linked(g, marked, edge_to, s),
        marked.contains(x),
    ensures
        reaches_by_edge(g, s, x),
    decreases
            (if x == s {
                1nat
            } else {
                0nat
            }),
            depth[x],
{
    let p = edge_to[x];
    if x != s {
        assert(hangs(g, marked, edge_to, s, depth, x));
    }
    if p == s {
        lemma_reaches_self(g, x);
        assert(joins(g, s, x) && reaches(g, x, x));
    } else {
        lemma_tree_reaches_by_edge(g, marked, edge_to, s, depth, p);
        let w = choose|w: T| joins(g, s, w) && #[trigger] reaches(g, w, p);
        lemma_reaches_extend(g, w, p, x);
        assert(joins(g, s, w) && reaches(g, w, x));
    }
}

/// For every vertex that a breadth-first search from a source has reached,
/// the vertex from which it was reached.
#[verifier::reject_recursive_types(T)]
pub struct BreadthFirstPaths<T: Copy + Hash + Eq> {
    marked: HashMap<T, bool>,
    edge_to: HashMap<T, T>,
    count: usize,
    s: T,
    g: Ghost<Map<T, Seq<T>>>,
    depth: Ghost<Map<T, nat>>,
}

impl<T: Copy + Hash + Eq> BreadthFirstPaths<T> {
    /// The vertices that were reached.
    pub closed spec fn reached(&self) -> Set<T> {
        self.marked@.dom()
    }

    /// The graph that was searched.
    pub closed spec fn graph(&self) -> Map<T, Seq<T>> {
        self.g@
    }

    /// The vertex at which the search started.
    pub closed spec fn source(&self) -> T {
        self.s
    }

    /// Every mark is set, the marked vertices are vertices of the graph and
    /// are counted, and the links from the marked vertices towards the
    /// source make a tree in the graph.
    pub closed spec fn wf(&self) -> bool {
        &&& all_set(self.marked@)
        &&& self.marked@.dom().finite()
        &&& self.marked@.dom().subset_of(self.g@.dom())
        &&& self.count == self.marked@.dom().len()
        &&& is_tree(self.g@, self.marked@.dom(), self.edge_to@, self.s, self.depth@)
        &&& source_linked(self.g@, self.marked@.dom(), self.edge_to@, self.s)
    }

    /// Searches `g` breadth first from `s`: marks what a walk with at least
    /// one edge leads to from `s`, and nothing else, and notes for each
    /// vertex from where it was reached.
    pub fn new(g: &Graph<T>, s: T) -> (r: Self)
        requires
            obeys_key_model::<T>(),
            g.wf(),
        ensures
            r.wf(),
            r.graph() == g@,
            r.source() == s,
            forall|v: T| r.reached().contains(v) <==> reaches_by_edge(g@, s, v),
    {
        let mut bfp = BreadthFirstPaths {
            marked: HashMap::new(),
            edge_to: HashMap::new(),
            count: 0,
            s,
            g: Ghost(g@),
            depth: Ghost(Map::empty()),
        };
        proof {
            g.lemma_wf();
        }
        bfp.bfs(g, s);
        proof {
            let marked = bfp.marked@.dom();
            assert forall|v: T| marked.contains(v) <==> reaches_by_edge(g@, s, v) by {
                if marked.contains(v) {
                    lemma_tree_reaches_by_edge(g@, marked, bfp.edge_to@, s, bfp.depth@, v);
                }
                if reaches_by_edge(g@, s, v) {
                    let w = choose|w: T| joins(g@, s, w) && #[trigger] reaches(g@, w, v);
                    let k = choose|k: int| 0 <= k < g@[s].len() && g@[s][k] == w;
                    assert(marked.contains(g@[s][k]));
                    lemma_closed_set_holds_reachable(g@, marked, w, v);
                }
            }
        }
        bfp
    }

    /// Marks, in the order in which they are found, the unmarked neighbours
    /// of `v` and of every vertex marked.
    fn bfs(&mut self, g: &Graph<T>, v: T)
        requires
            obeys_key_model::<T>(),
            g.wf(),
            old(self).g@ == g@,
            old(self).s == v,
            old(self).count == 0,
            old(self).marked@ == Map::<T, bool>::empty(),
        ensures
            final(self).g@ == g@,
            final(self).s == old(self).s,
            final(self).wf(),
            settled(g@, final(self).marked@.dom(), final(self).s, Seq::empty(), None),
    {
        broadcast use vstd::std_specs::hash::group_hash_axioms;

        let ghost s = self.s;
        let mut queue: VecDeque<T> = VecDeque::new();
        queue.push_back(v);
        proof {
            g.lemma_wf();
            assert(queue@[0] == s);
            assert(unmarked(g@.dom(), self.marked@.dom()) >= 0);
        }
        while queue.len() > 0
            invariant
                obeys_key_model::<T>(),
                g.wf(),
                self.g@ == g@,
                self.s == s,
                self.wf(),
                forall|j: int|
                    0 <= j < queue@.len() ==> (#[trigger] queue@[j]) == s || self.marked@.contains_key(
                        queue@[j],
                    ),
                settled(g@, self.marked@.dom(), s, queue@, None),
            decreases 2 * unmarked(g@.dom(), self.marked@.dom()) + queue@.len(),
        {
            let ghost q0 = queue@;
            let ghost measure = 2 * unmarked(g@.dom(), self.marked@.dom()) + q0.len();
            let v = queue.pop_front().unwrap();
            proof {
                assert(q0[0] == v);
                assert forall|x: T, k: int|
                    #![trigger g@[x][k]]
                    (self.marked@.dom().contains(x) || x == s) && Some(x) != Some(v) && !waits(
                        queue@,
                        x,
                    ) && g@.contains_key(x) && 0 <= k < g@[x].len() implies self.marked@.dom().contains(
                    g@[x][k],
                ) by {
                    if waits(q0, x) {
                        let j = choose|j: int| 0 <= j < q0.len() && #[trigger] q0[j] == x;
                        assert(queue@[j - 1] == x);
                    }
                }
                assert forall|j: int| 0 <= j < queue@.len() implies (#[trigger] queue@[j]) == s
                    || self.marked@.contains_key(queue@[j]) by {
                    assert(queue@[j] == q0[j + 1]);
                }
            }
            if let Some(edges) = g.adj(v) {
                let mut i: usize = 0;
                while i < edges.len()
                    invariant
                        obeys_key_model::<T>(),
                        g.wf(),
                        self.g@ == g@,
                        self.s == s,
                        self.wf(),
                        g@.contains_key(v),
                        edges@ == g@[v],
                        i <= edges@.len(),
                        v == s || self.marked@.contains_key(v),
                        forall|j: int|
                            0 <= j < queue@.len() ==> (#[trigger] queue@[j]) == s
                                || self.marked@.contains_key(queue@[j]),
                        settled(g@, self.marked@.dom(), s, queue@, Some(v)),
                        forall|k: int| 0 <= k < i ==> self.marked@.contains_key(#[trigger] edges@[k]),
                        2 * unmarked(g@.dom(), self.marked@.dom()) + queue@.len() < measure,
                    decreases edges@.len() - i,
                {
                    let w = edges[i];
                    proof {
                        g.lemma_wf();
                        assert(g@[v][i as int] == w);
                        assert(g@.contains_key(g@[v][i as int]));
                        assert(joins(g@, v, w));
                    }
                    if !self.marked.contains_key(&w) {
                        let ghost m2 = self.marked@.dom();
                        let ghost e2 = self.edge_to@;
                        let ghost d2 = self.depth@;
                        let ghost q2 = queue@;
                        proof {
                            vstd::set_lib::lemma_len_subset(m2.insert(w), g@.dom());
                            lemma_unmarked(g@.dom(), m2, m2.insert(w), w);
                        }
                        self.marked.insert(w, true);
                        self.edge_to.insert(w, v);
                        self.count += 1;
                        queue.push_back(w);
                        proof {
                            if w != s {
                                let below: nat = if v == s {
                                    0
                                } else {
                                    d2[v]
                                };
                                self.depth@ = d2.insert(w, below + 1);
                            }
                            let m3 = self.marked@.dom();
                            assert(m3 =~= m2.insert(w));
                            assert(queue@[q2.len() as int] == w);
                            assert forall|x: T| m3.contains(x) && x != s implies #[trigger] hangs(
                                g@,
                                m3,
                                self.edge_to@,
                                s,
                                self.depth@,
                                x,
                            ) by {
                                if x != w {
                                    assert(hangs(g@, m2, e2, s, d2, x));
                                }
                            }
                            assert forall|j: int| 0 <= j < queue@.len() implies (
                            #[trigger] queue@[j]) == s || self.marked@.contains_key(queue@[j]) by {
                                if j < q2.len() {
                                    assert(queue@[j] == q2[j]);
                                }
                            }
                            assert forall|x: T, k: int|
                                #![trigger g@[x][k]]
                                (m3.contains(x) || x == s) && Some(x) != Some(v) && !waits(
                                    queue@,
                                    x,
                                ) && g@.contains_key(x) && 0 <= k < g@[x].len() implies m3.contains(
                                g@[x][k],
                            ) by {
                                if x != w {
                                    if waits(q2, x) {
                                        let j = choose|j: int|
                                            0 <= j < q2.len() && #[trigger] q2[j] == x;
                                        assert(queue@[j] == x);
                                    }
                                    assert(m2.contains(g@[x][k]));
                                }
                            }
                        }
                    }
                    i += 1;
                }
                proof {
                    assert forall|x: T, k: int|
                        #![trigger g@[x][k]]
                        (self.marked@.dom().contains(x) || x == s) && !waits(queue@, x)
                            && g@.contains_key(x) && 0 <= k
                            < g@[x].len() implies self.marked@.dom().contains(g@[x][k]) by {
                        if x == v {
                            assert(self.marked@.contains_key(edges@[k]));
                        }
                    }
                }
            }
        }
        proof {
            assert forall|x: T, k: int|
                #![trigger g@[x][k]]
                (self.marked@.dom().contains(x) || x == s) && !waits(Seq::<T>::empty(), x)
                    && g@.contains_key(x) && 0 <= k < g@[x].len() implies self.marked@.dom().contains(
                g@[x][k],
            ) by {
                assert(!waits(queue@, x));
            }
        }
    }

    /// Whether a walk with at least one edge leads from the source to `v`.
    pub fn has_path_to(&self, v: T) -> (r: bool)
        requires
            obeys_key_model::<T>(),
            self.wf(),
        ensures
            r == self.reached().contains(v),
    {
        broadcast use vstd::std_specs::hash::group_hash_axioms;

        match self.marked.get(&v) {
            Some(mark) => *mark,
            None => false,
        }
    }

    /// The walk from the source to `v` along which the search reached `v`,
    /// which passes no vertex twice; the source alone where `v` is the
    /// source.
    pub fn path_to(&self, v: T) -> (r: Vec<T>)
        requires
            obeys_key_model::<T>(),
            vstd::laws_eq::obeys_concrete_eq::<T>(),
            self.wf(),
            self.reached().contains(v) || v == self.source(),
        ensures
            is_walk(self.graph(), r@),
            r@.first() == self.source(),
            r@.last() == v,
            r@.no_duplicates(),
    {
        path_along(
            &self.edge_to,
            self.s,
            v,
            Ghost(self.g@),
            Ghost(self.marked@.dom()),
            Ghost(self.depth@),
        )
    }
}

} // verus!
