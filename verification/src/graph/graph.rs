//! An undirected graph on the vertices `0..v`, kept as adjacency lists.

use vstd::prelude::*;

verus! {

/// An undirected graph: for each vertex the list of its neighbours, in the
/// order in which the edges were added.
pub struct Graph {
    v: usize,
    e: usize,
    adj: Vec<Vec<usize>>,
}

/// The number of entries in the first `k` lists of `lists`.
pub open spec fn entries(lists: Seq<Seq<usize>>, k: int) -> int
    decreases k,
{
    if k <= 0 {
        0
    } else {
        entries(lists, k - 1) + lists[k - 1].len()
    }
}

/// The number of the first `k` entries of `list` that are `v`.
pub open spec fn occurrences(list: Seq<usize>, v: int, k: int) -> int
    decreases k,
{
    if k <= 0 {
        0
    } else {
        occurrences(list, v, k - 1) + if list[k - 1] == v {
            1int
        } else {
            0
        }
    }
}

/// The number of entries in the first `k` lists of `lists` that name the
/// vertex whose list they stand in.
pub open spec fn loop_entries(lists: Seq<Seq<usize>>, k: int) -> int
    decreases k,
{
    if k <= 0 {
        0
    } else {
        loop_entries(lists, k - 1) + occurrences(lists[k - 1], k - 1, lists[k - 1].len() as int)
    }
}

/// `w` is a neighbour of `v` in the adjacency lists `g`.
pub open spec fn has_edge(g: Seq<Seq<usize>>, v: int, w: int) -> bool {
    &&& 0 <= v < g.len()
    &&& 0 <= w < g.len()
    &&& exists|k: int| 0 <= k < g[v].len() && #[trigger] g[v][k] == w
}

/// The lists after an edge between `v` and `w` has been added: each of the
/// two gets the other at the end of its list; a loop at `v` stands twice
/// in the list of `v` and is added only where `v` has none yet.
pub open spec fn added(g: Seq<Seq<usize>>, v: usize, w: usize) -> Seq<Seq<usize>> {
    if v != w {
        g.update(v as int, g[v as int].push(w)).update(w as int, g[w as int].push(v))
    } else if !g[v as int].contains(v) {
        g.update(v as int, g[v as int].push(v).push(v))
    } else {
        g
    }
}

/// Every edge of `g` stands in the lists of both of its ends.
pub open spec fn symmetric(g: Seq<Seq<usize>>) -> bool {
    forall|v: int, k: int|
        #![trigger g[v][k]]
        0 <= v < g.len() && 0 <= k < g[v].len() && g[v][k] < g.len() ==> has_edge(
            g,
            g[v][k] as int,
            v,
        )
}

/// `p` is a walk in `g`: a vertex, or vertices each of which is a neighbour
/// of the one before it.
pub open spec fn is_path(g: Seq<Seq<usize>>, p: Seq<int>) -> bool {
    &&& p.len() > 0
    &&& 0 <= p[0] < g.len()
    &&& forall|i: int| 0 <= i < p.len() - 1 ==> has_edge(g, #[trigger] p[i], p[i + 1])
}

/// A walk in `g` leads from `s` to `t`.
pub open spec fn reachable(g: Seq<Seq<usize>>, s: int, t: int) -> bool {
    exists|p: Seq<int>| is_path(g, p) && #[trigger] p.first() == s && p.last() == t
}

proof fn lemma_occurrences_bound(list: Seq<usize>, v: int, k: int)
    requires
        0 <= k <= list.len(),
    ensures
        0 <= occurrences(list, v, k) <= k,
    decreases k,
{
    if k > 0 {
        lemma_occurrences_bound(list, v, k - 1);
    }
}

proof fn lemma_loop_entries_bound(lists: Seq<Seq<usize>>, k: int)
    requires
        0 <= k <= lists.len(),
    ensures
        0 <= loop_entries(lists, k) <= entries(lists, k),
    decreases k,
{
    if k > 0 {
        lemma_loop_entries_bound(lists, k - 1);
        lemma_occurrences_bound(lists[k - 1], k - 1, lists[k - 1].len() as int);
    }
}

proof fn lemma_entries_monotone(lists: Seq<Seq<usize>>, k: int, n: int)
    requires
        0 <= k <= n <= lists.len(),
    ensures
        0 <= entries(lists, k) <= entries(lists, n),
    decreases n - k,
{
    lemma_entries_nonneg(lists, k);
    if k < n {
        lemma_entries_monotone(lists, k + 1, n);
        assert(entries(lists, k + 1) == entries(lists, k) + lists[k].len());
    }
}

proof fn lemma_entries_nonneg(lists: Seq<Seq<usize>>, k: int)
    ensures
        0 <= entries(lists, k),
    decreases k,
{
    if k > 0 {
        lemma_entries_nonneg(lists, k - 1);
    }
}

/// One more entry in the list of `v` is one more entry in the lists up to
/// `k`, if `v` is among them.
proof fn lemma_entries_push(lists: Seq<Seq<usize>>, v: int, w: usize, k: int)
    requires
        0 <= v < lists.len(),
        0 <= k <= lists.len(),
    ensures
        entries(lists.update(v, lists[v].push(w)), k) == entries(lists, k) + if v < k {
            1int
        } else {
            0
        },
    decreases k,
{
    if k > 0 {
        lemma_entries_push(lists, v, w, k - 1);
    }
}

/// The first line of the text of a graph with `v` vertices and `e` edges,
/// as the standard formatter writes it.
pub uninterp spec fn heading(v: usize, e: usize) -> Seq<char>;

/// The line for the vertex `v` with the neighbours `list`, as the standard
/// formatter writes it.
pub uninterp spec fn listing_line(v: usize, list: Seq<usize>) -> Seq<char>;

/// The lines for the first `k` vertices of `lists`.
pub open spec fn listing_lines(lists: Seq<Seq<usize>>, k: int) -> Seq<char>
    decreases k,
{
    if k <= 0 {
        Seq::empty()
    } else {
        listing_lines(lists, k - 1) + listing_line((k - 1) as usize, lists[k - 1])
    }
}

/// Calls the standard formatter for the first line of the text of a graph:
/// the two numbers in decimal notation with the words `vertices` and
/// `edges`.
#[verifier::external_body]
fn format_heading(v: usize, e: usize) -> (text: String)
    ensures
        text@ == heading(v, e),
{
    format!("{} vertices, {} edges \n", v, e)
}

/// Calls the standard formatter for the line of one vertex: its number, a
/// colon, and the list of its neighbours.
#[verifier::external_body]
fn format_line(v: usize, list: &Vec<usize>) -> (text: String)
    ensures
        text@ == listing_line(v, list@),
{
    format!("{}: {:?} \n", v, list)
}

/// Calls `push_str` of the standard string, which appends a string.
#[verifier::external_body]
fn append_text(text: &mut String, more: &str)
    ensures
        final(text)@ == old(text)@ + more@,
{
    text.push_str(more)
}

/// Whether `list` holds `w`.
fn holds(list: &Vec<usize>, w: usize) -> (r: bool)
    ensures
        r == list@.contains(w),
{
    let mut i: usize = 0;
    while i < list.len()
        invariant
            i <= list@.len(),
            forall|k: int| 0 <= k < i ==> list@[k] != w,
        decreases list@.len() - i,
    {
        if list[i] == w {
            return true;
        }
        i += 1;
    }
    false
}

impl View for Graph {
    type V = Seq<Seq<usize>>;

    /// The adjacency lists, one for each vertex.
    closed spec fn view(&self) -> Seq<Seq<usize>> {
        Seq::new(self.adj@.len(), |i: int| self.adj@[i]@)
    }
}

impl Graph {
    /// The number of edges, as `e` reports it.
    pub closed spec fn edges(&self) -> int {
        self.e as int
    }

    /// There is one list for each vertex, every neighbour is a vertex, and
    /// every edge that was added stands in two lists.
    pub closed spec fn wf(&self) -> bool {
        &&& self.v == self.adj@.len()
        &&& forall|i: int, k: int|
            0 <= i < self@.len() && 0 <= k < self@[i].len() ==> (#[trigger] self@[i][k])
                < self@.len()
        &&& entries(self@, self@.len() as int) == 2 * self.e
        &&& symmetric(self@)
    }

    /// A well-formed graph holds every edge in both directions.
    pub proof fn lemma_symmetric(&self)
        requires
            self.wf(),
        ensures
            symmetric(self@),
    {
    }

    /// The lists of a well-formed graph hold two entries for each edge.
    pub proof fn lemma_edges(&self)
        requires
            self.wf(),
        ensures
            entries(self@, self@.len() as int) == 2 * self.edges(),
    {
    }

    /// Every neighbour in a well-formed graph is a vertex.
    pub proof fn lemma_neighbours(&self, v: int, k: int)
        requires
            self.wf(),
            0 <= v < self@.len(),
            0 <= k < self@[v].len(),
        ensures
            self@[v][k] < self@.len(),
    {
    }

    /// A graph with the vertices `0..v` and no edge.
    pub fn new(v: usize) -> (g: Self)
        ensures
            g.wf(),
            g@.len() == v,
            forall|i: int| 0 <= i < v ==> (#[trigger] g@[i]).len() == 0,
            g.edges() == 0,
    {
        let mut this = Graph { v, e: 0, adj: Vec::with_capacity(v) };
        let mut i: usize = 0;
        while i < v
            invariant
                i <= v,
                this.v == v,
                this.e == 0,
                this.adj@.len() == i,
                forall|k: int| 0 <= k < i ==> (#[trigger] this.adj@[k])@.len() == 0,
                entries(this@, i as int) == 0,
            decreases v - i,
        {
            let ghost g0 = this@;
            this.adj.push(Vec::new());
            proof {
                lemma_entries_same(g0, this@, i as int);
            }
            i += 1;
        }
        this
    }

    /// The number of vertices.
    pub fn v(&self) -> (n: usize)
        requires
            self.wf(),
        ensures
            n == self@.len(),
    {
        self.v
    }

    /// The number of edges.
    pub fn e(&self) -> (n: usize)
        ensures
            n == self.edges(),
    {
        self.e
    }

    /// Adds the edge between `v` and `w`. A loop at `v` is added only where
    /// `v` has none yet; any other edge is added whether or not it is there
    /// already.
    pub fn add_edge(&mut self, v: usize, w: usize)
        requires
            old(self).wf(),
            v < old(self)@.len(),
            w < old(self)@.len(),
            old(self).edges() < usize::MAX,
        ensures
            final(self).wf(),
            final(self)@.len() == old(self)@.len(),
            final(self)@ == added(old(self)@, v, w),
            final(self).edges() == old(self).edges() + if v == w && old(self)@[v as int].contains(
                v,
            ) {
                0int
            } else {
                1int
            },
    {
        let ghost g0 = self@;
        if (!holds(&self.adj[v], w) && !holds(&self.adj[w], v)) || (v != w) {
            self.adj[v].push(w);
            let ghost g1 = self@;
            self.adj[w].push(v);
            self.e += 1;
            proof {
                assert(g1 =~= g0.update(v as int, g0[v as int].push(w)));
                assert(self@ =~= g1.update(w as int, g1[w as int].push(v)));
                assert(self@ =~= added(g0, v, w));
                lemma_entries_push(g0, v as int, w, g0.len() as int);
                lemma_entries_push(g1, w as int, v, g1.len() as int);
                let g2 = self@;
                assert(g2[v as int][g1[v as int].len() - 1] == w);
                assert(g2[w as int][g2[w as int].len() - 1] == v);
                assert forall|x: int, k: int|
                    #![trigger g2[x][k]]
                    0 <= x < g2.len() && 0 <= k < g2[x].len() && g2[x][k] < g2.len() implies has_edge(
                    g2,
                    g2[x][k] as int,
                    x,
                ) by {
                    let y = g2[x][k] as int;
                    if k < g0[x].len() {
                        assert(g0[x][k] == g2[x][k]);
                        assert(has_edge(g0, y, x));
                        let k2 = choose|k2: int| 0 <= k2 < g0[y].len() && #[trigger] g0[y][k2] == x;
                        assert(g2[y][k2] == x);
                    } else if x == v && y == w {
                    } else {
                        assert(x == w && y == v);
                        assert(g2[v as int][g1[v as int].len() - 1] == w);
                    }
                }
                assert forall|i: int, k: int|
                    0 <= i < self@.len() && 0 <= k < self@[i].len() implies (
                #[trigger] self@[i][k]) < self@.len() by {
                    if i == w && k == self@[i].len() - 1 {
                    } else if i == w {
                        assert(self@[i][k] == g1[i][k]);
                        if i == v && k == g1[i].len() - 1 {
                        } else {
                            assert(g1[i][k] == g0[i][k]);
                        }
                    } else if i == v {
                        if k == g1[i].len() - 1 {
                        } else {
                            assert(self@[i][k] == g0[i][k]);
                        }
                    } else {
                        assert(self@[i][k] == g0[i][k]);
                    }
                }
            }
        } else {
            proof {
                assert(self@ =~= g0);
            }
        }
    }

    /// The neighbours of `v`.
    pub fn adj(&self, v: usize) -> (list: &Vec<usize>)
        requires
            v < self@.len(),
        ensures
            list@ == self@[v as int],
    {
        &self.adj[v]
    }

    /// The number of neighbours of `v`.
    pub fn degree(&self, v: usize) -> (d: usize)
        requires
            v < self@.len(),
        ensures
            d == self@[v as int].len(),
    {
        self.adj(v).len()
    }

    /// The greatest degree of a vertex; zero in a graph without vertices.
    pub fn max_degree(&self) -> (max: usize)
        requires
            self.wf(),
        ensures
            forall|v: int| 0 <= v < self@.len() ==> (#[trigger] self@[v]).len() <= max,
            self@.len() == 0 ==> max == 0,
            max > 0 ==> exists|v: int| 0 <= v < self@.len() && (#[trigger] self@[v]).len() == max,
    {
        let mut max: usize = 0;
        let mut i: usize = 0;
        while i < self.v()
            invariant
                self.wf(),
                i <= self@.len(),
                forall|v: int| 0 <= v < i ==> (#[trigger] self@[v]).len() <= max,
                max > 0 ==> exists|v: int| 0 <= v < i && (#[trigger] self@[v]).len() == max,
            decreases self@.len() - i,
        {
            if self.degree(i) > max {
                max = self.degree(i);
                assert(self@[i as int].len() == max);
            }
            i += 1;
        }
        max
    }

    /// Twice the number of edges divided by the number of vertices, rounded
    /// down.
    pub fn avg_degree(&self) -> (avg: usize)
        requires
            self.wf(),
            self@.len() > 0,
            2 * self.edges() <= usize::MAX,
        ensures
            avg == 2 * self.edges() / (self@.len() as int),
    {
        2 * self.e() / self.v()
    }

    /// The graph as text: a line with the numbers of vertices and edges,
    /// and a line for each vertex with its neighbours.
    pub fn fmt(&self) -> (text: String)
        requires
            self.wf(),
        ensures
            text@ == heading(self@.len() as usize, self.edges() as usize) + listing_lines(
                self@,
                self@.len() as int,
            ),
    {
        let mut string = String::new();
        append_text(&mut string, format_heading(self.v(), self.e()).as_str());
        let ghost head = string@;
        let mut v: usize = 0;
        proof {
            assert(head + listing_lines(self@, 0) =~= head);
        }
        while v < self.v()
            invariant
                self.wf(),
                v <= self@.len(),
                string@ == head + listing_lines(self@, v as int),
            decreases self@.len() - v,
        {
            append_text(&mut string, format_line(v, self.adj(v)).as_str());
            proof {
                assert(head + listing_lines(self@, v as int) + listing_line(v, self@[v as int])
                    =~= head + listing_lines(self@, v + 1));
            }
            v += 1;
        }
        string
    }

    /// The number of loops: half the number of entries that name the vertex
    /// in whose list they stand.
    pub fn number_of_self_loops(&self) -> (n: usize)
        requires
            self.wf(),
            2 * self.edges() <= usize::MAX,
        ensures
            n == loop_entries(self@, self@.len() as int) / 2,
    {
        let mut count: usize = 0;
        let mut v: usize = 0;
        while v < self.v()
            invariant
                self.wf(),
                2 * self.edges() <= usize::MAX,
                v <= self@.len(),
                count == loop_entries(self@, v as int),
            decreases self@.len() - v,
        {
            let list = self.adj(v);
            let mut k: usize = 0;
            proof {
                lemma_loop_entries_bound(self@, v + 1);
                lemma_entries_monotone(self@, v + 1, self@.len() as int);
            }
            while k < list.len()
                invariant
                    list@ == self@[v as int],
                    k <= list@.len(),
                    v < self@.len(),
                    count == loop_entries(self@, v as int) + occurrences(list@, v as int, k as int),
                    loop_entries(self@, v + 1) <= usize::MAX,
                decreases list@.len() - k,
            {
                proof {
                    lemma_occurrences_monotone(list@, v as int, k + 1, list@.len() as int);
                }
                if list[k] == v {
                    count += 1;
                }
                k += 1;
            }
            v += 1;
        }
        count / 2
    }
}

proof fn lemma_occurrences_monotone(list: Seq<usize>, v: int, k: int, n: int)
    requires
        0 <= k <= n <= list.len(),
    ensures
        occurrences(list, v, k) <= occurrences(list, v, n),
    decreases n - k,
{
    if k < n {
        lemma_occurrences_monotone(list, v, k + 1, n);
    }
}

/// Lists that agree on their first `k` members have the same entries there.
proof fn lemma_entries_same(a: Seq<Seq<usize>>, b: Seq<Seq<usize>>, k: int)
    requires
        0 <= k <= a.len(),
        k <= b.len(),
        forall|i: int| 0 <= i < k ==> a[i] == b[i],
    ensures
        entries(a, k) == entries(b, k),
    decreases k,
{
    if k > 0 {
        lemma_entries_same(a, b, k - 1);
    }
}

/// How many of the first `k` marks are set.
pub open spec fn count_true(marks: Seq<bool>, k: int) -> int
    decreases k,
{
    if k <= 0 {
        0
    } else {
        count_true(marks, k - 1) + if marks[k - 1] {
            1int
        } else {
            0
        }
    }
}

/// Between none and all of the marks are set.
pub proof fn lemma_count_bound(marks: Seq<bool>, k: int)
    requires
        0 <= k <= marks.len(),
    ensures
        0 <= count_true(marks, k) <= k,
    decreases k,
{
    if k > 0 {
        lemma_count_bound(marks, k - 1);
    }
}

/// Without a set mark the count is zero.
pub proof fn lemma_count_none(marks: Seq<bool>, k: int)
    requires
        0 <= k <= marks.len(),
        forall|i: int| 0 <= i < k ==> !marks[i],
    ensures
        count_true(marks, k) == 0,
    decreases k,
{
    if k > 0 {
        lemma_count_none(marks, k - 1);
    }
}

/// Marks that have only been added to count no less than before, and more
/// where a mark at `v` is new.
pub proof fn lemma_count_grows(a: Seq<bool>, b: Seq<bool>, k: int, v: int)
    requires
        0 <= k <= a.len(),
        a.len() == b.len(),
        forall|i: int| 0 <= i < a.len() && a[i] ==> b[i],
    ensures
        count_true(a, k) <= count_true(b, k),
        0 <= v < k && !a[v] && b[v] ==> count_true(a, k) < count_true(b, k),
    decreases k,
{
    if k > 0 {
        lemma_count_grows(a, b, k - 1, v);
    }
}

/// Setting one mark that was not set adds one to the count.
pub proof fn lemma_count_set(a: Seq<bool>, k: int, v: int)
    requires
        0 <= k <= a.len(),
        0 <= v < a.len(),
        !a[v],
    ensures
        count_true(a.update(v, true), k) == count_true(a, k) + if v < k {
            1int
        } else {
            0
        },
    decreases k,
{
    if k > 0 {
        lemma_count_set(a, k - 1, v);
    }
}

/// A vertex is reachable from itself.
pub proof fn lemma_reach_self(g: Seq<Seq<usize>>, v: int)
    requires
        0 <= v < g.len(),
    ensures
        reachable(g, v, v),
{
    let p = seq![v];
    assert(is_path(g, p) && p.first() == v && p.last() == v);
}

/// What is reachable from a neighbour of `v` is reachable from `v`.
pub proof fn lemma_reach_step(g: Seq<Seq<usize>>, v: int, w: int, x: int)
    requires
        has_edge(g, v, w),
        reachable(g, w, x),
    ensures
        reachable(g, v, x),
{
    let p = choose|p: Seq<int>| is_path(g, p) && #[trigger] p.first() == w && p.last() == x;
    let q = seq![v] + p;
    assert forall|i: int| 0 <= i < q.len() - 1 implies has_edge(g, #[trigger] q[i], q[i + 1]) by {
        if i > 0 {
            assert(q[i] == p[i - 1]);
            assert(q[i + 1] == p[i]);
        } else {
            assert(q[1] == p[0]);
        }
    }
    assert(is_path(g, q) && q.first() == v && q.last() == x);
}

/// A neighbour of what is reachable from `s` is reachable from `s`.
pub proof fn lemma_reach_extend(g: Seq<Seq<usize>>, s: int, v: int, w: int)
    requires
        reachable(g, s, v),
        has_edge(g, v, w),
    ensures
        reachable(g, s, w),
{
    let p = choose|p: Seq<int>| is_path(g, p) && #[trigger] p.first() == s && p.last() == v;
    let q = p.push(w);
    assert forall|i: int| 0 <= i < q.len() - 1 implies has_edge(g, #[trigger] q[i], q[i + 1]) by {
        if i < p.len() - 1 {
            assert(q[i] == p[i]);
            assert(q[i + 1] == p[i + 1]);
        } else {
            assert(q[i] == p.last());
        }
    }
    assert(is_path(g, q) && q.first() == s && q.last() == w);
}

/// The marks are closed under edges: every neighbour of a marked vertex is
/// marked.
pub open spec fn closed_marks(g: Seq<Seq<usize>>, marks: Seq<bool>) -> bool {
    forall|x: int, k: int|
        #![trigger g[x][k]]
        0 <= x < g.len() && marks[x] && 0 <= k < g[x].len() ==> marks[g[x][k] as int]
}

/// Marks that are closed under edges and hold `s` hold everything that is
/// reachable from `s`.
pub proof fn lemma_closed_holds_reachable(g: Seq<Seq<usize>>, marks: Seq<bool>, s: int, t: int)
    requires
        marks.len() == g.len(),
        closed_marks(g, marks),
        0 <= s < g.len(),
        marks[s],
        reachable(g, s, t),
    ensures
        0 <= t < g.len(),
        marks[t],
{
    let p = choose|p: Seq<int>| is_path(g, p) && #[trigger] p.first() == s && p.last() == t;
    lemma_closed_along(g, marks, p, p.len() - 1);
}

proof fn lemma_closed_along(g: Seq<Seq<usize>>, marks: Seq<bool>, p: Seq<int>, i: int)
    requires
        marks.len() == g.len(),
        closed_marks(g, marks),
        is_path(g, p),
        marks[p[0]],
        0 <= i < p.len(),
    ensures
        0 <= p[i] < g.len(),
        marks[p[i]],
    decreases i,
{
    if i > 0 {
        lemma_closed_along(g, marks, p, i - 1);
        assert(has_edge(g, p[i - 1], p[i - 1 + 1]));
        let x = p[i - 1];
        let k = choose|k: int| 0 <= k < g[x].len() && #[trigger] g[x][k] == p[i];
        assert(marks[g[x][k] as int]);
    }
}

/// In a graph that holds every edge in both directions, what is reachable
/// from `s` reaches `s`.
pub proof fn lemma_reach_symmetric(g: Seq<Seq<usize>>, s: int, t: int)
    requires
        symmetric(g),
        forall|v: int, k: int| 0 <= v < g.len() && 0 <= k < g[v].len() ==> (#[trigger] g[v][k]) < g.len(),
        reachable(g, s, t),
    ensures
        reachable(g, t, s),
{
    let p = choose|p: Seq<int>| is_path(g, p) && #[trigger] p.first() == s && p.last() == t;
    let q = p.reverse();
    assert forall|i: int| 0 <= i < q.len() - 1 implies has_edge(g, #[trigger] q[i], q[i + 1]) by {
        let j = p.len() - 2 - i;
        assert(q[i] == p[j + 1]);
        assert(q[i + 1] == p[j]);
        assert(has_edge(g, p[j], p[j + 1]));
        let k = choose|k: int| 0 <= k < g[p[j]].len() && #[trigger] g[p[j]][k] == p[j + 1];
        assert(has_edge(g, g[p[j]][k] as int, p[j]));
    }
    if p.len() > 1 {
        assert(has_edge(g, p[p.len() - 2], p[p.len() - 2 + 1]));
    }
    assert(is_path(g, q) && q.first() == t && q.last() == s);
}

/// What is reachable from something reachable from `s` is reachable from
/// `s`.
pub proof fn lemma_reach_transitive(g: Seq<Seq<usize>>, s: int, t: int, u: int)
    requires
        reachable(g, s, t),
        reachable(g, t, u),
    ensures
        reachable(g, s, u),
{
    let p = choose|p: Seq<int>| is_path(g, p) && #[trigger] p.first() == s && p.last() == t;
    let q = choose|q: Seq<int>| is_path(g, q) && #[trigger] q.first() == t && q.last() == u;
    let r = p + q.drop_first();
    assert forall|i: int| 0 <= i < r.len() - 1 implies has_edge(g, #[trigger] r[i], r[i + 1]) by {
        if i < p.len() - 1 {
            assert(r[i] == p[i] && r[i + 1] == p[i + 1]);
        } else if i == p.len() - 1 {
            assert(r[i] == p[i]);
            assert(r[i + 1] == q[1]);
            assert(has_edge(g, q[0int], q[0int + 1]));
        } else {
            let j = i - p.len() + 1;
            assert(r[i] == q[j]);
            assert(r[i + 1] == q[j + 1]);
        }
    }
    assert(r[0] == p[0]);
    assert(is_path(g, r) && r.first() == s && r.last() == u);
}

} // verus!
