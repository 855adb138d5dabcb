//! A graph whose vertices have names.

use crate::graph::graph::{added, entries, Graph};
use vstd::prelude::*;

verus! {

/// A graph on vertices with names: each name has the number of a vertex,
/// in the order in which the names first occur.
pub struct SymbolGraph<'a> {
    keys: Vec<&'a str>,
    g: Graph,
}

/// The characters of each string of `row`.
pub open spec fn spelled(row: Seq<&str>) -> Seq<Seq<char>> {
    Seq::new(row.len(), |i: int| row[i]@)
}

/// The strings of the first `k` rows, row after row.
pub open spec fn flat(data: Seq<Vec<&str>>, k: int) -> Seq<Seq<char>>
    decreases k,
{
    if k <= 0 {
        Seq::empty()
    } else {
        flat(data, k - 1) + spelled(data[k - 1]@)
    }
}

/// The strings of `s` without those that occurred before.
pub open spec fn firsts(s: Seq<Seq<char>>) -> Seq<Seq<char>>
    decreases s.len(),
{
    if s.len() == 0 {
        Seq::empty()
    } else if firsts(s.drop_last()).contains(s.last()) {
        firsts(s.drop_last())
    } else {
        firsts(s.drop_last()).push(s.last())
    }
}

/// The lists of a graph on `n` vertices without edges.
pub open spec fn bare(n: nat) -> Seq<Seq<usize>> {
    Seq::new(n, |i: int| Seq::<usize>::empty())
}

/// The lists of the graph on the vertices `names` after an edge has been
/// added for each of the first `k` rows, between the vertices of its first
/// two strings.
pub open spec fn joined(data: Seq<Vec<&str>>, names: Seq<Seq<char>>, k: int) -> Seq<Seq<usize>>
    decreases k,
{
    if k <= 0 {
        bare(names.len())
    } else {
        added(
            joined(data, names, k - 1),
            names.index_of(data[k - 1]@[0]@) as usize,
            names.index_of(data[k - 1]@[1]@) as usize,
        )
    }
}

/// Calls `==` of the standard string slice, which tells whether two strings
/// consist of the same characters.
#[verifier::external_body]
fn same(a: &str, b: &str) -> (r: bool)
    ensures
        r == (a@ == b@),
{
    a == b
}

/// The first position of `s` in `keys`.
fn position(keys: &Vec<&str>, s: &str) -> (r: Option<usize>)
    ensures
        match r {
            Some(i) => i < keys@.len() && keys@[i as int]@ == s@ && forall|k: int|
                0 <= k < i ==> (#[trigger] keys@[k])@ != s@,
            None => forall|k: int| 0 <= k < keys@.len() ==> (#[trigger] keys@[k])@ != s@,
        },
{
    let mut i: usize = 0;
    while i < keys.len()
        invariant
            i <= keys@.len(),
            forall|k: int| 0 <= k < i ==> (#[trigger] keys@[k])@ != s@,
        decreases keys@.len() - i,
    {
        if same(keys[i], s) {
            return Some(i);
        }
        i += 1;
    }
    None
}

impl<'a> SymbolGraph<'a> {
    /// The names of the vertices, in the order of their numbers.
    pub closed spec fn names(&self) -> Seq<Seq<char>> {
        spelled(self.keys@)
    }

    /// The lists of the graph.
    pub closed spec fn lists(&self) -> Seq<Seq<usize>> {
        self.g@
    }

    /// The number of edges of the graph.
    pub closed spec fn edges(&self) -> int {
        self.g.edges()
    }

    /// No name occurs twice, and the graph has a vertex for each name.
    pub closed spec fn wf(&self) -> bool {
        &&& self.g.wf()
        &&& self.g@.len() == self.keys@.len()
        &&& spelled(self.keys@).no_duplicates()
    }

    /// Gives the strings of `data` numbers in the order in which they first
    /// occur, and makes the graph that has an edge between the first two
    /// strings of each row.
    pub fn new(data: Vec<Vec<&'a str>>) -> (r: Self)
        requires
            forall|i: int| 0 <= i < data@.len() ==> (#[trigger] data@[i])@.len() >= 2,
        ensures
            r.wf(),
            r.names() == firsts(flat(data@, data@.len() as int)),
            r.lists() == joined(data@, r.names(), data@.len() as int),
            entries(r.lists(), r.lists().len() as int) == 2 * r.edges(),
            (forall|i: int| 0 <= i < data@.len() ==> (#[trigger] data@[i])@[0]@ != data@[i]@[1]@)
                ==> r.edges() == data@.len(),
    {
        let mut keys: Vec<&'a str> = Vec::new();
        let mut i: usize = 0;
        proof {
            assert(spelled(keys@) =~= firsts(flat(data@, 0)));
        }
        while i < data.len()
            invariant
                i <= data@.len(),
                spelled(keys@) == firsts(flat(data@, i as int)),
                spelled(keys@).no_duplicates(),
            decreases data@.len() - i,
        {
            let row = &data[i];
            let mut j: usize = 0;
            let ghost before = flat(data@, i as int);
            proof {
                assert(before + spelled(row@).take(0) =~= before);
            }
            while j < row.len()
                invariant
                    j <= row@.len(),
                    row@ == data@[i as int]@,
                    before == flat(data@, i as int),
                    spelled(keys@) == firsts(before + spelled(row@).take(j as int)),
                    spelled(keys@).no_duplicates(),
                decreases row@.len() - j,
            {
                let v = row[j];
                let ghost names = spelled(keys@);
                let ghost so_far = before + spelled(row@).take(j as int);
                proof {
                    assert((before + spelled(row@).take(j + 1)).drop_last() =~= so_far);
                    assert((before + spelled(row@).take(j + 1)).last() == v@);
                }
                let found = position(&keys, v);
                if found.is_none() {
                    keys.push(v);
                    proof {
                        assert(spelled(keys@) =~= names.push(v@));
                        assert(!names.contains(v@)) by {
                            if names.contains(v@) {
                                let k = choose|k: int| 0 <= k < names.len() && names[k] == v@;
                                assert(keys@[k]@ == v@);
                            }
                        }
                    }
                } else {
                    proof {
                        let k = found.unwrap() as int;
                        assert(names[k] == v@);
                    }
                }
                j += 1;
            }
            proof {
                assert(spelled(row@).take(row@.len() as int) =~= spelled(row@));
            }
            i += 1;
        }
        let ghost names = spelled(keys@);
        let mut g = Graph::new(keys.len());
        proof {
            assert forall|k: int| 0 <= k < g@.len() implies #[trigger] g@[k] == bare(
                names.len(),
            )[k] by {
                assert(g@[k].len() == 0);
                assert(g@[k] =~= Seq::<usize>::empty());
            }
            assert(g@ =~= bare(names.len()));
        }
        let mut i: usize = 0;
        while i < data.len()
            invariant
                i <= data@.len(),
                forall|k: int| 0 <= k < data@.len() ==> (#[trigger] data@[k])@.len() >= 2,
                names == spelled(keys@),
                names.no_duplicates(),
                names == firsts(flat(data@, data@.len() as int)),
                g.wf(),
                g@.len() == keys@.len(),
                g.edges() <= i,
                (forall|k: int| 0 <= k < i ==> (#[trigger] data@[k])@[0]@ != data@[k]@[1]@)
                    ==> g.edges() == i,
                g@ == joined(data@, names, i as int),
            decreases data@.len() - i,
        {
            let row = &data[i];
            if let (Some(v), Some(w)) = (position(&keys, row[0]), position(&keys, row[1])) {
                proof {
                    lemma_first_position(names, row@[0]@, v as int);
                    lemma_first_position(names, row@[1]@, w as int);
                }
                g.add_edge(v, w);
            } else {
                proof {
                    lemma_flat_member(data@, data@.len() as int, i as int, 0);
                    lemma_flat_member(data@, data@.len() as int, i as int, 1);
                    lemma_firsts_hold(flat(data@, data@.len() as int), row@[0]@);
                    lemma_firsts_hold(flat(data@, data@.len() as int), row@[1]@);
                    let a = choose|k: int| 0 <= k < names.len() && names[k] == row@[0]@;
                    assert(keys@[a]@ == row@[0]@);
                    let b = choose|k: int| 0 <= k < names.len() && names[k] == row@[1]@;
                    assert(keys@[b]@ == row@[1]@);
                    assert(false);
                }
            }
            i += 1;
        }
        proof {
            g.lemma_edges();
        }
        SymbolGraph { keys, g }
    }

    /// Whether `s` is the name of a vertex.
    pub fn contains(&self, s: &str) -> (r: bool)
        ensures
            r == self.names().contains(s@),
    {
        let r = position(&self.keys, s);
        proof {
            let names = spelled(self.keys@);
            if r is Some {
                assert(names[r.unwrap() as int] == s@);
            } else if names.contains(s@) {
                let k = choose|k: int| 0 <= k < names.len() && names[k] == s@;
                assert(self.keys@[k]@ == s@);
            }
        }
        r.is_some()
    }

    /// The number of the vertex with the name `s`.
    pub fn index(&self, s: &str) -> (r: Option<usize>)
        ensures
            match r {
                Some(i) => i < self.names().len() && self.names()[i as int] == s@,
                None => !self.names().contains(s@),
            },
    {
        let r = position(&self.keys, s);
        proof {
            let names = spelled(self.keys@);
            if r is Some {
                assert(names[r.unwrap() as int] == s@);
            } else if names.contains(s@) {
                let k = choose|k: int| 0 <= k < names.len() && names[k] == s@;
                assert(self.keys@[k]@ == s@);
            }
        }
        r
    }

    /// The name of the vertex with the number `v`.
    pub fn name(&self, v: usize) -> (r: Option<&str>)
        ensures
            match r {
                Some(s) => v < self.names().len() && s@ == self.names()[v as int],
                None => v >= self.names().len(),
            },
    {
        if v >= self.keys.len() {
            None
        } else {
            Some(self.keys[v])
        }
    }

    /// The graph.
    pub fn g(&self) -> (g: &Graph)
        ensures
            g@ == self.lists(),
            g.edges() == self.edges(),
            self.wf() ==> g.wf(),
    {
        &self.g
    }
}

/// The position at which a string stands first is the one that `index_of`
/// names.
proof fn lemma_first_position(names: Seq<Seq<char>>, s: Seq<char>, i: int)
    requires
        names.no_duplicates(),
        0 <= i < names.len(),
        names[i] == s,
    ensures
        names.index_of(s) == i,
{
    let j = names.index_of(s);
    assert(names.contains(s));
    assert(0 <= j < names.len() && names[j] == s);
}

/// Every string of the rows is among their strings.
proof fn lemma_flat_member(data: Seq<Vec<&str>>, k: int, i: int, j: int)
    requires
        0 <= i < k <= data.len(),
        0 <= j < data[i]@.len(),
    ensures
        flat(data, k).contains(data[i]@[j]@),
    decreases k,
{
    let a = flat(data, k - 1);
    let b = spelled(data[k - 1]@);
    if i == k - 1 {
        assert((a + b)[a.len() + j] == data[i]@[j]@);
    } else {
        lemma_flat_member(data, k - 1, i, j);
        let p = choose|p: int| 0 <= p < a.len() && a[p] == data[i]@[j]@;
        assert((a + b)[p] == data[i]@[j]@);
    }
}

/// The first occurrences hold every string that occurs.
proof fn lemma_firsts_hold(s: Seq<Seq<char>>, x: Seq<char>)
    requires
        s.contains(x),
    ensures
        firsts(s).contains(x),
    decreases s.len(),
{
    let f = firsts(s.drop_last());
    if s.last() == x {
        if !f.contains(x) {
            assert(f.push(x)[f.len() as int] == x);
        }
    } else {
        let p = choose|p: int| 0 <= p < s.len() && s[p] == x;
        assert(s.drop_last()[p] == x);
        lemma_firsts_hold(s.drop_last(), x);
        if !f.contains(s.last()) {
            let q = choose|q: int| 0 <= q < f.len() && f[q] == x;
            assert(f.push(s.last())[q] == x);
        }
    }
}

} // verus!
