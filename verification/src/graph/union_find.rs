//! Union-find by size: a partition of `0..n` that can only grow coarser.

use vstd::prelude::*;

verus! {

/// A partition of the numbers below its capacity into sets, each kept as a
/// tree of parent links with the set's representative at the root.
pub struct UnionFind {
    id: Vec<usize>,
    sz: Vec<usize>,
    count: usize,
}

/// The sum of the sizes stored at the roots among the first `k` elements.
spec fn root_sizes(id: Seq<usize>, sz: Seq<usize>, k: int) -> int
    decreases k,
{
    if k <= 0 {
        0
    } else {
        root_sizes(id, sz, k - 1) + if id[k - 1] == k - 1 {
            sz[k - 1] as int
        } else {
            0
        }
    }
}

/// The number of roots among the first `k` elements.
spec fn roots(id: Seq<usize>, k: int) -> int
    decreases k,
{
    if k <= 0 {
        0
    } else {
        roots(id, k - 1) + if id[k - 1] == k - 1 {
            1int
        } else {
            0
        }
    }
}

proof fn lemma_root_sizes_bound(id: Seq<usize>, sz: Seq<usize>, k: int, r: int)
    requires
        0 <= r < k <= id.len(),
        id.len() == sz.len(),
        id[r] == r,
    ensures
        sz[r] <= root_sizes(id, sz, k),
        root_sizes(id, sz, k) >= 0,
    decreases k,
{
    lemma_root_sizes_nonneg(id, sz, k - 1);
    if r < k - 1 {
        lemma_root_sizes_bound(id, sz, k - 1, r);
    }
}

proof fn lemma_root_sizes_nonneg(id: Seq<usize>, sz: Seq<usize>, k: int)
    ensures
        root_sizes(id, sz, k) >= 0,
    decreases k,
{
    if k > 0 {
        lemma_root_sizes_nonneg(id, sz, k - 1);
    }
}

proof fn lemma_root_sizes_two(id: Seq<usize>, sz: Seq<usize>, k: int, i: int, j: int)
    requires
        0 <= i < k <= id.len(),
        0 <= j < k,
        i != j,
        id.len() == sz.len(),
        id[i] == i,
        id[j] == j,
    ensures
        sz[i] + sz[j] <= root_sizes(id, sz, k),
    decreases k,
{
    lemma_root_sizes_nonneg(id, sz, k - 1);
    if i == k - 1 {
        lemma_root_sizes_bound(id, sz, k - 1, j);
    } else if j == k - 1 {
        lemma_root_sizes_bound(id, sz, k - 1, i);
    } else {
        lemma_root_sizes_two(id, sz, k - 1, i, j);
    }
}

/// Linking the root `i` below the root `j` and adding its size to that of
/// `j` keeps the sum of the root sizes and takes one root away.
proof fn lemma_link(id: Seq<usize>, sz: Seq<usize>, k: int, i: int, j: int)
    requires
        0 <= k <= id.len(),
        0 <= i < id.len(),
        0 <= j < id.len(),
        i != j,
        id.len() == sz.len(),
        id[i] == i,
        id[j] == j,
        sz[i] + sz[j] <= usize::MAX,
    ensures
        root_sizes(id.update(i, j as usize), sz.update(j, (sz[i] + sz[j]) as usize), k)
            == root_sizes(id, sz, k) - (if i < k {
            sz[i] as int
        } else {
            0
        }) + (if j < k {
            sz[i] as int
        } else {
            0
        }),
        roots(id.update(i, j as usize), k) == roots(id, k) - if i < k {
            1int
        } else {
            0
        },
    decreases k,
{
    if k > 0 {
        lemma_link(id, sz, k - 1, i, j);
    }
}

impl UnionFind {
    /// The number of elements.
    pub closed spec fn capacity(&self) -> int {
        self.id@.len() as int
    }

    /// The number of sets, as `count` reports it.
    pub closed spec fn sets(&self) -> int {
        self.count as int
    }

    /// The parent links lead to roots, the roots store the sizes of their
    /// sets, and the sets are counted.
    pub closed spec fn wf(&self) -> bool {
        &&& self.id@.len() == self.sz@.len()
        &&& forall|i: int| 0 <= i < self.id@.len() ==> (#[trigger] self.id@[i]) < self.id@.len()
        &&& forall|i: int| 0 <= i < self.sz@.len() ==> (#[trigger] self.sz@[i]) >= 1
        &&& forall|i: int|
            0 <= i < self.id@.len() && self.id@[i] != i ==> (#[trigger] self.sz@[i])
                < self.sz@[self.id@[i] as int]
        &&& root_sizes(self.id@, self.sz@, self.id@.len() as int) <= usize::MAX
        &&& self.count == roots(self.id@, self.id@.len() as int)
    }

    /// The representative of the set of `p`: the root that the parent links
    /// lead to from `p`.
    pub closed spec fn root(&self, p: int) -> int
        decreases self.slack(p),
        when self.wf() && 0 <= p < self.capacity()
    {
        if self.id@[p] == p {
            p
        } else {
            self.root(self.id@[p] as int)
        }
    }

    /// How far the size stored at `p` is from the greatest number: what
    /// grows smaller along the parent links.
    pub closed spec fn slack(&self, p: int) -> int {
        usize::MAX - self.sz@[p]
    }

    /// `p` and `q` are in one set.
    pub open spec fn joined(&self, p: int, q: int) -> bool {
        self.root(p) == self.root(q)
    }

    /// The number of elements that are their own representative.
    pub closed spec fn representatives(&self) -> int {
        roots(self.id@, self.id@.len() as int)
    }

    /// The representative of a set is an element, stands for its own set and
    /// is the representative of every element of that set.
    pub proof fn lemma_root(&self, p: int)
        requires
            self.wf(),
            0 <= p < self.capacity(),
        ensures
            0 <= self.root(p) < self.capacity(),
            self.root(self.root(p)) == self.root(p),
        decreases self.slack(p),
    {
        if self.id@[p] != p {
            self.lemma_root(self.id@[p] as int);
        }
    }

    proof fn lemma_root_is_root(&self, p: int)
        requires
            self.wf(),
            0 <= p < self.capacity(),
        ensures
            0 <= self.root(p) < self.id@.len(),
            self.id@[self.root(p)] == self.root(p),
        decreases self.slack(p),
    {
        if self.id@[p] != p {
            self.lemma_root_is_root(self.id@[p] as int);
        }
    }

    /// Where there is one set, any two elements are in it.
    pub proof fn lemma_one_set(&self, p: int, q: int)
        requires
            self.wf(),
            self.sets() == 1,
            0 <= p < self.capacity(),
            0 <= q < self.capacity(),
        ensures
            self.joined(p, q),
    {
        self.lemma_root_is_root(p);
        self.lemma_root_is_root(q);
        if self.root(p) != self.root(q) {
            lemma_two_roots(self.id@, self.id@.len() as int, self.root(p), self.root(q));
        }
    }

    /// `capacity` elements, each in a set of its own.
    pub fn with_capacity(capacity: usize) -> (uf: Self)
        ensures
            uf.wf(),
            uf.capacity() == capacity,
            uf.sets() == capacity,
            forall|p: int| 0 <= p < capacity ==> #[trigger] uf.root(p) == p,
    {
        let mut this = UnionFind {
            id: Vec::with_capacity(capacity),
            sz: Vec::with_capacity(capacity),
            count: capacity,
        };
        let mut i: usize = 0;
        while i < capacity
            invariant
                i <= capacity,
                this.count == capacity,
                this.id@.len() == i,
                this.sz@.len() == i,
                forall|k: int| 0 <= k < i ==> #[trigger] this.id@[k] == k,
                forall|k: int| 0 <= k < i ==> #[trigger] this.sz@[k] == 1,
                root_sizes(this.id@, this.sz@, i as int) == i,
                roots(this.id@, i as int) == i,
            decreases capacity - i,
        {
            let ghost id0 = this.id@;
            let ghost sz0 = this.sz@;
            this.id.push(i);
            this.sz.push(1);
            proof {
                lemma_prefix(id0, sz0, this.id@, this.sz@, i as int);
            }
            i += 1;
        }
        this
    }

    /// The number of sets.
    pub fn count(&self) -> (n: usize)
        requires
            self.wf(),
        ensures
            n == self.sets(),
            n == self.representatives(),
    {
        self.count
    }

    /// Whether `p` and `q` are in one set.
    pub fn connected(&self, p: usize, q: usize) -> (r: bool)
        requires
            self.wf(),
            p < self.capacity(),
            q < self.capacity(),
        ensures
            r == self.joined(p as int, q as int),
    {
        self.find(p) == self.find(q)
    }

    /// The representative of the set of `p`.
    pub fn find(&self, p: usize) -> (r: usize)
        requires
            self.wf(),
            p < self.capacity(),
        ensures
            r == self.root(p as int),
    {
        let ghost start = p;
        let mut p = p;
        while p != self.id[p]
            invariant
                self.wf(),
                p < self.id@.len(),
                self.root(p as int) == self.root(start as int),
            decreases usize::MAX - self.sz@[p as int],
        {
            p = self.id[p];
        }
        p
    }

    /// Makes one set of the sets of `p` and of `q`.
    pub fn union(&mut self, p: usize, q: usize)
        requires
            old(self).wf(),
            p < old(self).capacity(),
            q < old(self).capacity(),
        ensures
            final(self).wf(),
            final(self).capacity() == old(self).capacity(),
            forall|x: int, y: int|
                0 <= x < old(self).capacity() && 0 <= y < old(self).capacity() ==> (
                #[trigger] final(self).joined(x, y) <==> old(self).joined(x, y) || (old(self).joined(x, p as int) && old(self).joined(q as int, y)) || (old(self).joined(
                    x,
                    q as int,
                ) && old(self).joined(p as int, y))),
            final(self).sets() == old(self).sets() - if old(self).joined(p as int, q as int) {
                0int
            } else {
                1int
            },
    {
        let i = self.find(p);
        let j = self.find(q);
        proof {
            self.lemma_root_is_root(p as int);
            self.lemma_root_is_root(q as int);
        }
        if i == j {
            return ;
        }
        let ghost before = *self;
        let ghost a: int = if self.sz@[i as int] < self.sz@[j as int] {
            i as int
        } else {
            j as int
        };
        let ghost b: int = if self.sz@[i as int] < self.sz@[j as int] {
            j as int
        } else {
            i as int
        };
        let n = self.id.len();
        proof {
            lemma_root_sizes_two(self.id@, self.sz@, n as int, i as int, j as int);
            lemma_link(before.id@, before.sz@, n as int, a, b);
            lemma_roots_positive(before.id@, n as int, a);
        }
        if self.sz[i] < self.sz[j] {
            let total = self.sz[j] + self.sz[i];
            self.id[i] = j;
            self.sz[j] = total;
        } else {
            let total = self.sz[i] + self.sz[j];
            self.id[j] = i;
            self.sz[i] = total;
        }
        self.count -= 1;
        proof {
            assert(self.wf());
            assert forall|x: int| 0 <= x < n implies #[trigger] self.root(x) == if before.root(x)
                == a {
                b
            } else {
                before.root(x)
            } by {
                lemma_linked_root(before, *self, a, b, x);
            }
        }
    }
}

/// Where there are two roots there are at least two.
proof fn lemma_two_roots(id: Seq<usize>, k: int, r1: int, r2: int)
    requires
        0 <= r1 < k <= id.len(),
        0 <= r2 < k,
        r1 != r2,
        id[r1] == r1,
        id[r2] == r2,
    ensures
        roots(id, k) >= 2,
    decreases k,
{
    if r1 == k - 1 {
        lemma_roots_positive(id, k - 1, r2);
    } else if r2 == k - 1 {
        lemma_roots_positive(id, k - 1, r1);
    } else {
        lemma_two_roots(id, k - 1, r1, r2);
    }
}

/// Where there is a root there is at least one root.
proof fn lemma_roots_positive(id: Seq<usize>, k: int, r: int)
    requires
        0 <= r < k <= id.len(),
        id[r] == r,
    ensures
        roots(id, k) >= 1,
    decreases k,
{
    lemma_roots_nonneg(id, k - 1);
    if r < k - 1 {
        lemma_roots_positive(id, k - 1, r);
    }
}

proof fn lemma_roots_nonneg(id: Seq<usize>, k: int)
    ensures
        roots(id, k) >= 0,
    decreases k,
{
    if k > 0 {
        lemma_roots_nonneg(id, k - 1);
    }
}

/// Appending a root of size one adds one to the sum of the root sizes and to
/// the number of roots.
proof fn lemma_prefix(id0: Seq<usize>, sz0: Seq<usize>, id1: Seq<usize>, sz1: Seq<usize>, k: int)
    requires
        0 <= k <= id0.len(),
        id0.len() == sz0.len(),
        id1.len() > id0.len(),
        sz1.len() > sz0.len(),
        forall|t: int| 0 <= t < id0.len() ==> id1[t] == id0[t],
        forall|t: int| 0 <= t < sz0.len() ==> sz1[t] == sz0[t],
    ensures
        root_sizes(id1, sz1, k) == root_sizes(id0, sz0, k),
        roots(id1, k) == roots(id0, k),
    decreases k,
{
    if k > 0 {
        lemma_prefix(id0, sz0, id1, sz1, k - 1);
    }
}

/// After the root `i` has been linked below the root `j`, the elements that
/// had `i` for representative have `j`, and the others have the one they had.
proof fn lemma_linked_root(before: UnionFind, after: UnionFind, i: int, j: int, x: int)
    requires
        before.wf(),
        after.wf(),
        0 <= i < before.id@.len(),
        0 <= j < before.id@.len(),
        0 <= x < before.id@.len(),
        i != j,
        before.id@[i] == i,
        before.id@[j] == j,
        after.id@ == before.id@.update(i, j as usize),
        after.sz@.len() == before.sz@.len(),
    ensures
        after.root(x) == if before.root(x) == i {
            j
        } else {
            before.root(x)
        },
    decreases usize::MAX - before.sz@[x],
{
    if before.id@[x] == x {
        if x == i {
            assert(after.id@[i] == j);
            assert(after.id@[j] == j);
            assert(after.root(j) == j);
        }
    } else {
        lemma_linked_root(before, after, i, j, before.id@[x] as int);
    }
}

} // verus!
