//! An indexed priority queue that hands out the index of a least key.

use crate::order::{greater, lemma_not_below_transitive, lt, strict_total_order};
use crate::queue::index_binary_heap::{
    back, bounded, child, inverse, key_at, keyed, linked, same_members, slot,
};
use crate::sort::exchange;
use vstd::prelude::*;

verus! {

/// Keys stored under the indices `0..=capacity`, arranged as a binary heap
/// with a least key at the top.
#[derive(Debug)]
pub struct IndexMinPQ<T> {
    n: usize,
    pq: Vec<Option<usize>>,
    qp: Vec<Option<usize>>,
    keys: Vec<Option<T>>,
}

/// `a` is above `b` in the order of the keys.
pub open spec fn above<T: PartialOrd>(a: T, b: T) -> bool {
    lt(b, a)
}

/// Among the positions `1..=n`, no parent other than `k` has a key above
/// that of one of its children other than `k2`.
pub open spec fn ordered_but<T: PartialOrd>(
    n: int,
    pq: Seq<Option<usize>>,
    keys: Seq<Option<T>>,
    k: int,
    k2: int,
) -> bool {
    forall|p: int, c: int|
        #![trigger key_at(pq, keys, p), key_at(pq, keys, c)]
        1 <= p && c <= n && child(p, c) && p != k && c != k2 ==> !above(
            key_at(pq, keys, p),
            key_at(pq, keys, c),
        )
}

/// The parent of `k` has no key above that of a child of `k`.
pub open spec fn dominated<T: PartialOrd>(
    n: int,
    pq: Seq<Option<usize>>,
    keys: Seq<Option<T>>,
    k: int,
) -> bool {
    k > 1 ==> forall|c: int|
        c <= n && child(k, c) ==> !above(key_at(pq, keys, k / 2), #[trigger] key_at(pq, keys, c))
}

/// Where `a` is not above `b` nor `b` above `c`, `a` is not above `c`.
proof fn lemma_not_above_transitive<T: PartialOrd>(a: T, b: T, c: T)
    requires
        strict_total_order::<T>(),
        !above(a, b),
        !above(b, c),
    ensures
        !above(a, c),
{
    lemma_not_below_transitive(c, b, a);
}

/// The key at the top of an ordered heap is above no other.
proof fn lemma_top<T: PartialOrd>(n: int, pq: Seq<Option<usize>>, keys: Seq<Option<T>>, p: int)
    requires
        strict_total_order::<T>(),
        ordered_but(n, pq, keys, 0, 0),
        1 <= p <= n,
    ensures
        !above(key_at(pq, keys, 1), key_at(pq, keys, p)),
    decreases p,
{
    if p > 1 {
        lemma_top(n, pq, keys, p / 2);
        assert(child(p / 2, p));
        assert(!above(key_at(pq, keys, p / 2), key_at(pq, keys, p)));
        lemma_not_above_transitive(key_at(pq, keys, 1), key_at(pq, keys, p / 2), key_at(pq, keys, p));
    }
}

impl<T: Copy + PartialOrd> View for IndexMinPQ<T> {
    type V = Map<int, T>;

    /// The keys under their indices.
    closed spec fn view(&self) -> Map<int, T> {
        Map::new(
            |i: int| 0 <= i < self.qp@.len() && self.qp@[i] is Some,
            |i: int| self.keys@[i].unwrap(),
        )
    }
}

impl<T: Copy + PartialOrd> IndexMinPQ<T> {
    /// The greatest index that can be used.
    pub closed spec fn capacity(&self) -> int {
        self.pq@.len() - 1
    }

    /// The number of indices in use, as `size` reports it.
    pub closed spec fn len(&self) -> int {
        self.n as int
    }

    /// The indices in use and the positions of the heap name each other,
    /// and in a strict total order no key in the heap is above one of the
    /// two keys under it.
    pub closed spec fn wf(&self) -> bool {
        &&& linked(self.n as int, self.pq@, self.qp@, self.keys@)
        &&& inverse(self.pq@, self.qp@)
        &&& bounded(self.n as int, self.qp@)
        &&& keyed(self.qp@, self.keys@)
        &&& (strict_total_order::<T>() ==> ordered_but(self.n as int, self.pq@, self.keys@, 0, 0))
    }

    /// As many indices are in use as `size` reports, and each of them is
    /// one of `0..=capacity`.
    pub proof fn lemma_len(&self)
        requires
            self.wf(),
        ensures
            self@.dom().finite(),
            self@.dom().len() == self.len(),
            forall|i: int| #[trigger] self@.contains_key(i) ==> 0 <= i <= self.capacity(),
    {
        let n = self.n as int;
        let pq = self.pq@;
        let qp = self.qp@;
        let places = vstd::set_lib::set_int_range(1, n + 1);
        let f = |p: int| pq[p].unwrap() as int;
        vstd::set_lib::lemma_int_range(1, n + 1);
        assert forall|first: int, second: int|
            places.contains(first) && places.contains(second) && #[trigger] f(first) == #[trigger] f(
                second,
            ) implies first == second by {
            assert(slot(pq, qp, self.keys@, first));
            assert(slot(pq, qp, self.keys@, second));
        }
        assert forall|i: int| places.map(f).contains(i) <==> self@.dom().contains(i) by {
            if places.map(f).contains(i) {
                let p = choose|p: int| places.contains(p) && f(p) == i;
                assert(slot(pq, qp, self.keys@, p));
            }
            if self@.dom().contains(i) {
                assert(back(pq, qp, i));
                let p = qp[i].unwrap() as int;
                assert(places.contains(p) && f(p) == i);
            }
        }
        assert(places.map(f) =~= self@.dom());
        vstd::set_lib::lemma_map_size(places, self@.dom(), f);
    }

    /// A queue without keys for the indices `0..=capacity`.
    pub fn with_capacity(capacity: usize) -> (heap: Self)
        requires
            capacity < usize::MAX,
        ensures
            heap.wf(),
            heap.capacity() == capacity,
            heap.len() == 0,
            heap@ == Map::<int, T>::empty(),
    {
        let mut this = IndexMinPQ {
            n: 0,
            pq: Vec::with_capacity(capacity + 1),
            qp: Vec::with_capacity(capacity + 1),
            keys: Vec::with_capacity(capacity + 1),
        };
        let mut i: usize = 0;
        while i < capacity + 1
            invariant
                capacity < usize::MAX,
                i <= capacity + 1,
                this.n == 0,
                this.pq@.len() == i,
                this.qp@.len() == i,
                this.keys@.len() == i,
                forall|k: int| 0 <= k < i ==> (#[trigger] this.qp@[k]) is None,
                forall|k: int| 0 <= k < i ==> (#[trigger] this.keys@[k]) is None,
            decreases capacity + 1 - i,
        {
            this.pq.push(None);
            this.qp.push(None);
            this.keys.push(None);
            i += 1;
        }
        proof {
            assert(this@ =~= Map::<int, T>::empty());
        }
        this
    }

    /// Stores `key` under the index `i`, which must not be in use.
    pub fn push(&mut self, i: usize, key: T)
        requires
            old(self).wf(),
            i <= old(self).capacity(),
            !old(self)@.contains_key(i as int),
            old(self).len() < old(self).capacity(),
        ensures
            final(self).wf(),
            final(self).capacity() == old(self).capacity(),
            final(self)@ == old(self)@.insert(i as int, key),
            final(self).len() == old(self).len() + 1,
    {
        let ghost pq0 = self.pq@;
        let ghost qp0 = self.qp@;
        let ghost keys0 = self.keys@;
        let ghost n0 = self.n as int;
        let slots: usize = self.pq.len();
        self.n += 1;
        let k = self.size();
        self.qp[i] = Some(k);
        self.pq[k] = Some(i);
        self.keys[i] = Some(key);
        proof {
            let pq1 = self.pq@;
            let qp1 = self.qp@;
            let keys1 = self.keys@;
            assert forall|p: int| 1 <= p <= k implies #[trigger] slot(pq1, qp1, keys1, p) by {
                if p < k {
                    assert(slot(pq0, qp0, keys0, p));
                }
            }
            assert forall|t: int| 0 <= t < qp1.len() implies #[trigger] back(pq1, qp1, t) by {
                if t != i {
                    assert(back(pq0, qp0, t));
                }
            }
            if strict_total_order::<T>() {
                assert forall|p: int, c: int|
                    #![trigger key_at(pq1, keys1, p), key_at(pq1, keys1, c)]
                    1 <= p && c <= k && child(p, c) && p != k && c != k implies !above(
                    key_at(pq1, keys1, p),
                    key_at(pq1, keys1, c),
                ) by {
                    assert(slot(pq0, qp0, keys0, p));
                    assert(slot(pq0, qp0, keys0, c));
                    assert(key_at(pq1, keys1, p) == key_at(pq0, keys0, p));
                    assert(key_at(pq1, keys1, c) == key_at(pq0, keys0, c));
                }
            }
        }
        let ghost qp1 = self.qp@;
        self.swim(k);
        proof {
            assert forall|t: int| 0 <= t < self.qp@.len() implies ((#[trigger] self.qp@[t]) is Some
                <==> self.keys@[t] is Some) by {
                assert(qp1[t] is Some <==> self.qp@[t] is Some);
                if t != i {
                    assert(qp0[t] is Some <==> keys0[t] is Some);
                }
            }
            assert(self@ =~= old(self)@.insert(i as int, key));
            assert forall|t: int| 0 <= t < self.qp@.len() && (#[trigger] self.qp@[t]) is Some implies 1
                <= self.qp@[t].unwrap() <= self.n by {
                assert(qp1[t] is Some);
            }
        }
    }

    /// Stores `key` under the index `i`, which must be in use, in place of
    /// the key that is there.
    pub fn change_key(&mut self, i: usize, key: T)
        requires
            old(self).wf(),
            i <= old(self).capacity(),
            old(self)@.contains_key(i as int),
        ensures
            final(self).wf(),
            final(self).capacity() == old(self).capacity(),
            final(self)@ == old(self)@.insert(i as int, key),
            final(self).len() == old(self).len(),
    {
        let ghost pq0 = self.pq@;
        let ghost qp0 = self.qp@;
        let ghost keys0 = self.keys@;
        let ghost n0 = self.n as int;
        let slots: usize = self.pq.len();
        proof {
            assert(back(pq0, qp0, i as int));
        }
        self.keys[i] = Some(key);
        let k = self.qp[i].unwrap();
        proof {
            let keys1 = self.keys@;
            assert forall|p: int| 1 <= p <= n0 implies #[trigger] slot(pq0, qp0, keys1, p) by {
                assert(slot(pq0, qp0, keys0, p));
            }
            if strict_total_order::<T>() {
                assert forall|p: int| 1 <= p <= n0 && p != k implies key_at(pq0, keys1, p)
                    == #[trigger] key_at(pq0, keys0, p) by {
                    assert(slot(pq0, qp0, keys0, p));
                }
                assert forall|p: int, c: int|
                    #![trigger key_at(pq0, keys1, p), key_at(pq0, keys1, c)]
                    1 <= p && c <= n0 && child(p, c) && p != k && c != k implies !above(
                    key_at(pq0, keys1, p),
                    key_at(pq0, keys1, c),
                ) by {
                    assert(key_at(pq0, keys1, p) == key_at(pq0, keys0, p));
                    assert(key_at(pq0, keys1, c) == key_at(pq0, keys0, c));
                }
                if k > 1 {
                    assert forall|c: int| c <= n0 && child(k as int, c) implies !above(
                        key_at(pq0, keys1, k as int / 2),
                        #[trigger] key_at(pq0, keys1, c),
                    ) by {
                        assert(child(k as int / 2, k as int));
                        assert(key_at(pq0, keys1, c) == key_at(pq0, keys0, c));
                        assert(key_at(pq0, keys1, k as int / 2) == key_at(pq0, keys0, k as int / 2));
                        lemma_not_above_transitive(
                            key_at(pq0, keys0, k as int / 2),
                            key_at(pq0, keys0, k as int),
                            key_at(pq0, keys0, c),
                        );
                    }
                }
            }
        }
        self.swim(k);
        let ghost qp2 = self.qp@;
        self.sink(k);
        proof {
            assert forall|t: int| 0 <= t < self.qp@.len() implies ((#[trigger] self.qp@[t]) is Some
                <==> self.keys@[t] is Some) by {
                assert(qp2[t] is Some <==> self.qp@[t] is Some);
                assert(qp0[t] is Some <==> qp2[t] is Some);
                if t != i {
                    assert(qp0[t] is Some <==> keys0[t] is Some);
                }
            }
            assert(self@ =~= old(self)@.insert(i as int, key));
            assert forall|t: int| 0 <= t < self.qp@.len() && (#[trigger] self.qp@[t]) is Some implies 1
                <= self.qp@[t].unwrap() <= self.n by {
                assert(qp2[t] is Some);
                assert(qp0[t] is Some);
            }
        }
    }

    /// The same as `change_key`.
    pub fn change(&mut self, i: usize, key: T)
        requires
            old(self).wf(),
            i <= old(self).capacity(),
            old(self)@.contains_key(i as int),
        ensures
            final(self).wf(),
            final(self).capacity() == old(self).capacity(),
            final(self)@ == old(self)@.insert(i as int, key),
            final(self).len() == old(self).len(),
    {
        self.change_key(i, key);
    }

    /// Takes the index of a least key out of the queue and returns it.
    pub fn pop(&mut self) -> (v: usize)
        requires
            old(self).wf(),
            old(self).len() > 0,
        ensures
            final(self).wf(),
            final(self).capacity() == old(self).capacity(),
            old(self)@.contains_key(v as int),
            final(self)@ == old(self)@.remove(v as int),
            final(self).len() == old(self).len() - 1,
            strict_total_order::<T>() ==> forall|j: int| #[trigger]
                old(self)@.contains_key(j) ==> !lt(old(self)@[j], old(self)@[v as int]),
    {
        let ghost pq0 = self.pq@;
        let ghost qp0 = self.qp@;
        let ghost keys0 = self.keys@;
        let ghost n0 = self.n as int;
        proof {
            assert(slot(pq0, qp0, keys0, 1));
            assert(slot(pq0, qp0, keys0, n0));
            if strict_total_order::<T>() {
                assert forall|j: int| #[trigger] old(self)@.contains_key(j) implies !above(
                    key_at(pq0, keys0, 1),
                    old(self)@[j],
                ) by {
                    assert(back(pq0, qp0, j));
                    lemma_top(n0, pq0, keys0, qp0[j].unwrap() as int);
                }
            }
        }
        let v = self.pq[1].unwrap();
        let k = self.size();
        self.exch(1, k);
        let ghost pq1 = self.pq@;
        let ghost qp1 = self.qp@;
        self.n -= 1;
        proof {
            assert(slot(pq1, qp1, keys0, n0));
            assert(pq1[n0] == pq0[1]);
            assert(qp1[v as int].unwrap() == n0);
            assert forall|p: int| 1 <= p <= n0 - 1 implies #[trigger] slot(pq1, qp1, keys0, p) by {
                assert(slot(pq1, qp1, keys0, p));
            }
            if strict_total_order::<T>() {
                assert forall|p: int, c: int|
                    #![trigger key_at(pq1, keys0, p), key_at(pq1, keys0, c)]
                    1 <= p && c <= n0 - 1 && child(p, c) && p != 1 && c != 0 implies !above(
                    key_at(pq1, keys0, p),
                    key_at(pq1, keys0, c),
                ) by {
                    assert(key_at(pq1, keys0, p) == key_at(pq0, keys0, p));
                    assert(key_at(pq1, keys0, c) == key_at(pq0, keys0, c));
                }
            }
        }
        self.sink(1);
        let ghost pq2 = self.pq@;
        let ghost qp2 = self.qp@;
        self.qp[v] = None;
        self.keys[v] = None;
        self.pq[k] = None;
        proof {
            let pq3 = self.pq@;
            let qp3 = self.qp@;
            let keys3 = self.keys@;
            let n3 = self.n as int;
            assert(qp2[v as int] == qp1[v as int]);
            assert forall|p: int| 1 <= p <= n3 implies #[trigger] slot(pq3, qp3, keys3, p) by {
                assert(slot(pq2, qp2, keys0, p));
            }
            assert forall|t: int| 0 <= t < qp3.len() implies #[trigger] back(pq3, qp3, t) by {
                if t != v {
                    assert(back(pq2, qp2, t));
                }
            }
            assert forall|t: int| 0 <= t < qp3.len() && (#[trigger] qp3[t]) is Some implies 1
                <= qp3[t].unwrap() <= n3 by {
                assert(qp2[t] is Some);
                assert(qp1[t] is Some);
                assert(back(pq1, qp1, t));
                assert(qp0[t] is Some);
                if qp1[t].unwrap() > n3 {
                    assert(pq1[n0].unwrap() == v);
                }
            }
            assert forall|t: int| 0 <= t < qp3.len() implies ((#[trigger] qp3[t]) is Some
                <==> keys3[t] is Some) by {
                assert(qp2[t] is Some <==> qp1[t] is Some);
                assert(qp1[t] is Some <==> qp0[t] is Some);
                assert(qp0[t] is Some <==> keys0[t] is Some);
            }
            if strict_total_order::<T>() {
                assert forall|p: int, c: int|
                    #![trigger key_at(pq3, keys3, p), key_at(pq3, keys3, c)]
                    1 <= p && c <= n3 && child(p, c) && p != 0 && c != 0 implies !above(
                    key_at(pq3, keys3, p),
                    key_at(pq3, keys3, c),
                ) by {
                    assert(slot(pq2, qp2, keys0, p));
                    assert(slot(pq2, qp2, keys0, c));
                    assert(key_at(pq3, keys3, p) == key_at(pq2, keys0, p));
                    assert(key_at(pq3, keys3, c) == key_at(pq2, keys0, c));
                }
            }
            assert(self@ =~= old(self)@.remove(v as int));
        }
        v
    }

    /// Whether no index is in use.
    pub fn is_empty(&self) -> (r: bool)
        ensures
            r == (self.len() == 0),
    {
        self.size() == 0
    }

    /// Whether the index `i` is in use.
    pub fn contains(&self, i: usize) -> (r: bool)
        requires
            self.wf(),
            i <= self.capacity(),
        ensures
            r == self@.contains_key(i as int),
    {
        self.qp[i].is_some()
    }

    /// The number of indices in use.
    pub fn size(&self) -> (n: usize)
        ensures
            n == self.len(),
    {
        self.n
    }

    /// Whether the key at position `i` is above the key at position `j`.
    fn greater(&self, i: usize, j: usize) -> (r: bool)
        requires
            linked(self.n as int, self.pq@, self.qp@, self.keys@),
            1 <= i <= self.n,
            1 <= j <= self.n,
        ensures
            strict_total_order::<T>() ==> r == above(
                key_at(self.pq@, self.keys@, i as int),
                key_at(self.pq@, self.keys@, j as int),
            ),
    {
        proof {
            assert(slot(self.pq@, self.qp@, self.keys@, i as int));
            assert(slot(self.pq@, self.qp@, self.keys@, j as int));
        }
        let i = self.pq[i].unwrap();
        let j = self.pq[j].unwrap();
        match (self.keys[i], self.keys[j]) {
            (Some(i_key), Some(j_key)) => greater(&i_key, &j_key),
            (None, Some(_)) => false,
            (Some(_), None) => true,
            (None, None) => false,
        }
    }

    /// Exchanges the indices at the positions `i` and `j`.
    fn exch(&mut self, i: usize, j: usize)
        requires
            linked(old(self).n as int, old(self).pq@, old(self).qp@, old(self).keys@),
            inverse(old(self).pq@, old(self).qp@),
            1 <= i <= old(self).n,
            1 <= j <= old(self).n,
        ensures
            final(self).n == old(self).n,
            final(self).keys@ == old(self).keys@,
            linked(final(self).n as int, final(self).pq@, final(self).qp@, final(self).keys@),
            inverse(final(self).pq@, final(self).qp@),
            same_members(old(self).n as int, old(self).qp@, final(self).qp@),
            final(self).pq@ == old(self).pq@.update(i as int, old(self).pq@[j as int]).update(
                j as int,
                old(self).pq@[i as int],
            ),
    {
        let ghost pq0 = self.pq@;
        let ghost qp0 = self.qp@;
        proof {
            assert(slot(pq0, qp0, self.keys@, i as int));
            assert(slot(pq0, qp0, self.keys@, j as int));
        }
        exchange(self.pq.as_mut_slice(), i, j);
        let a = self.pq[i].unwrap();
        self.qp[a] = Some(i);
        let b = self.pq[j].unwrap();
        self.qp[b] = Some(j);
        {
            proof {
                let pq1 = self.pq@;
                let qp1 = self.qp@;
                assert forall|p: int| 1 <= p <= self.n implies #[trigger] slot(
                    pq1,
                    qp1,
                    self.keys@,
                    p,
                ) by {
                    assert(slot(pq0, qp0, self.keys@, p));
                }
                assert forall|t: int| 0 <= t < qp1.len() implies #[trigger] back(pq1, qp1, t) by {
                    assert(back(pq0, qp0, t));
                }
                assert forall|t: int|
                    0 <= t < qp0.len() && (#[trigger] qp0[t]) is Some && qp0[t].unwrap()
                        > self.n implies qp1[t] == qp0[t] by {
                    assert(back(pq0, qp0, t));
                }
            }
        }
    }

    /// Lets the index at position `k` rise while its key is above that of
    /// the index over it.
    fn swim(&mut self, k: usize)
        requires
            linked(old(self).n as int, old(self).pq@, old(self).qp@, old(self).keys@),
            inverse(old(self).pq@, old(self).qp@),
            1 <= k <= old(self).n,
            strict_total_order::<T>() ==> ordered_but(
                old(self).n as int,
                old(self).pq@,
                old(self).keys@,
                k as int,
                k as int,
            ) && dominated(old(self).n as int, old(self).pq@, old(self).keys@, k as int),
        ensures
            final(self).n == old(self).n,
            final(self).keys@ == old(self).keys@,
            final(self).pq@.len() == old(self).pq@.len(),
            linked(final(self).n as int, final(self).pq@, final(self).qp@, final(self).keys@),
            inverse(final(self).pq@, final(self).qp@),
            same_members(old(self).n as int, old(self).qp@, final(self).qp@),
            forall|p: int| old(self).n < p < old(self).pq@.len() ==> final(self).pq@[p] == old(self).pq@[p],
            strict_total_order::<T>() ==> ordered_but(
                final(self).n as int,
                final(self).pq@,
                final(self).keys@,
                k as int,
                0,
            ) && dominated(final(self).n as int, final(self).pq@, final(self).keys@, k as int),
    {
        let ghost k0 = k as int;
        let ghost n = self.n as int;
        let ghost keys = self.keys@;
        let ghost total = strict_total_order::<T>();
        let mut k = k;
        while k > 1 && self.greater(k / 2, k)
            invariant
                1 <= k <= k0 <= n,
                n == self.n,
                keys == self.keys@,
                total == strict_total_order::<T>(),
                self.pq@.len() == old(self).pq@.len(),
                linked(n, self.pq@, self.qp@, keys),
                inverse(self.pq@, self.qp@),
                same_members(n, old(self).qp@, self.qp@),
                forall|p: int| n < p < old(self).pq@.len() ==> self.pq@[p] == old(self).pq@[p],
                total ==> ordered_but(n, self.pq@, keys, k0, k as int),
                total ==> dominated(n, self.pq@, keys, k as int),
                total && k != k0 ==> ordered_but(n, self.pq@, keys, 0, k as int),
            decreases k,
        {
            let ghost pq1 = self.pq@;
            let ghost qp1 = self.qp@;
            self.exch(k, k / 2);
            proof {
                let pq2 = self.pq@;
                let h = k as int / 2;
                assert forall|p: int| n < p < old(self).pq@.len() implies pq2[p] == old(self).pq@[p] by {
                    assert(pq2[p] == pq1[p]);
                }
                assert(same_members(n, old(self).qp@, self.qp@)) by {
                    assert forall|t: int|
                        0 <= t < qp1.len() && (#[trigger] old(self).qp@[t]) is Some && 1 <= old(self).qp@[t].unwrap() <= n implies 1 <= self.qp@[t].unwrap() <= n by {
                        assert(qp1[t] is Some);
                    }
                    assert forall|t: int|
                        0 <= t < qp1.len() && (#[trigger] old(self).qp@[t]) is Some && old(self).qp@[t].unwrap() > n implies self.qp@[t] == old(self).qp@[t] by {
                        assert(qp1[t] is Some);
                    }
                    assert forall|t: int| 0 <= t < qp1.len() implies ((#[trigger] old(self).qp@[t]) is Some <==> self.qp@[t] is Some) by {
                        assert(qp1[t] is Some <==> self.qp@[t] is Some);
                    }
                }
                if total {
                    let x = key_at(pq1, keys, k as int);
                    let par = key_at(pq1, keys, h);
                    assert(above(par, x));
                    assert(key_at(pq2, keys, h) == x);
                    assert(key_at(pq2, keys, k as int) == par);
                    assert forall|p: int| 1 <= p <= n && p != h && p != k implies key_at(
                        pq2,
                        keys,
                        p,
                    ) == #[trigger] key_at(pq1, keys, p) by {}
                    assert forall|p: int, c: int|
                        #![trigger key_at(pq2, keys, p), key_at(pq2, keys, c)]
                        1 <= p && c <= n && child(p, c) && p != 0 && c != h implies !above(
                        key_at(pq2, keys, p),
                        key_at(pq2, keys, c),
                    ) by {
                        if p == h {
                            if c == k {
                            } else {
                                assert(!above(key_at(pq1, keys, h), key_at(pq1, keys, c)));
                                assert(key_at(pq2, keys, c) == key_at(pq1, keys, c));
                                if above(x, key_at(pq1, keys, c)) {
                                    assert(above(par, key_at(pq1, keys, c)));
                                }
                            }
                        } else if p == k {
                            assert(key_at(pq2, keys, c) == key_at(pq1, keys, c));
                            assert(!above(key_at(pq1, keys, k as int / 2), key_at(pq1, keys, c)));
                        } else if c == k {
                            assert(false);
                        } else {
                            assert(key_at(pq2, keys, p) == key_at(pq1, keys, p));
                            assert(key_at(pq2, keys, c) == key_at(pq1, keys, c));
                            if p == k0 {
                                assert(k != k0);
                                assert(!above(key_at(pq1, keys, p), key_at(pq1, keys, c)));
                            } else {
                                assert(!above(key_at(pq1, keys, p), key_at(pq1, keys, c)));
                            }
                        }
                    }
                    if h > 1 {
                        assert forall|c: int| c <= n && child(h, c) implies !above(
                            key_at(pq2, keys, h / 2),
                            #[trigger] key_at(pq2, keys, c),
                        ) by {
                            assert(child(h / 2, h));
                            assert(key_at(pq2, keys, h / 2) == key_at(pq1, keys, h / 2));
                            assert(!above(key_at(pq1, keys, h / 2), key_at(pq1, keys, h)));
                            if c == k {
                            } else {
                                assert(key_at(pq2, keys, c) == key_at(pq1, keys, c));
                                assert(!above(key_at(pq1, keys, h), key_at(pq1, keys, c)));
                                lemma_not_above_transitive(
                                    key_at(pq1, keys, h / 2),
                                    key_at(pq1, keys, h),
                                    key_at(pq1, keys, c),
                                );
                            }
                        }
                    }
                }
            }
            k = k / 2;
        }
        proof {
            if total {
                let pq2 = self.pq@;
                if k != k0 {
                    if k > 1 {
                        assert(!above(key_at(pq2, keys, k as int / 2), key_at(pq2, keys, k as int)));
                    }
                    assert forall|p: int, c: int|
                        #![trigger key_at(pq2, keys, p), key_at(pq2, keys, c)]
                        1 <= p && c <= n && child(p, c) && p != k0 && c != 0 implies !above(
                        key_at(pq2, keys, p),
                        key_at(pq2, keys, c),
                    ) by {}
                    if k0 > 1 {
                        assert forall|c: int| c <= n && child(k0, c) implies !above(
                            key_at(pq2, keys, k0 / 2),
                            #[trigger] key_at(pq2, keys, c),
                        ) by {
                            assert(child(k0 / 2, k0));
                            assert(!above(key_at(pq2, keys, k0 / 2), key_at(pq2, keys, k0)));
                            assert(!above(key_at(pq2, keys, k0), key_at(pq2, keys, c)));
                            lemma_not_above_transitive(
                                key_at(pq2, keys, k0 / 2),
                                key_at(pq2, keys, k0),
                                key_at(pq2, keys, c),
                            );
                        }
                    }
                } else {
                    if k > 1 {
                        assert(!above(key_at(pq2, keys, k as int / 2), key_at(pq2, keys, k as int)));
                    }
                    assert forall|p: int, c: int|
                        #![trigger key_at(pq2, keys, p), key_at(pq2, keys, c)]
                        1 <= p && c <= n && child(p, c) && p != k0 && c != 0 implies !above(
                        key_at(pq2, keys, p),
                        key_at(pq2, keys, c),
                    ) by {
                        if c == k0 {
                            assert(p == k0 / 2);
                        }
                    }
                }
            }
        }
    }

    /// Lets the index at position `k` sink while its key is below that of
    /// an index under it.
    fn sink(&mut self, k: usize)
        requires
            linked(old(self).n as int, old(self).pq@, old(self).qp@, old(self).keys@),
            inverse(old(self).pq@, old(self).qp@),
            1 <= k,
            strict_total_order::<T>() ==> ordered_but(
                old(self).n as int,
                old(self).pq@,
                old(self).keys@,
                k as int,
                0,
            ) && dominated(old(self).n as int, old(self).pq@, old(self).keys@, k as int),
        ensures
            final(self).n == old(self).n,
            final(self).keys@ == old(self).keys@,
            final(self).pq@.len() == old(self).pq@.len(),
            linked(final(self).n as int, final(self).pq@, final(self).qp@, final(self).keys@),
            inverse(final(self).pq@, final(self).qp@),
            same_members(old(self).n as int, old(self).qp@, final(self).qp@),
            forall|p: int| old(self).n < p < old(self).pq@.len() ==> final(self).pq@[p] == old(self).pq@[p],
            strict_total_order::<T>() ==> ordered_but(
                final(self).n as int,
                final(self).pq@,
                final(self).keys@,
                0,
                0,
            ),
    {
        let ghost n = self.n as int;
        let ghost keys = self.keys@;
        let ghost total = strict_total_order::<T>();
        let mut k = k;
        while k <= self.size() / 2
            invariant
                1 <= k,
                n == self.n,
                keys == self.keys@,
                total == strict_total_order::<T>(),
                self.pq@.len() == old(self).pq@.len(),
                linked(n, self.pq@, self.qp@, keys),
                inverse(self.pq@, self.qp@),
                same_members(n, old(self).qp@, self.qp@),
                forall|p: int| n < p < old(self).pq@.len() ==> self.pq@[p] == old(self).pq@[p],
                total ==> ordered_but(n, self.pq@, keys, k as int, 0),
                total ==> dominated(n, self.pq@, keys, k as int),
            ensures
                n == self.n,
                keys == self.keys@,
                self.pq@.len() == old(self).pq@.len(),
                linked(n, self.pq@, self.qp@, keys),
                inverse(self.pq@, self.qp@),
                same_members(n, old(self).qp@, self.qp@),
                forall|p: int| n < p < old(self).pq@.len() ==> self.pq@[p] == old(self).pq@[p],
                total ==> ordered_but(n, self.pq@, keys, 0, 0),
            decreases n - k,
        {
            let mut j = k * 2;
            if j < self.size() && self.greater(j, j + 1) {
                j += 1;
            }
            let ghost pq1 = self.pq@;
            let ghost qp1 = self.qp@;
            let ghost other: int = if j == k * 2 {
                k * 2 + 1
            } else {
                k * 2
            };
            proof {
                if total && other <= n {
                    assert(!above(key_at(pq1, keys, j as int), key_at(pq1, keys, other)));
                }
            }
            if !self.greater(k, j) {
                proof {
                    if total {
                        assert forall|p: int, c: int|
                            #![trigger key_at(pq1, keys, p), key_at(pq1, keys, c)]
                            1 <= p && c <= n && child(p, c) && p != 0 && c != 0 implies !above(
                            key_at(pq1, keys, p),
                            key_at(pq1, keys, c),
                        ) by {
                            if p == k && c != j {
                                assert(c == other);
                                lemma_not_above_transitive(
                                    key_at(pq1, keys, k as int),
                                    key_at(pq1, keys, j as int),
                                    key_at(pq1, keys, other),
                                );
                            }
                        }
                    }
                }
                break ;
            }
            self.exch(k, j);
            proof {
                let pq2 = self.pq@;
                assert forall|p: int| n < p < old(self).pq@.len() implies pq2[p] == old(self).pq@[p] by {
                    assert(pq2[p] == pq1[p]);
                }
                assert(same_members(n, old(self).qp@, self.qp@)) by {
                    assert forall|t: int|
                        0 <= t < qp1.len() && (#[trigger] old(self).qp@[t]) is Some && 1 <= old(self).qp@[t].unwrap() <= n implies 1 <= self.qp@[t].unwrap() <= n by {
                        assert(qp1[t] is Some);
                    }
                    assert forall|t: int|
                        0 <= t < qp1.len() && (#[trigger] old(self).qp@[t]) is Some && old(self).qp@[t].unwrap() > n implies self.qp@[t] == old(self).qp@[t] by {
                        assert(qp1[t] is Some);
                    }
                    assert forall|t: int| 0 <= t < qp1.len() implies ((#[trigger] old(self).qp@[t]) is Some <==> self.qp@[t] is Some) by {
                        assert(qp1[t] is Some <==> self.qp@[t] is Some);
                    }
                }
                if total {
                    let x = key_at(pq1, keys, k as int);
                    let big = key_at(pq1, keys, j as int);
                    assert(above(x, big));
                    assert(key_at(pq2, keys, k as int) == big);
                    assert(key_at(pq2, keys, j as int) == x);
                    assert forall|p: int, c: int|
                        #![trigger key_at(pq2, keys, p), key_at(pq2, keys, c)]
                        1 <= p && c <= n && child(p, c) && p != j && c != 0 implies !above(
                        key_at(pq2, keys, p),
                        key_at(pq2, keys, c),
                    ) by {
                        if p == k {
                            if c == j {
                            } else {
                                assert(c == other);
                                assert(key_at(pq2, keys, c) == key_at(pq1, keys, c));
                            }
                        } else if c == k {
                            assert(p == k as int / 2);
                            assert(key_at(pq2, keys, p) == key_at(pq1, keys, p));
                            assert(!above(key_at(pq1, keys, k as int / 2), key_at(pq1, keys, j as int)));
                        } else {
                            assert(c != j);
                            assert(key_at(pq2, keys, p) == key_at(pq1, keys, p));
                            assert(key_at(pq2, keys, c) == key_at(pq1, keys, c));
                            assert(!above(key_at(pq1, keys, p), key_at(pq1, keys, c)));
                        }
                    }
                    assert forall|c: int| c <= n && child(j as int, c) implies !above(
                        key_at(pq2, keys, j as int / 2),
                        #[trigger] key_at(pq2, keys, c),
                    ) by {
                        assert(j as int / 2 == k);
                        assert(key_at(pq2, keys, c) == key_at(pq1, keys, c));
                        assert(!above(key_at(pq1, keys, j as int), key_at(pq1, keys, c)));
                    }
                }
            }
            k = j;
        }
        proof {
            if total {
                let pq2 = self.pq@;
                assert forall|p: int, c: int|
                    #![trigger key_at(pq2, keys, p), key_at(pq2, keys, c)]
                    1 <= p && c <= n && child(p, c) && p != 0 && c != 0 implies !above(
                    key_at(pq2, keys, p),
                    key_at(pq2, keys, c),
                ) by {}
            }
        }
    }
}

} // verus!
