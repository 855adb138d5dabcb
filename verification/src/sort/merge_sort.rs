//! Merge sort.

use crate::sort::{
    alike, answers_all, in_order, lemma_filter_none, lemma_filter_push, orders, sorted_by, turned,
    turns_order,
};
use vstd::prelude::*;
use vstd::slice::slice_to_vec;

verus! {

/// The first `k` elements of `y` are in order, and none of the elements of
/// `x1` from `i` on and of `x2` from `j` on has to stand before one of them.
pub open spec fn merged<T>(
    y: Seq<T>,
    k: int,
    x1: Seq<T>,
    i: int,
    x2: Seq<T>,
    j: int,
    rel: spec_fn(T, T) -> bool,
) -> bool {
    &&& forall|a: int, b: int| #![trigger y[a], y[b]] 0 <= a < b < k ==> !rel(y[b], y[a])
    &&& forall|a: int, b: int|
        #![trigger y[a], x1[b]]
        0 <= a < k && i <= b < x1.len() ==> !rel(x1[b], y[a])
    &&& forall|a: int, b: int|
        #![trigger y[a], x2[b]]
        0 <= a < k && j <= b < x2.len() ==> !rel(x2[b], y[a])
}

/// The elements of `y` that stand on one level are those of `x2` and behind
/// them those of `x1`.
pub open spec fn second_first<T>(y: Seq<T>, x1: Seq<T>, x2: Seq<T>, rel: spec_fn(T, T) -> bool) -> bool {
    forall|a: T| #[trigger]
        y.filter(alike(rel, a)) == x2.filter(alike(rel, a)) + x1.filter(alike(rel, a))
}

/// Each of the first `i` elements of `x1` has to stand before every element
/// of `x2` from `j` on.
pub open spec fn ahead<T>(x1: Seq<T>, i: int, x2: Seq<T>, j: int, rel: spec_fn(T, T) -> bool) -> bool {
    forall|a: int, b: int|
        #![trigger x1[a], x2[b]]
        0 <= a < i && j <= b < x2.len() ==> rel(x1[a], x2[b])
}

/// `rel` is a strict weak order that `f` decides, and `x1` and `x2` are in
/// order under it.
pub open spec fn ready<T, F: Fn(&T, &T) -> bool>(
    f: &F,
    x1: Seq<T>,
    x2: Seq<T>,
    rel: spec_fn(T, T) -> bool,
) -> bool {
    orders(f, rel) && sorted_by(x1, rel) && sorted_by(x2, rel)
}

/// Sorts `seq` by sorting its two halves in the same way and merging them.
/// Of two elements of which none has to stand before the other the merge
/// takes the one of the second half first: such elements come out in the
/// opposite of the order in which they went in.
pub fn merge_sort<T: Copy, F: Fn(&T, &T) -> bool>(seq: &mut [T], compare: &F)
    requires
        answers_all(compare),
    ensures
        final(seq)@.to_multiset() == old(seq)@.to_multiset(),
        final(seq)@.len() == old(seq)@.len(),
        in_order(final(seq)@, compare),
        turned(old(seq)@, final(seq)@, compare),
    decreases old(seq)@.len(),
{
    let n: usize = seq.len();
    let m: usize = n / 2;
    if n <= 1 {
        proof {
            let s = seq@;
            assert forall|rel: spec_fn(T, T) -> bool| #[trigger]
                orders(compare, rel) implies turns_order(s, s, rel) by {
                assert forall|a: T| #[trigger]
                    s.filter(alike(rel, a)) == s.filter(alike(rel, a)).reverse() by {
                    let f = s.filter(alike(rel, a));
                    s.lemma_filter_len(alike(rel, a));
                    assert(f =~= f.reverse());
                }
            }
        }
        return ;
    }
    let ghost s0 = seq@;
    let ghost l0 = s0.subrange(0, m as int);
    let ghost r0 = s0.subrange(m as int, n as int);
    let (left, right) = seq.split_at_mut(m);
    merge_sort(left, compare);
    merge_sort(right, compare);
    let ghost l1 = left@;
    let ghost r1 = right@;
    proof {
        assert(s0 =~= l0 + r0);
        vstd::seq_lib::lemma_multiset_commutative(l0, r0);
        vstd::seq_lib::lemma_multiset_commutative(left@, right@);
    }
    let mut y = slice_to_vec(seq);
    let (x1, x2) = seq.split_at(m);
    merge(x1, x2, &mut y, compare);
    let ghost s1 = seq@;
    proof {
        assert(s1 =~= x1@ + x2@);
        vstd::seq_lib::lemma_multiset_commutative(x1@, x2@);
        assert(x1@ =~= l1);
        assert(x2@ =~= r1);
        let y1 = y@;
        assert forall|rel: spec_fn(T, T) -> bool| #[trigger]
            orders(compare, rel) implies sorted_by(y1, rel) && turns_order(s0, y1, rel) by {
            assert(sorted_by(x1@, rel) && sorted_by(x2@, rel));
            assert(ready(compare, x1@, x2@, rel));
            assert(turns_order(l0, l1, rel));
            assert(turns_order(r0, r1, rel));
            assert(second_first(y1, l1, r1, rel));
            assert forall|a: T| #[trigger]
                y1.filter(alike(rel, a)) == s0.filter(alike(rel, a)).reverse() by {
                let p = alike(rel, a);
                Seq::filter_distributes_over_add(l0, r0, p);
                assert(y1.filter(p) == r1.filter(p) + l1.filter(p));
                assert(l1.filter(p) == l0.filter(p).reverse());
                assert(r1.filter(p) == r0.filter(p).reverse());
                assert((l0.filter(p) + r0.filter(p)).reverse() =~= r0.filter(p).reverse()
                    + l0.filter(p).reverse());
            }
        }
    }
    let mut k: usize = 0;
    while k < n
        invariant
            k <= n,
            n == seq@.len(),
            n == y@.len(),
            forall|t: int| 0 <= t < k ==> seq@[t] == y@[t],
        decreases n - k,
    {
        seq[k] = y[k];
        k += 1;
    }
    assert(seq@ =~= y@);
}

/// Merges `x1` and `x2` into `y`: the next element is that of `x1` where it
/// has to stand before that of `x2`, and that of `x2` else.
fn merge<T: Copy, F: Fn(&T, &T) -> bool>(x1: &[T], x2: &[T], y: &mut Vec<T>, f: &F)
    requires
        answers_all(f),
        old(y)@.len() == x1@.len() + x2@.len(),
    ensures
        final(y)@.len() == old(y)@.len(),
        final(y)@.to_multiset() == x1@.to_multiset().add(x2@.to_multiset()),
        forall|rel: spec_fn(T, T) -> bool| #[trigger]
            ready(f, x1@, x2@, rel) ==> sorted_by(final(y)@, rel) && second_first(
                final(y)@,
                x1@,
                x2@,
                rel,
            ),
{
    broadcast use vstd::multiset::group_multiset_axioms;

    let total: usize = y.len();
    let mut i: usize = 0;
    let mut j: usize = 0;
    let mut k: usize = 0;
    proof {
        assert(y@.subrange(0, 0) =~= Seq::<T>::empty());
        assert(x1@.subrange(0, 0) =~= Seq::<T>::empty());
        assert(x2@.subrange(0, 0) =~= Seq::<T>::empty());
        let e = Seq::<T>::empty();
        assert(e + e =~= e);
        vstd::seq_lib::lemma_multiset_commutative(e, e);
    }
    while i < x1.len() || j < x2.len()
        invariant
            answers_all(f),
            i <= x1@.len(),
            j <= x2@.len(),
            k == i + j,
            y@.len() == x1@.len() + x2@.len(),
            y@.len() == total,
            y@.subrange(0, k as int).to_multiset() == x1@.subrange(0, i as int).to_multiset().add(
                x2@.subrange(0, j as int).to_multiset(),
            ),
            forall|rel: spec_fn(T, T) -> bool| #[trigger]
                ready(f, x1@, x2@, rel) ==> merged(y@, k as int, x1@, i as int, x2@, j as int, rel)
                    && ahead(x1@, i as int, x2@, j as int, rel) && second_first(
                    y@.subrange(0, k as int),
                    x1@.subrange(0, i as int),
                    x2@.subrange(0, j as int),
                    rel,
                ),
        decreases x1@.len() + x2@.len() - k,
    {
        let ghost y0 = y@;
        let both: bool = i < x1.len() && j < x2.len();
        let take_first: bool = if both {
            f(&x1[i], &x2[j])
        } else {
            i < x1.len()
        };
        if take_first {
            y[k] = x1[i];
            proof {
                let v = x1@[i as int];
                assert(y@.subrange(0, k + 1) =~= y0.subrange(0, k as int).push(v));
                assert(x1@.subrange(0, i + 1) =~= x1@.subrange(0, i as int).push(v));
                vstd::seq_lib::to_multiset_build(y0.subrange(0, k as int), v);
                vstd::seq_lib::to_multiset_build(x1@.subrange(0, i as int), v);
                assert(y@.subrange(0, k + 1).to_multiset() =~= x1@.subrange(
                    0,
                    i + 1,
                ).to_multiset().add(x2@.subrange(0, j as int).to_multiset()));
                let y1 = y@;
                assert forall|rel: spec_fn(T, T) -> bool| #[trigger]
                    ready(f, x1@, x2@, rel) implies merged(
                    y1,
                    k + 1,
                    x1@,
                    i + 1,
                    x2@,
                    j as int,
                    rel,
                ) && ahead(x1@, i + 1, x2@, j as int, rel) && second_first(
                    y1.subrange(0, k + 1),
                    x1@.subrange(0, i + 1),
                    x2@.subrange(0, j as int),
                    rel,
                ) by {
                    assert(merged(y0, k as int, x1@, i as int, x2@, j as int, rel));
                    assert(ahead(x1@, i as int, x2@, j as int, rel));
                    assert(second_first(
                        y0.subrange(0, k as int),
                        x1@.subrange(0, i as int),
                        x2@.subrange(0, j as int),
                        rel,
                    ));
                    assert(both ==> rel(x1@[i as int], x2@[j as int]));
                    assert forall|a: int, b: int|
                        #![trigger x1@[a], x2@[b]]
                        0 <= a < i + 1 && j <= b < x2@.len() implies rel(x1@[a], x2@[b]) by {
                        if a == i {
                            assert(both);
                            if b > j {
                                assert(!rel(x2@[b], x2@[j as int]));
                            }
                        }
                    }
                    assert forall|a: T| #[trigger]
                        y1.subrange(0, k + 1).filter(alike(rel, a)) == x2@.subrange(
                            0,
                            j as int,
                        ).filter(alike(rel, a)) + x1@.subrange(0, i + 1).filter(alike(rel, a)) by {
                        let p = alike(rel, a);
                        let yk = y0.subrange(0, k as int);
                        let xi = x1@.subrange(0, i as int);
                        let xj = x2@.subrange(0, j as int);
                        lemma_filter_push(yk, v, p);
                        lemma_filter_push(xi, v, p);
                        assert(yk.filter(p) == xj.filter(p) + xi.filter(p));
                        assert((xj.filter(p) + xi.filter(p)).push(v) =~= xj.filter(p) + xi.filter(
                            p,
                        ).push(v));
                    }
                    assert forall|a: int, b: int|
                        #![trigger y1[a], y1[b]]
                        0 <= a < b < k + 1 implies !rel(y1[b], y1[a]) by {
                        assert(y1[a] == y0[a]);
                        if b < k {
                            assert(y1[b] == y0[b]);
                        }
                    }
                    assert forall|a: int, b: int|
                        #![trigger y1[a], x1@[b]]
                        0 <= a < k + 1 && i + 1 <= b < x1@.len() implies !rel(x1@[b], y1[a]) by {
                        if a < k {
                            assert(y1[a] == y0[a]);
                        } else {
                            assert(!rel(x1@[b], x1@[i as int]));
                        }
                    }
                    assert forall|a: int, b: int|
                        #![trigger y1[a], x2@[b]]
                        0 <= a < k + 1 && j <= b < x2@.len() implies !rel(x2@[b], y1[a]) by {
                        if a < k {
                            assert(y1[a] == y0[a]);
                        } else {
                            assert(rel(x1@[i as int], x2@[j as int]));
                            assert(!rel(x2@[j as int], x1@[i as int]));
                            if b > j {
                                assert(!rel(x2@[b], x2@[j as int]));
                            }
                        }
                    }
                }
            }
            i += 1;
        } else {
            y[k] = x2[j];
            proof {
                let v = x2@[j as int];
                assert(y@.subrange(0, k + 1) =~= y0.subrange(0, k as int).push(v));
                assert(x2@.subrange(0, j + 1) =~= x2@.subrange(0, j as int).push(v));
                vstd::seq_lib::to_multiset_build(y0.subrange(0, k as int), v);
                vstd::seq_lib::to_multiset_build(x2@.subrange(0, j as int), v);
                assert(y@.subrange(0, k + 1).to_multiset() =~= x1@.subrange(
                    0,
                    i as int,
                ).to_multiset().add(x2@.subrange(0, j + 1).to_multiset()));
                let y1 = y@;
                assert forall|rel: spec_fn(T, T) -> bool| #[trigger]
                    ready(f, x1@, x2@, rel) implies merged(
                    y1,
                    k + 1,
                    x1@,
                    i as int,
                    x2@,
                    j + 1,
                    rel,
                ) && ahead(x1@, i as int, x2@, j + 1, rel) && second_first(
                    y1.subrange(0, k + 1),
                    x1@.subrange(0, i as int),
                    x2@.subrange(0, j + 1),
                    rel,
                ) by {
                    assert(merged(y0, k as int, x1@, i as int, x2@, j as int, rel));
                    assert(ahead(x1@, i as int, x2@, j as int, rel));
                    assert(second_first(
                        y0.subrange(0, k as int),
                        x1@.subrange(0, i as int),
                        x2@.subrange(0, j as int),
                        rel,
                    ));
                    assert(both ==> !rel(x1@[i as int], x2@[j as int]));
                    assert forall|a: T| #[trigger]
                        y1.subrange(0, k + 1).filter(alike(rel, a)) == x2@.subrange(
                            0,
                            j + 1,
                        ).filter(alike(rel, a)) + x1@.subrange(0, i as int).filter(alike(rel, a)) by {
                        let p = alike(rel, a);
                        let yk = y0.subrange(0, k as int);
                        let xi = x1@.subrange(0, i as int);
                        let xj = x2@.subrange(0, j as int);
                        lemma_filter_push(yk, v, p);
                        lemma_filter_push(xj, v, p);
                        assert(yk.filter(p) == xj.filter(p) + xi.filter(p));
                        if p(v) {
                            assert forall|t: int| 0 <= t < xi.len() implies !p(#[trigger] xi[t]) by {
                                assert(xi[t] == x1@[t]);
                                assert(rel(x1@[t], x2@[j as int]));
                                if p(x1@[t]) {
                                    assert(!rel(a, v) && !rel(x1@[t], a));
                                    assert(!rel(x1@[t], v));
                                }
                            }
                            lemma_filter_none(xi, p);
                            assert(xj.filter(p) + xi.filter(p) =~= xj.filter(p));
                            assert(xj.filter(p).push(v) + xi.filter(p) =~= xj.filter(p).push(v));
                        }
                    }
                    assert forall|a: int, b: int|
                        #![trigger y1[a], y1[b]]
                        0 <= a < b < k + 1 implies !rel(y1[b], y1[a]) by {
                        assert(y1[a] == y0[a]);
                        if b < k {
                            assert(y1[b] == y0[b]);
                        }
                    }
                    assert forall|a: int, b: int|
                        #![trigger y1[a], x2@[b]]
                        0 <= a < k + 1 && j + 1 <= b < x2@.len() implies !rel(x2@[b], y1[a]) by {
                        if a < k {
                            assert(y1[a] == y0[a]);
                        } else {
                            assert(!rel(x2@[b], x2@[j as int]));
                        }
                    }
                    assert forall|a: int, b: int|
                        #![trigger y1[a], x1@[b]]
                        0 <= a < k + 1 && i <= b < x1@.len() implies !rel(x1@[b], y1[a]) by {
                        if a < k {
                            assert(y1[a] == y0[a]);
                        } else {
                            assert(!rel(x1@[i as int], x2@[j as int]));
                            if b > i {
                                assert(!rel(x1@[b], x1@[i as int]));
                            }
                        }
                    }
                }
            }
            j += 1;
        }
        k += 1;
    }
    proof {
        assert(y@.subrange(0, k as int) =~= y@);
        assert(x1@.subrange(0, i as int) =~= x1@);
        assert(x2@.subrange(0, j as int) =~= x2@);
        let y1 = y@;
        assert forall|rel: spec_fn(T, T) -> bool| #[trigger]
            ready(f, x1@, x2@, rel) implies sorted_by(y1, rel) && second_first(y1, x1@, x2@, rel) by {
            assert(merged(y1, k as int, x1@, i as int, x2@, j as int, rel));
            assert(second_first(
                y1.subrange(0, k as int),
                x1@.subrange(0, i as int),
                x2@.subrange(0, j as int),
                rel,
            ));
        }
    }
}

} // verus!
