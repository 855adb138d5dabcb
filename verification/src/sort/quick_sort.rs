//! Quick sort.

use crate::sort::{
    answers_all, exchange, goes_before, in_order, lemma_same_elements, lemma_swapped_multiset,
    lemma_transitive, orders, sorted_by,
};
use vstd::prelude::*;

verus! {

/// The elements of `s` from `from` up to `to` have to stand before `p`.
pub open spec fn all_before<T>(s: Seq<T>, from: int, to: int, p: T, rel: spec_fn(T, T) -> bool) -> bool {
    forall|k: int| from <= k < to ==> rel(#[trigger] s[k], p)
}

/// None of the elements of `s` from `from` up to `to` has to stand before
/// `p`.
pub open spec fn none_before<T>(s: Seq<T>, from: int, to: int, p: T, rel: spec_fn(T, T) -> bool) -> bool {
    forall|k: int| from <= k < to ==> !rel(#[trigger] s[k], p)
}

/// Sorts `seq` by parting it around its last element and sorting both parts
/// in the same way.
pub fn quick_sort<T, F: Fn(&T, &T) -> bool>(seq: &mut [T], compare: &F)
    requires
        answers_all(compare),
    ensures
        final(seq)@.to_multiset() == old(seq)@.to_multiset(),
        final(seq)@.len() == old(seq)@.len(),
        in_order(final(seq)@, compare),
    decreases old(seq)@.len(),
{
    let len: usize = seq.len();
    if len > 1 {
        let pivot_index = partition(seq, compare);
        let ghost s1 = seq@;
        let ghost p = s1[pivot_index as int];
        let ghost l0 = s1.subrange(0, pivot_index as int);
        let ghost r0 = s1.subrange(pivot_index + 1, len as int);
        let (left, rest) = seq.split_at_mut(pivot_index);
        quick_sort(left, compare);
        let (mid, right) = rest.split_at_mut(1);
        assert(right@ =~= r0);
        quick_sort(right, compare);
        proof {
            let l1 = left@;
            let r1 = right@;
            let s2 = seq@;
            assert(mid@ =~= seq![p]);
            assert(s2 =~= l1 + seq![p] + r1);
            assert(s1 =~= l0 + seq![p] + r0);
            vstd::seq_lib::lemma_multiset_commutative(l1, seq![p]);
            vstd::seq_lib::lemma_multiset_commutative(l1 + seq![p], r1);
            vstd::seq_lib::lemma_multiset_commutative(l0, seq![p]);
            vstd::seq_lib::lemma_multiset_commutative(l0 + seq![p], r0);
            assert forall|rel: spec_fn(T, T) -> bool| #[trigger]
                orders(compare, rel) implies sorted_by(s2, rel) by {
                assert(sorted_by(l1, rel));
                assert(sorted_by(r1, rel));
                assert(all_before(s1, 0, pivot_index as int, p, rel));
                assert(none_before(s1, pivot_index + 1, s1.len() as int, p, rel));
                assert forall|a: int, b: int|
                    #![trigger s2[a], s2[b]]
                    0 <= a < b < s2.len() implies !rel(s2[b], s2[a]) by {
                    let n = l1.len() as int;
                    if b < n {
                        assert(s2[a] == l1[a] && s2[b] == l1[b]);
                    } else if a > n {
                        assert(s2[a] == r1[a - n - 1] && s2[b] == r1[b - n - 1]);
                    } else if a == n {
                        assert(s2[b] == r1[b - n - 1]);
                        lemma_same_elements(r0, r1, b - n - 1);
                        let j = choose|j: int| 0 <= j < r0.len() && r0[j] == r1[b - n - 1];
                        assert(r0[j] == s1[n + 1 + j]);
                    } else {
                        assert(s2[a] == l1[a]);
                        lemma_same_elements(l0, l1, a);
                        let i = choose|i: int| 0 <= i < l0.len() && l0[i] == l1[a];
                        assert(l0[i] == s1[i]);
                        assert(rel(s2[a], p));
                        if b > n {
                            assert(s2[b] == r1[b - n - 1]);
                            lemma_same_elements(r0, r1, b - n - 1);
                            let j = choose|j: int| 0 <= j < r0.len() && r0[j] == r1[b - n - 1];
                            assert(r0[j] == s1[n + 1 + j]);
                            assert(!rel(s2[b], p));
                            if rel(s2[b], s2[a]) {
                                lemma_transitive(rel, s2[b], s2[a], p);
                            }
                        }
                    }
                }
            }
        }
    }
}

/// Moves the elements that have to stand before the last one to the front,
/// puts the last one behind them and returns its new position.
fn partition<T, F: Fn(&T, &T) -> bool>(seq: &mut [T], compare: &F) -> (r: usize)
    requires
        answers_all(compare),
        old(seq)@.len() >= 1,
    ensures
        r < final(seq)@.len(),
        final(seq)@.len() == old(seq)@.len(),
        final(seq)@.to_multiset() == old(seq)@.to_multiset(),
        final(seq)@[r as int] == old(seq)@[old(seq)@.len() - 1],
        forall|rel: spec_fn(T, T) -> bool| #[trigger]
            orders(compare, rel) ==> all_before(
                final(seq)@,
                0,
                r as int,
                final(seq)@[r as int],
                rel,
            ) && none_before(
                final(seq)@,
                r + 1,
                final(seq)@.len() as int,
                final(seq)@[r as int],
                rel,
            ),
{
    let len: usize = seq.len();
    let mut store_index: usize = 0;
    let mut i: usize = 0;
    let ghost p = seq@[len - 1];
    while i < len - 1
        invariant
            answers_all(compare),
            len == seq@.len(),
            len >= 1,
            store_index <= i <= len - 1,
            seq@.len() == old(seq)@.len(),
            seq@.to_multiset() == old(seq)@.to_multiset(),
            seq@[len - 1] == p,
            p == old(seq)@[len - 1],
            forall|rel: spec_fn(T, T) -> bool| #[trigger]
                orders(compare, rel) ==> all_before(seq@, 0, store_index as int, p, rel)
                    && none_before(seq@, store_index as int, i as int, p, rel),
        decreases len - i,
    {
        let ghost s0 = seq@;
        let c = goes_before(compare, seq, i, len - 1);
        if c {
            exchange(seq, i, store_index);
            proof {
                lemma_swapped_multiset(s0, i as int, store_index as int);
            }
        }
        proof {
            let s1 = seq@;
            let st = if c {
                store_index + 1
            } else {
                store_index as int
            };
            assert(s1[len - 1] == s0[len - 1]);
            assert forall|rel: spec_fn(T, T) -> bool| #[trigger]
                orders(compare, rel) implies all_before(s1, 0, st, p, rel) && none_before(
                s1,
                st,
                i + 1,
                p,
                rel,
            ) by {
                assert(all_before(s0, 0, store_index as int, p, rel) && none_before(
                    s0,
                    store_index as int,
                    i as int,
                    p,
                    rel,
                ));
                assert(c == rel(s0[i as int], p));
                assert forall|k: int| 0 <= k < st implies rel(#[trigger] s1[k], p) by {
                    if k < store_index {
                        assert(s1[k] == s0[k]);
                    }
                }
                assert forall|k: int| st <= k < i + 1 implies !rel(#[trigger] s1[k], p) by {
                    if k < i {
                        assert(s1[k] == s0[k]);
                    } else if c {
                        assert(s1[k] == s0[store_index as int]);
                    }
                }
            }
        }
        if c {
            store_index += 1;
        }
        i += 1;
    }
    let ghost s0 = seq@;
    exchange(seq, store_index, len - 1);
    proof {
        lemma_swapped_multiset(s0, store_index as int, len - 1);
        let s1 = seq@;
        assert forall|rel: spec_fn(T, T) -> bool| #[trigger]
            orders(compare, rel) implies all_before(s1, 0, store_index as int, p, rel)
            && none_before(s1, store_index + 1, s1.len() as int, p, rel) by {
            assert(all_before(s0, 0, store_index as int, p, rel) && none_before(
                s0,
                store_index as int,
                len - 1,
                p,
                rel,
            ));
            assert forall|k: int| 0 <= k < store_index implies rel(#[trigger] s1[k], p) by {
                assert(s1[k] == s0[k]);
            }
            assert forall|k: int| store_index < k < s1.len() implies !rel(#[trigger] s1[k], p) by {
                if k < len - 1 {
                    assert(s1[k] == s0[k]);
                } else {
                    assert(s1[k] == s0[store_index as int]);
                }
            }
        }
    }
    store_index
}

} // verus!
