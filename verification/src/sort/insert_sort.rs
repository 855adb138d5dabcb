//! Insertion sort.

use crate::sort::{
    alike, answers_all, exchange, goes_before, in_order, keeps_order, lemma_exchange_keeps,
    lemma_swapped_multiset, orders, stable, swapped,
};
use vstd::prelude::*;

verus! {

/// Among the first elements of `s`, up to the one at `i`, none has to stand
/// before an earlier one, the one at `j` left aside.
pub open spec fn sorted_around<T>(s: Seq<T>, i: int, j: int, rel: spec_fn(T, T) -> bool) -> bool {
    forall|a: int, b: int|
        #![trigger s[a], s[b]]
        0 <= a < b <= i && b < s.len() && a != j && b != j ==> !rel(s[b], s[a])
}

/// None of the elements after `j`, up to the one at `i`, has to stand
/// before the one at `j`.
pub open spec fn sinks<T>(s: Seq<T>, i: int, j: int, rel: spec_fn(T, T) -> bool) -> bool {
    forall|b: int| j < b <= i ==> !rel(#[trigger] s[b], s[j])
}

/// Sorts `seq` by moving each element down into the sorted part before it,
/// past the elements that it has to stand before and no further: elements
/// of which none has to stand before the other keep their order.
pub fn insert_sort<T, F: Fn(&T, &T) -> bool>(seq: &mut [T], compare: &F)
    requires
        answers_all(compare),
    ensures
        final(seq)@.to_multiset() == old(seq)@.to_multiset(),
        final(seq)@.len() == old(seq)@.len(),
        in_order(final(seq)@, compare),
        stable(old(seq)@, final(seq)@, compare),
{
    let len: usize = seq.len();
    let mut i: usize = 1;
    while i < len
        invariant
            answers_all(compare),
            len == seq@.len(),
            1 <= i,
            seq@.len() == old(seq)@.len(),
            seq@.to_multiset() == old(seq)@.to_multiset(),
            forall|rel: spec_fn(T, T) -> bool| #[trigger]
                orders(compare, rel) ==> sorted_around(seq@, i - 1, -1, rel) && keeps_order(
                    old(seq)@,
                    seq@,
                    rel,
                ),
        decreases len - i,
    {
        let mut j: usize = i;
        proof {
            let s = seq@;
            assert forall|rel: spec_fn(T, T) -> bool| #[trigger]
                orders(compare, rel) implies sorted_around(s, i as int, j as int, rel) && sinks(
                s,
                i as int,
                j as int,
                rel,
            ) by {
                assert(sorted_around(s, i - 1, -1, rel));
            }
        }
        while j > 0 && goes_before(compare, seq, j, j - 1)
            invariant
                answers_all(compare),
                len == seq@.len(),
                j <= i < len,
                seq@.len() == old(seq)@.len(),
                seq@.to_multiset() == old(seq)@.to_multiset(),
                forall|rel: spec_fn(T, T) -> bool| #[trigger]
                    orders(compare, rel) ==> sorted_around(seq@, i as int, j as int, rel) && sinks(
                        seq@,
                        i as int,
                        j as int,
                        rel,
                    ) && keeps_order(old(seq)@, seq@, rel),
            decreases j,
        {
            let ghost s0 = seq@;
            exchange(seq, j, j - 1);
            proof {
                lemma_swapped_multiset(s0, j as int, j - 1);
                let s1 = seq@;
                assert forall|rel: spec_fn(T, T) -> bool| #[trigger]
                    orders(compare, rel) implies sorted_around(s1, i as int, j - 1, rel) && sinks(
                    s1,
                    i as int,
                    j - 1,
                    rel,
                ) && keeps_order(old(seq)@, s1, rel) by {
                    assert(sorted_around(s0, i as int, j as int, rel) && sinks(
                        s0,
                        i as int,
                        j as int,
                        rel,
                    ) && keeps_order(old(seq)@, s0, rel));
                    assert(rel(s0[j as int], s0[j - 1]));
                    assert forall|a: int, b: int|
                        #![trigger s1[a], s1[b]]
                        0 <= a < b <= i && a != j - 1 && b != j - 1 implies !rel(s1[b], s1[a]) by {
                        if b == j {
                            assert(s1[a] == s0[a]);
                            assert(!rel(s0[j - 1], s0[a]));
                        } else if a == j {
                            assert(s1[b] == s0[b]);
                            assert(!rel(s0[b], s0[j - 1]));
                        } else {
                            assert(s1[a] == s0[a] && s1[b] == s0[b]);
                        }
                    }
                    assert forall|b: int| j - 1 < b <= i implies !rel(#[trigger] s1[b], s1[j - 1]) by {
                        if b == j {
                            assert(!rel(s0[j - 1], s0[j as int]));
                        } else {
                            assert(s1[b] == s0[b]);
                            assert(!rel(s0[b], s0[j as int]));
                        }
                    }
                    assert forall|a: T| #[trigger]
                        s1.filter(alike(rel, a)) == old(seq)@.filter(alike(rel, a)) by {
                        let same = alike(rel, a);
                        if same(s0[j as int]) && same(s0[j - 1]) {
                            assert(!rel(a, s0[j - 1]) && !rel(s0[j as int], a));
                            assert(!rel(s0[j as int], s0[j - 1]));
                        }
                        lemma_exchange_keeps(s0, j as int, same);
                        assert(s1 == swapped(s0, j as int, j - 1));
                        assert(s0.filter(alike(rel, a)) == old(seq)@.filter(alike(rel, a)));
                    }
                }
            }
            j -= 1;
        }
        proof {
            let s1 = seq@;
            assert forall|rel: spec_fn(T, T) -> bool| #[trigger]
                orders(compare, rel) implies sorted_around(s1, i as int, -1, rel) by {
                assert(sorted_around(s1, i as int, j as int, rel) && sinks(
                    s1,
                    i as int,
                    j as int,
                    rel,
                ));
                assert forall|a: int, b: int|
                    #![trigger s1[a], s1[b]]
                    0 <= a < b <= i && b < s1.len() implies !rel(s1[b], s1[a]) by {
                    if b == j {
                        assert(!rel(s1[j as int], s1[j - 1]));
                        if a < j - 1 {
                            assert(!rel(s1[j - 1], s1[a]));
                        }
                    } else if a == j {
                        assert(!rel(s1[b], s1[j as int]));
                    }
                }
            }
        }
        i += 1;
    }
    proof {
        let s1 = seq@;
        assert forall|rel: spec_fn(T, T) -> bool| #[trigger]
            orders(compare, rel) implies crate::sort::sorted_by(s1, rel) by {
            assert(sorted_around(s1, i - 1, -1, rel));
        }
    }
}

} // verus!
