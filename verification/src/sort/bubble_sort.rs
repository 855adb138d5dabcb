//! Bubble sort.

use crate::sort::{
    alike, answers_all, exchange, in_order, keeps_order, lemma_exchange_keeps,
    lemma_swapped_multiset, orders, stable, swapped,
};
use vstd::prelude::*;

verus! {

/// No element of `s` at `len` or after it has to stand before an earlier
/// one.
pub open spec fn tail_sorted<T>(s: Seq<T>, len: int, rel: spec_fn(T, T) -> bool) -> bool {
    forall|i: int, j: int|
        #![trigger s[i], s[j]]
        0 <= i < j < s.len() && len <= j ==> !rel(s[j], s[i])
}

/// The element at `i` has to stand before none of those before it.
pub open spec fn carried<T>(s: Seq<T>, i: int, rel: spec_fn(T, T) -> bool) -> bool {
    forall|k: int| 0 <= k < i ==> !rel(s[i], #[trigger] s[k])
}

/// Sorts `seq` by passes that each carry the last element of the part still
/// unsorted to its end. Two neighbours change places only where the second
/// has to stand before the first: elements of which none has to stand
/// before the other keep their order.
pub fn bubble_sort<T, F: Fn(&T, &T) -> bool>(seq: &mut [T], compare: &F)
    requires
        answers_all(compare),
    ensures
        final(seq)@.to_multiset() == old(seq)@.to_multiset(),
        final(seq)@.len() == old(seq)@.len(),
        in_order(final(seq)@, compare),
        stable(old(seq)@, final(seq)@, compare),
{
    let mut len: usize = seq.len();
    while len > 1
        invariant
            answers_all(compare),
            len <= seq@.len(),
            seq@.len() == old(seq)@.len(),
            seq@.to_multiset() == old(seq)@.to_multiset(),
            forall|rel: spec_fn(T, T) -> bool| #[trigger]
                orders(compare, rel) ==> tail_sorted(seq@, len as int, rel) && keeps_order(
                    old(seq)@,
                    seq@,
                    rel,
                ),
        decreases len,
    {
        let mut i: usize = 1;
        while i < len
            invariant
                answers_all(compare),
                1 <= i <= len <= seq@.len(),
                seq@.len() == old(seq)@.len(),
                seq@.to_multiset() == old(seq)@.to_multiset(),
                forall|rel: spec_fn(T, T) -> bool| #[trigger]
                    orders(compare, rel) ==> tail_sorted(seq@, len as int, rel) && carried(
                        seq@,
                        i - 1,
                        rel,
                    ) && keeps_order(old(seq)@, seq@, rel),
            decreases len - i,
        {
            let ghost s0 = seq@;
            let c = compare(&seq[i], &seq[i - 1]);
            if c {
                exchange(seq, i, i - 1);
                proof {
                    lemma_swapped_multiset(s0, i as int, i - 1);
                }
            }
            proof {
                let s1 = seq@;
                assert forall|rel: spec_fn(T, T) -> bool| #[trigger]
                    orders(compare, rel) implies tail_sorted(s1, len as int, rel) && carried(
                    s1,
                    i as int,
                    rel,
                ) && keeps_order(old(seq)@, s1, rel) by {
                    assert(c == rel(s0[i as int], s0[i - 1]));
                    assert(tail_sorted(s0, len as int, rel) && carried(s0, i - 1, rel)
                        && keeps_order(old(seq)@, s0, rel));
                    assert forall|a: T| #[trigger]
                        s1.filter(alike(rel, a)) == old(seq)@.filter(alike(rel, a)) by {
                        let same = alike(rel, a);
                        assert(s0.filter(alike(rel, a)) == old(seq)@.filter(alike(rel, a)));
                        if c {
                            if same(s0[i as int]) && same(s0[i - 1]) {
                                assert(!rel(a, s0[i - 1]) && !rel(s0[i as int], a));
                                assert(!rel(s0[i as int], s0[i - 1]));
                            }
                            lemma_exchange_keeps(s0, i as int, same);
                            assert(s1 == swapped(s0, i as int, i - 1));
                        }
                    }
                    assert forall|k: int| 0 <= k < i implies !rel(s1[i as int], #[trigger] s1[k]) by {
                        if k < i - 1 {
                            assert(s1[k] == s0[k]);
                            assert(!rel(s0[i - 1], s0[k]));
                        } else if c {
                            assert(!rel(s0[i - 1], s0[i as int]));
                        }
                    }
                    assert forall|a: int, b: int|
                        #![trigger s1[a], s1[b]]
                        0 <= a < b < s1.len() && len <= b implies !rel(s1[b], s1[a]) by {
                        assert(s1[b] == s0[b]);
                        if a == i {
                            assert(!rel(s0[b], s0[i - 1]));
                            assert(!rel(s0[b], s0[i as int]));
                        } else if a == i - 1 {
                            assert(!rel(s0[b], s0[i - 1]));
                            assert(!rel(s0[b], s0[i as int]));
                        } else {
                            assert(s1[a] == s0[a]);
                        }
                    }
                }
            }
            i += 1;
        }
        proof {
            let s1 = seq@;
            assert forall|rel: spec_fn(T, T) -> bool| #[trigger]
                orders(compare, rel) implies tail_sorted(s1, len - 1, rel) && keeps_order(
                old(seq)@,
                s1,
                rel,
            ) by {
                assert(tail_sorted(s1, len as int, rel) && carried(s1, len - 1, rel));
            }
        }
        len -= 1;
    }
}

} // verus!
