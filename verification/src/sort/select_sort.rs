//! Selection sort.

use crate::sort::{
    answers_all, exchange, goes_before, in_order, lemma_swapped_multiset, lemma_transitive, orders,
};
use vstd::prelude::*;

verus! {

/// No element of `s` has to stand before one of the first `i` that is
/// before it.
pub open spec fn front_sorted<T>(s: Seq<T>, i: int, rel: spec_fn(T, T) -> bool) -> bool {
    forall|a: int, b: int|
        #![trigger s[a], s[b]]
        0 <= a < b < s.len() && a < i ==> !rel(s[b], s[a])
}

/// None of the elements from `i` up to `j` has to stand before the one at
/// `min`.
pub open spec fn least_at<T>(s: Seq<T>, i: int, j: int, min: int, rel: spec_fn(T, T) -> bool) -> bool {
    forall|k: int| i <= k < j ==> !rel(#[trigger] s[k], s[min])
}

/// Sorts `seq` by exchanging each position in turn with the first element
/// that no later one has to stand before.
pub fn select_sort<T, F: Fn(&T, &T) -> bool>(seq: &mut [T], compare: &F)
    requires
        answers_all(compare),
    ensures
        final(seq)@.to_multiset() == old(seq)@.to_multiset(),
        final(seq)@.len() == old(seq)@.len(),
        in_order(final(seq)@, compare),
{
    let len: usize = seq.len();
    let mut i: usize = 0;
    while i < len
        invariant
            answers_all(compare),
            len == seq@.len(),
            i <= len,
            seq@.len() == old(seq)@.len(),
            seq@.to_multiset() == old(seq)@.to_multiset(),
            forall|rel: spec_fn(T, T) -> bool| #[trigger]
                orders(compare, rel) ==> front_sorted(seq@, i as int, rel),
        decreases len - i,
    {
        let mut min: usize = i;
        let mut j: usize = i + 1;
        while j < len
            invariant
                answers_all(compare),
                len == seq@.len(),
                i <= min < j <= len,
                forall|rel: spec_fn(T, T) -> bool| #[trigger]
                    orders(compare, rel) ==> least_at(seq@, i as int, j as int, min as int, rel),
            decreases len - j,
        {
            let c = goes_before(compare, seq, j, min);
            proof {
                let s = seq@;
                let m = if c {
                    j as int
                } else {
                    min as int
                };
                assert forall|rel: spec_fn(T, T) -> bool| #[trigger]
                    orders(compare, rel) implies least_at(s, i as int, j + 1, m, rel) by {
                    assert(least_at(s, i as int, j as int, min as int, rel));
                    assert(c == rel(s[j as int], s[min as int]));
                    assert forall|k: int| i <= k < j + 1 implies !rel(#[trigger] s[k], s[m]) by {
                        if c && k < j && rel(s[k], s[j as int]) {
                            lemma_transitive(rel, s[k], s[j as int], s[min as int]);
                        }
                    }
                }
            }
            if c {
                min = j;
            }
            j += 1;
        }
        let ghost s0 = seq@;
        exchange(seq, i, min);
        proof {
            lemma_swapped_multiset(s0, i as int, min as int);
            let s1 = seq@;
            assert forall|rel: spec_fn(T, T) -> bool| #[trigger]
                orders(compare, rel) implies front_sorted(s1, i + 1, rel) by {
                assert(front_sorted(s0, i as int, rel));
                assert(least_at(s0, i as int, len as int, min as int, rel));
                assert forall|a: int, b: int|
                    #![trigger s1[a], s1[b]]
                    0 <= a < b < len && a < i + 1 implies !rel(s1[b], s1[a]) by {
                    if a < i {
                        assert(s1[a] == s0[a]);
                        if b == i {
                            assert(!rel(s0[min as int], s0[a]));
                        } else if b == min {
                            assert(!rel(s0[i as int], s0[a]));
                        } else {
                            assert(s1[b] == s0[b]);
                        }
                    } else {
                        if b == min {
                            assert(!rel(s0[i as int], s0[min as int]));
                        } else {
                            assert(s1[b] == s0[b]);
                            assert(!rel(s0[b], s0[min as int]));
                        }
                    }
                }
            }
        }
        i += 1;
    }
}

} // verus!
