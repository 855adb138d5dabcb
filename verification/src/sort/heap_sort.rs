//! Heap sort.

use crate::sort::{
    answers_all, exchange, goes_before, in_order, lemma_swapped_multiset, orders, sorted_by,
    strict_weak_order,
};
use vstd::prelude::*;

verus! {

/// Among the positions `lo..=hi` of `s`, seen as a binary heap in which the
/// children of `p` stand at `2p + 1` and `2p + 2`, no parent has to stand
/// before one of its children.
pub open spec fn heap_from<T>(s: Seq<T>, rel: spec_fn(T, T) -> bool, lo: int, hi: int) -> bool {
    forall|p: int, c: int|
        #![trigger s[p], s[c]]
        lo <= p < c <= hi && hi < s.len() && (c == 2 * p + 1 || c == 2 * p + 2) ==> !rel(s[p], s[c])
}

/// The positions `root..=finish` of `s` are a heap but for the element at
/// `start`, which may have to stand before its children; the parent of
/// `start` does not have to stand before them.
pub open spec fn heap_but<T>(
    s: Seq<T>,
    rel: spec_fn(T, T) -> bool,
    root: int,
    start: int,
    finish: int,
) -> bool {
    &&& forall|p: int, c: int|
        #![trigger s[p], s[c]]
        root <= p < c <= finish && p != start && (c == 2 * p + 1 || c == 2 * p + 2) ==> !rel(
            s[p],
            s[c],
        )
    &&& start > root ==> forall|c: int|
        start < c <= finish && (c == 2 * start + 1 || c == 2 * start + 2) ==> !rel(
            s[(start - 1) / 2],
            #[trigger] s[c],
        )
}

/// `rel` is a strict weak order that `compare` decides, and the positions
/// after `root` up to `finish` of `s` are a heap under it.
pub open spec fn heap_below<T, F: Fn(&T, &T) -> bool>(
    compare: &F,
    s: Seq<T>,
    root: int,
    finish: int,
    rel: spec_fn(T, T) -> bool,
) -> bool {
    orders(compare, rel) && heap_from(s, rel, root + 1, finish)
}

/// The positions up to `finish` of `s` are a heap, and none of the elements
/// after `finish` has to stand before an earlier one.
pub open spec fn heap_then_sorted<T>(s: Seq<T>, rel: spec_fn(T, T) -> bool, finish: int) -> bool {
    &&& heap_from(s, rel, 0, finish)
    &&& forall|a: int, b: int|
        #![trigger s[a], s[b]]
        0 <= a < b < s.len() && finish < b ==> !rel(s[b], s[a])
}

/// Some position of `lo..=hi` in `s` holds `x`.
pub open spec fn held_in<T>(x: T, s: Seq<T>, lo: int, hi: int) -> bool {
    exists|k: int| lo <= k <= hi && #[trigger] s[k] == x
}

/// Every position of `lo..=hi` in `t` holds what some position of `lo..=hi`
/// held in `s`.
pub open spec fn drawn_from<T>(t: Seq<T>, s: Seq<T>, lo: int, hi: int) -> bool {
    forall|k: int| lo <= k <= hi ==> held_in(#[trigger] t[k], s, lo, hi)
}

/// In a heap the element at the root has to stand before no other.
proof fn lemma_root_last<T>(s: Seq<T>, rel: spec_fn(T, T) -> bool, hi: int, k: int)
    requires
        strict_weak_order(rel),
        heap_from(s, rel, 0, hi),
        0 <= k <= hi < s.len(),
    ensures
        !rel(s[0], s[k]),
    decreases k,
{
    if k > 0 {
        let p = (k - 1) / 2;
        lemma_root_last(s, rel, hi, p);
        assert(k == 2 * p + 1 || k == 2 * p + 2);
        assert(!rel(s[p], s[k]));
    } else {
        if rel(s[0], s[0]) {
            assert(!rel(s[0], s[0]));
        }
    }
}

/// Lets the element at `root` sink in the heap that ends at `finish` until
/// neither of its children has to stand after it.
fn sift_down<T, F: Fn(&T, &T) -> bool>(seq: &mut [T], root: usize, finish: usize, compare: &F)
    requires
        answers_all(compare),
        root <= finish < old(seq)@.len(),
    ensures
        final(seq)@.len() == old(seq)@.len(),
        final(seq)@.to_multiset() == old(seq)@.to_multiset(),
        forall|k: int|
            0 <= k < old(seq)@.len() && (k < root || k > finish) ==> final(seq)@[k] == old(seq)@[k],
        drawn_from(final(seq)@, old(seq)@, root as int, finish as int),
        forall|rel: spec_fn(T, T) -> bool| #[trigger]
            heap_below(compare, old(seq)@, root as int, finish as int, rel) ==> heap_from(
                final(seq)@,
                rel,
                root as int,
                finish as int,
            ),
{
    let ghost s_in = seq@;
    let mut start: usize = root;
    proof {
        assert forall|k: int| root <= k <= finish implies held_in(
            #[trigger] seq@[k],
            s_in,
            root as int,
            finish as int,
        ) by {
            assert(seq@[k] == s_in[k]);
        }
    }
    while start < finish
        invariant
            answers_all(compare),
            root <= start <= finish < seq@.len(),
            seq@.len() == s_in.len(),
            seq@.to_multiset() == s_in.to_multiset(),
            forall|k: int| 0 <= k < s_in.len() && (k < root || k > finish) ==> seq@[k] == s_in[k],
            drawn_from(seq@, s_in, root as int, finish as int),
            forall|rel: spec_fn(T, T) -> bool| #[trigger]
                heap_below(compare, s_in, root as int, finish as int, rel) ==> heap_but(
                    seq@,
                    rel,
                    root as int,
                    start as int,
                    finish as int,
                ),
        ensures
            seq@.len() == s_in.len(),
            seq@.to_multiset() == s_in.to_multiset(),
            forall|k: int| 0 <= k < s_in.len() && (k < root || k > finish) ==> seq@[k] == s_in[k],
            drawn_from(seq@, s_in, root as int, finish as int),
            forall|rel: spec_fn(T, T) -> bool| #[trigger]
                heap_below(compare, s_in, root as int, finish as int, rel) ==> heap_from(
                    seq@,
                    rel,
                    root as int,
                    finish as int,
                ),
        decreases finish - start,
    {
        if start > (finish - 1) / 2 {
            proof {
                let s = seq@;
                assert forall|rel: spec_fn(T, T) -> bool| #[trigger]
                    heap_below(compare, s_in, root as int, finish as int, rel) implies heap_from(
                    s,
                    rel,
                    root as int,
                    finish as int,
                ) by {
                    assert(heap_but(s, rel, root as int, start as int, finish as int));
                }
            }
            break ;
        }
        let mut child: usize = start * 2 + 1;
        assert(child <= finish);
        let right: bool = child < finish && goes_before(compare, seq, child, child + 1);
        if right {
            child += 1;
        }
        let ghost s0 = seq@;
        let ghost other: int = if child == start * 2 + 1 {
            start * 2 + 2
        } else {
            start * 2 + 1
        };
        let down: bool = goes_before(compare, seq, start, child);
        if down {
            exchange(seq, start, child);
            proof {
                lemma_swapped_multiset(s0, start as int, child as int);
                let s1 = seq@;
                assert forall|k: int| root <= k <= finish implies held_in(
                    #[trigger] s1[k],
                    s_in,
                    root as int,
                    finish as int,
                ) by {
                    let j = if k == start {
                        child as int
                    } else if k == child {
                        start as int
                    } else {
                        k
                    };
                    assert(s1[k] == s0[j]);
                    assert(held_in(s0[j], s_in, root as int, finish as int));
                }
                assert forall|rel: spec_fn(T, T) -> bool| #[trigger]
                    heap_below(compare, s_in, root as int, finish as int, rel) implies heap_but(
                    s1,
                    rel,
                    root as int,
                    child as int,
                    finish as int,
                ) by {
                    assert(heap_but(s0, rel, root as int, start as int, finish as int));
                    assert(rel(s0[start as int], s0[child as int]));
                    if other <= finish {
                        if right {
                            assert(rel(s0[other], s0[child as int]));
                        }
                        assert(!rel(s0[child as int], s0[other]));
                    }
                    assert(!rel(s0[child as int], s0[start as int]));
                    assert forall|p: int, c: int|
                        #![trigger s1[p], s1[c]]
                        root <= p < c <= finish && p != child && (c == 2 * p + 1 || c == 2 * p
                            + 2) implies !rel(s1[p], s1[c]) by {
                        if p == start {
                            if c == child {
                            } else {
                                assert(c == other);
                                assert(s1[c] == s0[c]);
                            }
                        } else if c == start {
                            assert(p == (start - 1) / 2);
                            assert(s1[p] == s0[p]);
                            assert(!rel(s0[(start - 1) / 2], s0[child as int]));
                        } else {
                            assert(c != child);
                            assert(s1[p] == s0[p] && s1[c] == s0[c]);
                        }
                    }
                    assert forall|c: int|
                        child < c <= finish && (c == 2 * child + 1 || c == 2 * child
                            + 2) implies !rel(s1[(child - 1) / 2], #[trigger] s1[c]) by {
                        assert((child - 1) / 2 == start);
                        assert(s1[c] == s0[c]);
                        assert(!rel(s0[child as int], s0[c]));
                    }
                }
            }
            start = child;
        } else {
            proof {
                assert forall|rel: spec_fn(T, T) -> bool| #[trigger]
                    heap_below(compare, s_in, root as int, finish as int, rel) implies heap_from(
                    s0,
                    rel,
                    root as int,
                    finish as int,
                ) by {
                    assert(heap_but(s0, rel, root as int, start as int, finish as int));
                    assert(!rel(s0[start as int], s0[child as int]));
                    if other <= finish {
                        if right {
                            assert(rel(s0[other], s0[child as int]));
                        }
                        assert(!rel(s0[child as int], s0[other]));
                    }
                    assert forall|p: int, c: int|
                        #![trigger s0[p], s0[c]]
                        root <= p < c <= finish && finish < s0.len() && (c == 2 * p + 1 || c == 2
                            * p + 2) implies !rel(s0[p], s0[c]) by {
                        if p == start && c != child {
                            assert(c == other);
                        }
                    }
                }
            }
            break ;
        }
    }
}

/// Sorts `seq` by making it a heap and then moving the root of the heap to
/// the end of it until the heap is used up.
pub fn heap_sort<T, F: Fn(&T, &T) -> bool>(seq: &mut [T], compare: &F)
    requires
        answers_all(compare),
    ensures
        final(seq)@.to_multiset() == old(seq)@.to_multiset(),
        final(seq)@.len() == old(seq)@.len(),
        in_order(final(seq)@, compare),
{
    let len: usize = seq.len();
    if len > 1 {
        let mut start: usize = len / 2;
        while start > 0
            invariant
                answers_all(compare),
                len == seq@.len(),
                len > 1,
                start <= len / 2,
                seq@.len() == old(seq)@.len(),
                seq@.to_multiset() == old(seq)@.to_multiset(),
                forall|rel: spec_fn(T, T) -> bool| #[trigger]
                    orders(compare, rel) ==> heap_from(seq@, rel, start as int, len - 1),
            decreases start,
        {
            let ghost s0 = seq@;
            start -= 1;
            sift_down(seq, start, len - 1, compare);
            proof {
                let s1 = seq@;
                assert forall|rel: spec_fn(T, T) -> bool| #[trigger]
                    orders(compare, rel) implies heap_from(s1, rel, start as int, len - 1) by {
                    assert(heap_from(s0, rel, start + 1, len - 1));
                    assert(heap_below(compare, s0, start as int, len - 1, rel));
                }
            }
        }
        let mut finish: usize = len - 1;
        while finish >= 1
            invariant
                answers_all(compare),
                len == seq@.len(),
                finish < len,
                seq@.len() == old(seq)@.len(),
                seq@.to_multiset() == old(seq)@.to_multiset(),
                forall|rel: spec_fn(T, T) -> bool| #[trigger]
                    orders(compare, rel) ==> heap_then_sorted(seq@, rel, finish as int),
            decreases finish,
        {
            let ghost s0 = seq@;
            exchange(seq, 0, finish);
            let ghost s1 = seq@;
            proof {
                lemma_swapped_multiset(s0, 0, finish as int);
            }
            sift_down(seq, 0, finish - 1, compare);
            proof {
                let s2 = seq@;
                assert forall|rel: spec_fn(T, T) -> bool| #[trigger]
                    orders(compare, rel) implies heap_then_sorted(s2, rel, finish - 1) by {
                    assert(heap_then_sorted(s0, rel, finish as int));
                    assert forall|p: int, c: int|
                        #![trigger s1[p], s1[c]]
                        1 <= p < c <= finish - 1 && finish - 1 < s1.len() && (c == 2 * p + 1 || c
                            == 2 * p + 2) implies !rel(s1[p], s1[c]) by {
                        assert(s1[p] == s0[p] && s1[c] == s0[c]);
                    }
                    assert(heap_below(compare, s1, 0, finish - 1, rel));
                    assert forall|a: int, b: int|
                        #![trigger s1[a], s1[b]]
                        0 <= a < b < len && finish - 1 < b implies !rel(s1[b], s1[a]) by {
                        if b == finish {
                            if a == 0 {
                                lemma_root_last(s0, rel, finish as int, finish as int);
                            } else {
                                assert(s1[a] == s0[a]);
                                lemma_root_last(s0, rel, finish as int, a);
                            }
                        } else {
                            assert(s1[b] == s0[b]);
                            if a == 0 {
                                assert(!rel(s0[b], s0[finish as int]));
                            } else if a == finish {
                                assert(!rel(s0[b], s0[0]));
                            } else {
                                assert(s1[a] == s0[a]);
                            }
                        }
                    }
                    assert forall|a: int, b: int|
                        #![trigger s2[a], s2[b]]
                        0 <= a < b < len && finish - 1 < b implies !rel(s2[b], s2[a]) by {
                        assert(s2[b] == s1[b]);
                        if a <= finish - 1 {
                            assert(held_in(s2[a], s1, 0, finish - 1));
                            let a2 = choose|a2: int| 0 <= a2 <= finish - 1 && #[trigger] s1[a2] == s2[a];
                            assert(!rel(s1[b], s1[a2]));
                        } else {
                            assert(s2[a] == s1[a]);
                        }
                    }
                }
            }
            finish -= 1;
        }
        proof {
            let s = seq@;
            assert forall|rel: spec_fn(T, T) -> bool| #[trigger]
                orders(compare, rel) implies sorted_by(s, rel) by {
                assert(heap_then_sorted(s, rel, finish as int));
                assert forall|a: int, b: int|
                    #![trigger s[a], s[b]]
                    0 <= a < b < s.len() implies !rel(s[b], s[a]) by {
                    assert(b > finish);
                }
            }
        }
    }
}

} // verus!
