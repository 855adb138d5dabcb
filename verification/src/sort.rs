//! Sorting a slice in place by a comparison that the caller hands in.
//!
//! Every sort asks `compare(a, b)` whether `a` has to stand before `b`. What
//! comes out is always a rearrangement of what went in; it is in order under
//! every strict weak order that the comparison decides.

pub mod bubble_sort;
pub mod heap_sort;
pub mod insert_sort;
pub mod merge_sort;
pub mod quick_sort;
pub mod select_sort;

use vstd::prelude::*;

verus! {

/// `compare` can be asked about every pair of values.
pub open spec fn answers_all<T, F: Fn(&T, &T) -> bool>(compare: &F) -> bool {
    forall|a: &T, b: &T| #[trigger] call_requires(*compare, (a, b))
}

/// `compare` decides `rel`: whatever it answers when asked about `a` and
/// `b` is whether `rel(a, b)` holds.
pub open spec fn computes<T, F: Fn(&T, &T) -> bool>(compare: &F, rel: spec_fn(T, T) -> bool) -> bool {
    forall|a: &T, b: &T, r: bool| #[trigger] call_ensures(*compare, (a, b), r) ==> r == rel(*a, *b)
}

/// `rel` is a strict weak order: it never places two values before each
/// other, and where `c` does not go before `b` nor `b` before `a`, `c` does
/// not go before `a`.
pub open spec fn strict_weak_order<T>(rel: spec_fn(T, T) -> bool) -> bool {
    &&& forall|a: T, b: T| #[trigger] rel(a, b) ==> !rel(b, a)
    &&& forall|a: T, b: T, c: T| !#[trigger] rel(b, a) && !#[trigger] rel(c, b) ==> !rel(c, a)
}

/// `rel` is a strict weak order, and it is the one that `compare` decides.
pub open spec fn orders<T, F: Fn(&T, &T) -> bool>(compare: &F, rel: spec_fn(T, T) -> bool) -> bool {
    computes(compare, rel) && strict_weak_order(rel)
}

/// No element of `s` has to stand before an earlier one: where `i` is
/// before `j`, `rel(s[j], s[i])` does not hold.
pub open spec fn sorted_by<T>(s: Seq<T>, rel: spec_fn(T, T) -> bool) -> bool {
    forall|i: int, j: int| #![trigger s[i], s[j]] 0 <= i < j < s.len() ==> !rel(s[j], s[i])
}

/// `s` is in order under every strict weak order that `compare` decides.
pub open spec fn in_order<T, F: Fn(&T, &T) -> bool>(s: Seq<T>, compare: &F) -> bool {
    forall|rel: spec_fn(T, T) -> bool| #[trigger] orders(compare, rel) ==> sorted_by(s, rel)
}

/// What stands on one level with `a`: the values that do not have to stand
/// before `a` and that `a` does not have to stand before.
pub open spec fn alike<T>(rel: spec_fn(T, T) -> bool, a: T) -> spec_fn(T) -> bool {
    |b: T| !rel(a, b) && !rel(b, a)
}

/// The elements of `t` that stand on one level are the same, in the same
/// order, as those of `s`.
pub open spec fn keeps_order<T>(s: Seq<T>, t: Seq<T>, rel: spec_fn(T, T) -> bool) -> bool {
    forall|a: T| #[trigger] t.filter(alike(rel, a)) == s.filter(alike(rel, a))
}

/// `t` keeps the elements of `s` that stand on one level in their order,
/// under every strict weak order that `compare` decides.
pub open spec fn stable<T, F: Fn(&T, &T) -> bool>(s: Seq<T>, t: Seq<T>, compare: &F) -> bool {
    forall|rel: spec_fn(T, T) -> bool| #[trigger] orders(compare, rel) ==> keeps_order(s, t, rel)
}

/// The elements of `t` that stand on one level are those of `s`, in the
/// opposite order.
pub open spec fn turns_order<T>(s: Seq<T>, t: Seq<T>, rel: spec_fn(T, T) -> bool) -> bool {
    forall|a: T| #[trigger] t.filter(alike(rel, a)) == s.filter(alike(rel, a)).reverse()
}

/// `t` holds the elements of `s` that stand on one level in the opposite
/// order, under every strict weak order that `compare` decides.
pub open spec fn turned<T, F: Fn(&T, &T) -> bool>(s: Seq<T>, t: Seq<T>, compare: &F) -> bool {
    forall|rel: spec_fn(T, T) -> bool| #[trigger] orders(compare, rel) ==> turns_order(s, t, rel)
}

/// `s` with the elements at `i` and `j` exchanged.
pub open spec fn swapped<T>(s: Seq<T>, i: int, j: int) -> Seq<T> {
    s.update(i, s[j]).update(j, s[i])
}

/// Calls `swap` of the standard slice, which exchanges the elements at `a`
/// and `b` and leaves the others where they are. It panics where an index is
/// out of bounds, which the precondition rules out.
#[verifier::external_body]
pub(crate) fn exchange<T>(s: &mut [T], a: usize, b: usize)
    requires
        a < old(s)@.len(),
        b < old(s)@.len(),
    ensures
        final(s)@ == swapped(old(s)@, a as int, b as int),
{
    s.swap(a, b)
}

/// Exchanging two elements rearranges a sequence.
pub proof fn lemma_swapped_multiset<T>(s: Seq<T>, i: int, j: int)
    requires
        0 <= i < s.len(),
        0 <= j < s.len(),
    ensures
        swapped(s, i, j).to_multiset() == s.to_multiset(),
        swapped(s, i, j).len() == s.len(),
{
    broadcast use vstd::seq_lib::group_to_multiset_ensures;

    let t = s.update(i, s[j]);
    vstd::seq_lib::to_multiset_update(s, i, s[j]);
    vstd::seq_lib::to_multiset_update(t, j, s[i]);
    assert(swapped(s, i, j).to_multiset() =~= s.to_multiset());
}

/// Exchanging two neighbours of which at most one is among the chosen
/// leaves the chosen ones in their order.
pub proof fn lemma_exchange_keeps<T>(s: Seq<T>, j: int, pred: spec_fn(T) -> bool)
    requires
        0 < j < s.len(),
        !(pred(s[j]) && pred(s[j - 1])),
    ensures
        swapped(s, j, j - 1).filter(pred) == s.filter(pred),
{
    let front = s.subrange(0, j - 1);
    let back = s.subrange(j + 1, s.len() as int);
    let pair = seq![s[j - 1], s[j]];
    let turned = seq![s[j], s[j - 1]];
    assert(s =~= front + pair + back);
    assert(swapped(s, j, j - 1) =~= front + turned + back);
    Seq::filter_distributes_over_add(front, pair, pred);
    Seq::filter_distributes_over_add(front + pair, back, pred);
    Seq::filter_distributes_over_add(front, turned, pred);
    Seq::filter_distributes_over_add(front + turned, back, pred);
    assert(pair.filter(pred) =~= turned.filter(pred)) by {
        reveal_with_fuel(Seq::filter, 3);
        assert(pair.drop_last() =~= seq![s[j - 1]]);
        assert(turned.drop_last() =~= seq![s[j]]);
        assert(seq![s[j - 1]].drop_last() =~= Seq::<T>::empty());
        assert(seq![s[j]].drop_last() =~= Seq::<T>::empty());
    }
}

/// Where none of the elements is among the chosen, nothing is chosen.
pub proof fn lemma_filter_none<T>(s: Seq<T>, pred: spec_fn(T) -> bool)
    requires
        forall|i: int| 0 <= i < s.len() ==> !pred(#[trigger] s[i]),
    ensures
        s.filter(pred) == Seq::<T>::empty(),
    decreases s.len(),
{
    reveal(Seq::filter);
    if s.len() > 0 {
        assert forall|i: int| 0 <= i < s.drop_last().len() implies !pred(
            #[trigger] s.drop_last()[i],
        ) by {
            assert(s.drop_last()[i] == s[i]);
        }
        lemma_filter_none(s.drop_last(), pred);
    }
}

/// The chosen ones of a sequence and one more element are the chosen ones
/// of the sequence, and that element behind them if it is chosen.
pub proof fn lemma_filter_push<T>(s: Seq<T>, v: T, pred: spec_fn(T) -> bool)
    ensures
        s.push(v).filter(pred) == if pred(v) {
            s.filter(pred).push(v)
        } else {
            s.filter(pred)
        },
{
    reveal(Seq::filter);
    assert(s.push(v).drop_last() =~= s);
}

/// A strict weak order is transitive.
pub proof fn lemma_transitive<T>(rel: spec_fn(T, T) -> bool, a: T, b: T, c: T)
    requires
        strict_weak_order(rel),
        rel(a, b),
        rel(b, c),
    ensures
        rel(a, c),
{
    assert(!rel(c, b));
    if !rel(a, c) {
        assert(!rel(a, b));
    }
}

/// Asks `compare` whether the element at `i` has to stand before the one at
/// `j`.
pub(crate) fn goes_before<T, F: Fn(&T, &T) -> bool>(compare: &F, s: &[T], i: usize, j: usize) -> (r:
    bool)
    requires
        answers_all(compare),
        i < s@.len(),
        j < s@.len(),
    ensures
        forall|rel: spec_fn(T, T) -> bool| #[trigger]
            computes(compare, rel) ==> r == rel(s@[i as int], s@[j as int]),
{
    compare(&s[i], &s[j])
}

/// Every element of a rearrangement of `s` is an element of `s`.
pub proof fn lemma_same_elements<T>(s: Seq<T>, t: Seq<T>, i: int)
    requires
        s.to_multiset() == t.to_multiset(),
        0 <= i < t.len(),
    ensures
        s.contains(t[i]),
{
    assert(t.contains(t[i]));
    vstd::seq_lib::to_multiset_contains(t, t[i]);
    vstd::seq_lib::to_multiset_contains(s, t[i]);
}

} // verus!
