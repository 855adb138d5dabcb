//! The order on keys that the search trees rely on.

use core::cmp::Ordering;
use vstd::prelude::*;
use vstd::std_specs::cmp::PartialOrdSpec;

verus! {

/// `a` comes strictly before `b` under the `<` of `K`.
pub open spec fn lt<K: PartialOrd>(a: K, b: K) -> bool {
    a.partial_cmp_spec(&b) == Some(Ordering::Less)
}

/// The comparison operators of `K` behave as specified, and `<` is a strict
/// total order: any two distinct keys are ordered one way or the other, no
/// key is below itself, and the order is transitive.
pub open spec fn strict_total_order<K: PartialOrd>() -> bool {
    &&& K::obeys_partial_cmp_spec()
    &&& forall|a: K, b: K| #[trigger] a.partial_cmp_spec(&b) == Some(Ordering::Greater) <==> lt(b, a)
    &&& forall|a: K, b: K| #[trigger] lt(a, b) ==> !lt(b, a) && a != b
    &&& forall|a: K, b: K| a != b ==> #[trigger] lt(a, b) || lt(b, a)
    &&& forall|a: K, b: K, c: K| #[trigger] lt(a, b) && #[trigger] lt(b, c) ==> lt(a, c)
}

/// Whether `a < b`.
pub fn less<K: PartialOrd>(a: &K, b: &K) -> (r: bool)
    ensures
        strict_total_order::<K>() ==> r == lt(*a, *b),
{
    *a < *b
}

/// Whether `a > b`.
pub fn greater<K: PartialOrd>(a: &K, b: &K) -> (r: bool)
    ensures
        strict_total_order::<K>() ==> r == lt(*b, *a),
{
    *a > *b
}

/// In a strict total order, where `a` is not below `b` nor `b` below `c`,
/// `a` is not below `c`.
pub proof fn lemma_not_below_transitive<K: PartialOrd>(a: K, b: K, c: K)
    requires
        strict_total_order::<K>(),
        !lt(a, b),
        !lt(b, c),
    ensures
        !lt(a, c),
{
    if lt(a, c) {
        if a == b {
        } else {
            assert(lt(b, a));
            assert(lt(b, c));
        }
    }
}

/// The unsigned integers are ordered as `strict_total_order` asks.
pub proof fn lemma_u64_order()
    ensures
        strict_total_order::<u64>(),
        forall|a: u64, b: u64| lt(a, b) <==> a < b,
{
}

/// The 32-bit unsigned integers are ordered as `strict_total_order` asks.
pub proof fn lemma_u32_order()
    ensures
        strict_total_order::<u32>(),
        forall|a: u32, b: u32| lt(a, b) <==> a < b,
{
}

} // verus!
