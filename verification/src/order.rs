//! The order on keys that the tree relies on.

use std::cmp::Ordering;
use vstd::prelude::*;
use vstd::std_specs::cmp::OrdSpec;

verus! {

/// `a` sorts strictly before `b`.
pub open spec fn less<T: Ord>(a: T, b: T) -> bool {
    a.cmp_spec(&b) == Ordering::Less
}

/// The three-way comparison of `T` is a strict total order: it is what
/// `cmp` computes, it calls two keys equal exactly when they are the same
/// value, swapping the arguments swaps `Less` and `Greater`, and `less` is
/// transitive.
pub open spec fn total_order<T: Ord>() -> bool {
    &&& T::obeys_cmp_spec()
    &&& forall|a: T, b: T| #[trigger] a.cmp_spec(&b) == Ordering::Equal <==> a == b
    &&& forall|a: T, b: T| #[trigger] a.cmp_spec(&b) == Ordering::Greater <==> less(b, a)
    &&& forall|a: T, b: T, c: T| #[trigger] less(a, b) && #[trigger] less(b, c) ==> less(a, c)
}

/// No key sorts before itself, and of two keys at most one sorts before
/// the other.
pub proof fn lemma_less_asymmetric<T: Ord>(a: T, b: T)
    requires
        total_order::<T>(),
    ensures
        !less(a, a),
        less(a, b) ==> !less(b, a),
{
    if less(a, b) && less(b, a) {
        assert(b.cmp_spec(&a) == Ordering::Greater);
    }
}

/// Two different keys are ordered one way or the other.
pub proof fn lemma_less_total<T: Ord>(a: T, b: T)
    requires
        total_order::<T>(),
    ensures
        a == b || less(a, b) || less(b, a),
{
    match a.cmp_spec(&b) {
        Ordering::Less => {},
        Ordering::Equal => {},
        Ordering::Greater => {},
    }
}

/// `i32` keys are totally ordered by `<`.
pub proof fn lemma_i32_total_order()
    ensures
        total_order::<i32>(),
        forall|a: i32, b: i32| less(a, b) <==> a < b,
{
}

/// `i64` keys are totally ordered by `<`.
pub proof fn lemma_i64_total_order()
    ensures
        total_order::<i64>(),
        forall|a: i64, b: i64| less(a, b) <==> a < b,
{
}

/// `u32` keys are totally ordered by `<`.
pub proof fn lemma_u32_total_order()
    ensures
        total_order::<u32>(),
        forall|a: u32, b: u32| less(a, b) <==> a < b,
{
}

/// `u64` keys are totally ordered by `<`.
pub proof fn lemma_u64_total_order()
    ensures
        total_order::<u64>(),
        forall|a: u64, b: u64| less(a, b) <==> a < b,
{
}

/// `usize` keys are totally ordered by `<`.
pub proof fn lemma_usize_total_order()
    ensures
        total_order::<usize>(),
        forall|a: usize, b: usize| less(a, b) <==> a < b,
{
}

} // verus!
