//! The order on keys.
//!
//! Everything else in this crate compares keys through [`le`] and [`lt`] and reasons about
//! them through [`key_le`] and [`key_lt`], so the only thing asked of a key type is
//! [`total_order`].

use core::cmp::Ordering;
use vstd::prelude::*;
use vstd::std_specs::cmp::PartialOrdSpec;

verus! {

/// `a` is not greater than `b`.
pub open spec fn key_le<T: Ord>(a: T, b: T) -> bool {
    a.partial_cmp_spec(&b) matches Some(Ordering::Less | Ordering::Equal)
}

/// `a` is strictly less than `b`.
pub open spec fn key_lt<T: Ord>(a: T, b: T) -> bool {
    !key_le(b, a)
}

/// `a` and `b` are not distinguished by the order.
pub open spec fn key_eq<T: Ord>(a: T, b: T) -> bool {
    key_le(a, b) && key_le(b, a)
}

/// The comparison operators of `T` compute [`key_le`], and [`key_le`] is total and
/// transitive. Distinct values may still compare equal, so this asks for a total preorder.
pub open spec fn total_order<T: Ord>() -> bool {
    &&& T::obeys_partial_cmp_spec()
    &&& forall|a: T, b: T| #[trigger] key_le(a, b) || key_le(b, a)
    &&& forall|a: T, b: T, c: T| #[trigger] key_le(a, b) && #[trigger] key_le(b, c) ==> key_le(a, c)
}

/// Whether `a` is not greater than `b`.
pub fn le<T: Ord>(a: &T, b: &T) -> (r: bool)
    requires
        total_order::<T>(),
    ensures
        r == key_le(*a, *b),
{
    *a <= *b
}

/// Whether `a` is strictly less than `b`.
pub fn lt<T: Ord>(a: &T, b: &T) -> (r: bool)
    requires
        total_order::<T>(),
    ensures
        r == key_lt(*a, *b),
{
    !(*b <= *a)
}

/// Whether `a` and `b` compare equal.
pub fn same<T: Ord>(a: &T, b: &T) -> (r: bool)
    requires
        total_order::<T>(),
    ensures
        r == key_eq(*a, *b),
{
    *a <= *b && *b <= *a
}

} // verus!
