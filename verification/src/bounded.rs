//! Key types that have a largest value.

use crate::order::key_le;
use vstd::prelude::*;

verus! {

/// A key type with a value that no other value is greater than.
pub trait BoundedKey: Ord + Copy {
    /// The largest value of the type.
    spec fn greatest() -> Self;

    /// The largest value of the type.
    fn max_value() -> (r: Self)
        ensures
            r == Self::greatest(),
            forall|x: Self| #[trigger] key_le(x, r),
    ;
}

/// `num_traits::Bounded::max_value` of `i8`, which returns `i8::MAX`.
#[verifier::external_body]
fn max_i8() -> (r: i8)
    ensures
        r == i8::MAX,
{
    num_traits::Bounded::max_value()
}

impl BoundedKey for i8 {
    open spec fn greatest() -> i8 {
        i8::MAX
    }

    fn max_value() -> (r: i8) {
        max_i8()
    }
}

/// `num_traits::Bounded::max_value` of `i16`, which returns `i16::MAX`.
#[verifier::external_body]
fn max_i16() -> (r: i16)
    ensures
        r == i16::MAX,
{
    num_traits::Bounded::max_value()
}

impl BoundedKey for i16 {
    open spec fn greatest() -> i16 {
        i16::MAX
    }

    fn max_value() -> (r: i16) {
        max_i16()
    }
}

/// `num_traits::Bounded::max_value` of `i32`, which returns `i32::MAX`.
#[verifier::external_body]
fn max_i32() -> (r: i32)
    ensures
        r == i32::MAX,
{
    num_traits::Bounded::max_value()
}

impl BoundedKey for i32 {
    open spec fn greatest() -> i32 {
        i32::MAX
    }

    fn max_value() -> (r: i32) {
        max_i32()
    }
}

/// `num_traits::Bounded::max_value` of `i64`, which returns `i64::MAX`.
#[verifier::external_body]
fn max_i64() -> (r: i64)
    ensures
        r == i64::MAX,
{
    num_traits::Bounded::max_value()
}

impl BoundedKey for i64 {
    open spec fn greatest() -> i64 {
        i64::MAX
    }

    fn max_value() -> (r: i64) {
        max_i64()
    }
}

/// `num_traits::Bounded::max_value` of `i128`, which returns `i128::MAX`.
#[verifier::external_body]
fn max_i128() -> (r: i128)
    ensures
        r == i128::MAX,
{
    num_traits::Bounded::max_value()
}

impl BoundedKey for i128 {
    open spec fn greatest() -> i128 {
        i128::MAX
    }

    fn max_value() -> (r: i128) {
        max_i128()
    }
}

/// `num_traits::Bounded::max_value` of `isize`, which returns `isize::MAX`.
#[verifier::external_body]
fn max_isize() -> (r: isize)
    ensures
        r == isize::MAX,
{
    num_traits::Bounded::max_value()
}

impl BoundedKey for isize {
    open spec fn greatest() -> isize {
        isize::MAX
    }

    fn max_value() -> (r: isize) {
        max_isize()
    }
}

/// `num_traits::Bounded::max_value` of `u8`, which returns `u8::MAX`.
#[verifier::external_body]
fn max_u8() -> (r: u8)
    ensures
        r == u8::MAX,
{
    num_traits::Bounded::max_value()
}

impl BoundedKey for u8 {
    open spec fn greatest() -> u8 {
        u8::MAX
    }

    fn max_value() -> (r: u8) {
        max_u8()
    }
}

/// `num_traits::Bounded::max_value` of `u16`, which returns `u16::MAX`.
#[verifier::external_body]
fn max_u16() -> (r: u16)
    ensures
        r == u16::MAX,
{
    num_traits::Bounded::max_value()
}

impl BoundedKey for u16 {
    open spec fn greatest() -> u16 {
        u16::MAX
    }

    fn max_value() -> (r: u16) {
        max_u16()
    }
}

/// `num_traits::Bounded::max_value` of `u32`, which returns `u32::MAX`.
#[verifier::external_body]
fn max_u32() -> (r: u32)
    ensures
        r == u32::MAX,
{
    num_traits::Bounded::max_value()
}

impl BoundedKey for u32 {
    open spec fn greatest() -> u32 {
        u32::MAX
    }

    fn max_value() -> (r: u32) {
        max_u32()
    }
}

/// `num_traits::Bounded::max_value` of `u64`, which returns `u64::MAX`.
#[verifier::external_body]
fn max_u64() -> (r: u64)
    ensures
        r == u64::MAX,
{
    num_traits::Bounded::max_value()
}

impl BoundedKey for u64 {
    open spec fn greatest() -> u64 {
        u64::MAX
    }

    fn max_value() -> (r: u64) {
        max_u64()
    }
}

/// `num_traits::Bounded::max_value` of `u128`, which returns `u128::MAX`.
#[verifier::external_body]
fn max_u128() -> (r: u128)
    ensures
        r == u128::MAX,
{
    num_traits::Bounded::max_value()
}

impl BoundedKey for u128 {
    open spec fn greatest() -> u128 {
        u128::MAX
    }

    fn max_value() -> (r: u128) {
        max_u128()
    }
}

/// `num_traits::Bounded::max_value` of `usize`, which returns `usize::MAX`.
#[verifier::external_body]
fn max_usize() -> (r: usize)
    ensures
        r == usize::MAX,
{
    num_traits::Bounded::max_value()
}

impl BoundedKey for usize {
    open spec fn greatest() -> usize {
        usize::MAX
    }

    fn max_value() -> (r: usize) {
        max_usize()
    }
}

} // verus!
