//! Conversions of counts and bucket indices into the scalar type, `i32`.
use num_traits::cast::FromPrimitive;
use vstd::prelude::*;

verus! {

/// A count as a scalar. This is `FromPrimitive::from_usize` of num-traits for
/// `i32`, which gives the same number where it is at most `i32::MAX` and
/// nothing where it is larger.
#[verifier::external_body]
pub(crate) fn scalar_from_usize(n: usize) -> (r: Option<i32>)
    ensures
        n <= i32::MAX ==> r == Some(n as i32),
        n > i32::MAX ==> r.is_none(),
{
    <i32 as FromPrimitive>::from_usize(n)
}

/// A bucket index as a scalar. This is `FromPrimitive::from_u64` of
/// num-traits for `i32`, which gives the same number where it is at most
/// `i32::MAX` and nothing where it is larger.
#[verifier::external_body]
pub(crate) fn scalar_from_u64(n: u64) -> (r: Option<i32>)
    ensures
        n <= i32::MAX ==> r == Some(n as i32),
        n > i32::MAX ==> r.is_none(),
{
    <i32 as FromPrimitive>::from_u64(n)
}

} // verus!
