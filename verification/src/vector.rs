//! Points and displacements in the plane.
//!
//! A vector is glam's `DVec2`, and it is opaque to the contracts: a vector is
//! carried as it is, and every operation on it is one call into glam, stated
//! here by name.
//!
//! A vector is taken by its two numbers, every NaN counting as one value: two
//! vectors are the same where their coordinates are the same numbers or are
//! both no number. Under that reading what a call returns is a function of
//! its arguments, and that is all the proofs use. Which NaN an operation
//! yields is not fixed, so a number that comes out of a vector is stated up
//! to that: it is the named number, or it and the named one are both NaN.

use crate::scalar::Scalar;
use glam::DVec2;
use vstd::prelude::*;

verus! {

/// glam's `DVec2`, a vector of two binary64 coordinates. Nothing is stated
/// of what one holds, and no contract tells two vectors apart whose
/// coordinates differ only in which NaN they are.
#[verifier::external_type_specification]
#[verifier::external_body]
pub struct ExDVec2(DVec2);

/// glam derives `Clone` for `DVec2`, which is `Copy`: the clone is the vector.
pub assume_specification[ <DVec2 as Clone>::clone ](v: &DVec2) -> (r: DVec2)
    ensures
        r == *v,
;

/// `a - b`, coordinate by coordinate, as numbers.
pub uninterp spec fn difference(a: DVec2, b: DVec2) -> DVec2;

/// `a + b`, coordinate by coordinate, as numbers.
pub uninterp spec fn sum(a: DVec2, b: DVec2) -> DVec2;

/// `-v`, coordinate by coordinate, as numbers.
pub uninterp spec fn opposite(v: DVec2) -> DVec2;

/// The dot product of `a` and `b`. Where that is no number, this is some
/// NaN, and a call may yield another.
pub uninterp spec fn inner(a: DVec2, b: DVec2) -> Scalar;

/// The Euclidean length of `v`. Where that is no number, this is some NaN,
/// and a call may yield another.
pub uninterp spec fn norm(v: DVec2) -> Scalar;

/// The square of the Euclidean length of `v`. Where that is no number, this
/// is some NaN, and a call may yield another.
pub uninterp spec fn squared_norm(v: DVec2) -> Scalar;

/// `v` scaled to length one, or the zero vector where that cannot be done, as
/// numbers.
pub uninterp spec fn direction(v: DVec2) -> DVec2;

/// glam's `Sub` for `DVec2`: the result is `difference(a, b)`, as a vector
/// of two numbers.
#[verifier::external_body]
pub(crate) fn vec_sub(a: DVec2, b: DVec2) -> (r: DVec2)
    ensures
        r == difference(a, b),
{
    a - b
}

/// glam's `Add` for `DVec2`: the result is `sum(a, b)`, as a vector of two
/// numbers.
#[verifier::external_body]
pub(crate) fn vec_add(a: DVec2, b: DVec2) -> (r: DVec2)
    ensures
        r == sum(a, b),
{
    a + b
}

/// glam's `Neg` for `DVec2`: the result is `opposite(v)`.
#[verifier::external_body]
pub(crate) fn vec_neg(v: DVec2) -> (r: DVec2)
    ensures
        r == opposite(v),
{
    -v
}

/// glam's `DVec2::dot`, its result taken by its bit pattern. A result that
/// is a number is `inner(a, b)`; a result that is none comes where
/// `inner(a, b)` is none, as whichever NaN the arithmetic yields.
#[verifier::external_body]
pub(crate) fn dot(a: DVec2, b: DVec2) -> (r: Scalar)
    ensures
        r.nan() == inner(a, b).nan(),
        !r.nan() ==> r == inner(a, b),
{
    Scalar { bits: a.dot(b).to_bits() }
}

/// glam's `DVec2::length`, its result taken by its bit pattern. A result
/// that is a number is `norm(v)`; a result that is none comes where `norm(v)`
/// is none, as whichever NaN the arithmetic yields.
#[verifier::external_body]
pub(crate) fn length(v: DVec2) -> (r: Scalar)
    ensures
        r.nan() == norm(v).nan(),
        !r.nan() ==> r == norm(v),
{
    Scalar { bits: v.length().to_bits() }
}

/// glam's `DVec2::length_squared`, its result taken by its bit pattern. A
/// result that is a number is `squared_norm(v)`; a result that is none comes
/// where `squared_norm(v)` is none, as whichever NaN the arithmetic yields.
#[verifier::external_body]
pub(crate) fn length_squared(v: DVec2) -> (r: Scalar)
    ensures
        r.nan() == squared_norm(v).nan(),
        !r.nan() ==> r == squared_norm(v),
{
    Scalar { bits: v.length_squared().to_bits() }
}

/// glam's `DVec2::normalize_or_zero`: the result is `direction(v)`.
#[verifier::external_body]
pub(crate) fn normalize_or_zero(v: DVec2) -> (r: DVec2)
    ensures
        r == direction(v),
{
    v.normalize_or_zero()
}

} // verus!
