//! Small numeric decisions.

use vstd::prelude::*;
use crate::scalar::{Scalar, ONE_BITS};
use crate::vec::Vector3;
use core::ops::Neg;

verus! {

/// `x` held between `min` and `max`: `min` where `x` is below it, `max`
/// where `x` is above it, and `x` itself otherwise.
pub open spec fn clamped(x: Scalar, min: Scalar, max: Scalar) -> Scalar {
    if x.less(min) {
        min
    } else if max.less(x) {
        max
    } else {
        x
    }
}

/// Holds `x` between `min` and `max`.
pub fn clamp(x: Scalar, min: Scalar, max: Scalar) -> (r: Scalar)
    ensures
        r == clamped(x, min, max),
        min.at_most(max) && !x.nan() ==> min.at_most(r) && r.at_most(max),
{
    if x.lt(min) {
        return min;
    }
    if x.gt(max) {
        return max;
    }
    x
}

/// Whether a point whose squared distance from the origin is
/// `length_squared` lies inside the unit ball, or the unit disk: its
/// squared distance is not one or more.
pub open spec fn inside_unit(length_squared: Scalar) -> bool {
    !(Scalar { bits: ONE_BITS }).at_most(length_squared)
}

/// One round of rejection sampling for a point of the unit ball, or of the
/// unit disk: keeps the candidate if it lies inside, and asks for another
/// one by returning nothing.
pub fn accept_in_unit(candidate: Vector3, length_squared: Scalar) -> (p: Option<Vector3>)
    ensures
        p == (if inside_unit(length_squared) {
            Some(candidate)
        } else {
            None
        }),
{
    if length_squared.ge(Scalar::one()) {
        None
    } else {
        Some(candidate)
    }
}

/// Turns a sample into the hemisphere around a normal, given its dot
/// product `facing` with that normal: the sample itself where the product
/// is above zero, and its negation otherwise.
pub fn in_hemisphere(sample: Vector3, facing: Scalar) -> (v: Vector3)
    ensures
        v == (if (Scalar { bits: 0 }).less(facing) {
            sample
        } else {
            sample.negated()
        }),
{
    if facing.gt(Scalar::zero()) {
        sample
    } else {
        sample.neg()
    }
}

} // verus!
