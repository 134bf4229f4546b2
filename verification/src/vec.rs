//! Three-component vectors: points, directions and colours.

use vstd::prelude::*;
use crate::scalar::Scalar;
use core::ops::Neg;

verus! {

/// The encoding of 1e-8, below which a component counts as vanished.
pub const NEAR_ZERO_BITS: u64 = 0x3E45_798E_E230_8C3A;

/// Three real components. The same type serves as point, direction and
/// colour.
#[derive(Clone, Copy, Debug, PartialEq, Eq, Structural)]
pub struct Vector3 {
    pub x: Scalar,
    pub y: Scalar,
    pub z: Scalar,
}

/// Whether the magnitude of `s` is below 1e-8.
pub open spec fn vanishes(s: Scalar) -> bool {
    s.absolute().less(Scalar { bits: NEAR_ZERO_BITS })
}

impl Vector3 {
    /// The vector of the three negated components.
    pub open spec fn negated(self) -> Vector3 {
        Vector3 { x: self.x.negated(), y: self.y.negated(), z: self.z.negated() }
    }

    /// Whether every component has a magnitude below 1e-8.
    pub open spec fn is_near_zero(self) -> bool {
        vanishes(self.x) && vanishes(self.y) && vanishes(self.z)
    }

    pub fn zero() -> (v: Vector3)
        ensures
            v.x.bits == 0,
            v.y.bits == 0,
            v.z.bits == 0,
    {
        Vector3 { x: Scalar::zero(), y: Scalar::zero(), z: Scalar::zero() }
    }

    pub fn new(x: Scalar, y: Scalar, z: Scalar) -> (v: Vector3)
        ensures
            v == (Vector3 { x, y, z }),
    {
        Vector3 { x, y, z }
    }

    /// Replaces all three components by those of `new`.
    pub fn inherit(&mut self, new: Vector3)
        ensures
            *final(self) == new,
    {
        self.x = new.x;
        self.y = new.y;
        self.z = new.z;
    }

    /// Whether the vector is too short to serve as a direction: every
    /// component below 1e-8 in magnitude.
    pub fn near_zero(&self) -> (r: bool)
        ensures
            r == self.is_near_zero(),
    {
        let s = Scalar::from_bits(NEAR_ZERO_BITS);
        self.x.abs().lt(s) && self.y.abs().lt(s) && self.z.abs().lt(s)
    }
}

impl core::ops::Neg for Vector3 {
    type Output = Vector3;

    fn neg(self) -> (r: Vector3) {
        Vector3 { x: self.x.neg(), y: self.y.neg(), z: self.z.neg() }
    }
}

impl vstd::std_specs::ops::NegSpecImpl for Vector3 {
    open spec fn obeys_neg_spec() -> bool {
        true
    }

    open spec fn neg_req(self) -> bool {
        true
    }

    open spec fn neg_spec(self) -> Vector3 {
        self.negated()
    }
}

/// A vector and its negation are near zero together: negation keeps every
/// magnitude.
pub proof fn lemma_negation_keeps_near_zero(v: Vector3)
    ensures
        v.negated().is_near_zero() == v.is_near_zero(),
{
    assert(v.x.negated().absolute() == v.x.absolute());
    assert(v.y.negated().absolute() == v.y.absolute());
    assert(v.z.negated().absolute() == v.z.absolute());
}

} // verus!
