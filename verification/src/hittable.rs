//! Surfaces a ray can hit, and what a hit records.

use vstd::prelude::*;
use crate::materials::{Material, MaterialType};
use crate::ray::Ray;
use crate::scalar::Scalar;
use crate::vec::Vector3;
use core::ops::Neg;

pub mod hittable_list;
pub mod sphere;

verus! {

/// The encoding of one half, the grey of a record that no hit has filled.
pub const HALF_BITS: u64 = 0x3FE0_0000_0000_0000;

/// What a ray learns where it meets a surface.
///
/// `normal` is the surface normal turned against the incoming ray, and
/// `front_face` tells whether that is the outward normal, that is whether
/// the ray came from outside.
#[derive(Clone, Copy, Debug, PartialEq, Eq, Structural)]
pub struct HitRecord {
    pub p: Vector3,
    pub normal: Vector3,
    pub t: Scalar,
    pub front_face: bool,
    pub mat: Material,
}

impl HitRecord {
    /// The record of the hit at ray parameter `t` and point `p`, where
    /// `outward_normal` is the outward surface normal and `facing` the dot
    /// product of the ray's direction with it.
    pub open spec fn oriented(
        p: Vector3,
        outward_normal: Vector3,
        t: Scalar,
        facing: Scalar,
        mat: Material,
    ) -> HitRecord {
        let front_face = facing.less(Scalar { bits: 0 });
        HitRecord {
            p,
            normal: if front_face {
                outward_normal
            } else {
                outward_normal.negated()
            },
            t,
            front_face,
            mat,
        }
    }

    /// A record that no hit has filled yet: at the origin, at parameter
    /// zero, of a grey diffuse material.
    pub fn new() -> (rec: HitRecord)
        ensures
            rec.p.x.bits == 0 && rec.p.y.bits == 0 && rec.p.z.bits == 0,
            rec.normal.x.bits == 0 && rec.normal.y.bits == 0 && rec.normal.z.bits == 0,
            rec.t.bits == 0,
            !rec.front_face,
            rec.mat.kind() == MaterialType::Lambertian,
            rec.mat.albedo() == (Vector3 {
                x: Scalar { bits: HALF_BITS },
                y: Scalar { bits: HALF_BITS },
                z: Scalar { bits: HALF_BITS },
            }),
    {
        let half = Scalar::from_bits(HALF_BITS);
        HitRecord {
            p: Vector3::zero(),
            normal: Vector3::zero(),
            t: Scalar::zero(),
            front_face: false,
            mat: Material::lambertian(Vector3::new(half, half, half)),
        }
    }

    /// Replaces every field by that of `new`.
    pub fn inherit(&mut self, new: HitRecord)
        ensures
            *final(self) == new,
    {
        self.front_face = new.front_face;
        self.normal = new.normal;
        self.p = new.p;
        self.t = new.t;
        self.mat = new.mat;
    }

    /// Builds the record of a hit and turns its normal against the ray: the
    /// hit is on the front face where the ray runs against the outward
    /// normal, that is where `facing` is below zero.
    pub fn facing(
        p: Vector3,
        outward_normal: Vector3,
        t: Scalar,
        facing: Scalar,
        mat: Material,
    ) -> (rec: HitRecord)
        ensures
            rec == HitRecord::oriented(p, outward_normal, t, facing, mat),
    {
        let front_face = facing.lt(Scalar::zero());
        let normal = if front_face {
            outward_normal
        } else {
            outward_normal.neg()
        };
        HitRecord { p, normal, t, front_face, mat }
    }
}

/// A surface that a ray can hit.
pub trait Hittable {
    /// The hit of `r` on the surface with a ray parameter between `t_min`
    /// and `t_max`, if there is one.
    fn hit(&self, r: &Ray, t_min: Scalar, t_max: Scalar) -> Option<HitRecord>;
}

} // verus!
