//! Spheres.

use vstd::prelude::*;
use crate::hittable::HitRecord;
use crate::materials::Material;
use crate::scalar::Scalar;
use crate::vec::Vector3;

verus! {

/// A sphere of one material. Its radius is above zero.
#[derive(Clone, Copy, Debug, PartialEq, Eq, Structural)]
pub struct Sphere {
    center: Vector3,
    radius: Scalar,
    mat: Material,
}

/// Whether a ray parameter lies in the range from `t_min` to `t_max`: it is
/// neither below the one nor above the other.
pub open spec fn in_range(t: Scalar, t_min: Scalar, t_max: Scalar) -> bool {
    !(t.less(t_min) || t_max.less(t))
}

/// The ray parameter at which a ray enters or leaves a sphere within the
/// range from `t_min` to `t_max`, given the discriminant and the two roots
/// of the quadratic that the ray and the sphere form, `near` the smaller.
///
/// There is none where the discriminant is below zero. Otherwise it is the
/// nearer root if that lies in the range, else the farther one if that
/// does, else none.
pub open spec fn accepted_root(
    discriminant: Scalar,
    near: Scalar,
    far: Scalar,
    t_min: Scalar,
    t_max: Scalar,
) -> Option<Scalar> {
    if discriminant.less(Scalar { bits: 0 }) {
        None
    } else if in_range(near, t_min, t_max) {
        Some(near)
    } else if in_range(far, t_min, t_max) {
        Some(far)
    } else {
        None
    }
}

impl Sphere {
    #[verifier::type_invariant]
    spec fn well_formed(self) -> bool {
        (Scalar { bits: 0 }).less(self.radius)
    }

    pub closed spec fn spec_center(&self) -> Vector3 {
        self.center
    }

    pub closed spec fn spec_radius(&self) -> Scalar {
        self.radius
    }

    pub closed spec fn spec_material(&self) -> Material {
        self.mat
    }

    pub closed spec fn spec_new(center: Vector3, radius: Scalar, mat: Material) -> Sphere {
        Sphere { center, radius, mat }
    }

    #[verifier::when_used_as_spec(spec_new)]
    pub fn new(center: Vector3, radius: Scalar, mat: Material) -> (s: Sphere)
        requires
            (Scalar { bits: 0 }).less(radius),
        ensures
            s == Sphere::new(center, radius, mat),
            s.center() == center,
            s.radius() == radius,
            s.material() == mat,
    {
        Sphere { center, radius, mat }
    }

    #[verifier::when_used_as_spec(spec_center)]
    pub fn center(&self) -> (c: Vector3)
        ensures
            c == self.center(),
    {
        self.center
    }

    /// The radius, which is above zero.
    #[verifier::when_used_as_spec(spec_radius)]
    pub fn radius(&self) -> (r: Scalar)
        ensures
            r == self.radius(),
            (Scalar { bits: 0 }).less(r),
    {
        proof {
            use_type_invariant(self);
        }
        self.radius
    }

    #[verifier::when_used_as_spec(spec_material)]
    pub fn material(&self) -> (m: Material)
        ensures
            m == self.material(),
    {
        self.mat
    }

    /// Picks the root at which a ray hits the sphere: see [`accepted_root`].
    pub fn select_root(
        discriminant: Scalar,
        near: Scalar,
        far: Scalar,
        t_min: Scalar,
        t_max: Scalar,
    ) -> (root: Option<Scalar>)
        ensures
            root == accepted_root(discriminant, near, far, t_min, t_max),
    {
        if discriminant.lt(Scalar::zero()) {
            return None;
        }
        let mut root = near;
        if root.lt(t_min) || t_max.lt(root) {
            root = far;
            if root.lt(t_min) || t_max.lt(root) {
                return None;
            }
        }
        Some(root)
    }

    /// The record of the hit on this sphere at ray parameter `t` and point
    /// `p`, where `outward_normal` is the normal at `p` that points away
    /// from the centre and `facing` the dot product of the ray's direction
    /// with it. The record carries the sphere's material, and its normal is
    /// turned against the ray.
    pub fn record(&self, p: Vector3, outward_normal: Vector3, t: Scalar, facing: Scalar) -> (rec:
        HitRecord)
        ensures
            rec == HitRecord::oriented(p, outward_normal, t, facing, self.material()),
    {
        HitRecord::facing(p, outward_normal, t, facing, self.mat)
    }
}

/// Asking a sphere with a tighter upper bound never brings another hit to
/// light: it keeps the root that the wider range gave, unless that root
/// lies beyond the tighter bound, and then there is none.
pub proof fn lemma_root_under_tighter_bound(
    discriminant: Scalar,
    near: Scalar,
    far: Scalar,
    t_min: Scalar,
    t_max: Scalar,
    tighter: Scalar,
)
    requires
        near.at_most(far),
        tighter.at_most(t_max),
    ensures
        accepted_root(discriminant, near, far, t_min, tighter) == (match accepted_root(
            discriminant,
            near,
            far,
            t_min,
            t_max,
        ) {
            Some(t) => if tighter.less(t) {
                None
            } else {
                Some(t)
            },
            None => None,
        }),
{
}

/// What the constructor builds.
pub proof fn lemma_sphere_parts(center: Vector3, radius: Scalar, mat: Material)
    ensures
        Sphere::new(center, radius, mat).center() == center,
        Sphere::new(center, radius, mat).radius() == radius,
        Sphere::new(center, radius, mat).material() == mat,
{
}

} // verus!
