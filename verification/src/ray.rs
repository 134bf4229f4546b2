//! Rays.

use vstd::prelude::*;
use crate::hittable::hittable_list::{is_sweep, last_hit, HittableList};
use crate::hittable::{HitRecord, Hittable};
use crate::scalar::{Scalar, INFINITY_BITS};
use crate::vec::Vector3;

verus! {

/// The encoding of 0.001: a path looks for its next surface no nearer than
/// this, so that rounding does not let it hit the surface it just left.
pub const SHADOW_BIAS_BITS: u64 = 0x3F50_624D_D2F1_A9FC;

/// What a light path meets at its next vertex.
#[derive(Clone, Copy, Debug, PartialEq, Eq, Structural)]
pub enum PathVertex {
    /// The depth budget is spent: the path carries no light.
    Exhausted,
    /// The ray leaves the scene: the path ends on the background.
    Escaped,
    /// The ray hits a surface. Light scattered there goes on with the depth
    /// budget `depth`, one less than before.
    Surface { rec: HitRecord, depth: u8 },
}

/// A half line: the points `origin + t * direction`. The direction need not
/// have length one.
#[derive(Clone, Copy, Debug, PartialEq, Eq, Structural)]
pub struct Ray {
    pub origin: Vector3,
    pub direction: Vector3,
}

impl Ray {
    /// Replaces origin and direction by those of `new`.
    pub fn inherit(&mut self, new: Ray)
        ensures
            *final(self) == new,
    {
        self.origin = new.origin;
        self.direction = new.direction;
    }

    pub fn zero() -> (r: Ray)
        ensures
            r.origin.x.bits == 0 && r.origin.y.bits == 0 && r.origin.z.bits == 0,
            r.direction.x.bits == 0 && r.direction.y.bits == 0 && r.direction.z.bits == 0,
    {
        Ray { origin: Vector3::zero(), direction: Vector3::zero() }
    }

    pub fn new(origin: Vector3, direction: Vector3) -> (r: Ray)
        ensures
            r == (Ray { origin, direction }),
    {
        Ray { origin, direction }
    }

    /// The next vertex of the light path that arrives along `r` with the
    /// depth budget `depth`.
    ///
    /// With a budget of zero the path is exhausted, whatever the ray and the
    /// scene. Otherwise the scene is asked for its nearest hit from 0.001
    /// up to infinity: the path goes on from that hit with one bounce less,
    /// or escapes where there is none.
    pub fn next_vertex<H: Hittable>(r: &Ray, world: &HittableList<H>, depth: u8) -> (v: PathVertex)
        ensures
            depth == 0 ==> v == PathVertex::Exhausted,
            depth > 0 ==> exists|outcomes: Seq<Option<HitRecord>>|
                is_sweep(
                    world@,
                    *r,
                    Scalar { bits: SHADOW_BIAS_BITS },
                    Scalar { bits: INFINITY_BITS },
                    outcomes,
                ) && v == (match last_hit(outcomes) {
                    Some(rec) => PathVertex::Surface { rec, depth: (depth - 1) as u8 },
                    None => PathVertex::Escaped,
                }),
            depth > 0 && world@.len() == 0 ==> v == PathVertex::Escaped,
    {
        if depth == 0 {
            return PathVertex::Exhausted;
        }
        let t_min = Scalar::from_bits(SHADOW_BIAS_BITS);
        let t_max = Scalar::infinity();
        let found = world.hit(r, t_min, t_max);
        proof {
            let outcomes = choose|outcomes: Seq<Option<HitRecord>>|
                is_sweep(world@, *r, t_min, t_max, outcomes) && found == last_hit(outcomes);
            assert(t_min == Scalar { bits: SHADOW_BIAS_BITS });
            assert(t_max == Scalar { bits: INFINITY_BITS });
            assert(is_sweep(
                world@,
                *r,
                Scalar { bits: SHADOW_BIAS_BITS },
                Scalar { bits: INFINITY_BITS },
                outcomes,
            ));
        }
        match found {
            Some(rec) => PathVertex::Surface { rec, depth: depth - 1 },
            None => PathVertex::Escaped,
        }
    }
}

} // verus!
