//! Scenes: collections of surfaces, and the nearest hit among them.

use vstd::prelude::*;
use crate::hittable::sphere::Sphere;
use crate::hittable::{HitRecord, Hittable, HALF_BITS};
use crate::materials::Material;
use crate::ray::Ray;
use crate::scalar::{Scalar, ONE_BITS};
use crate::vec::Vector3;

verus! {

/// An ordered collection of surfaces.
#[derive(Debug)]
pub struct HittableList<H> {
    objects: Vec<H>,
}

/// The last hit among the outcomes of asking one surface after another, if
/// any of them reported one.
pub open spec fn last_hit(outcomes: Seq<Option<HitRecord>>) -> Option<HitRecord>
    decreases outcomes.len(),
{
    if outcomes.len() == 0 {
        None
    } else if outcomes.last() is Some {
        outcomes.last()
    } else {
        last_hit(outcomes.drop_last())
    }
}

/// The upper bound of the ray parameter once those outcomes are in: that of
/// the last hit, or `t_max` while there is none.
pub open spec fn bound_after(outcomes: Seq<Option<HitRecord>>, t_max: Scalar) -> Scalar {
    match last_hit(outcomes) {
        Some(rec) => rec.t,
        None => t_max,
    }
}

/// Whether `outcomes` is what the surfaces of `objects` can report, one
/// after the other, to the ray `r`: each is asked for a hit from `t_min` up
/// to the bound that the outcomes before it have left.
pub open spec fn is_sweep<H: Hittable>(
    objects: Seq<H>,
    r: Ray,
    t_min: Scalar,
    t_max: Scalar,
    outcomes: Seq<Option<HitRecord>>,
) -> bool {
    &&& outcomes.len() == objects.len()
    &&& forall|i: int|
        0 <= i < objects.len() ==> call_ensures(
            H::hit,
            (&objects[i], &r, t_min, bound_after(outcomes.take(i), t_max)),
            #[trigger] outcomes[i],
        )
}

/// Whether no reported hit lies beyond the bound that its surface was asked
/// with.
pub open spec fn respects_bounds(outcomes: Seq<Option<HitRecord>>, t_max: Scalar) -> bool {
    forall|i: int|
        0 <= i < outcomes.len() && (#[trigger] outcomes[i]) is Some ==> outcomes[i]->0.t.at_most(
            bound_after(outcomes.take(i), t_max),
        )
}

impl<H> View for HittableList<H> {
    type V = Seq<H>;

    closed spec fn view(&self) -> Seq<H> {
        self.objects@
    }
}

impl<H: Clone> Clone for HittableList<H> {
    fn clone(&self) -> (list: HittableList<H>)
        ensures
            list@.len() == self@.len(),
    {
        HittableList { objects: self.objects.clone() }
    }
}

impl<H> HittableList<H> {
    pub fn new() -> (list: HittableList<H>)
        ensures
            list@ == Seq::<H>::empty(),
    {
        HittableList { objects: Vec::new() }
    }

    pub fn clear(&mut self)
        ensures
            final(self)@ == Seq::<H>::empty(),
    {
        self.objects.clear();
    }

    pub fn add(&mut self, object: H)
        ensures
            final(self)@ == old(self)@.push(object),
    {
        self.objects.push(object);
    }

    pub fn len(&self) -> (n: usize)
        ensures
            n == self@.len(),
    {
        self.objects.len()
    }

    pub fn get(&self, i: usize) -> (object: &H)
        requires
            i < self@.len(),
        ensures
            *object == self@[i as int],
    {
        &self.objects[i]
    }
}

impl<H: Hittable> Hittable for HittableList<H> {
    /// The nearest hit of `r` on any surface of the collection: every
    /// surface is asked in turn, each for a hit no farther than the last
    /// one reported, and the last hit reported is the result.
    fn hit(&self, r: &Ray, t_min: Scalar, t_max: Scalar) -> (rec: Option<HitRecord>)
        ensures
            exists|outcomes: Seq<Option<HitRecord>>|
                is_sweep(self@, *r, t_min, t_max, outcomes) && rec == last_hit(outcomes),
            self@.len() == 0 ==> rec is None,
    {
        let mut best: Option<HitRecord> = None;
        let mut closest_so_far = t_max;
        let ghost mut outcomes: Seq<Option<HitRecord>> = Seq::empty();
        let mut i: usize = 0;
        while i < self.objects.len()
            invariant
                i <= self.objects@.len(),
                outcomes.len() == i,
                best == last_hit(outcomes),
                closest_so_far == bound_after(outcomes, t_max),
                forall|k: int|
                    0 <= k < i ==> call_ensures(
                        H::hit,
                        (&self.objects@[k], r, t_min, bound_after(outcomes.take(k), t_max)),
                        #[trigger] outcomes[k],
                    ),
            decreases self.objects@.len() - i,
        {
            let found = self.objects[i].hit(r, t_min, closest_so_far);
            proof {
                let before = outcomes;
                outcomes = outcomes.push(found);
                assert(outcomes.drop_last() == before);
                assert(outcomes.take(i as int) == before);
                assert forall|k: int| 0 <= k < i implies outcomes.take(k) == before.take(k) by {}
            }
            if let Some(rec) = found {
                closest_so_far = rec.t;
                best = Some(rec);
            }
            i = i + 1;
        }
        proof {
            assert(is_sweep(self@, *r, t_min, t_max, outcomes));
        }
        best
    }
}

/// Where no surface reports a hit beyond the bound it was asked with, the
/// last hit is the nearest: no surface has reported a hit with a smaller
/// ray parameter.
pub proof fn lemma_last_hit_is_nearest(outcomes: Seq<Option<HitRecord>>, t_max: Scalar)
    requires
        respects_bounds(outcomes, t_max),
    ensures
        forall|i: int|
            0 <= i < outcomes.len() && (#[trigger] outcomes[i]) is Some ==> last_hit(outcomes) is Some
                && last_hit(outcomes)->0.t.at_most(outcomes[i]->0.t),
    decreases outcomes.len(),
{
    if outcomes.len() > 0 {
        let before = outcomes.drop_last();
        let n = before.len() as int;
        assert forall|i: int| 0 <= i < before.len() implies before.take(i) == outcomes.take(i) by {}
        assert(respects_bounds(before, t_max)) by {
            assert forall|i: int| 0 <= i < before.len() && (#[trigger] before[i]) is Some implies before[i]->0.t.at_most(
                bound_after(before.take(i), t_max),
            ) by {
                assert(outcomes[i] is Some);
                assert(before.take(i) == outcomes.take(i));
            }
        }
        lemma_last_hit_is_nearest(before, t_max);
        assert(outcomes.take(n) == before);
        assert forall|i: int| 0 <= i < outcomes.len() && (#[trigger] outcomes[i]) is Some implies last_hit(
            outcomes,
        ) is Some && last_hit(outcomes)->0.t.at_most(outcomes[i]->0.t) by {
            if outcomes[n] is Some {
                let last = outcomes[n]->0;
                if i < n {
                    assert(before[i] is Some);
                    assert(last.t.at_most(bound_after(before, t_max)));
                    assert(last_hit(before)->0.t.at_most(before[i]->0.t));
                } else {
                    assert(last.t.at_most(bound_after(outcomes.take(n), t_max)));
                }
            } else {
                assert(before[i] is Some);
            }
        }
    }
}

/// What is left of a hit when its surface is asked with the upper bound
/// `bound`: the hit itself, unless it lies beyond the bound.
pub open spec fn within(candidate: Option<HitRecord>, bound: Scalar) -> Option<HitRecord> {
    match candidate {
        Some(rec) => if bound.less(rec.t) {
            None
        } else {
            candidate
        },
        None => None,
    }
}

/// Whether `outcomes` is what comes of asking, one after the other and each
/// with the bound that the outcomes before it have left, surfaces whose
/// hits over the whole range up to `t_max` are `candidates`.
pub open spec fn is_bounded_sweep(
    candidates: Seq<Option<HitRecord>>,
    outcomes: Seq<Option<HitRecord>>,
    t_max: Scalar,
) -> bool {
    &&& outcomes.len() == candidates.len()
    &&& forall|i: int|
        0 <= i < candidates.len() ==> #[trigger] outcomes[i] == within(
            candidates[i],
            bound_after(outcomes.take(i), t_max),
        )
}

/// Whether the surfaces of `objects` keep their hits under a tighter bound:
/// asked with any upper bound up to `t_max`, each reports the hit that it
/// has over the whole range, unless that hit lies beyond the bound.
pub open spec fn keeps_hits<H: Hittable>(
    objects: Seq<H>,
    r: Ray,
    t_min: Scalar,
    t_max: Scalar,
    candidates: Seq<Option<HitRecord>>,
) -> bool {
    &&& candidates.len() == objects.len()
    &&& forall|i: int|
        0 <= i < candidates.len() && (#[trigger] candidates[i]) is Some
            ==> candidates[i]->0.t.at_most(t_max)
    &&& forall|i: int, bound: Scalar, out: Option<HitRecord>|
        0 <= i < objects.len() && bound.at_most(t_max) && #[trigger] call_ensures(
            H::hit,
            (&objects[i], &r, t_min, bound),
            out,
        ) ==> out == within(candidates[i], bound)
}

/// Up to any place of a sweep over surfaces that keep their hits, every
/// outcome is the surface's own hit cut at the bound in force, and that
/// bound never exceeds `t_max`.
proof fn lemma_sweep_prefix_is_bounded<H: Hittable>(
    objects: Seq<H>,
    r: Ray,
    t_min: Scalar,
    t_max: Scalar,
    candidates: Seq<Option<HitRecord>>,
    outcomes: Seq<Option<HitRecord>>,
    n: int,
)
    requires
        !t_max.nan(),
        is_sweep(objects, r, t_min, t_max, outcomes),
        keeps_hits(objects, r, t_min, t_max, candidates),
        0 <= n <= objects.len(),
    ensures
        forall|i: int|
            0 <= i < n ==> #[trigger] outcomes[i] == within(
                candidates[i],
                bound_after(outcomes.take(i), t_max),
            ),
        bound_after(outcomes.take(n), t_max).at_most(t_max),
    decreases n,
{
    if n == 0 {
        assert(outcomes.take(0) == Seq::<Option<HitRecord>>::empty());
    } else {
        lemma_sweep_prefix_is_bounded(objects, r, t_min, t_max, candidates, outcomes, n - 1);
        let bound = bound_after(outcomes.take(n - 1), t_max);
        assert(call_ensures(H::hit, (&objects[n - 1], &r, t_min, bound), outcomes[n - 1]));
        assert(outcomes[n - 1] == within(candidates[n - 1], bound));
        assert(outcomes.take(n).drop_last() == outcomes.take(n - 1));
        assert(outcomes.take(n).last() == outcomes[n - 1]);
        if outcomes[n - 1] is Some {
            assert(candidates[n - 1] is Some);
        }
    }
}

/// A sweep over surfaces that keep their hits under a tighter bound is the
/// sweep of their hits over the whole range.
pub proof fn lemma_sweep_is_bounded<H: Hittable>(
    objects: Seq<H>,
    r: Ray,
    t_min: Scalar,
    t_max: Scalar,
    candidates: Seq<Option<HitRecord>>,
    outcomes: Seq<Option<HitRecord>>,
)
    requires
        !t_max.nan(),
        is_sweep(objects, r, t_min, t_max, outcomes),
        keeps_hits(objects, r, t_min, t_max, candidates),
    ensures
        is_bounded_sweep(candidates, outcomes, t_max),
{
    lemma_sweep_prefix_is_bounded(
        objects,
        r,
        t_min,
        t_max,
        candidates,
        outcomes,
        objects.len() as int,
    );
}

/// The scene reports the hit of the nearest surface as that surface alone
/// would report it: where every surface keeps its hit under a tighter
/// bound until the bound passes it, the last hit of the sweep is one of the
/// hits that the surfaces have over the whole range, and none of those has
/// a smaller ray parameter. The scene reports no hit exactly where no
/// surface has one.
pub proof fn lemma_sweep_reports_nearest_candidate(
    candidates: Seq<Option<HitRecord>>,
    outcomes: Seq<Option<HitRecord>>,
    t_max: Scalar,
)
    requires
        is_bounded_sweep(candidates, outcomes, t_max),
        forall|i: int|
            0 <= i < candidates.len() && (#[trigger] candidates[i]) is Some
                ==> candidates[i]->0.t.at_most(t_max),
    ensures
        last_hit(outcomes) is None <==> forall|i: int|
            0 <= i < candidates.len() ==> (#[trigger] candidates[i]) is None,
        last_hit(outcomes) is Some ==> {
            &&& exists|j: int|
                0 <= j < candidates.len() && #[trigger] candidates[j] == last_hit(outcomes)
            &&& forall|i: int|
                0 <= i < candidates.len() && (#[trigger] candidates[i]) is Some ==> last_hit(
                    outcomes,
                )->0.t.at_most(candidates[i]->0.t)
        },
    decreases candidates.len(),
{
    if candidates.len() > 0 {
        let n = candidates.len() - 1;
        let c0 = candidates.drop_last();
        let o0 = outcomes.drop_last();
        assert(outcomes.take(n) == o0);
        assert forall|i: int| 0 <= i < c0.len() implies #[trigger] o0[i] == within(
            c0[i],
            bound_after(o0.take(i), t_max),
        ) by {
            assert(o0.take(i) == outcomes.take(i));
            assert(o0[i] == outcomes[i]);
        }
        assert forall|i: int| 0 <= i < c0.len() && (#[trigger] c0[i]) is Some implies c0[i]->0.t.at_most(
            t_max,
        ) by {
            assert(candidates[i] is Some);
        }
        lemma_sweep_reports_nearest_candidate(c0, o0, t_max);
        let before = last_hit(o0);
        let bound = bound_after(o0, t_max);
        assert(outcomes[n] == within(candidates[n], bound));
        if before is Some {
            let j0 = choose|j: int| 0 <= j < c0.len() && #[trigger] c0[j] == before;
            assert(candidates[j0] == before);
        }
        if outcomes[n] is Some {
            assert(last_hit(outcomes) == candidates[n]);
            let rec = candidates[n]->0;
            assert(rec.t.at_most(t_max));
            assert forall|i: int|
                0 <= i < candidates.len() && (#[trigger] candidates[i]) is Some implies rec.t.at_most(
                candidates[i]->0.t,
            ) by {
                if i < n {
                    assert(c0[i] is Some);
                    assert(before is Some);
                    assert(before->0.t.at_most(c0[i]->0.t));
                }
            }
        } else {
            assert(last_hit(outcomes) == before);
            if candidates[n] is Some {
                assert(before is Some);
            }
            if before is Some {
                let j0 = choose|j: int| 0 <= j < c0.len() && #[trigger] c0[j] == before;
                assert(candidates[j0] == last_hit(outcomes));
                assert forall|i: int|
                    0 <= i < candidates.len() && (#[trigger] candidates[i]) is Some implies before->0.t.at_most(
                    candidates[i]->0.t,
                ) by {
                    if i < n {
                        assert(c0[i] is Some);
                    }
                }
            } else {
                assert forall|i: int| 0 <= i < candidates.len() implies (#[trigger] candidates[i]) is None by {
                    if i < n {
                        assert(c0[i] is None);
                    }
                }
            }
        }
    }
}

/// The last hit is the outcome of one of the surfaces, and no surface after
/// that one has reported a hit. There is none exactly where no surface has
/// reported any.
pub proof fn lemma_last_hit_is_an_outcome(outcomes: Seq<Option<HitRecord>>)
    ensures
        last_hit(outcomes) is None <==> forall|i: int|
            0 <= i < outcomes.len() ==> (#[trigger] outcomes[i]) is None,
        last_hit(outcomes) is Some ==> exists|j: int|
            0 <= j < outcomes.len() && #[trigger] outcomes[j] == last_hit(outcomes) && forall|i: int|
                j < i < outcomes.len() ==> (#[trigger] outcomes[i]) is None,
    decreases outcomes.len(),
{
    if outcomes.len() > 0 {
        let before = outcomes.drop_last();
        lemma_last_hit_is_an_outcome(before);
        if outcomes.last() is Some {
            let j = outcomes.len() - 1;
            assert(outcomes[j] == last_hit(outcomes));
        } else {
            assert forall|i: int| 0 <= i < before.len() implies before[i] == outcomes[i] by {}
            if last_hit(before) is Some {
                let j = choose|j: int|
                    0 <= j < before.len() && #[trigger] before[j] == last_hit(before) && forall|i: int|
                        j < i < before.len() ==> (#[trigger] before[i]) is None;
                assert(outcomes[j] == last_hit(outcomes));
                assert forall|i: int| j < i < outcomes.len() implies (#[trigger] outcomes[i]) is None by {
                    if i < before.len() {
                        assert(before[i] is None);
                    }
                }
            } else {
                assert forall|i: int| 0 <= i < outcomes.len() implies (#[trigger] outcomes[i]) is None by {
                    if i < before.len() {
                        assert(before[i] is None);
                    }
                }
            }
        }
    }
}

/// The encoding of 0.9: a small sphere is placed only where its centre is
/// farther than this from the point (4, 0.2, 0).
pub const CLEARANCE_BITS: u64 = 0x3FEC_CCCC_CCCC_CCCD;

/// The encoding of 0.8: a material draw below it gives a diffuse sphere.
pub const DIFFUSE_BELOW_BITS: u64 = 0x3FE9_9999_9999_999A;

/// The encoding of 0.95: a material draw below it, and not below 0.8, gives
/// a metal sphere; any other draw gives glass.
pub const METAL_BELOW_BITS: u64 = 0x3FEE_6666_6666_6666;

/// The encoding of 0.2, the radius of a small sphere.
pub const SMALL_RADIUS_BITS: u64 = 0x3FC9_9999_9999_999A;

/// The encoding of 1.5, the refractive index of glass.
pub const GLASS_INDEX_BITS: u64 = 0x3FF8_0000_0000_0000;

/// What was drawn and worked out for one cell of the random scene.
#[derive(Clone, Copy, Debug, PartialEq, Eq, Structural)]
pub struct CellSample {
    /// Where the small sphere of the cell would lie.
    pub center: Vector3,
    /// The distance of that point from (4, 0.2, 0).
    pub distance: Scalar,
    /// The draw that picks the material.
    pub choose_mat: Scalar,
    /// The colour, should the sphere be diffuse.
    pub diffuse_albedo: Vector3,
    /// The colour, should the sphere be of metal.
    pub metal_albedo: Vector3,
    /// The fuzz, should the sphere be of metal: between zero and one.
    pub fuzz: Scalar,
}

/// A vector given by the encodings of its components.
pub open spec fn vector_of(x: u64, y: u64, z: u64) -> Vector3 {
    Vector3 { x: Scalar { bits: x }, y: Scalar { bits: y }, z: Scalar { bits: z } }
}

/// The grey ground: a sphere of radius 1000 centred at (0, -1000, 0).
pub open spec fn ground() -> Sphere {
    Sphere::new(
        vector_of(0, 0xC08F_4000_0000_0000, 0),
        Scalar { bits: 0x408F_4000_0000_0000 },
        Material::lambertian(vector_of(HALF_BITS, HALF_BITS, HALF_BITS)),
    )
}

/// The large glass sphere: radius 1, centred at (0, 1, 0).
pub open spec fn glass_feature() -> Sphere {
    Sphere::new(
        vector_of(0, ONE_BITS, 0),
        Scalar { bits: ONE_BITS },
        Material::dielectric(Scalar { bits: GLASS_INDEX_BITS }),
    )
}

/// The large diffuse sphere: radius 1, centred at (-4, 1, 0), of colour
/// (0.4, 0.2, 0.1).
pub open spec fn diffuse_feature() -> Sphere {
    Sphere::new(
        vector_of(0xC010_0000_0000_0000, ONE_BITS, 0),
        Scalar { bits: ONE_BITS },
        Material::lambertian(
            vector_of(0x3FD9_9999_9999_999A, 0x3FC9_9999_9999_999A, 0x3FB9_9999_9999_999A),
        ),
    )
}

/// The large mirror: radius 1, centred at (4, 1, 0), of colour
/// (0.7, 0.6, 0.5) and without fuzz.
pub open spec fn metal_feature() -> Sphere {
    Sphere::new(
        vector_of(0x4010_0000_0000_0000, ONE_BITS, 0),
        Scalar { bits: ONE_BITS },
        Material::metal(
            vector_of(0x3FE6_6666_6666_6666, 0x3FE3_3333_3333_3333, HALF_BITS),
            Scalar { bits: 0 },
        ),
    )
}

/// The small sphere that a cell contributes, if any: none where the centre
/// is within 0.9 of (4, 0.2, 0); otherwise a sphere of radius 0.2 that is
/// diffuse for a draw below 0.8, of metal for a draw below 0.95, and of
/// glass for any other draw.
pub open spec fn cell_sphere(cell: CellSample) -> Option<Sphere> {
    if (Scalar { bits: CLEARANCE_BITS }).less(cell.distance) {
        let mat = if cell.choose_mat.less(Scalar { bits: DIFFUSE_BELOW_BITS }) {
            Material::lambertian(cell.diffuse_albedo)
        } else if cell.choose_mat.less(Scalar { bits: METAL_BELOW_BITS }) {
            Material::metal(cell.metal_albedo, cell.fuzz)
        } else {
            Material::dielectric(Scalar { bits: GLASS_INDEX_BITS })
        };
        Some(Sphere::new(cell.center, Scalar { bits: SMALL_RADIUS_BITS }, mat))
    } else {
        None
    }
}

/// The small spheres that the cells contribute, in the order of the cells.
pub open spec fn small_spheres(cells: Seq<CellSample>) -> Seq<Sphere>
    decreases cells.len(),
{
    if cells.len() == 0 {
        Seq::empty()
    } else {
        match cell_sphere(cells.last()) {
            Some(s) => small_spheres(cells.drop_last()).push(s),
            None => small_spheres(cells.drop_last()),
        }
    }
}

/// The random scene for the given cells: the ground, the small spheres of
/// the cells, and the three large spheres of glass, diffuse and metal.
pub open spec fn scene_of(cells: Seq<CellSample>) -> Seq<Sphere> {
    seq![ground()] + small_spheres(cells) + seq![
        glass_feature(),
        diffuse_feature(),
        metal_feature(),
    ]
}

impl HittableList<Sphere> {
    /// Builds the random scene from what was drawn for its cells: see
    /// [`scene_of`].
    pub fn random_scene(cells: &Vec<CellSample>) -> (world: HittableList<Sphere>)
        requires
            forall|i: int|
                0 <= i < cells@.len() ==> (Scalar { bits: 0 }).at_most((#[trigger] cells@[i]).fuzz)
                    && cells@[i].fuzz.at_most(Scalar { bits: ONE_BITS }),
        ensures
            world@ == scene_of(cells@),
    {
        let mut world: HittableList<Sphere> = HittableList::new();
        let half = Scalar::from_bits(HALF_BITS);
        let zero = Scalar::zero();
        let one = Scalar::one();
        let ground_material = Material::lambertian(Vector3::new(half, half, half));
        world.add(
            Sphere::new(
                Vector3::new(zero, Scalar::from_bits(0xC08F_4000_0000_0000), zero),
                Scalar::from_bits(0x408F_4000_0000_0000),
                ground_material,
            ),
        );
        assert(cells@.take(0) == Seq::<CellSample>::empty());
        assert(world@ == seq![ground()] + small_spheres(cells@.take(0)));
        let mut i: usize = 0;
        while i < cells.len()
            invariant
                i <= cells@.len(),
                world@ == seq![ground()] + small_spheres(cells@.take(i as int)),
                forall|k: int|
                    0 <= k < cells@.len() ==> (Scalar { bits: 0 }).at_most(
                        (#[trigger] cells@[k]).fuzz,
                    ) && cells@[k].fuzz.at_most(Scalar { bits: ONE_BITS }),
            decreases cells@.len() - i,
        {
            let cell = cells[i];
            proof {
                assert(cells@.take(i + 1).drop_last() == cells@.take(i as int));
                assert(cells@.take(i + 1).last() == cell);
            }
            if cell.distance.gt(Scalar::from_bits(CLEARANCE_BITS)) {
                let sphere_material = if cell.choose_mat.lt(Scalar::from_bits(DIFFUSE_BELOW_BITS)) {
                    Material::lambertian(cell.diffuse_albedo)
                } else if cell.choose_mat.lt(Scalar::from_bits(METAL_BELOW_BITS)) {
                    Material::metal(cell.metal_albedo, cell.fuzz)
                } else {
                    Material::dielectric(Scalar::from_bits(GLASS_INDEX_BITS))
                };
                let ghost before = world@;
                world.add(Sphere::new(cell.center, Scalar::from_bits(SMALL_RADIUS_BITS), sphere_material));
                proof {
                    let s = cell_sphere(cell)->0;
                    assert(world@ == before.push(s));
                    assert((seq![ground()] + small_spheres(cells@.take(i as int))).push(s) == seq![
                        ground(),
                    ] + small_spheres(cells@.take(i as int)).push(s));
                }
            }
            i = i + 1;
        }
        proof {
            assert(cells@.take(i as int) == cells@);
        }
        let material1 = Material::dielectric(Scalar::from_bits(GLASS_INDEX_BITS));
        world.add(Sphere::new(Vector3::new(zero, one, zero), one, material1));
        let material2 = Material::lambertian(
            Vector3::new(
                Scalar::from_bits(0x3FD9_9999_9999_999A),
                Scalar::from_bits(0x3FC9_9999_9999_999A),
                Scalar::from_bits(0x3FB9_9999_9999_999A),
            ),
        );
        world.add(
            Sphere::new(
                Vector3::new(Scalar::from_bits(0xC010_0000_0000_0000), one, zero),
                one,
                material2,
            ),
        );
        let material3 = Material::metal(
            Vector3::new(
                Scalar::from_bits(0x3FE6_6666_6666_6666),
                Scalar::from_bits(0x3FE3_3333_3333_3333),
                half,
            ),
            zero,
        );
        world.add(
            Sphere::new(
                Vector3::new(Scalar::from_bits(0x4010_0000_0000_0000), one, zero),
                one,
                material3,
            ),
        );
        proof {
            assert(world@ == scene_of(cells@));
        }
        world
    }
}

} // verus!
