//! Surface materials and how they scatter light.

use vstd::prelude::*;
use crate::hittable::HitRecord;
use crate::ray::Ray;
use crate::scalar::{Scalar, ONE_BITS};
use crate::vec::Vector3;

verus! {

/// The scattering behaviours a surface can have.
#[derive(Clone, Copy, Debug, PartialEq, Eq, Structural)]
pub enum MaterialType {
    Lambertian,
    Metal,
    Dielectric,
}

/// A surface material: its kind, and the parameters that kind has.
///
/// A value of this type is always well formed: a metal has a fuzz between
/// zero and one, a dielectric has a refractive index above zero, and no
/// material has a parameter of another kind.
#[derive(Clone, Copy, Debug, PartialEq, Eq, Structural)]
pub struct Material {
    mat_type: MaterialType,
    albedo: Vector3,
    fuzz: Option<Scalar>,
    ir: Option<Scalar>,
}

/// What the arithmetic around a scatter event has worked out, by kind of
/// material. The directions are those that leave the surface.
#[derive(Clone, Copy, Debug, PartialEq, Eq, Structural)]
pub enum ScatterSample {
    /// `direction`: the normal plus a random unit vector.
    Lambertian { direction: Vector3 },
    /// `direction`: the mirrored incoming direction plus fuzz times a random
    /// point of the unit ball. `facing`: its dot product with the normal.
    Metal { direction: Vector3, facing: Scalar },
    /// `reflected`, `refracted`: the mirrored and the refracted incoming
    /// direction. `sin_scaled`: the refraction ratio times the sine of the
    /// angle of incidence. `reflectance`: Schlick's approximation at that
    /// angle. `draw`: a uniform random number of [0, 1).
    Dielectric {
        reflected: Vector3,
        refracted: Vector3,
        sin_scaled: Scalar,
        reflectance: Scalar,
        draw: Scalar,
    },
}

impl ScatterSample {
    /// The kind of material that the sample was worked out for.
    pub open spec fn kind(self) -> MaterialType {
        match self {
            ScatterSample::Lambertian { .. } => MaterialType::Lambertian,
            ScatterSample::Metal { .. } => MaterialType::Metal,
            ScatterSample::Dielectric { .. } => MaterialType::Dielectric,
        }
    }

    /// Whether a dielectric sample cannot refract: the refraction ratio times
    /// the sine of the angle of incidence exceeds one.
    pub open spec fn total_internal_reflection(self) -> bool {
        match self {
            ScatterSample::Dielectric { sin_scaled, .. } => (Scalar { bits: ONE_BITS }).less(
                sin_scaled,
            ),
            _ => false,
        }
    }

    /// Whether a dielectric sample leaves by reflection: it cannot refract,
    /// or the draw falls below the reflectance.
    pub open spec fn reflects(self) -> bool {
        match self {
            ScatterSample::Dielectric { reflectance, draw, .. } => self.total_internal_reflection()
                || draw.less(reflectance),
            _ => false,
        }
    }
}

/// The colour that leaves every channel as it is.
pub open spec fn white() -> Vector3 {
    Vector3 { x: Scalar { bits: ONE_BITS }, y: Scalar { bits: ONE_BITS }, z: Scalar { bits: ONE_BITS } }
}

impl Material {
    #[verifier::type_invariant]
    spec fn well_formed(self) -> bool {
        match self.mat_type {
            MaterialType::Lambertian => self.fuzz is None && self.ir is None,
            MaterialType::Metal => self.ir is None && self.fuzz is Some && (Scalar {
                bits: 0,
            }).at_most(self.fuzz->0) && self.fuzz->0.at_most(Scalar { bits: ONE_BITS }),
            MaterialType::Dielectric => self.fuzz is None && self.ir is Some && (Scalar {
                bits: 0,
            }).less(self.ir->0),
        }
    }

    pub closed spec fn spec_kind(&self) -> MaterialType {
        self.mat_type
    }

    pub closed spec fn spec_albedo(&self) -> Vector3 {
        self.albedo
    }

    pub closed spec fn spec_fuzz(&self) -> Option<Scalar> {
        self.fuzz
    }

    pub closed spec fn spec_index_of_refraction(&self) -> Option<Scalar> {
        self.ir
    }

    pub closed spec fn spec_lambertian(color: Vector3) -> Material {
        Material { albedo: color, mat_type: MaterialType::Lambertian, fuzz: None, ir: None }
    }

    pub closed spec fn spec_metal(color: Vector3, fuzz: Scalar) -> Material {
        Material { albedo: color, mat_type: MaterialType::Metal, fuzz: Some(fuzz), ir: None }
    }

    pub closed spec fn spec_dielectric(index_of_refraction: Scalar) -> Material {
        Material {
            albedo: Vector3 { x: Scalar { bits: 0 }, y: Scalar { bits: 0 }, z: Scalar { bits: 0 } },
            mat_type: MaterialType::Dielectric,
            fuzz: None,
            ir: Some(index_of_refraction),
        }
    }

    /// A diffuse material of the given colour.
    #[verifier::when_used_as_spec(spec_lambertian)]
    pub fn lambertian(color: Vector3) -> (m: Material)
        ensures
            m == Material::lambertian(color),
            m.kind() == MaterialType::Lambertian,
            m.albedo() == color,
            m.fuzz() is None,
            m.index_of_refraction() is None,
    {
        Material { albedo: color, mat_type: MaterialType::Lambertian, fuzz: None, ir: None }
    }

    /// A reflective material of the given colour, its mirror direction
    /// perturbed by `fuzz`.
    #[verifier::when_used_as_spec(spec_metal)]
    pub fn metal(color: Vector3, fuzz: Scalar) -> (m: Material)
        requires
            (Scalar { bits: 0 }).at_most(fuzz),
            fuzz.at_most(Scalar { bits: ONE_BITS }),
        ensures
            m == Material::metal(color, fuzz),
            m.kind() == MaterialType::Metal,
            m.albedo() == color,
            m.fuzz() == Some(fuzz),
            m.index_of_refraction() is None,
    {
        Material { albedo: color, mat_type: MaterialType::Metal, fuzz: Some(fuzz), ir: None }
    }

    /// A clear refractive material.
    #[verifier::when_used_as_spec(spec_dielectric)]
    pub fn dielectric(index_of_refraction: Scalar) -> (m: Material)
        requires
            (Scalar { bits: 0 }).less(index_of_refraction),
        ensures
            m == Material::dielectric(index_of_refraction),
            m.kind() == MaterialType::Dielectric,
            m.albedo().x.bits == 0,
            m.albedo().y.bits == 0,
            m.albedo().z.bits == 0,
            m.fuzz() is None,
            m.index_of_refraction() == Some(index_of_refraction),
    {
        Material {
            albedo: Vector3::zero(),
            mat_type: MaterialType::Dielectric,
            fuzz: None,
            ir: Some(index_of_refraction),
        }
    }

    #[verifier::when_used_as_spec(spec_kind)]
    pub fn kind(&self) -> (k: MaterialType)
        ensures
            k == self.kind(),
    {
        self.mat_type
    }

    #[verifier::when_used_as_spec(spec_albedo)]
    pub fn albedo(&self) -> (a: Vector3)
        ensures
            a == self.albedo(),
    {
        self.albedo
    }

    /// The fuzz: present on a metal, where it lies between zero and one, and
    /// on no other material.
    #[verifier::when_used_as_spec(spec_fuzz)]
    pub fn fuzz(&self) -> (f: Option<Scalar>)
        ensures
            f == self.fuzz(),
            f is Some <==> self.kind() == MaterialType::Metal,
            f is Some ==> (Scalar { bits: 0 }).at_most(f->0) && f->0.at_most(
                Scalar { bits: ONE_BITS },
            ),
    {
        proof {
            use_type_invariant(self);
        }
        self.fuzz
    }

    /// The refractive index: present on a dielectric, where it is above
    /// zero, and on no other material.
    #[verifier::when_used_as_spec(spec_index_of_refraction)]
    pub fn index_of_refraction(&self) -> (ir: Option<Scalar>)
        ensures
            ir == self.index_of_refraction(),
            ir is Some <==> self.kind() == MaterialType::Dielectric,
            ir is Some ==> (Scalar { bits: 0 }).less(ir->0),
    {
        proof {
            use_type_invariant(self);
        }
        self.ir
    }

    /// What a material does with light that arrives at `rec`, given the
    /// sample worked out for the event: the attenuation and the ray that
    /// leaves, or nothing where the light is absorbed.
    ///
    /// A diffuse surface sends the light along the sampled direction, or
    /// along the normal where that direction has all but vanished. A metal
    /// sends it along the sampled direction if that still leaves the
    /// surface, and absorbs it otherwise. A dielectric never tints and never
    /// absorbs: it reflects or refracts.
    pub open spec fn scattered(self, rec: HitRecord, sample: ScatterSample) -> Option<
        (Vector3, Ray),
    > {
        match sample {
            ScatterSample::Lambertian { direction } => Some(
                (
                    self.albedo(),
                    Ray {
                        origin: rec.p,
                        direction: if direction.is_near_zero() {
                            rec.normal
                        } else {
                            direction
                        },
                    },
                ),
            ),
            ScatterSample::Metal { direction, facing } => if (Scalar { bits: 0 }).less(facing) {
                Some((self.albedo(), Ray { origin: rec.p, direction }))
            } else {
                None
            },
            ScatterSample::Dielectric { reflected, refracted, .. } => Some(
                (
                    white(),
                    Ray {
                        origin: rec.p,
                        direction: if sample.reflects() {
                            reflected
                        } else {
                            refracted
                        },
                    },
                ),
            ),
        }
    }

    /// Scatters the light that arrives at `rec`: see [`Material::scattered`].
    pub fn scatter(&self, rec: &HitRecord, sample: &ScatterSample) -> (out: Option<(Vector3, Ray)>)
        requires
            sample.kind() == self.kind(),
        ensures
            out == self.scattered(*rec, *sample),
            self.kind() != MaterialType::Metal ==> out is Some,
    {
        match *sample {
            ScatterSample::Lambertian { direction } => {
                let mut scatter_direction = direction;
                if scatter_direction.near_zero() {
                    scatter_direction = rec.normal;
                }
                Some((self.albedo, Ray::new(rec.p, scatter_direction)))
            },
            ScatterSample::Metal { direction, facing } => {
                if facing.gt(Scalar::zero()) {
                    Some((self.albedo, Ray::new(rec.p, direction)))
                } else {
                    None
                }
            },
            ScatterSample::Dielectric { reflected, refracted, sin_scaled, reflectance, draw } => {
                let attenuation = Vector3::new(Scalar::one(), Scalar::one(), Scalar::one());
                let cannot_refract = sin_scaled.gt(Scalar::one());
                let direction = if cannot_refract || reflectance.gt(draw) {
                    reflected
                } else {
                    refracted
                };
                Some((attenuation, Ray::new(rec.p, direction)))
            },
        }
    }
}

/// What the three constructors build: the kind, the colour and the one
/// parameter that the kind has.
pub proof fn lemma_material_parts(color: Vector3, fuzz: Scalar, index_of_refraction: Scalar)
    ensures
        Material::lambertian(color).kind() == MaterialType::Lambertian,
        Material::lambertian(color).albedo() == color,
        Material::lambertian(color).fuzz() is None,
        Material::lambertian(color).index_of_refraction() is None,
        Material::metal(color, fuzz).kind() == MaterialType::Metal,
        Material::metal(color, fuzz).albedo() == color,
        Material::metal(color, fuzz).fuzz() == Some(fuzz),
        Material::metal(color, fuzz).index_of_refraction() is None,
        Material::dielectric(index_of_refraction).kind() == MaterialType::Dielectric,
        Material::dielectric(index_of_refraction).fuzz() is None,
        Material::dielectric(index_of_refraction).index_of_refraction() == Some(
            index_of_refraction,
        ),
{
}

/// A diffuse surface with a normal that is not near zero never scatters
/// along a direction that is near zero, whatever was sampled.
pub proof fn lemma_diffuse_direction_never_vanishes(
    m: Material,
    rec: HitRecord,
    direction: Vector3,
)
    requires
        !rec.normal.is_near_zero(),
    ensures
        match m.scattered(rec, ScatterSample::Lambertian { direction }) {
            Some((_, out)) => !out.direction.is_near_zero(),
            None => false,
        },
{
}

/// A dielectric sample whose scaled sine is at most one is never turned
/// back by total internal reflection: whether it reflects is then left to
/// the draw alone.
pub proof fn lemma_no_total_internal_reflection(sample: ScatterSample)
    requires
        sample is Dielectric,
        sample->sin_scaled.at_most(Scalar { bits: ONE_BITS }),
    ensures
        !sample.total_internal_reflection(),
        sample.reflects() == sample->draw.less(sample->reflectance),
{
}

} // verus!
