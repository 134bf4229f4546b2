use pathtracer::math::{accept_in_unit, clamp, in_hemisphere};
use pathtracer::ray::Ray;
use pathtracer::scalar::Scalar;
use pathtracer::vec::{Vector3, NEAR_ZERO_BITS};

fn s(x: f64) -> Scalar {
    Scalar::from_bits(x.to_bits())
}

fn v(x: f64, y: f64, z: f64) -> Vector3 {
    Vector3::new(s(x), s(y), s(z))
}

#[test]
fn zero_vector_has_three_zero_components() {
    assert_eq!(Vector3::zero(), v(0.0, 0.0, 0.0));
}

#[test]
fn new_vector_keeps_its_components() {
    let a = v(1.0, -2.0, 3.5);
    assert_eq!(a.x, s(1.0));
    assert_eq!(a.y, s(-2.0));
    assert_eq!(a.z, s(3.5));
}

#[test]
fn vector_inherit_replaces_every_component() {
    let mut a = v(1.0, 2.0, 3.0);
    a.inherit(v(4.0, 5.0, 6.0));
    assert_eq!(a, v(4.0, 5.0, 6.0));
}

#[test]
fn near_zero_threshold_is_exclusive() {
    assert_eq!(NEAR_ZERO_BITS, 1e-8f64.to_bits());
    assert!(v(0.0, 0.0, 0.0).near_zero());
    assert!(v(9.9e-9, -9.9e-9, 5e-324).near_zero());
    assert!(v(-0.0, 0.0, -1e-9).near_zero());
    assert!(!v(1e-8, 0.0, 0.0).near_zero());
    assert!(!v(0.0, -1e-8, 0.0).near_zero());
    assert!(!v(0.0, 0.0, 1.0).near_zero());
    assert!(!v(f64::NAN, 0.0, 0.0).near_zero());
}

#[test]
fn negation_negates_every_component() {
    assert_eq!(-v(1.0, -2.0, 0.0), v(-1.0, 2.0, -0.0));
    assert_eq!(-(-v(1.0, -2.0, 3.0)), v(1.0, -2.0, 3.0));
}

#[test]
fn negation_keeps_near_zero() {
    let tiny = v(1e-9, -1e-10, 0.0);
    assert!(tiny.near_zero());
    assert!((-tiny).near_zero());
    let big = v(1e-9, -1.0, 0.0);
    assert!(!big.near_zero());
    assert!(!(-big).near_zero());
}

#[test]
fn ray_new_keeps_origin_and_direction() {
    let r = Ray::new(v(1.0, 2.0, 3.0), v(0.0, 1.0, 0.0));
    assert_eq!(r.origin, v(1.0, 2.0, 3.0));
    assert_eq!(r.direction, v(0.0, 1.0, 0.0));
}

#[test]
fn ray_zero_is_all_zero() {
    let r = Ray::zero();
    assert_eq!(r.origin, Vector3::zero());
    assert_eq!(r.direction, Vector3::zero());
}

#[test]
fn ray_inherit_replaces_both_parts() {
    let mut r = Ray::zero();
    let other = Ray::new(v(1.0, 2.0, 3.0), v(4.0, 5.0, 6.0));
    r.inherit(other);
    assert_eq!(r, other);
}

#[test]
fn clamp_holds_a_value_in_its_range() {
    assert_eq!(clamp(s(0.5), s(0.0), s(1.0)), s(0.5));
    assert_eq!(clamp(s(-0.5), s(0.0), s(1.0)), s(0.0));
    assert_eq!(clamp(s(1.5), s(0.0), s(1.0)), s(1.0));
    assert_eq!(clamp(s(0.0), s(0.0), s(1.0)), s(0.0));
    assert_eq!(clamp(s(1.0), s(0.0), s(1.0)), s(1.0));
    assert_eq!(clamp(s(f64::INFINITY), s(0.0), s(0.999)), s(0.999));
}

#[test]
fn clamp_leaves_what_is_not_a_number() {
    let nan = s(f64::NAN);
    assert_eq!(clamp(nan, s(0.0), s(1.0)), nan);
}

#[test]
fn rejection_keeps_points_inside_the_unit_ball() {
    let p = v(0.5, 0.5, 0.5);
    assert_eq!(accept_in_unit(p, s(0.75)), Some(p));
    assert_eq!(accept_in_unit(p, s(0.0)), Some(p));
    assert_eq!(accept_in_unit(p, s(0.999_999_999)), Some(p));
    assert_eq!(accept_in_unit(p, s(1.0)), None);
    assert_eq!(accept_in_unit(p, s(3.0)), None);
    assert_eq!(accept_in_unit(p, s(f64::INFINITY)), None);
}

#[test]
fn hemisphere_turns_a_sample_towards_the_normal() {
    let p = v(0.1, -0.2, 0.3);
    assert_eq!(in_hemisphere(p, s(0.4)), p);
    assert_eq!(in_hemisphere(p, s(-0.4)), -p);
    assert_eq!(in_hemisphere(p, s(0.0)), -p);
}
