use pathtracer::scalar::{Scalar, BYTE_END_BITS, INFINITY_BITS, ONE_BITS, SIGN_BIT};

fn s(x: f64) -> Scalar {
    Scalar::from_bits(x.to_bits())
}

fn f(x: Scalar) -> f64 {
    f64::from_bits(x.to_bits())
}

fn samples() -> Vec<f64> {
    vec![
        0.0,
        -0.0,
        1.0,
        -1.0,
        0.5,
        -0.5,
        1e-8,
        -1e-8,
        0.001,
        255.999,
        1e300,
        -1e300,
        f64::MIN_POSITIVE,
        -f64::MIN_POSITIVE,
        5e-324,
        -5e-324,
        f64::MAX,
        f64::MIN,
        f64::INFINITY,
        f64::NEG_INFINITY,
        f64::NAN,
        -f64::NAN,
        f64::from_bits(0x7FF0_0000_0000_0001),
        f64::from_bits(0xFFFF_FFFF_FFFF_FFFF),
    ]
}

#[test]
fn lt_agrees_with_the_order_of_values() {
    for &a in samples().iter() {
        for &b in samples().iter() {
            assert_eq!(s(a).lt(s(b)), a < b, "{:?} < {:?}", a, b);
        }
    }
}

#[test]
fn le_agrees_with_the_order_of_values() {
    for &a in samples().iter() {
        for &b in samples().iter() {
            assert_eq!(s(a).le(s(b)), a <= b, "{:?} <= {:?}", a, b);
        }
    }
}

#[test]
fn gt_agrees_with_the_order_of_values() {
    for &a in samples().iter() {
        for &b in samples().iter() {
            assert_eq!(s(a).gt(s(b)), a > b, "{:?} > {:?}", a, b);
        }
    }
}

#[test]
fn ge_agrees_with_the_order_of_values() {
    for &a in samples().iter() {
        for &b in samples().iter() {
            assert_eq!(s(a).ge(s(b)), a >= b, "{:?} >= {:?}", a, b);
        }
    }
}

#[test]
fn order_of_neighbouring_encodings() {
    let mut x = 1.0f64;
    for _ in 0..1000 {
        let next = f64::from_bits(x.to_bits() + 1);
        assert!(s(x).lt(s(next)));
        assert!(!s(next).lt(s(x)));
        assert!(s(-next).lt(s(-x)));
        x = next;
    }
}

#[test]
fn the_two_zeros_are_neither_below_nor_above_each_other() {
    assert!(!s(0.0).lt(s(-0.0)));
    assert!(!s(-0.0).lt(s(0.0)));
    assert!(s(0.0).le(s(-0.0)));
    assert!(s(-0.0).le(s(0.0)));
    assert_ne!(s(0.0), s(-0.0));
}

#[test]
fn nothing_compares_with_what_is_not_a_number() {
    let nan = s(f64::NAN);
    for &a in samples().iter() {
        assert!(!nan.lt(s(a)));
        assert!(!nan.le(s(a)));
        assert!(!s(a).lt(nan));
        assert!(!s(a).ge(nan));
    }
}

#[test]
fn is_nan_agrees_with_the_values() {
    for &a in samples().iter() {
        assert_eq!(s(a).is_nan(), a.is_nan(), "{:?}", a);
    }
}

#[test]
fn is_sign_negative_agrees_with_the_values() {
    for &a in samples().iter() {
        assert_eq!(s(a).is_sign_negative(), a.is_sign_negative(), "{:?}", a);
    }
}

#[test]
fn neg_flips_the_sign_and_nothing_else() {
    for &a in samples().iter() {
        assert_eq!(s(a).neg().to_bits(), (-a).to_bits(), "{:?}", a);
        assert_eq!(s(a).neg().neg(), s(a));
    }
    assert_eq!(s(2.5).neg(), s(-2.5));
}

#[test]
fn abs_clears_the_sign_and_nothing_else() {
    for &a in samples().iter() {
        assert_eq!(s(a).abs().to_bits(), a.abs().to_bits(), "{:?}", a);
    }
    assert_eq!(s(-2.5).abs(), s(2.5));
}

#[test]
fn to_byte_agrees_with_the_conversion_of_values() {
    for &a in samples().iter() {
        assert_eq!(s(a).to_byte(), a as u8, "{:?}", a);
    }
    let mut k = 0;
    while k <= 2048 {
        let x = k as f64 / 8.0;
        assert_eq!(s(x).to_byte(), x as u8, "{:?}", x);
        assert_eq!(s(-x).to_byte(), 0, "{:?}", -x);
        let below = f64::from_bits(x.to_bits().wrapping_sub(1));
        assert_eq!(s(below).to_byte(), below as u8, "{:?}", below);
        k += 1;
    }
}

#[test]
fn to_byte_takes_the_whole_part() {
    assert_eq!(s(0.0).to_byte(), 0);
    assert_eq!(s(0.999_999_999).to_byte(), 0);
    assert_eq!(s(1.0).to_byte(), 1);
    assert_eq!(s(1.999_999_999).to_byte(), 1);
    assert_eq!(s(127.5).to_byte(), 127);
    assert_eq!(s(254.999).to_byte(), 254);
    assert_eq!(s(255.0).to_byte(), 255);
    assert_eq!(s(255.999).to_byte(), 255);
    assert_eq!(s(256.0).to_byte(), 255);
    assert_eq!(s(255.999 * 0.5).to_byte(), 127);
    assert_eq!(s(255.999 * 1.0).to_byte(), 255);
}

#[test]
fn named_values_have_their_encodings() {
    assert_eq!(f(Scalar::zero()), 0.0);
    assert_eq!(Scalar::zero().to_bits(), 0);
    assert_eq!(f(Scalar::one()), 1.0);
    assert_eq!(ONE_BITS, 1.0f64.to_bits());
    assert_eq!(f(Scalar::infinity()), f64::INFINITY);
    assert_eq!(INFINITY_BITS, f64::INFINITY.to_bits());
    assert_eq!(SIGN_BIT, (-0.0f64).to_bits());
    assert_eq!(BYTE_END_BITS, 256.0f64.to_bits());
}

#[test]
fn from_bits_and_to_bits_are_inverse() {
    for &a in samples().iter() {
        assert_eq!(Scalar::from_bits(a.to_bits()).to_bits(), a.to_bits());
        assert_eq!(Scalar::from_bits(a.to_bits()).bits, a.to_bits());
    }
}
