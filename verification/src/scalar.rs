//! Real quantities as binary64 encodings, and their order.

use vstd::prelude::*;
use vstd::arithmetic::div_mod::{
    lemma_basic_div, lemma_div_is_ordered, lemma_div_multiples_vanish_quotient,
    lemma_fundamental_div_mod_converse,
};
use vstd::arithmetic::power2::{
    lemma2_to64_rest, lemma_pow2_adds, lemma_pow2_pos, lemma_pow2_strictly_increases,
    lemma_pow2_unfold, pow2,
};

verus! {

/// The sign bit of an encoding: set for negative values and for negative zero.
pub const SIGN_BIT: u64 = 0x8000_0000_0000_0000;

/// The encoding of positive infinity. A magnitude above it encodes no number.
pub const INFINITY_BITS: u64 = 0x7FF0_0000_0000_0000;

/// Two to the power 52: the weight of the exponent field in an encoding,
/// and the hidden leading bit of a normal significand.
pub const HIDDEN_BIT: u64 = 0x10_0000_0000_0000;

/// The encoding of one.
pub const ONE_BITS: u64 = 0x3FF0_0000_0000_0000;

/// The encoding of 256, the first value above every byte.
pub const BYTE_END_BITS: u64 = 0x4070_0000_0000_0000;

/// A real quantity, held as the binary64 encoding of its value.
///
/// Equality of two `Scalar`s is equality of encodings. It is finer than
/// equality of values: the two zeros differ, and so do the encodings that
/// are not numbers.
#[derive(Clone, Copy, Debug, PartialEq, Eq, Structural)]
pub struct Scalar {
    pub bits: u64,
}

impl Scalar {
    /// Whether the sign bit is set.
    pub open spec fn sign(self) -> bool {
        self.bits >= SIGN_BIT
    }

    /// The encoding without its sign bit.
    pub open spec fn magnitude(self) -> int {
        if self.bits >= SIGN_BIT {
            self.bits - SIGN_BIT
        } else {
            self.bits as int
        }
    }

    /// Whether the encoding is not a number.
    pub open spec fn nan(self) -> bool {
        self.magnitude() > INFINITY_BITS
    }

    /// The place of the encoded value among all values: magnitudes grow with
    /// the encoding, and the sign mirrors them around zero. Both zeros have
    /// rank 0.
    pub open spec fn rank(self) -> int {
        if self.sign() {
            -self.magnitude()
        } else {
            self.magnitude()
        }
    }

    /// The exponent field of the encoding.
    pub open spec fn exponent(self) -> int {
        self.magnitude() / (HIDDEN_BIT as int)
    }

    /// The fraction field of the encoding.
    pub open spec fn fraction(self) -> int {
        self.magnitude() % (HIDDEN_BIT as int)
    }

    /// The size of the encoded value, counted in units of two to the power
    /// -1074, the smallest step between two values. A subnormal encoding
    /// counts its fraction; a normal one counts its significand, hidden bit
    /// included, doubled once for every exponent above one. The same
    /// count places infinity above everything finite.
    pub open spec fn units(self) -> int {
        if self.exponent() == 0 {
            self.fraction()
        } else {
            (HIDDEN_BIT + self.fraction()) * pow2((self.exponent() - 1) as nat)
        }
    }

    /// The encoded value, counted in units of two to the power -1074.
    pub open spec fn value(self) -> int {
        if self.sign() {
            -self.units()
        } else {
            self.units()
        }
    }

    /// The whole part of the encoded value, held to the range of a byte: 0
    /// for anything below one and for what is not a number, 255 for
    /// anything from 255 upwards.
    pub open spec fn byte(self) -> int {
        if self.nan() || self.sign() {
            0
        } else if self.units() / (pow2(1074) as int) > 255 {
            255
        } else {
            self.units() / (pow2(1074) as int)
        }
    }

    /// `self < other` as values. Nothing is below or above what is not a number.
    pub open spec fn less(self, other: Scalar) -> bool {
        !self.nan() && !other.nan() && self.rank() < other.rank()
    }

    /// `self <= other` as values.
    pub open spec fn at_most(self, other: Scalar) -> bool {
        !self.nan() && !other.nan() && self.rank() <= other.rank()
    }

    /// The encoding with its sign bit flipped.
    pub open spec fn negated(self) -> Scalar {
        if self.sign() {
            Scalar { bits: (self.bits - SIGN_BIT) as u64 }
        } else {
            Scalar { bits: (self.bits + SIGN_BIT) as u64 }
        }
    }

    /// The encoding with its sign bit cleared.
    pub open spec fn absolute(self) -> Scalar {
        Scalar { bits: self.magnitude() as u64 }
    }

    pub fn from_bits(bits: u64) -> (s: Scalar)
        ensures
            s.bits == bits,
    {
        Scalar { bits }
    }

    pub fn to_bits(self) -> (bits: u64)
        ensures
            bits == self.bits,
    {
        self.bits
    }

    pub fn zero() -> (s: Scalar)
        ensures
            s.bits == 0,
    {
        Scalar { bits: 0 }
    }

    pub fn one() -> (s: Scalar)
        ensures
            s.bits == ONE_BITS,
    {
        Scalar { bits: ONE_BITS }
    }

    pub fn infinity() -> (s: Scalar)
        ensures
            s.bits == INFINITY_BITS,
    {
        Scalar { bits: INFINITY_BITS }
    }

    pub fn is_sign_negative(self) -> (r: bool)
        ensures
            r == self.sign(),
    {
        self.bits >= SIGN_BIT
    }

    pub fn is_nan(self) -> (r: bool)
        ensures
            r == self.nan(),
    {
        self.abs().bits > INFINITY_BITS
    }

    pub fn abs(self) -> (r: Scalar)
        ensures
            r == self.absolute(),
            !r.sign(),
            r.magnitude() == self.magnitude(),
    {
        if self.bits >= SIGN_BIT {
            Scalar { bits: self.bits - SIGN_BIT }
        } else {
            self
        }
    }

    pub fn neg(self) -> (r: Scalar)
        ensures
            r == self.negated(),
            r.sign() == !self.sign(),
            r.magnitude() == self.magnitude(),
    {
        if self.bits >= SIGN_BIT {
            Scalar { bits: self.bits - SIGN_BIT }
        } else {
            Scalar { bits: self.bits + SIGN_BIT }
        }
    }

    /// Cuts the value down to a byte: its whole part, or the nearest end of
    /// the range 0 to 255 where that lies outside; 0 where the encoding is
    /// not a number.
    pub fn to_byte(self) -> (b: u8)
        ensures
            b == self.byte(),
    {
        if self.bits >= SIGN_BIT || self.bits > INFINITY_BITS {
            return 0;
        }
        if self.bits < ONE_BITS {
            proof {
                lemma_one_is_a_whole_unit();
                lemma_units_grow(self, Scalar { bits: ONE_BITS });
                lemma_basic_div(self.units(), pow2(1074) as int);
            }
            return 0;
        }
        if self.bits >= BYTE_END_BITS {
            proof {
                let end = Scalar { bits: BYTE_END_BITS };
                lemma_one_is_a_whole_unit();
                if self.bits > BYTE_END_BITS {
                    lemma_units_grow(end, self);
                }
                lemma_pow2_pos(1074);
                lemma_div_is_ordered(end.units(), self.units(), pow2(1074) as int);
                lemma_fundamental_div_mod_converse(end.units(), pow2(1074) as int, 256, 0);
            }
            return 255;
        }
        let exponent: u64 = self.bits / HIDDEN_BIT;
        let significand: u64 = HIDDEN_BIT + self.bits % HIDDEN_BIT;
        let shift: u64 = 1075 - exponent;
        let divisor: u64 = if shift == 52 {
            0x10_0000_0000_0000
        } else if shift == 51 {
            0x8_0000_0000_0000
        } else if shift == 50 {
            0x4_0000_0000_0000
        } else if shift == 49 {
            0x2_0000_0000_0000
        } else if shift == 48 {
            0x1_0000_0000_0000
        } else if shift == 47 {
            0x8000_0000_0000
        } else if shift == 46 {
            0x4000_0000_0000
        } else {
            0x2000_0000_0000
        };
        proof {
            lemma2_to64_rest();
            assert(45 <= shift <= 52);
            assert(divisor == pow2(shift as nat));
            let scale = pow2((exponent - 1) as nat) as int;
            lemma_pow2_pos((exponent - 1) as nat);
            lemma_pow2_adds((exponent - 1) as nat, shift as nat);
            assert(pow2(1074) == scale * divisor);
            assert(self.units() == significand * scale);
            lemma_div_multiples_vanish_quotient(scale, significand as int, divisor as int);
            assert(significand * scale == scale * significand) by (nonlinear_arith);
            assert(significand / divisor <= 255) by {
                lemma_div_is_ordered(significand as int, 0x20_0000_0000_0000 - 1, divisor as int);
                lemma_div_is_ordered_by_bound(divisor as int);
            }
        }
        (significand / divisor) as u8
    }

    pub fn lt(self, other: Scalar) -> (r: bool)
        ensures
            r == self.less(other),
    {
        if self.is_nan() || other.is_nan() {
            return false;
        }
        let a: u64 = self.abs().bits;
        let b: u64 = other.abs().bits;
        if self.is_sign_negative() {
            if other.is_sign_negative() {
                b < a
            } else {
                a > 0 || b > 0
            }
        } else {
            !other.is_sign_negative() && a < b
        }
    }

    pub fn le(self, other: Scalar) -> (r: bool)
        ensures
            r == self.at_most(other),
    {
        if self.is_nan() || other.is_nan() {
            return false;
        }
        !other.lt(self)
    }

    pub fn gt(self, other: Scalar) -> (r: bool)
        ensures
            r == other.less(self),
    {
        other.lt(self)
    }

    pub fn ge(self, other: Scalar) -> (r: bool)
        ensures
            r == other.at_most(self),
    {
        other.le(self)
    }
}

/// A larger magnitude encodes a larger size.
proof fn lemma_units_grow(a: Scalar, b: Scalar)
    requires
        a.magnitude() < b.magnitude(),
    ensures
        0 <= a.units() < b.units(),
{
    let p = HIDDEN_BIT as int;
    let (e1, f1) = (a.exponent(), a.fraction());
    let (e2, f2) = (b.exponent(), b.fraction());
    assert(a.magnitude() == e1 * p + f1 && 0 <= f1 < p && 0 <= e1) by {
        vstd::arithmetic::div_mod::lemma_fundamental_div_mod(a.magnitude(), p);
        vstd::arithmetic::div_mod::lemma_div_pos_is_pos(a.magnitude(), p);
    }
    assert(b.magnitude() == e2 * p + f2 && 0 <= f2 < p && 0 <= e2) by {
        vstd::arithmetic::div_mod::lemma_fundamental_div_mod(b.magnitude(), p);
        vstd::arithmetic::div_mod::lemma_div_pos_is_pos(b.magnitude(), p);
    }
    assert(e1 <= e2) by (nonlinear_arith)
        requires
            e1 * p + f1 < e2 * p + f2,
            0 <= f1 < p,
            0 <= f2 < p,
    ;
    if e1 == e2 {
        assert(f1 < f2);
        if e1 > 0 {
            let w = pow2((e1 - 1) as nat) as int;
            lemma_pow2_pos((e1 - 1) as nat);
            assert(0 <= (p + f1) * w < (p + f2) * w) by (nonlinear_arith)
                requires
                    0 <= f1 < f2,
                    w > 0,
                    p > 0,
            ;
        }
    } else {
        let w2 = pow2((e2 - 1) as nat) as int;
        lemma_pow2_pos((e2 - 1) as nat);
        assert(p * w2 <= (p + f2) * w2) by (nonlinear_arith)
            requires
                0 <= f2,
                w2 > 0,
        ;
        if e1 == 0 {
            assert(p <= p * w2) by (nonlinear_arith)
                requires
                    w2 >= 1,
                    p > 0,
            ;
        } else {
            let w1 = pow2((e1 - 1) as nat) as int;
            lemma_pow2_pos((e1 - 1) as nat);
            lemma_pow2_unfold(e1 as nat);
            if e1 < e2 - 1 {
                lemma_pow2_strictly_increases(e1 as nat, (e2 - 1) as nat);
            }
            assert(2 * w1 <= w2);
            assert(0 <= (p + f1) * w1 < p * w2) by (nonlinear_arith)
                requires
                    0 <= f1 < p,
                    w1 > 0,
                    2 * w1 <= w2,
            ;
        }
    }
}

/// One and 256 count as many units as their values say: one is two to the
/// power 1074 units, and 256 is 256 times as many.
proof fn lemma_one_is_a_whole_unit()
    ensures
        (Scalar { bits: ONE_BITS }).units() == pow2(1074),
        (Scalar { bits: BYTE_END_BITS }).units() == 256 * pow2(1074),
{
    lemma2_to64_rest();
    vstd::arithmetic::power2::lemma2_to64();
    let one = Scalar { bits: ONE_BITS };
    let end = Scalar { bits: BYTE_END_BITS };
    assert(one.exponent() == 1023 && one.fraction() == 0);
    assert(end.exponent() == 1031 && end.fraction() == 0);
    lemma_pow2_adds(52, 1022);
    lemma_pow2_adds(8, 1022);
    lemma_pow2_adds(60, 1014);
    lemma_pow2_adds(52, 1030);
    lemma_pow2_adds(8, 1022);
    assert(pow2(1030) == 256 * pow2(1022));
    assert(end.units() == 0x10_0000_0000_0000 * (256 * pow2(1022)));
    assert(0x10_0000_0000_0000 * (256 * pow2(1022)) == 256 * (0x10_0000_0000_0000 * pow2(1022)))
        by (nonlinear_arith);
}

/// No significand reaches 256 times a divisor of two to the power 45 or more.
proof fn lemma_div_is_ordered_by_bound(divisor: int)
    requires
        divisor >= 0x2000_0000_0000,
    ensures
        (0x20_0000_0000_0000 - 1) / divisor <= 255,
{
    vstd::arithmetic::div_mod::lemma_div_is_ordered_by_denominator(
        0x20_0000_0000_0000 - 1,
        0x2000_0000_0000,
        divisor,
    );
    lemma_fundamental_div_mod_converse(
        0x20_0000_0000_0000 - 1,
        0x2000_0000_0000,
        255,
        0x2000_0000_0000 - 1,
    );
}

/// The order of the encodings is the order of the values they encode: for
/// two encodings that are numbers, one ranks below the other exactly where
/// its value is the smaller, and the two rank alike exactly where they
/// encode one value.
pub proof fn lemma_rank_follows_value(a: Scalar, b: Scalar)
    ensures
        a.rank() < b.rank() <==> a.value() < b.value(),
        a.rank() == b.rank() <==> a.value() == b.value(),
        a.less(b) <==> !a.nan() && !b.nan() && a.value() < b.value(),
        a.at_most(b) <==> !a.nan() && !b.nan() && a.value() <= b.value(),
{
    let zero = Scalar { bits: 0 };
    assert(zero.units() == 0);
    if a.magnitude() > 0 {
        lemma_units_grow(zero, a);
    } else {
        assert(a.units() == 0);
    }
    if b.magnitude() > 0 {
        lemma_units_grow(zero, b);
    } else {
        assert(b.units() == 0);
    }
    if a.magnitude() < b.magnitude() {
        lemma_units_grow(a, b);
    } else if b.magnitude() < a.magnitude() {
        lemma_units_grow(b, a);
    } else {
        assert(a.units() == b.units());
    }
}

/// Among numbers the order is total: of two encodings that are numbers,
/// one is below the other or the two encode one value.
pub proof fn lemma_order_is_total(a: Scalar, b: Scalar)
    requires
        !a.nan(),
        !b.nan(),
    ensures
        a.less(b) || b.less(a) || a.value() == b.value(),
        a.at_most(b) <==> !b.less(a),
{
    lemma_rank_follows_value(a, b);
}

/// Negation mirrors the order and the values, and keeps what is not a
/// number so.
pub proof fn lemma_negation_mirrors(a: Scalar, b: Scalar)
    ensures
        a.negated().nan() == a.nan(),
        a.negated().value() == -a.value(),
        a.negated().negated() == a,
        a.less(b) <==> b.negated().less(a.negated()),
{
}

} // verus!
