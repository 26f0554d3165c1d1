//! The binary64 interchange format: one sign bit, eleven exponent bits and
//! fifty-two fraction bits.
//!
//! A value is held as its bit pattern. Every finite value is a whole multiple
//! of the smallest subnormal, `2^-1074`, so its size has an exact model as a
//! natural number of such units: the [`Binary64::magnitude`].

use vstd::prelude::*;
use vstd::arithmetic::power2::{pow2, lemma2_to64, lemma2_to64_rest, lemma_pow2_adds, lemma_pow2_pos, lemma_pow2_unfold};
use vstd::arithmetic::div_mod::{lemma_basic_div, lemma_fundamental_div_mod, lemma_mod_multiples_basic, lemma_mod_multiples_vanish, lemma_small_mod};
use vstd::arithmetic::mul::{lemma_mul_equality_converse, lemma_mul_is_associative, lemma_mul_is_commutative, lemma_mul_strictly_positive};
use vstd::bits::lemma_u64_shl_is_mul;
use crate::power::{lemma_pow2_exponent_lt, lemma_pow2_monotonic, lemma_scaled_bounds, lemma_scaled_div_mod};

verus! {

/// The sign bit.
pub const SIGN_BIT: u64 = 0x8000_0000_0000_0000;

/// The implicit leading bit of a normal significand, `2^52`.
pub const HIDDEN_BIT: u64 = 0x0010_0000_0000_0000;

/// The bit pattern of positive infinity: all exponent bits set, no fraction
/// bit set.
pub const INFINITY_BITS: u64 = 0x7ff0_0000_0000_0000;

/// The bit pattern of the quiet NaN with no payload and no sign.
pub const QUIET_NAN_BITS: u64 = 0x7ff8_0000_0000_0000;

/// The biased exponent of the values in `[1, 2)`.
pub const EXPONENT_BIAS: u64 = 1023;

/// The least biased exponent at which every value is a whole number:
/// there the last place of the significand counts ones.
pub const WHOLE_EXPONENT: u64 = 1075;

/// The magnitude of the number one, in units of `2^-1074`.
pub open spec fn one() -> nat {
    pow2(1074)
}

/// A 64-bit binary floating-point value, held as its bit pattern.
#[derive(Debug, Clone, Copy, PartialEq, Eq, Structural)]
pub struct Binary64 {
    pub bits: u64,
}

impl Binary64 {
    /// Whether the sign bit is set. It may be set on a zero and on a NaN.
    pub open spec fn sign_negative(self) -> bool {
        self.bits >= SIGN_BIT
    }

    /// The bit pattern without its sign bit.
    pub open spec fn abs_bits(self) -> nat {
        if self.bits >= SIGN_BIT {
            (self.bits - SIGN_BIT) as nat
        } else {
            self.bits as nat
        }
    }

    /// The eleven exponent bits, as a number from 0 to 2047.
    pub open spec fn biased_exponent(self) -> nat {
        self.abs_bits() / (HIDDEN_BIT as nat)
    }

    /// The fifty-two fraction bits.
    pub open spec fn fraction(self) -> nat {
        self.abs_bits() % (HIDDEN_BIT as nat)
    }

    /// Zero, subnormal or normal: neither an infinity nor a NaN.
    pub open spec fn finite(self) -> bool {
        self.abs_bits() < INFINITY_BITS
    }

    /// Positive or negative infinity.
    pub open spec fn infinite(self) -> bool {
        self.abs_bits() == INFINITY_BITS
    }

    /// Not a number: all exponent bits set and some fraction bit set.
    pub open spec fn nan(self) -> bool {
        self.abs_bits() > INFINITY_BITS
    }

    /// Positive or negative zero.
    pub open spec fn zero(self) -> bool {
        self.abs_bits() == 0
    }

    /// The significand as a whole number: the fraction bits, with the
    /// implicit leading bit unless the value is zero or subnormal.
    pub open spec fn significand(self) -> nat {
        if self.biased_exponent() == 0 {
            self.fraction()
        } else {
            HIDDEN_BIT as nat + self.fraction()
        }
    }

    /// The power of two that the significand is multiplied by, counted from
    /// `2^-1074`. Subnormals and the lowest normal binade share scale 0.
    pub open spec fn scale(self) -> nat {
        if self.biased_exponent() == 0 {
            0
        } else {
            (self.biased_exponent() - 1) as nat
        }
    }

    /// The absolute value of a finite value, in units of `2^-1074`.
    pub open spec fn magnitude(self) -> nat
        recommends
            self.finite(),
    {
        self.significand() * pow2(self.scale())
    }

    /// The finite value itself, in units of `2^-1074`. Both zeros have
    /// value 0.
    pub open spec fn value(self) -> int
        recommends
            self.finite(),
    {
        if self.sign_negative() {
            -(self.magnitude() as int)
        } else {
            self.magnitude() as int
        }
    }

    /// The magnitude rounded down to a whole number (a multiple of
    /// [`one`]).
    pub open spec fn whole_magnitude(self) -> nat
        recommends
            self.finite(),
    {
        (self.magnitude() / one()) * one()
    }

    /// What of the magnitude is left above the last whole number.
    pub open spec fn fract_magnitude(self) -> nat
        recommends
            self.finite(),
    {
        self.magnitude() % one()
    }

    /// `self` is the integer part of the finite value `x`: `x` truncated
    /// toward zero, with the sign of `x` even where the result is zero.
    pub open spec fn is_int_part_of(self, x: Binary64) -> bool
        recommends
            x.finite(),
    {
        &&& self.finite()
        &&& self.sign_negative() == x.sign_negative()
        &&& self.magnitude() == x.whole_magnitude()
    }

    /// `self` is the fractional part of the finite value `x`: the
    /// difference of `x` and its integer part. It has the sign of `x`,
    /// except that a zero difference is the positive zero.
    pub open spec fn is_fract_part_of(self, x: Binary64) -> bool
        recommends
            x.finite(),
    {
        &&& self.finite()
        &&& self.sign_negative() == (x.sign_negative() && x.fract_magnitude() != 0)
        &&& self.magnitude() == x.fract_magnitude()
    }

    /// The value with the given bit pattern.
    pub fn from_bits(bits: u64) -> (r: Binary64)
        ensures
            r.bits == bits,
    {
        Binary64 { bits }
    }

    /// The bit pattern of the value.
    pub fn to_bits(&self) -> (r: u64)
        ensures
            r == self.bits,
    {
        self.bits
    }

    /// Whether the sign bit is set.
    pub fn is_sign_negative(&self) -> (r: bool)
        ensures
            r == self.sign_negative(),
    {
        self.bits >= SIGN_BIT
    }

    /// The bit pattern with the sign bit cleared.
    fn abs(&self) -> (r: u64)
        ensures
            r == self.abs_bits(),
            r < SIGN_BIT,
    {
        let bits: u64 = self.bits;
        assert(bits & 0x7fff_ffff_ffff_ffff == if bits >= 0x8000_0000_0000_0000 {
            (bits - 0x8000_0000_0000_0000) as u64
        } else {
            bits
        }) by (bit_vector);
        bits & 0x7fff_ffff_ffff_ffff
    }

    /// The biased exponent.
    fn exponent(&self) -> (r: u64)
        ensures
            r == self.biased_exponent(),
            r <= 2047,
    {
        let a: u64 = self.abs();
        assert(a >> 52 == a / 0x0010_0000_0000_0000) by (bit_vector);
        a >> 52
    }

    /// Whether the value is neither infinite nor NaN.
    pub fn is_finite(&self) -> (r: bool)
        ensures
            r == self.finite(),
    {
        self.abs() < INFINITY_BITS
    }

    /// Whether the value is positive or negative infinity.
    pub fn is_infinite(&self) -> (r: bool)
        ensures
            r == self.infinite(),
    {
        self.abs() == INFINITY_BITS
    }

    /// Whether the value is a NaN.
    pub fn is_nan(&self) -> (r: bool)
        ensures
            r == self.nan(),
    {
        self.abs() > INFINITY_BITS
    }

    /// Whether the value is positive or negative zero.
    pub fn is_zero(&self) -> (r: bool)
        ensures
            r == self.zero(),
    {
        self.abs() == 0
    }

    /// The range of a finite magnitude: below `2^52` for zeros and
    /// subnormals, and in the binade `[2^(51 + e), 2^(52 + e))` for a normal
    /// value with biased exponent `e`.
    pub proof fn lemma_magnitude_range(self)
        requires
            self.finite(),
        ensures
            self.biased_exponent() == 0 ==> self.magnitude() == self.fraction()
                && self.magnitude() < pow2(52),
            self.biased_exponent() != 0 ==> pow2(51 + self.biased_exponent())
                <= self.magnitude() < pow2(52 + self.biased_exponent()),
    {
        lemma2_to64();
        lemma2_to64_rest();
        if self.biased_exponent() != 0 {
            lemma_scaled_bounds(self.significand(), 52, 53, self.scale());
        } else {
            assert(self.fraction() * pow2(0) == self.fraction()) by (nonlinear_arith)
                requires
                    pow2(0) == 1,
            ;
        }
    }

    /// A finite value is a zero exactly when its magnitude is 0.
    pub proof fn lemma_zero_magnitude(self)
        requires
            self.finite(),
        ensures
            self.zero() <==> self.magnitude() == 0,
    {
        lemma2_to64();
        self.lemma_magnitude_range();
        if self.biased_exponent() != 0 {
            lemma_pow2_pos(51 + self.biased_exponent());
        }
    }

    /// Sign and magnitude determine a finite value: no two bit patterns
    /// stand for the same signed magnitude.
    pub proof fn lemma_finite_determined(self, other: Binary64)
        requires
            self.finite(),
            other.finite(),
            self.sign_negative() == other.sign_negative(),
            self.magnitude() == other.magnitude(),
        ensures
            self == other,
    {
        let e1 = self.biased_exponent();
        let e2 = other.biased_exponent();
        self.lemma_magnitude_range();
        other.lemma_magnitude_range();
        if e1 != 0 {
            lemma_pow2_monotonic(52, 51 + e1);
        }
        if e2 != 0 {
            lemma_pow2_monotonic(52, 51 + e2);
        }
        if e1 != 0 && e2 != 0 {
            lemma_pow2_exponent_lt(51 + e1, 52 + e2);
            lemma_pow2_exponent_lt(51 + e2, 52 + e1);
        }
        lemma_pow2_pos(self.scale());
        lemma_mul_is_commutative(self.significand() as int, pow2(self.scale()) as int);
        lemma_mul_is_commutative(other.significand() as int, pow2(self.scale()) as int);
        lemma_mul_equality_converse(
            pow2(self.scale()) as int,
            self.significand() as int,
            other.significand() as int,
        );
    }

    /// Below the exponent of one, a value is all fraction.
    pub proof fn lemma_below_one(self)
        requires
            self.biased_exponent() < EXPONENT_BIAS,
        ensures
            self.magnitude() < one(),
            self.whole_magnitude() == 0,
            self.fract_magnitude() == self.magnitude(),
    {
        let e = self.biased_exponent();
        self.lemma_magnitude_range();
        lemma_pow2_monotonic(52, 1074);
        lemma_pow2_monotonic(52 + e, 1074);
        lemma_basic_div(self.magnitude() as int, one() as int);
        lemma_small_mod(self.magnitude(), one());
    }

    /// From the exponent at which the last place counts ones, a finite
    /// value is whole.
    pub proof fn lemma_whole_from_exponent(self)
        requires
            self.finite(),
            self.biased_exponent() >= WHOLE_EXPONENT,
        ensures
            self.whole_magnitude() == self.magnitude(),
            self.fract_magnitude() == 0,
    {
        let s = self.significand() as int;
        let above = pow2((self.biased_exponent() - WHOLE_EXPONENT) as nat) as int;
        let unit = one() as int;
        lemma_pow2_pos(1074);
        lemma_pow2_adds((self.biased_exponent() - WHOLE_EXPONENT) as nat, 1074);
        lemma_mul_is_associative(s, above, unit);
        lemma_mod_multiples_basic(s * above, unit);
        lemma_fundamental_div_mod(self.magnitude() as int, unit);
        lemma_mul_is_commutative(unit, self.magnitude() as int / unit);
    }

    /// Between those exponents, the lowest `k = 1075 - e` bits of the
    /// significand are the fraction and the bits above them the whole part.
    pub proof fn lemma_split_at(self, k: nat)
        requires
            EXPONENT_BIAS <= self.biased_exponent() < WHOLE_EXPONENT,
            k == WHOLE_EXPONENT - self.biased_exponent(),
        ensures
            self.abs_bits() % pow2(k) == self.significand() % pow2(k),
            self.abs_bits() % pow2(k) <= self.fraction(),
            self.whole_magnitude() == (self.significand() - self.significand() % pow2(k))
                * pow2(self.scale()),
            self.fract_magnitude() == (self.significand() % pow2(k)) * pow2(self.scale()),
    {
        let e = self.biased_exponent() as int;
        let m = self.fraction() as int;
        let s = self.significand() as int;
        let d = pow2(k) as int;
        let high = pow2((52 - k) as nat) as int;
        let p = pow2(self.scale()) as int;
        lemma2_to64_rest();
        lemma_pow2_pos(k);
        lemma_pow2_adds(k, (52 - k) as nat);
        lemma_pow2_adds(k, self.scale());
        // Both the bits above the fraction and the hidden bit are multiples
        // of 2^k.
        assert(self.abs_bits() == d * (e * high) + m) by (nonlinear_arith)
            requires
                self.abs_bits() == e * 0x0010_0000_0000_0000 + m,
                d * high == 0x0010_0000_0000_0000,
        ;
        lemma_mod_multiples_vanish(e * high, m, d);
        lemma_mod_multiples_vanish(high, m, d);
        lemma_small_mod_le(m, d);
        // The magnitude splits as the significand does.
        lemma_scaled_div_mod(s as nat, k, self.scale());
        lemma_fundamental_div_mod(s, d);
        assert((s / d) * (d * p) == (s - s % d) * p) by (nonlinear_arith)
            requires
                s == d * (s / d) + s % d,
        ;
    }

    /// Which parts a finite value has, read off its bit pattern: it has a
    /// whole part from the exponent of one on, and it has no fraction if it
    /// is a zero, if its last place counts ones or more, or if the bits
    /// below the binary point are all clear.
    pub proof fn lemma_parts_from_bits(self)
        requires
            self.finite(),
        ensures
            self.whole_magnitude() == 0 <==> self.biased_exponent() < EXPONENT_BIAS,
            self.fract_magnitude() == 0 <==> self.zero() || self.biased_exponent()
                >= WHOLE_EXPONENT || (self.biased_exponent() >= EXPONENT_BIAS && self.abs_bits()
                % pow2((WHOLE_EXPONENT - self.biased_exponent()) as nat) == 0),
    {
        let e = self.biased_exponent();
        let p = pow2(self.scale()) as int;
        lemma_pow2_pos(self.scale());
        self.lemma_zero_magnitude();
        if e < EXPONENT_BIAS {
            self.lemma_below_one();
        } else if e >= WHOLE_EXPONENT {
            self.lemma_whole_from_exponent();
        } else {
            let k = (WHOLE_EXPONENT - e) as nat;
            let low = (self.significand() % pow2(k)) as int;
            let high = self.significand() - low;
            self.lemma_split_at(k);
            lemma2_to64_rest();
            lemma_pow2_pos(k);
            lemma_pow2_monotonic(k, 52);
            lemma_mul_strictly_positive(high, p);
            if low != 0 {
                lemma_mul_strictly_positive(low, p);
            } else {
                assert(0 * p == 0);
            }
        }
    }

    /// The two parts of a finite value add up to it exactly, and neither
    /// has a sign against it.
    pub proof fn lemma_parts_sum(self, int_part: Binary64, fract_part: Binary64)
        requires
            self.finite(),
            int_part.is_int_part_of(self),
            fract_part.is_fract_part_of(self),
        ensures
            int_part.value() + fract_part.value() == self.value(),
            self.value() >= 0 ==> int_part.value() >= 0 && fract_part.value() >= 0,
            self.value() <= 0 ==> int_part.value() <= 0 && fract_part.value() <= 0,
    {
        lemma_pow2_pos(1074);
        lemma_fundamental_div_mod(self.magnitude() as int, one() as int);
        lemma_mul_is_commutative(one() as int, self.magnitude() as int / one() as int);
    }

    /// A finite value is whole exactly when it is its own integer part, and
    /// has no whole part exactly when it is its own fractional part or a
    /// zero.
    pub proof fn lemma_own_part(self)
        requires
            self.finite(),
        ensures
            self.fract_magnitude() == 0 <==> self.is_int_part_of(self),
            self.whole_magnitude() == 0 && !self.zero() <==> self.is_fract_part_of(self)
                && !self.zero(),
    {
        lemma_pow2_pos(1074);
        lemma_fundamental_div_mod(self.magnitude() as int, one() as int);
        lemma_mul_is_commutative(one() as int, self.magnitude() as int / one() as int);
        self.lemma_zero_magnitude();
    }

    /// The integer part of the value: the value truncated toward zero. It
    /// keeps the sign, so that a negative value above minus one gives the
    /// negative zero. An infinity or a NaN is returned as it is.
    pub fn trunc(&self) -> (r: Binary64)
        ensures
            self.finite() ==> r.is_int_part_of(*self),
            !self.finite() ==> r == *self,
    {
        let e: u64 = self.exponent();
        if e < EXPONENT_BIAS {
            let bits: u64 = self.bits;
            assert(bits & 0x8000_0000_0000_0000 == if bits >= 0x8000_0000_0000_0000 {
                0x8000_0000_0000_0000u64
            } else {
                0u64
            }) by (bit_vector);
            let r = Binary64 { bits: bits & SIGN_BIT };
            proof {
                self.lemma_below_one();
                r.lemma_zero_magnitude();
            }
            r
        } else if e >= WHOLE_EXPONENT {
            proof {
                if self.finite() {
                    self.lemma_whole_from_exponent();
                }
            }
            *self
        } else {
            let k: u64 = WHOLE_EXPONENT - e;
            let unit: u64 = 1u64 << k;
            proof {
                lemma2_to64_rest();
                lemma_pow2_pos(k as nat);
                lemma_pow2_monotonic(k as nat, 52);
                lemma_u64_shl_is_mul(1, k);
                self.lemma_split_at(k as nat);
            }
            let below: u64 = self.abs() % unit;
            let r = Binary64 { bits: self.bits - below };
            r
        }
    }

    /// The finite value of magnitude `significand * 2^(exponent - 1)` with
    /// the given sign, for a significand that may still lack its leading
    /// bit: it is brought up to the hidden bit, and the exponent down with
    /// it.
    fn normalized(negative: bool, significand: u64, exponent: u64) -> (r: Binary64)
        requires
            0 < significand < 2 * HIDDEN_BIT,
            53 <= exponent <= 2046,
        ensures
            r.finite(),
            r.sign_negative() == negative,
            r.magnitude() == significand * pow2((exponent - 1) as nat),
    {
        let mut s: u64 = significand;
        let mut e: u64 = exponent;
        proof {
            lemma2_to64();
        }
        while s < HIDDEN_BIT
            invariant
                0 < s < 2 * HIDDEN_BIT,
                53 <= exponent <= 2046,
                e <= exponent <= e + 52,
                pow2((exponent - e) as nat) <= s,
                s * pow2((e - 1) as nat) == significand * pow2((exponent - 1) as nat),
            decreases e,
        {
            proof {
                lemma2_to64_rest();
                lemma_pow2_exponent_lt((exponent - e) as nat, 52);
                lemma_pow2_unfold((exponent - e + 1) as nat);
                lemma_pow2_unfold((e - 1) as nat);
                assert((2 * s) * pow2((e - 2) as nat) == s * pow2((e - 1) as nat))
                    by (nonlinear_arith)
                    requires
                        pow2((e - 1) as nat) == 2 * pow2((e - 2) as nat),
                ;
            }
            s = 2 * s;
            e = e - 1;
        }
        let sign: u64 = if negative {
            SIGN_BIT
        } else {
            0
        };
        assert(sign | (e << 52) | (s & 0x000f_ffff_ffff_ffff) == sign + e * 0x0010_0000_0000_0000
            + (s - 0x0010_0000_0000_0000)) by (bit_vector)
            requires
                sign == 0 || sign == 0x8000_0000_0000_0000,
                e <= 2046,
                0x0010_0000_0000_0000 <= s < 0x0020_0000_0000_0000,
        ;
        let r = Binary64 { bits: sign | (e << 52) | (s & 0x000f_ffff_ffff_ffff) };
        r
    }

    /// The fractional part of the value: what is left of it when its
    /// integer part is taken away. It has the sign of the value, but a
    /// whole value leaves the positive zero. An infinity or a NaN has no
    /// fractional part: for them the quiet NaN is returned.
    pub fn fract(&self) -> (r: Binary64)
        ensures
            self.finite() ==> r.is_fract_part_of(*self),
            !self.finite() ==> r.bits == QUIET_NAN_BITS,
    {
        let a: u64 = self.abs();
        let e: u64 = self.exponent();
        let zero = Binary64 { bits: 0 };
        proof {
            zero.lemma_zero_magnitude();
        }
        if a >= INFINITY_BITS {
            Binary64 { bits: QUIET_NAN_BITS }
        } else if e < EXPONENT_BIAS {
            proof {
                self.lemma_below_one();
                self.lemma_zero_magnitude();
            }
            if a == 0 {
                zero
            } else {
                *self
            }
        } else if e >= WHOLE_EXPONENT {
            proof {
                self.lemma_whole_from_exponent();
            }
            zero
        } else {
            let k: u64 = WHOLE_EXPONENT - e;
            let unit: u64 = 1u64 << k;
            proof {
                lemma2_to64_rest();
                lemma_pow2_pos(k as nat);
                lemma_pow2_pos(self.scale());
                lemma_pow2_monotonic(k as nat, 52);
                lemma_u64_shl_is_mul(1, k);
                self.lemma_split_at(k as nat);
            }
            let below: u64 = a % unit;
            if below == 0 {
                assert(0 * pow2(self.scale()) == 0);
                zero
            } else {
                proof {
                    lemma_mul_strictly_positive(below as int, pow2(self.scale()) as int);
                }
                Self::normalized(self.is_sign_negative(), below, e)
            }
        }
    }
}

/// A remainder is no more than what was divided.
proof fn lemma_small_mod_le(x: int, d: int)
    requires
        0 <= x,
        0 < d,
    ensures
        0 <= x % d <= x,
{
    lemma_fundamental_div_mod(x, d);
    assert(0 <= d * (x / d)) by (nonlinear_arith)
        requires
            0 <= x,
            0 < d,
            x == d * (x / d) + x % d,
            0 <= x % d < d,
    ;
}

} // verus!
