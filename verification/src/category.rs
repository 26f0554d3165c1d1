//! The categories of a floating-point value, and the classification itself.

use vstd::prelude::*;
use vstd::arithmetic::div_mod::{lemma_fundamental_div_mod, lemma_mod_multiples_basic};
use vstd::arithmetic::mul::lemma_mul_strictly_positive;
use vstd::arithmetic::power2::lemma_pow2_pos;
use crate::binary64::{one, Binary64, EXPONENT_BIAS, WHOLE_EXPONENT};

verus! {

/// What a floating-point value is classified as.
#[derive(Debug, PartialEq, Eq, Copy, Clone, Structural)]
pub enum CatFloat {
    /// A value with no fractional part, such as one or minus one hundred.
    /// It holds the value's integer part.
    IntegerLike(Binary64),
    /// A value with no integer part, such as a half. It holds the value's
    /// fractional part.
    FractionLike(Binary64),
    /// The integer part and the fractional part of a value that has both,
    /// in that order.
    IntegerAndFractionalPart(Binary64, Binary64),
    /// The value was a NaN.
    Nan,
    /// The value was positive or negative infinity.
    Infinity,
}

/// Values that can be sorted into categories.
pub trait Category {
    /// What a value is classified as.
    type D;

    /// The category of the value.
    fn category(&self) -> Self::D;
}

impl CatFloat {
    /// `self` is the category of `x`. The infinities come first, then the
    /// NaNs; a finite value is told apart by which of its two parts are
    /// zero, the fractional part being asked first, so that a zero is
    /// integer-like.
    pub open spec fn is_category_of(self, x: Binary64) -> bool {
        if x.infinite() {
            self is Infinity
        } else if x.nan() {
            self is Nan
        } else if x.fract_magnitude() == 0 {
            self matches CatFloat::IntegerLike(i) && i.is_int_part_of(x)
        } else if x.whole_magnitude() == 0 {
            self matches CatFloat::FractionLike(f) && f.is_fract_part_of(x)
        } else {
            self matches CatFloat::IntegerAndFractionalPart(i, f) && i.is_int_part_of(x)
                && f.is_fract_part_of(x)
        }
    }

    /// Whether this is [`CatFloat::IntegerLike`].
    pub fn is_integer_like(&self) -> (r: bool)
        ensures
            r == (*self is IntegerLike),
    {
        matches!(self, Self::IntegerLike(..))
    }

    /// Whether this is [`CatFloat::FractionLike`].
    pub fn is_fraction_like(&self) -> (r: bool)
        ensures
            r == (*self is FractionLike),
    {
        matches!(self, Self::FractionLike(..))
    }

    /// Whether this is [`CatFloat::IntegerAndFractionalPart`].
    pub fn is_integer_and_fractional_part(&self) -> (r: bool)
        ensures
            r == (*self is IntegerAndFractionalPart),
    {
        matches!(self, Self::IntegerAndFractionalPart(..))
    }

    /// Whether this is [`CatFloat::Infinity`].
    pub fn is_infinity(&self) -> (r: bool)
        ensures
            r == (*self is Infinity),
    {
        matches!(self, Self::Infinity)
    }

    /// Whether this is [`CatFloat::Nan`].
    pub fn is_nan(&self) -> (r: bool)
        ensures
            r == (*self is Nan),
    {
        matches!(self, Self::Nan)
    }
}

/// Classifies a value. Every bit pattern has a category, and what the
/// category holds is well formed.
pub fn classify(value: Binary64) -> (c: CatFloat)
    ensures
        c.is_category_of(value),
        c.well_formed(),
{
    if value.is_infinite() {
        return CatFloat::Infinity;
    }
    if value.is_nan() {
        return CatFloat::Nan;
    }
    let int_part = value.trunc();
    let fract_part = value.fract();
    proof {
        int_part.lemma_zero_magnitude();
        fract_part.lemma_zero_magnitude();
    }
    let c = if fract_part.is_zero() {
        CatFloat::IntegerLike(int_part)
    } else if int_part.is_zero() {
        CatFloat::FractionLike(fract_part)
    } else {
        CatFloat::IntegerAndFractionalPart(int_part, fract_part)
    };
    proof {
        c.lemma_category_well_formed(value);
    }
    c
}

impl Category for Binary64 {
    type D = CatFloat;

    fn category(&self) -> (c: CatFloat)
        ensures
            c.is_category_of(*self),
            c.well_formed(),
    {
        classify(*self)
    }
}

/// 1 for a condition that holds, 0 for one that does not.
pub open spec fn count(holds: bool) -> nat {
    if holds {
        1
    } else {
        0
    }
}

impl CatFloat {
    /// What a category that came from a value holds: finite parts, a whole
    /// number for the integer part, a nonzero amount under one for the
    /// fractional part, and where there are two parts, no zero among them
    /// and one sign for both.
    pub open spec fn well_formed(self) -> bool {
        match self {
            CatFloat::IntegerLike(i) => i.finite() && i.fract_magnitude() == 0,
            CatFloat::FractionLike(f) => f.finite() && 0 < f.magnitude() < one(),
            CatFloat::IntegerAndFractionalPart(i, f) => {
                &&& i.finite()
                &&& i.fract_magnitude() == 0
                &&& i.magnitude() >= one()
                &&& f.finite()
                &&& 0 < f.magnitude() < one()
                &&& i.sign_negative() == f.sign_negative()
            },
            CatFloat::Nan => true,
            CatFloat::Infinity => true,
        }
    }

    /// A value has one category only: whatever is a category of `x` is the
    /// same variant with the same bit patterns in it.
    pub proof fn lemma_category_unique(self, other: CatFloat, x: Binary64)
        requires
            self.is_category_of(x),
            other.is_category_of(x),
        ensures
            self == other,
    {
        if x.finite() {
            match (self, other) {
                (CatFloat::IntegerLike(i), CatFloat::IntegerLike(j)) => {
                    i.lemma_finite_determined(j);
                },
                (CatFloat::FractionLike(f), CatFloat::FractionLike(g)) => {
                    f.lemma_finite_determined(g);
                },
                (
                    CatFloat::IntegerAndFractionalPart(i, f),
                    CatFloat::IntegerAndFractionalPart(j, g),
                ) => {
                    i.lemma_finite_determined(j);
                    f.lemma_finite_determined(g);
                },
                _ => {},
            }
        }
    }

    /// The category of a value is well formed. In particular no payload is
    /// a NaN or an infinity.
    pub proof fn lemma_category_well_formed(self, x: Binary64)
        requires
            self.is_category_of(x),
        ensures
            self.well_formed(),
    {
        if x.finite() {
            let m = x.magnitude() as int;
            let unit = one() as int;
            lemma_pow2_pos(1074);
            lemma_fundamental_div_mod(m, unit);
            lemma_mod_multiples_basic(m / unit, unit);
            if x.whole_magnitude() != 0 {
                lemma_mul_strictly_positive(m / unit, unit);
                assert((m / unit) * unit >= unit) by (nonlinear_arith)
                    requires
                        m / unit >= 1,
                        unit > 0,
                ;
            }
        }
    }

    /// Exactly one of the five predicates holds of a category.
    pub proof fn lemma_exactly_one_predicate(self)
        ensures
            count(self is IntegerLike) + count(self is FractionLike) + count(
                self is IntegerAndFractionalPart,
            ) + count(self is Nan) + count(self is Infinity) == 1,
    {
    }

    /// Where a value has both parts, they add up to it exactly, they have
    /// its sign, and neither is zero.
    pub proof fn lemma_parts_reconstruct(x: Binary64, int_part: Binary64, fract_part: Binary64)
        requires
            CatFloat::IntegerAndFractionalPart(int_part, fract_part).is_category_of(x),
        ensures
            x.finite(),
            int_part.value() + fract_part.value() == x.value(),
            int_part.sign_negative() == x.sign_negative(),
            fract_part.sign_negative() == x.sign_negative(),
            int_part.value() != 0,
            fract_part.value() != 0,
    {
        x.lemma_parts_sum(int_part, fract_part);
    }

    /// An integer-like value is its own payload, bit for bit: the sign is
    /// kept, on a zero too.
    pub proof fn lemma_integer_like_payload(x: Binary64, payload: Binary64)
        requires
            CatFloat::IntegerLike(payload).is_category_of(x),
        ensures
            payload == x,
    {
        x.lemma_own_part();
        payload.lemma_finite_determined(x);
    }

    /// A fraction-like value is its own payload, bit for bit.
    pub proof fn lemma_fraction_like_payload(x: Binary64, payload: Binary64)
        requires
            CatFloat::FractionLike(payload).is_category_of(x),
        ensures
            payload == x,
    {
        x.lemma_own_part();
        x.lemma_zero_magnitude();
        payload.lemma_finite_determined(x);
    }

    /// Both zeros are integer-like, never fraction-like.
    pub proof fn lemma_zero_is_integer_like(x: Binary64)
        requires
            x.zero(),
        ensures
            CatFloat::IntegerLike(x).is_category_of(x),
    {
        x.lemma_zero_magnitude();
        x.lemma_below_one();
        x.lemma_own_part();
    }

    /// A finite value so large that its last place counts ones or more is
    /// integer-like: no bit is left for a fraction.
    pub proof fn lemma_large_is_integer_like(x: Binary64)
        requires
            x.finite(),
            x.biased_exponent() >= WHOLE_EXPONENT,
        ensures
            CatFloat::IntegerLike(x).is_category_of(x),
    {
        x.lemma_whole_from_exponent();
        x.lemma_own_part();
    }

    /// A nonzero value under one in magnitude, subnormals among them, is
    /// fraction-like.
    pub proof fn lemma_small_is_fraction_like(x: Binary64)
        requires
            !x.zero(),
            x.biased_exponent() < EXPONENT_BIAS,
        ensures
            CatFloat::FractionLike(x).is_category_of(x),
    {
        x.lemma_below_one();
        x.lemma_zero_magnitude();
        x.lemma_own_part();
    }
}

} // verus!
