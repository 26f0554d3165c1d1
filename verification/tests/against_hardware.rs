use floating_cat::{classify, Binary64, CatFloat};
use num::traits::Zero;

fn value(v: f64) -> Binary64 {
    Binary64::from_bits(v.to_bits())
}

fn float(b: Binary64) -> f64 {
    f64::from_bits(b.to_bits())
}

/// A fixed walk over the bit patterns.
fn next_pattern(state: &mut u64) -> u64 {
    let mut x: u64 = *state;
    x ^= x << 13;
    x ^= x >> 7;
    x ^= x << 17;
    *state = x;
    x
}

/// Patterns whose exponent lies where values have both parts.
fn mixed_pattern(state: &mut u64) -> u64 {
    let x: u64 = next_pattern(state);
    let sign: u64 = x & 0x8000_0000_0000_0000;
    let fraction: u64 = x & 0x000f_ffff_ffff_ffff;
    let exponent: u64 = 1023 + (x >> 52) % 54;
    sign | (exponent << 52) | fraction
}

/// The category as floating-point arithmetic gives it.
fn expected(v: f64) -> CatFloat {
    if v.is_infinite() {
        return CatFloat::Infinity;
    }
    if v.is_nan() {
        return CatFloat::Nan;
    }
    let int_part: f64 = v.trunc();
    let fract_part: f64 = v.fract();
    if fract_part.is_zero() {
        CatFloat::IntegerLike(value(int_part))
    } else if int_part.is_zero() {
        CatFloat::FractionLike(value(fract_part))
    } else {
        CatFloat::IntegerAndFractionalPart(value(int_part), value(fract_part))
    }
}

const EDGES: [f64; 24] = [
    0.0,
    -0.0,
    1.0,
    -1.0,
    0.5,
    -0.5,
    1.5,
    -1.5,
    0.2,
    -0.002,
    -100.0,
    2.75,
    0.9999999999999999,
    1.0000000000000002,
    4503599627370495.5,
    4503599627370496.0,
    9007199254740992.0,
    5e-324,
    2.2250738585072014e-308,
    1.7976931348623157e308,
    -1.7976931348623157e308,
    f64::INFINITY,
    f64::NEG_INFINITY,
    f64::NAN,
];

#[test]
fn trunc_matches_the_hardware_on_edges() {
    for v in EDGES {
        if v.is_finite() {
            assert_eq!(value(v).trunc().to_bits(), v.trunc().to_bits(), "{}", v);
        }
    }
}

#[test]
fn fract_matches_the_hardware_on_edges() {
    for v in EDGES {
        if v.is_finite() {
            assert_eq!(value(v).fract().to_bits(), v.fract().to_bits(), "{}", v);
        }
    }
}

#[test]
fn trunc_matches_the_hardware_on_many_patterns() {
    let mut state: u64 = 0x9e37_79b9_7f4a_7c15;
    for _ in 0..200_000 {
        let v = f64::from_bits(next_pattern(&mut state));
        if v.is_finite() {
            assert_eq!(value(v).trunc().to_bits(), v.trunc().to_bits(), "{:e}", v);
        }
        let w = f64::from_bits(mixed_pattern(&mut state));
        assert_eq!(value(w).trunc().to_bits(), w.trunc().to_bits(), "{:e}", w);
    }
}

#[test]
fn fract_matches_the_hardware_on_many_patterns() {
    let mut state: u64 = 0x2545_f491_4f6c_dd1d;
    for _ in 0..200_000 {
        let v = f64::from_bits(next_pattern(&mut state));
        if v.is_finite() {
            assert_eq!(value(v).fract().to_bits(), v.fract().to_bits(), "{:e}", v);
        }
        let w = f64::from_bits(mixed_pattern(&mut state));
        assert_eq!(value(w).fract().to_bits(), w.fract().to_bits(), "{:e}", w);
    }
}

#[test]
fn category_matches_floating_point_arithmetic() {
    for v in EDGES {
        assert_eq!(classify(value(v)), expected(v), "{}", v);
    }
    let mut state: u64 = 0x0123_4567_89ab_cdef;
    for _ in 0..200_000 {
        let v = f64::from_bits(next_pattern(&mut state));
        assert_eq!(classify(value(v)), expected(v), "{:e}", v);
        let w = f64::from_bits(mixed_pattern(&mut state));
        assert_eq!(classify(value(w)), expected(w), "{:e}", w);
    }
}

#[test]
fn every_exponent_is_classified_as_arithmetic_does() {
    for exponent in 0u64..2048 {
        for fraction in [
            0u64,
            1,
            2,
            0x0008_0000_0000_0000,
            0x0008_0000_0000_0001,
            0x000a_aaaa_aaaa_aaaa,
            0x000f_ffff_ffff_fffe,
            0x000f_ffff_ffff_ffff,
        ] {
            for sign in [0u64, 0x8000_0000_0000_0000] {
                let v = f64::from_bits(sign | (exponent << 52) | fraction);
                assert_eq!(classify(value(v)), expected(v), "{:e}", v);
            }
        }
    }
}

#[test]
fn every_split_point_of_the_significand() {
    // one fraction bit set at a time, under each exponent that leaves it
    // on one or the other side of the binary point
    for exponent in 1023u64..1076 {
        for bit in 0u64..52 {
            let v = f64::from_bits((exponent << 52) | (1u64 << bit));
            assert_eq!(value(v).trunc().to_bits(), v.trunc().to_bits());
            assert_eq!(value(v).fract().to_bits(), v.fract().to_bits());
            assert_eq!(classify(value(-v)), expected(-v));
        }
    }
}

#[test]
fn predicates_match_the_hardware() {
    let mut state: u64 = 0xdead_beef_cafe_f00d;
    let mut patterns: Vec<u64> = EDGES.iter().map(|v| v.to_bits()).collect();
    for _ in 0..10_000 {
        patterns.push(next_pattern(&mut state));
    }
    for exponent in [0u64, 1, 2046, 2047] {
        for fraction in [0u64, 1, 0x000f_ffff_ffff_ffff] {
            patterns.push((exponent << 52) | fraction);
            patterns.push(0x8000_0000_0000_0000 | (exponent << 52) | fraction);
        }
    }
    for bits in patterns {
        let v = f64::from_bits(bits);
        let b = Binary64::from_bits(bits);
        assert_eq!(b.is_nan(), v.is_nan());
        assert_eq!(b.is_infinite(), v.is_infinite());
        assert_eq!(b.is_finite(), v.is_finite());
        assert_eq!(b.is_sign_negative(), v.is_sign_negative());
        assert_eq!(b.is_zero(), v.is_zero());
        assert_eq!(b.to_bits(), bits);
    }
}

#[test]
fn zero_test_is_that_of_the_num_traits() {
    assert!(value(0.0).is_zero() && Zero::is_zero(&0.0f64));
    assert!(value(-0.0).is_zero() && Zero::is_zero(&-0.0f64));
    assert!(!value(5e-324).is_zero() && !Zero::is_zero(&5e-324f64));
    assert!(!value(f64::NAN).is_zero() && !Zero::is_zero(&f64::NAN));
    assert!(!value(f64::INFINITY).is_zero() && !Zero::is_zero(&f64::INFINITY));
    assert!(!value(-1.0).is_zero() && !Zero::is_zero(&-1.0f64));
}

#[test]
fn trunc_has_exact_values() {
    assert_eq!(float(value(2.75).trunc()), 2.0);
    assert_eq!(float(value(-2.75).trunc()), -2.0);
    assert_eq!(float(value(1e10 + 0.5).trunc()), 1e10);
    assert_eq!(value(0.75).trunc().to_bits(), 0);
    assert_eq!(value(-0.75).trunc().to_bits(), 0x8000_0000_0000_0000);
    assert_eq!(value(7.0).trunc(), value(7.0));
}

#[test]
fn fract_has_exact_values() {
    assert_eq!(float(value(2.75).fract()), 0.75);
    assert_eq!(float(value(-2.75).fract()), -0.75);
    assert_eq!(float(value(0.75).fract()), 0.75);
    assert_eq!(float(value(1024.001953125).fract()), 0.001953125);
    // a whole value leaves the positive zero, whatever its sign
    assert_eq!(value(7.0).fract().to_bits(), 0);
    assert_eq!(value(-7.0).fract().to_bits(), 0);
    assert_eq!(value(-0.0).fract().to_bits(), 0);
    assert_eq!(value(1e300).fract().to_bits(), 0);
}

#[test]
fn parts_of_what_is_not_finite() {
    for v in [f64::INFINITY, f64::NEG_INFINITY, f64::NAN] {
        assert_eq!(value(v).trunc(), value(v));
        assert_eq!(value(v).fract().to_bits(), 0x7ff8_0000_0000_0000);
        assert!(float(value(v).fract()).is_nan());
        assert!(v.fract().is_nan());
    }
}
