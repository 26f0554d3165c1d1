//! Facts about products with powers of two, as the value model needs them.

use vstd::prelude::*;
use vstd::arithmetic::power2::{pow2, lemma_pow2_adds, lemma_pow2_pos, lemma_pow2_strictly_increases};
use vstd::arithmetic::div_mod::{lemma_div_multiples_vanish_quotient, lemma_truncate_middle};
use vstd::arithmetic::mul::{lemma_mul_inequality, lemma_mul_is_commutative, lemma_mul_strict_inequality};

verus! {

/// Powers of two grow with the exponent.
pub proof fn lemma_pow2_monotonic(a: nat, b: nat)
    requires
        a <= b,
    ensures
        pow2(a) <= pow2(b),
{
    if a < b {
        lemma_pow2_strictly_increases(a, b);
    }
}

/// A smaller power of two has a smaller exponent.
pub proof fn lemma_pow2_exponent_lt(a: nat, b: nat)
    requires
        pow2(a) < pow2(b),
    ensures
        a < b,
{
    if a >= b {
        lemma_pow2_monotonic(b, a);
    }
}

/// Scaling by `2^p` moves the bounds `2^lo <= s < 2^hi` up by `p`.
pub proof fn lemma_scaled_bounds(s: nat, lo: nat, hi: nat, p: nat)
    requires
        pow2(lo) <= s < pow2(hi),
    ensures
        pow2(lo + p) <= s * pow2(p) < pow2(hi + p),
{
    lemma_pow2_pos(p);
    lemma_pow2_adds(lo, p);
    lemma_pow2_adds(hi, p);
    lemma_mul_inequality(pow2(lo) as int, s as int, pow2(p) as int);
    lemma_mul_strict_inequality(s as int, pow2(hi) as int, pow2(p) as int);
}

/// Dividing `s * 2^p` by `2^(k + p)` divides `s` by `2^k`; the remainder
/// is that of `s`, scaled by `2^p`.
pub proof fn lemma_scaled_div_mod(s: nat, k: nat, p: nat)
    ensures
        (s * pow2(p)) / pow2(k + p) == s / pow2(k),
        (s * pow2(p)) % pow2(k + p) == (s % pow2(k)) * pow2(p),
{
    let d = pow2(k) as int;
    let m = pow2(p) as int;
    lemma_pow2_pos(k);
    lemma_pow2_pos(p);
    lemma_pow2_adds(k, p);
    lemma_mul_is_commutative(d, m);
    lemma_mul_is_commutative(s as int, m);
    lemma_div_multiples_vanish_quotient(m, s as int, d);
    lemma_truncate_middle(s as int, m, d);
    lemma_mul_is_commutative(m, (s as int) % d);
}

} // verus!
