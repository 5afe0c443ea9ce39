//! Fixed-point probabilities.
//!
//! A probability is a non-negative `u64` in fixed-point form: [`PROB_ONE`]
//! stands for 1. Multiplication rescales the 128-bit product back down and
//! saturates at `u64::MAX`; addition saturates likewise. Both operations are
//! exact wherever the true result fits, which keeps message arithmetic
//! deterministic across schedulers.

use vstd::prelude::*;

verus! {

/// A probability in fixed-point form: [`PROB_ONE`] stands for 1.
pub type Probability = u64;

/// The fixed-point image of 1 (2^32).
pub const PROB_ONE: u64 = 4294967296;

/// What multiplying two fixed-point probabilities yields: the rescaled
/// product, saturated at `u64::MAX`.
pub open spec fn p_mul_spec(a: u64, b: u64) -> u64 {
    let v = (a as int) * (b as int) / (PROB_ONE as int);
    if v > u64::MAX as int {
        u64::MAX
    } else {
        v as u64
    }
}

/// What adding two fixed-point probabilities yields: the sum, saturated at
/// `u64::MAX`.
pub open spec fn p_add_spec(a: u64, b: u64) -> u64 {
    if a + b > u64::MAX as int {
        u64::MAX
    } else {
        (a + b) as u64
    }
}

/// What rescaling entry `p` of a message whose largest entry is `m` yields:
/// `p / m` in fixed-point form. Meaningful when `0 < m` and `p <= m`, which
/// is how normalization applies it.
pub open spec fn p_scale_spec(p: u64, m: u64) -> u64 {
    ((p as int) * (PROB_ONE as int) / (m as int)) as u64
}

/// Multiplies two probabilities: `(a * b) / PROB_ONE`, saturated.
pub fn p_mul(a: u64, b: u64) -> (r: u64)
    ensures
        r == p_mul_spec(a, b),
{
    proof {
        assert((a as int) * (b as int) <= (u64::MAX as int) * (u64::MAX as int)) by (nonlinear_arith)
            requires
                a <= u64::MAX,
                b <= u64::MAX,
        ;
    }
    let wide: u128 = (a as u128) * (b as u128) / (PROB_ONE as u128);
    if wide > u64::MAX as u128 {
        u64::MAX
    } else {
        wide as u64
    }
}

/// Adds two probabilities, saturating at `u64::MAX`.
pub fn p_add(a: u64, b: u64) -> (r: u64)
    ensures
        r == p_add_spec(a, b),
{
    if a > u64::MAX - b {
        u64::MAX
    } else {
        a + b
    }
}

/// Rescales `p` against the maximum `m`: `p / m` in fixed-point form.
pub fn p_scale(p: u64, m: u64) -> (r: u64)
    requires
        0 < m,
        p <= m,
    ensures
        r == p_scale_spec(p, m),
        r <= PROB_ONE,
        p == m ==> r == PROB_ONE,
{
    proof {
        lemma_scale_bounds(p, m);
        assert((p as int) * (PROB_ONE as int) <= (u64::MAX as int) * (PROB_ONE as int))
            by (nonlinear_arith)
            requires
                p <= u64::MAX,
        ;
    }
    let wide: u128 = (p as u128) * (PROB_ONE as u128) / (m as u128);
    wide as u64
}

/// Rescaling against the maximum never exceeds `PROB_ONE`, and the maximum
/// itself rescales to exactly `PROB_ONE`.
pub proof fn lemma_scale_bounds(p: u64, m: u64)
    requires
        0 < m,
        p <= m,
    ensures
        0 <= (p as int) * (PROB_ONE as int) / (m as int) <= PROB_ONE,
        p == m ==> (p as int) * (PROB_ONE as int) / (m as int) == PROB_ONE,
        p_scale_spec(p, m) == (p as int) * (PROB_ONE as int) / (m as int),
{
    let pi = p as int;
    let mi = m as int;
    let one = PROB_ONE as int;
    assert(pi * one <= mi * one) by (nonlinear_arith)
        requires
            pi <= mi,
            one >= 0,
    ;
    assert(mi * one / mi == one) by (nonlinear_arith)
        requires
            mi > 0,
            one >= 0,
    ;
    assert(pi * one / mi <= mi * one / mi) by (nonlinear_arith)
        requires
            mi > 0,
            pi * one <= mi * one,
    ;
    assert(pi * one >= 0) by (nonlinear_arith)
        requires
            pi >= 0,
            one >= 0,
    ;
    assert(pi * one / mi >= 0) by (nonlinear_arith)
        requires
            mi > 0,
            pi * one >= 0,
    ;
}

} // verus!
