//! The basic reproduction number and the herd immunity threshold.
use vstd::prelude::*;
use crate::fixed::SCALE;
use crate::params::Params;

verus! {

/// Why a metric has no finite value.
#[derive(Clone, Copy, Debug, PartialEq, Eq)]
pub enum MetricError {
    /// The recovery rate is zero, so the reproduction number is infinite.
    ZeroRecoveryRate,
    /// The reproduction number is zero, so its reciprocal is infinite.
    ZeroReproduction,
}

/// `beta·S0/gamma` in fixed-point units, rounded down.
pub open spec fn r0_spec(beta: int, s0: int, gamma: int) -> int {
    beta * s0 / gamma
}

/// `1 − 1/R0` in fixed-point units, with `1/R0` rounded down.
pub open spec fn hit_spec(r0: int) -> int {
    SCALE - (SCALE * SCALE) / r0
}

/// The basic reproduction number `beta·S0/gamma` for the seed susceptible
/// count `s0`; an error when `gamma` is zero.
pub fn basic_reproduction_number(params: &Params, s0: u64) -> (r: Result<u128, MetricError>)
    ensures
        params.gamma == 0 <==> r == Err::<u128, MetricError>(MetricError::ZeroRecoveryRate),
        params.gamma != 0 ==> r == Ok::<u128, MetricError>(
            r0_spec(params.beta as int, s0 as int, params.gamma as int) as u128,
        ),
        params.gamma != 0 ==> 0 <= r0_spec(params.beta as int, s0 as int, params.gamma as int)
            <= u128::MAX,
{
    if params.gamma == 0 {
        return Err(MetricError::ZeroRecoveryRate);
    }
    proof {
        let (b, s, g) = (params.beta as int, s0 as int, params.gamma as int);
        assert(0 <= b * s <= 0xffff_ffff_ffff_ffff * 0xffff_ffff_ffff_ffff) by (nonlinear_arith)
            requires 0 <= b <= 0xffff_ffff_ffff_ffff, 0 <= s <= 0xffff_ffff_ffff_ffff;
        assert(0 <= (b * s) / g <= b * s) by (nonlinear_arith)
            requires b * s >= 0, g >= 1;
    }
    let prod: u128 = params.beta as u128 * s0 as u128;
    Ok(prod / params.gamma as u128)
}

/// The herd immunity threshold `1 − 1/R0` for a reproduction number in
/// fixed-point units. Below one it is negative and is returned as it is.
pub fn herd_immunity_threshold(r0: u128) -> (r: Result<i64, MetricError>)
    ensures
        r0 == 0 <==> r == Err::<i64, MetricError>(MetricError::ZeroReproduction),
        r0 != 0 ==> r == Ok::<i64, MetricError>(hit_spec(r0 as int) as i64),
        r0 != 0 ==> i64::MIN <= hit_spec(r0 as int) <= i64::MAX,
{
    if r0 == 0 {
        return Err(MetricError::ZeroReproduction);
    }
    proof {
        let q = (SCALE * SCALE) as int / (r0 as int);
        assert(0 <= q <= 1_000_000_000_000_000_000) by (nonlinear_arith)
            requires r0 >= 1, q == 1_000_000_000_000_000_000int / (r0 as int);
    }
    let q: u128 = (SCALE as u128 * SCALE as u128) / r0;
    Ok(SCALE as i64 - q as i64)
}

/// Below a reproduction number of one the threshold is negative; at one it
/// is zero and above one it is positive.
pub proof fn lemma_hit_sign(r0: int)
    requires
        r0 > 0,
    ensures
        r0 < SCALE ==> hit_spec(r0) < 0,
        r0 == SCALE ==> hit_spec(r0) == 0,
        r0 > SCALE ==> hit_spec(r0) >= 0,
{
    let n: int = 1_000_000_000_000_000_000;
    assert(SCALE * SCALE == n);
    if r0 < SCALE {
        assert(n / r0 > 1_000_000_000) by (nonlinear_arith)
            requires 0 < r0 < 1_000_000_000, n == 1_000_000_000_000_000_000int;
    } else if r0 > SCALE {
        assert(n / r0 <= 1_000_000_000) by (nonlinear_arith)
            requires r0 > 1_000_000_000, n == 1_000_000_000_000_000_000int;
    }
}

/// A reproduction number of two gives a threshold of one half.
pub proof fn lemma_hit_at_two()
    ensures
        hit_spec(2 * SCALE) == SCALE / 2,
{
    assert(1_000_000_000_000_000_000int / 2_000_000_000int == 500_000_000);
}

/// The reproduction number is `beta·S0/gamma` up to rounding: `R0·gamma`
/// lies within `gamma` below `beta·S0`.
pub proof fn lemma_r0_formula(beta: int, s0: int, gamma: int)
    requires
        beta >= 0,
        s0 >= 0,
        gamma > 0,
    ensures
        r0_spec(beta, s0, gamma) * gamma <= beta * s0 < (r0_spec(beta, s0, gamma) + 1) * gamma,
{
    let q = beta * s0 / gamma;
    assert(q * gamma <= beta * s0 < (q + 1) * gamma) by (nonlinear_arith)
        requires gamma > 0, q == beta * s0 / gamma;
}

} // verus!
