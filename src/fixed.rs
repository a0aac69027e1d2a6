//! Fixed-point quantities: a value `x` is held as the integer `x * SCALE`,
//! so nine decimal places are kept exactly and the rest is rounded down.
use vstd::prelude::*;

verus! {

/// Units in one whole: quantities carry nine decimal places.
pub const SCALE: u64 = 1_000_000_000;

/// The product of two fixed-point quantities, rounded down.
pub open spec fn fmul(a: int, b: int) -> int {
    a * b / (SCALE as int)
}

/// Whether an integer can be held in a `u64`.
pub open spec fn fits(x: int) -> bool {
    0 <= x <= u64::MAX
}

/// Multiplies two fixed-point quantities; `None` exactly when the rounded
/// product does not fit in a `u64`.
pub fn mul_fixed(a: u64, b: u64) -> (r: Option<u64>)
    ensures
        fits(fmul(a as int, b as int)) ==> r == Some(fmul(a as int, b as int) as u64),
        !fits(fmul(a as int, b as int)) ==> r is None,
{
    proof {
        assert(0 <= (a as int) * (b as int) <= 0xffff_ffff_ffff_ffff * 0xffff_ffff_ffff_ffff)
            by (nonlinear_arith)
            requires a <= 0xffff_ffff_ffff_ffffu64, b <= 0xffff_ffff_ffff_ffffu64;
        assert(fmul(a as int, b as int) >= 0) by (nonlinear_arith)
            requires (a as int) * (b as int) >= 0;
    }
    let p: u128 = (a as u128) * (b as u128);
    let q: u128 = p / (SCALE as u128);
    if q > u64::MAX as u128 {
        None
    } else {
        Some(q as u64)
    }
}

} // verus!
