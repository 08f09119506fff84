//! Fixed-point percentages: `PERCENTAGE_FACTOR` stands for 100%.

use vstd::prelude::*;

verus! {

/// 100% in the fixed-point percentage format (1e9).
pub const PERCENTAGE_FACTOR: u128 = 1_000_000_000;

/// Half of one percentage unit, kept as headroom for the product in `percent_mul`.
pub const HALF_PERCENT: u128 = 500_000_000;

/// `x * y / 100%`, zero when either factor is zero or the product would not fit.
pub open spec fn spec_percent_mul(x: u128, y: u128) -> u128 {
    if x == 0 || y == 0 {
        0
    } else if x as int > (u128::MAX - HALF_PERCENT) as int / y as int {
        0
    } else {
        ((x as int * y as int) / PERCENTAGE_FACTOR as int) as u128
    }
}

/// `x * 100% / y`, zero when either is zero; the product saturates at `u128::MAX`.
pub open spec fn spec_percent_div(x: u128, y: u128) -> u128 {
    if x == 0 || y == 0 {
        0
    } else if x * PERCENTAGE_FACTOR > u128::MAX {
        (u128::MAX as int / y as int) as u128
    } else {
        ((x as int * PERCENTAGE_FACTOR as int) / y as int) as u128
    }
}

/// Multiplies `x` by the percentage `y`.
pub fn percent_mul(x: u128, y: u128) -> (r: u128)
    ensures
        r == spec_percent_mul(x, y),
        y <= PERCENTAGE_FACTOR ==> r <= x,
        r <= u128::MAX / PERCENTAGE_FACTOR,
{
    if x == 0 || y == 0 {
        return 0;
    }
    if x > (u128::MAX - HALF_PERCENT) / y {
        return 0;
    }
    assert(x as int * y as int <= u128::MAX) by (nonlinear_arith)
        requires
            x as int <= (u128::MAX - HALF_PERCENT) as int / y as int,
            y > 0,
    ;
    let p = x * y;
    assert(y <= PERCENTAGE_FACTOR ==> p / PERCENTAGE_FACTOR <= x) by (nonlinear_arith)
        requires
            p == x * y,
    ;
    assert(p / PERCENTAGE_FACTOR <= u128::MAX / PERCENTAGE_FACTOR) by (nonlinear_arith)
        requires
            p <= u128::MAX,
    ;
    p / PERCENTAGE_FACTOR
}

/// Divides `x` by `y`, the quotient given as a percentage.
pub fn percent_div(x: u128, y: u128) -> (r: u128)
    ensures
        r == spec_percent_div(x, y),
{
    if x == 0 || y == 0 {
        return 0;
    }
    let p = match x.checked_mul(PERCENTAGE_FACTOR) {
        Some(p) => p,
        None => u128::MAX,
    };
    p / y
}

} // verus!
