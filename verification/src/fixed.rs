use vstd::prelude::*;

verus! {

/// Number of fixed-point units that stand for the real value one.  Loads,
/// scores and weights are all kept as integer multiples of `1 / SCALE`.
pub const SCALE: i128 = 1_000_000_000;

/// Sentinel score of a candidate whose approval is zero: such a candidate
/// can never be elected, and a selection pass never picks it.
pub const INFINITE_SCORE: i128 = i128::MAX;

/// The mathematical value `x` is representable as an `i128`.
pub open spec fn fits(x: int) -> bool {
    i128::MIN <= x <= i128::MAX
}

/// Quotient of `x` by `d`, rounded toward zero, as machine division
/// computes it on signed integers.
pub open spec fn div_trunc(x: int, d: int) -> int
    recommends
        d > 0,
{
    if x >= 0 {
        x / d
    } else {
        -((-x) / d)
    }
}

/// Truncating division never grows the magnitude, so the quotient of a
/// representable value is representable.
pub proof fn lemma_div_trunc_fits(x: int, d: int)
    requires
        d > 0,
        fits(x),
    ensures
        fits(div_trunc(x, d)),
        x >= 0 ==> 0 <= div_trunc(x, d) <= x,
        x < 0 ==> x <= div_trunc(x, d) <= 0,
{
    if x >= 0 {
        assert(0 <= x / d <= x) by (nonlinear_arith)
            requires
                d > 0,
                x >= 0,
        ;
    } else {
        assert(0 <= (-x) / d <= -x) by (nonlinear_arith)
            requires
                d > 0,
                x < 0,
        ;
    }
}

/// `d * div_trunc(x, d)` stays within `d` of `x`: the error of one
/// truncating division is less than one unit of the divisor.
pub proof fn lemma_div_trunc_close(x: int, d: int)
    requires
        d > 0,
    ensures
        x - d < d * div_trunc(x, d) < x + d,
{
    if x >= 0 {
        assert(x - d < d * (x / d) <= x) by (nonlinear_arith)
            requires
                d > 0,
                x >= 0,
        ;
    } else {
        let y = -x;
        let q = y / d;
        assert(y - d < d * q <= y) by (nonlinear_arith)
            requires
                d > 0,
                y > 0,
                q == y / d,
        ;
        assert(d * (-q) == -(d * q)) by (nonlinear_arith);
        assert(div_trunc(x, d) == -q);
    }
}

/// Truncating division of `x` by a positive `d`; the quotient of a
/// representable value is always representable.
pub fn div_trunc_i128(x: i128, d: i128) -> (r: i128)
    requires
        d > 0,
    ensures
        r == div_trunc(x as int, d as int),
{
    proof {
        lemma_div_trunc_fits(x as int, d as int);
    }
    match x.checked_div(d) {
        Some(q) => q,
        None => {
            proof {
                assert(false);
            }
            0
        },
    }
}

} // verus!
