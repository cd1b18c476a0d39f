//! Division of amounts of money, rounded towards zero.

use vstd::prelude::*;

verus! {

/// The quotient of a division that rounds towards zero.
pub open spec fn quotient(dividend: int, divisor: int) -> int
    recommends
        divisor > 0,
{
    if dividend >= 0 {
        dividend / divisor
    } else {
        -((-dividend) / divisor)
    }
}

/// What a division that rounds towards zero leaves over; it has the sign
/// of the dividend.
pub open spec fn left_over(dividend: int, divisor: int) -> int
    recommends
        divisor > 0,
{
    dividend - divisor * quotient(dividend, divisor)
}

/// The quotient and what is left over of a division that rounds towards
/// zero.
pub fn divide(dividend: i32, divisor: i32) -> (result: (i32, i32))
    requires
        divisor > 0,
    ensures
        result.0 == quotient(dividend as int, divisor as int),
        result.1 == left_over(dividend as int, divisor as int),
        -divisor < result.1 < divisor,
{
    if dividend >= 0 {
        let q: i32 = dividend / divisor;
        let r: i32 = dividend % divisor;
        assert(dividend == divisor * q + r && 0 <= q <= dividend) by (nonlinear_arith)
            requires
                q == dividend / divisor,
                r == dividend % divisor,
                dividend >= 0,
                divisor > 0,
        ;
        (q, r)
    } else {
        let size: i64 = -(dividend as i64);
        let q: i64 = size / divisor as i64;
        let r: i64 = size % divisor as i64;
        assert(size == divisor * q + r && 0 <= q <= size && 0 <= r < divisor) by (nonlinear_arith)
            requires
                q == (size as int) / (divisor as int),
                r == (size as int) % (divisor as int),
                size >= 0,
                divisor > 0,
        ;
        assert(divisor * (-q) == -(divisor * q)) by (nonlinear_arith);
        ((-q) as i32, (-r) as i32)
    }
}

} // verus!
