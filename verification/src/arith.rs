//! Integer helpers for averages and rank windows.

use vstd::prelude::*;
use vstd::arithmetic::div_mod::lemma_fundamental_div_mod;
use vstd::arithmetic::div_mod::lemma_fundamental_div_mod_converse;

verus! {

/// `value` brought into the range of `i32`.
pub open spec fn clamp_rank(value: int) -> i32 {
    if value < i32::MIN {
        i32::MIN
    } else if value > i32::MAX {
        i32::MAX
    } else {
        value as i32
    }
}

/// How far `rank` lies from `average`.
pub open spec fn distance(rank: int, average: int) -> int {
    if rank >= average {
        rank - average
    } else {
        average - rank
    }
}

/// The quotient rounded towards negative infinity.
pub fn floor_div(dividend: i128, divisor: i128) -> (quotient: i128)
    requires
        divisor > 0,
    ensures
        quotient == dividend as int / divisor as int,
{
    if dividend >= 0 {
        dividend / divisor
    } else {
        let below: i128 = -(dividend + 1);
        let steps: i128 = below / divisor;
        proof {
            let d = divisor as int;
            let k = below as int / d;
            let s = below as int % d;
            lemma_fundamental_div_mod(below as int, d);
            assert(below as int == d * k + s);
            assert(0 <= s < d);
            assert(0 <= k <= below) by (nonlinear_arith)
                requires
                    below as int == d * k + s,
                    0 <= s < d,
                    below >= 0,
            ;
            assert(dividend as int == (-k - 1) * d + (d - s - 1)) by (nonlinear_arith)
                requires
                    below as int == d * k + s,
                    dividend as int == -(below as int) - 1,
            ;
            lemma_fundamental_div_mod_converse(dividend as int, d, -k - 1, d - s - 1);
        }
        -steps - 1
    }
}

/// `value` brought into the range of `i32`.
pub fn clamp_to_rank(value: i128) -> (rank: i32)
    ensures
        rank == clamp_rank(value as int),
{
    if value < -2147483648 {
        -2147483648
    } else if value > 2147483647 {
        2147483647
    } else {
        value as i32
    }
}

} // verus!
