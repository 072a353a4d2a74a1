//! Arithmetic that stops at the largest number.

use vstd::prelude::*;

verus! {

/// The smaller of a number and the largest one that fits.
pub open spec fn capped(x: int) -> int {
    if x > u64::MAX {
        u64::MAX as int
    } else {
        x
    }
}

/// `a` times `b` by `c`, or the largest number if that does not fit.
pub fn part_of(a: u64, b: u64, c: u64) -> (r: u64)
    requires
        c > 0,
    ensures
        r == capped(a * b / c as int),
{
    proof {
        assert(a * b <= 0xffff_ffff_ffff_ffff * 0xffff_ffff_ffff_ffff) by (nonlinear_arith)
            requires
                0 <= a <= 0xffff_ffff_ffff_ffff,
                0 <= b <= 0xffff_ffff_ffff_ffff,
        ;
        assert(0 <= a * b) by (nonlinear_arith);
    }
    let whole: u128 = (a as u128) * (b as u128) / (c as u128);
    if whole > u64::MAX as u128 {
        u64::MAX
    } else {
        whole as u64
    }
}

} // verus!
