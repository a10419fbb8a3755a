//! The tolerance band around the target.

use vstd::prelude::*;

verus! {

/// Allowed deviation of a subset's sum from the target, in thousandths of a
/// percent of the target: `Tolerance { millipercent: 500 }` is half a percent.
#[derive(Debug, Clone, Copy, PartialEq, Eq, Structural)]
pub struct Tolerance {
    pub millipercent: u32,
}

/// `sum` lies between `100% - tolerance` and `100% + tolerance` of `target`,
/// both ends included. No sum is within tolerance of a target of zero.
pub open spec fn accuracy_within(sum: int, target: int, millipercent: int) -> bool {
    &&& target > 0
    &&& (100_000 - millipercent) * target <= 100_000 * sum
    &&& 100_000 * sum <= (100_000 + millipercent) * target
}

pub fn within_tolerance(sum: u32, target: u32, tolerance: Tolerance) -> (ok: bool)
    ensures
        ok == accuracy_within(sum as int, target as int, tolerance.millipercent as int),
{
    if target == 0 {
        return false;
    }
    let scaled: u128 = 100_000u128 * (sum as u128);
    let wide: u128 = 100_000u128 + (tolerance.millipercent as u128);
    assert(wide * (target as u128) <= 0x1_0001_86a0 * 0x1_0000_0000) by (nonlinear_arith)
        requires
            wide <= 0x1_0001_86a0,
            target <= 0x1_0000_0000,
    ;
    let upper: u128 = wide * (target as u128);
    if scaled > upper {
        return false;
    }
    if tolerance.millipercent >= 100_000 {
        assert((100_000 - tolerance.millipercent as int) * (target as int) <= 0) by (nonlinear_arith)
            requires
                100_000 - tolerance.millipercent as int <= 0,
                target as int > 0,
        ;
        return true;
    }
    let narrow: u128 = 100_000u128 - (tolerance.millipercent as u128);
    assert(narrow * (target as u128) <= 100_000 * 0x1_0000_0000) by (nonlinear_arith)
        requires
            narrow <= 100_000,
            target <= 0x1_0000_0000,
    ;
    let lower: u128 = narrow * (target as u128);
    lower <= scaled
}

} // verus!
