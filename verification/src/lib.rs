//! Verified solvers for a set of small daily text puzzles: calibration
//! sums, cube draws, scratch cards, sequence extrapolation, a weighted
//! grid search, and a pulse-propagation machine.
pub mod day1;
pub mod day17;
pub mod day9;
pub mod day2;
pub mod day4;
pub mod day20;
pub mod text;

use vstd::prelude::*;

verus! {

/// Saturating addition on `usize`: the exact sum where it fits, and
/// `usize::MAX` where it does not.
pub fn sat_add(a: usize, b: usize) -> (r: usize)
    ensures
        r == if a + b <= usize::MAX { a + b } else { usize::MAX as int },
{
    if a <= usize::MAX - b {
        a + b
    } else {
        usize::MAX
    }
}

/// Saturating multiplication on `usize`: the exact product where it fits,
/// and `usize::MAX` where it does not.
pub fn sat_mul(a: usize, b: usize) -> (r: usize)
    ensures
        r == if a * b <= usize::MAX { a * b } else { usize::MAX as int },
{
    match a.checked_mul(b) {
        Some(p) => p,
        None => usize::MAX,
    }
}

} // verus!
