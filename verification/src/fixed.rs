//! Fixed-point accumulator arithmetic.
//!
//! Reward rates are tracked as cumulative reward units per unit of activated
//! stake. To keep repeated additions of small per-share increments from
//! truncating to zero, every increment is scaled by `REWARDS_PRECISION`
//! before the division by the pool's total activated stake. All arithmetic
//! is overflow-checked; an increment that does not fit is reported as an
//! error, never silently wrapped.

use vstd::prelude::*;

use crate::RewardsError;

verus! {

/// Scaling factor applied to rewards before dividing by the stake total, so
/// accumulator values carry 18 decimal digits of fractional precision.
pub const REWARDS_PRECISION: u128 = 1_000_000_000_000_000_000;

/// Mathematical value of one accumulator step:
/// `acc + floor(reward * REWARDS_PRECISION / denominator)`.
pub open spec fn accumulated(acc: u128, reward: u128, denominator: u128) -> int
    recommends
        denominator > 0,
{
    acc + (reward * REWARDS_PRECISION) / (denominator as int)
}

/// Exactly when `accumulate` succeeds: the scaled reward and the bumped
/// accumulator must both fit in `u128`.
pub open spec fn accumulate_fits(acc: u128, reward: u128, denominator: u128) -> bool {
    &&& reward * REWARDS_PRECISION <= u128::MAX
    &&& accumulated(acc, reward, denominator) <= u128::MAX
}

/// Advances an accumulator by `reward` scaled and divided by `denominator`,
/// or reports overflow, leaving the decision of how to abort to the caller.
pub fn accumulate(acc: u128, reward: u128, denominator: u128) -> (r: Result<u128, RewardsError>)
    requires
        denominator > 0,
    ensures
        accumulate_fits(acc, reward, denominator) ==> r == Ok::<u128, RewardsError>(
            accumulated(acc, reward, denominator) as u128,
        ),
        !accumulate_fits(acc, reward, denominator) ==> r == Err::<u128, RewardsError>(
            RewardsError::ArithmeticOverflow,
        ),
{
    match reward.checked_mul(REWARDS_PRECISION) {
        Some(scaled) => {
            let increment = scaled / denominator;
            match acc.checked_add(increment) {
                Some(bumped) => Ok(bumped),
                None => Err(RewardsError::ArithmeticOverflow),
            }
        },
        None => Err(RewardsError::ArithmeticOverflow),
    }
}

} // verus!
