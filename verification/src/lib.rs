//! Liquidity-mining rewards accounting engine.
//!
//! Tracks which liquidity pools are eligible for reward emission, how much
//! stake each participant has activated in each pool, and computes periodic
//! reward issuance via a cumulative rewards-per-share accumulator, so that
//! per-account bookkeeping is lazy: a stake position is only touched when its
//! owner interacts with the engine.

use vstd::prelude::*;

pub mod engine;
pub mod fixed;
pub mod laws;
pub mod money;

verus! {

/// Failures surfaced by the engine's operations.
///
/// `ArithmeticOverflow` is fatal for the affected operation: it indicates an
/// accounting quantity no longer fits the machine representation, and the
/// operation leaves the engine untouched rather than record a wrong balance.
#[derive(Clone, Copy, Debug, PartialEq, Eq, Structural)]
pub enum RewardsError {
    /// Zero amount, zero duration, or an unknown pool.
    InvalidInput,
    /// Deactivating more stake than the account has activated.
    InsufficientActivatedStake,
    /// The schedule ledger is full and holds no expired schedule to evict.
    ScheduleLimitReached,
    /// A checked arithmetic step did not fit in the machine representation.
    ArithmeticOverflow,
}

} // verus!
