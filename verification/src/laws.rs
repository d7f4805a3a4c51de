//! Engine-wide laws, stated over the same spec functions the operation
//! contracts use, so a reader can check each guarantee without re-deriving
//! it from the contracts.

use vstd::prelude::*;

use crate::engine::{
    PoolState, StakeEntry, StakePosition, RewardsEngine, activated_position, apportioned_pool,
    claimed_position, deactivated_position, pending_fits, pending_math, pool_total_changed,
    settled_position, sum_activated,
};
use crate::fixed::{REWARDS_PRECISION, accumulate_fits, accumulated};
use vstd::arithmetic::div_mod::{
    lemma_div_is_ordered, lemma_div_multiples_vanish, lemma_fundamental_div_mod,
    lemma_mod_division_less_than_divisor,
};
use vstd::arithmetic::mul::{lemma_mul_inequality, lemma_mul_nonnegative};

verus! {

/// A position whose checkpoint already stands at the pool accumulator owes
/// exactly its flushed balance: the settlement delta is zero.
proof fn lemma_pending_at_checkpoint(pos: StakePosition, acc: u128)
    requires
        pos.checkpoint_accumulator == acc,
    ensures
        pending_math(pos, acc) == pos.accrued_unclaimed,
{
    assert(pos.activated_amount * (acc - acc) == 0) by (nonlinear_arith);
    assert(0int / (REWARDS_PRECISION as int) == 0) by (nonlinear_arith)
        requires
            REWARDS_PRECISION > 0,
    ;
}

/// The reward owed is never negative.
proof fn lemma_pending_nonneg(pos: StakePosition, acc: u128)
    requires
        pos.checkpoint_accumulator <= acc,
    ensures
        pending_math(pos, acc) >= 0,
{
    lemma_mul_nonnegative(pos.activated_amount as int, acc - pos.checkpoint_accumulator);
    lemma_div_is_ordered(
        0,
        pos.activated_amount * (acc - pos.checkpoint_accumulator),
        REWARDS_PRECISION as int,
    );
}

/// No retroactive reward: activating more stake settles the position first
/// and starts the added amount from the pool's current accumulator, so the
/// reward owed immediately after the activation equals the reward owed
/// immediately before it — nothing is earned for sessions already closed.
pub proof fn lemma_activation_no_retroactive_reward(pos: StakePosition, acc: u128, amount: u128)
    requires
        pos.checkpoint_accumulator <= acc,
        pending_fits(pos, acc),
        pos.activated_amount + amount <= u128::MAX,
    ensures
        pending_math(activated_position(pos, acc, amount), acc) == pending_math(pos, acc),
{
    lemma_pending_nonneg(pos, acc);
    lemma_pending_at_checkpoint(activated_position(pos, acc, amount), acc);
}

/// Deactivation preserves accrual: removing stake settles the position
/// first, so the reward owed immediately after the deactivation equals the
/// reward owed immediately before it; only a claim pays it out.
pub proof fn lemma_deactivation_preserves_accrual(pos: StakePosition, acc: u128, amount: u128)
    requires
        pos.checkpoint_accumulator <= acc,
        pending_fits(pos, acc),
        amount <= pos.activated_amount,
    ensures
        pending_math(deactivated_position(pos, acc, amount), acc) == pending_math(pos, acc),
{
    lemma_pending_nonneg(pos, acc);
    lemma_pending_at_checkpoint(deactivated_position(pos, acc, amount), acc);
}

/// Settlement is idempotent: settling an already-settled position changes
/// nothing, and the reward owed is the same before and after a settlement.
/// `calculate_rewards_amount` reads this quantity without mutating, so two
/// consecutive queries return the same value.
pub proof fn lemma_settlement_idempotent(pos: StakePosition, acc: u128)
    requires
        pos.checkpoint_accumulator <= acc,
        pending_fits(pos, acc),
    ensures
        settled_position(settled_position(pos, acc), acc) == settled_position(pos, acc),
        pending_math(settled_position(pos, acc), acc) == pending_math(pos, acc),
{
    lemma_pending_nonneg(pos, acc);
    lemma_pending_at_checkpoint(settled_position(pos, acc), acc);
}

/// A claim zeroes the debt: immediately after a claim the position owes
/// nothing, whatever it owed before.
pub proof fn lemma_claim_zeroes(pos: StakePosition, acc: u128)
    ensures
        pending_math(claimed_position(pos, acc), acc) == 0,
{
    lemma_pending_at_checkpoint(claimed_position(pos, acc), acc);
}

/// A well-formed engine never holds more schedules than its configured
/// limit, expired ones included; every operation preserves this.
pub proof fn lemma_schedule_ledger_bounded(eng: RewardsEngine)
    requires
        eng.wf(),
    ensures
        eng.schedules@.len() <= eng.schedules_limit,
{
}

/// Empty-pool carry: reward apportioned while a pool has no activated stake
/// is not lost. It waits in the pending carry, and the first apportionment
/// after stake arrives folds it into the accumulator together with that
/// session's own reward.
pub proof fn lemma_empty_pool_carry(st: PoolState, r1: int, activated: u128, r2: int)
    requires
        st.total_activated_amount == 0,
        r1 >= 0,
        r2 >= 0,
        activated > 0,
        st.pending_carry + r1 <= u128::MAX,
        r2 + st.pending_carry + r1 <= u128::MAX,
    ensures
        apportioned_pool(st, r1).reward_per_share_accumulator
            == st.reward_per_share_accumulator,
        apportioned_pool(st, r1).pending_carry == st.pending_carry + r1,
        apportioned_pool(
            pool_total_changed(apportioned_pool(st, r1), activated as int),
            r2,
        ).reward_per_share_accumulator == accumulated(
            st.reward_per_share_accumulator,
            (r2 + st.pending_carry + r1) as u128,
            activated,
        ) as u128,
        apportioned_pool(
            pool_total_changed(apportioned_pool(st, r1), activated as int),
            r2,
        ).pending_carry == 0,
{
}

/// One step of conservation: what one session's apportionment lets a
/// position accrue never exceeds the reward apportioned. A position settled
/// up to date before the session boundary accrues, after the boundary, at
/// most the session reward plus the carry that boundary consumed — the
/// engine never owes more than was put in.
pub proof fn lemma_apportioned_reward_bounds_settlement(
    pos: StakePosition,
    st: PoolState,
    reward: int,
)
    requires
        st.total_activated_amount > 0,
        pos.activated_amount <= st.total_activated_amount,
        pos.checkpoint_accumulator == st.reward_per_share_accumulator,
        reward >= 0,
        reward + st.pending_carry <= u128::MAX,
        accumulate_fits(
            st.reward_per_share_accumulator,
            (reward + st.pending_carry) as u128,
            st.total_activated_amount,
        ),
    ensures
        pending_math(pos, apportioned_pool(st, reward).reward_per_share_accumulator)
            - pos.accrued_unclaimed <= reward + st.pending_carry,
{
    let scale = REWARDS_PRECISION as int;
    let a = pos.activated_amount as int;
    let d = st.total_activated_amount as int;
    let rc = (reward + st.pending_carry) as u128;
    let scaled = rc * REWARDS_PRECISION;
    let bump = scaled / d;
    lemma_mul_nonnegative(rc as int, scale);
    lemma_div_is_ordered(0, scaled, d);
    let acc2 = apportioned_pool(st, reward).reward_per_share_accumulator;
    assert(acc2 == st.reward_per_share_accumulator + bump);
    // a * bump <= d * bump, since the position holds at most the whole pool
    lemma_mul_inequality(a, d, bump);
    assert(a * bump == bump * a && d * bump == bump * d) by (nonlinear_arith);
    // d * bump <= rc * scale, by the meaning of integer division
    lemma_fundamental_div_mod(scaled, d);
    lemma_mod_division_less_than_divisor(scaled, d);
    assert(d * bump <= scaled);
    // so the settled delta is at most (rc * scale) / scale == rc
    lemma_div_is_ordered(a * bump, scaled, scale);
    lemma_div_multiples_vanish(rc as int, scale);
    assert(rc * REWARDS_PRECISION == (REWARDS_PRECISION as int) * (rc as int)) by (
    nonlinear_arith);
    assert((a * bump) / scale <= rc);
    assert(pending_math(pos, acc2) - pos.accrued_unclaimed == (a * bump) / scale);
}

/// What the whole stake ledger would newly accrue against pool `pool_id`
/// from one accumulator movement of `bump`: the sum over its positions of
/// the settlement delta `floor(activated * bump / REWARDS_PRECISION)`.
pub open spec fn sum_settled_delta(s: Seq<StakeEntry>, pool_id: u32, bump: int) -> int
    decreases s.len(),
{
    if s.len() == 0 {
        0
    } else {
        (if s[0].pool_id == pool_id {
            (s[0].position.activated_amount * bump) / (REWARDS_PRECISION as int)
        } else {
            0
        }) + sum_settled_delta(s.drop_first(), pool_id, bump)
    }
}

/// Rounding down loses value, never creates it: the sum of two floored
/// quotients is at most the floored quotient of the sum.
proof fn lemma_floor_div_superadd(x: int, y: int, p: int)
    requires
        x >= 0,
        y >= 0,
        p > 0,
    ensures
        x / p + y / p <= (x + y) / p,
{
    lemma_fundamental_div_mod(x, p);
    lemma_mod_division_less_than_divisor(x, p);
    lemma_fundamental_div_mod(y, p);
    lemma_mod_division_less_than_divisor(y, p);
    assert(x + y >= p * (x / p + y / p)) by (nonlinear_arith)
        requires
            x == p * (x / p) + x % p,
            y == p * (y / p) + y % p,
            x % p >= 0,
            y % p >= 0,
    ;
    lemma_div_is_ordered(p * (x / p + y / p), x + y, p);
    lemma_div_multiples_vanish(x / p + y / p, p);
}

proof fn lemma_sum_delta_le(s: Seq<StakeEntry>, pool_id: u32, bump: int)
    requires
        bump >= 0,
    ensures
        sum_settled_delta(s, pool_id, bump) <= (sum_activated(s, pool_id) * bump) / (
        REWARDS_PRECISION as int),
    decreases s.len(),
{
    let scale = REWARDS_PRECISION as int;
    if s.len() == 0 {
        assert((0 * bump) / scale == 0) by (nonlinear_arith)
            requires
                scale > 0,
        ;
    } else {
        let tail = s.drop_first();
        lemma_sum_delta_le(tail, pool_id, bump);
        crate::engine::lemma_sum_activated_nonneg(tail, pool_id);
        let head = (if s[0].pool_id == pool_id {
            s[0].position.activated_amount as int
        } else {
            0
        });
        lemma_mul_nonnegative(head, bump);
        lemma_mul_nonnegative(sum_activated(tail, pool_id), bump);
        lemma_floor_div_superadd(head * bump, sum_activated(tail, pool_id) * bump, scale);
        assert((head + sum_activated(tail, pool_id)) * bump == head * bump + sum_activated(
            tail,
            pool_id,
        ) * bump) by (nonlinear_arith);
        if s[0].pool_id != pool_id {
            assert((0 * bump) / scale == 0) by (nonlinear_arith)
                requires
                    scale > 0,
            ;
        }
    }
}

/// Conservation over one session boundary, across every account at once:
/// however the pool's stake is divided, the settlement deltas the boundary
/// makes available to its positions sum to at most the reward apportioned
/// plus the carry that boundary consumed. Minted rewards are never
/// amplified by the accounting; rounding dust is the only loss.
pub proof fn lemma_session_conservation(
    stakes: Seq<StakeEntry>,
    st: PoolState,
    pool_id: u32,
    reward: int,
)
    requires
        st.total_activated_amount > 0,
        st.total_activated_amount == sum_activated(stakes, pool_id),
        reward >= 0,
        reward + st.pending_carry <= u128::MAX,
        accumulate_fits(
            st.reward_per_share_accumulator,
            (reward + st.pending_carry) as u128,
            st.total_activated_amount,
        ),
    ensures
        sum_settled_delta(
            stakes,
            pool_id,
            apportioned_pool(st, reward).reward_per_share_accumulator
                - st.reward_per_share_accumulator,
        ) <= reward + st.pending_carry,
{
    let scale = REWARDS_PRECISION as int;
    let d = st.total_activated_amount as int;
    let rc = (reward + st.pending_carry) as u128;
    let scaled = rc * REWARDS_PRECISION;
    let bump = scaled / d;
    lemma_mul_nonnegative(rc as int, scale);
    lemma_div_is_ordered(0, scaled, d);
    assert(apportioned_pool(st, reward).reward_per_share_accumulator
        == st.reward_per_share_accumulator + bump);
    lemma_sum_delta_le(stakes, pool_id, bump);
    // d * bump <= rc * scale, by the meaning of integer division
    lemma_mul_inequality(0, d, bump);
    assert(d * bump == bump * d) by (nonlinear_arith);
    lemma_fundamental_div_mod(scaled, d);
    lemma_mod_division_less_than_divisor(scaled, d);
    assert(d * bump <= scaled);
    lemma_div_is_ordered(d * bump, scaled, scale);
    lemma_div_multiples_vanish(rc as int, scale);
    assert(rc * REWARDS_PRECISION == (REWARDS_PRECISION as int) * (rc as int)) by (
    nonlinear_arith);
    assert((d * bump) / scale <= rc);
}

} // verus!
