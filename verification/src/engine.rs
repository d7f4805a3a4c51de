//! The rewards engine state machine.
//!
//! State is held in three keyed sequences: promoted pools (keyed by
//! liquidity-token id), stake positions (keyed by account and pool), and a
//! bounded ledger of reward schedules. Lookup order is the insertion order,
//! which gives every operation a stable, deterministic result.

use vstd::prelude::*;

use crate::RewardsError;
use crate::fixed::{REWARDS_PRECISION, accumulate, accumulate_fits, accumulated};

verus! {

/// Per-pool reward state.
#[derive(Clone, Copy, Debug, PartialEq, Eq, Structural)]
pub struct PoolState {
    /// 0 means the pool is not promoted; a larger weight gives the pool a
    /// proportionally larger share of each session's native issuance.
    pub promotion_weight: u8,
    /// Sum of all accounts' activated stake in this pool.
    pub total_activated_amount: u128,
    /// Cumulative reward units per unit of activated stake, scaled by
    /// `REWARDS_PRECISION`. Monotonically non-decreasing.
    pub reward_per_share_accumulator: u128,
    /// Reward apportioned while the pool had no activated stake, carried
    /// forward so it is not lost; folded into the next accumulator bump.
    pub pending_carry: u128,
}

/// One account's stake in one pool.
#[derive(Clone, Copy, Debug, PartialEq, Eq, Structural)]
pub struct StakePosition {
    /// Liquidity tokens this account has locked into the pool.
    pub activated_amount: u128,
    /// The pool accumulator value at this account's last settlement.
    pub checkpoint_accumulator: u128,
    /// Reward owed but not yet claimed, flushed at settlement.
    pub accrued_unclaimed: u128,
}

/// A promise to emit a fixed total reward into a pool over a fixed number of
/// sessions. The division remainder is emitted with the final session, so the
/// total emitted over the schedule's life is exactly the scheduled amount.
#[derive(Clone, Copy, Debug, PartialEq, Eq, Structural)]
pub struct RewardSchedule {
    /// The pool the emission is apportioned into.
    pub pool_id: u32,
    /// The token the emission is denominated in.
    pub reward_token: u32,
    /// Emission per session: the scheduled amount divided by the number of
    /// sessions, rounded down.
    pub per_session_rate: u128,
    /// The rounding remainder, emitted together with the final session.
    pub final_session_extra: u128,
    /// Sessions still to emit; 0 means the schedule is expired and its slot
    /// may be evicted.
    pub remaining_sessions: u32,
}

/// A pool registry entry.
#[derive(Clone, Copy, Debug, PartialEq, Eq, Structural)]
pub struct PoolEntry {
    pub id: u32,
    pub state: PoolState,
}

/// A stake ledger entry.
#[derive(Clone, Copy, Debug, PartialEq, Eq, Structural)]
pub struct StakeEntry {
    pub account: u64,
    pub pool_id: u32,
    pub position: StakePosition,
}

/// First pool state registered under `id`, in insertion order.
pub open spec fn find_pool(s: Seq<PoolEntry>, id: u32) -> Option<PoolState>
    decreases s.len(),
{
    if s.len() == 0 {
        None
    } else if s[0].id == id {
        Some(s[0].state)
    } else {
        find_pool(s.drop_first(), id)
    }
}

/// First stake position recorded under `(account, pool_id)`, in insertion
/// order.
pub open spec fn find_stake(s: Seq<StakeEntry>, account: u64, pool_id: u32) -> Option<
    StakePosition,
>
    decreases s.len(),
{
    if s.len() == 0 {
        None
    } else if s[0].account == account && s[0].pool_id == pool_id {
        Some(s[0].position)
    } else {
        find_stake(s.drop_first(), account, pool_id)
    }
}

/// Sum of the activated stake that `s` records against pool `pool_id`.
pub open spec fn sum_activated(s: Seq<StakeEntry>, pool_id: u32) -> int
    decreases s.len(),
{
    if s.len() == 0 {
        0
    } else {
        (if s[0].pool_id == pool_id {
            s[0].position.activated_amount as int
        } else {
            0
        }) + sum_activated(s.drop_first(), pool_id)
    }
}

proof fn lemma_find_pool_at(s: Seq<PoolEntry>, id: u32, i: int)
    requires
        0 <= i < s.len(),
        s[i].id == id,
        forall|j: int| 0 <= j < i ==> s[j].id != id,
    ensures
        find_pool(s, id) == Some(s[i].state),
    decreases s.len(),
{
    if i > 0 {
        lemma_find_pool_at(s.drop_first(), id, i - 1);
    }
}

proof fn lemma_find_pool_none(s: Seq<PoolEntry>, id: u32)
    requires
        forall|j: int| 0 <= j < s.len() ==> s[j].id != id,
    ensures
        find_pool(s, id) is None,
    decreases s.len(),
{
    if s.len() > 0 {
        lemma_find_pool_none(s.drop_first(), id);
    }
}

proof fn lemma_find_pool_push(s: Seq<PoolEntry>, e: PoolEntry)
    requires
        forall|j: int| 0 <= j < s.len() ==> s[j].id != e.id,
    ensures
        find_pool(s.push(e), e.id) == Some(e.state),
        forall|id2: u32| id2 != e.id ==> find_pool(s.push(e), id2) == find_pool(s, id2),
    decreases s.len(),
{
    lemma_find_pool_at(s.push(e), e.id, s.len() as int);
    assert forall|id2: u32| id2 != e.id implies find_pool(s.push(e), id2) == find_pool(
        s,
        id2,
    ) by {
        lemma_find_pool_push_other(s, e, id2);
    }
}

proof fn lemma_find_pool_push_other(s: Seq<PoolEntry>, e: PoolEntry, id2: u32)
    requires
        id2 != e.id,
    ensures
        find_pool(s.push(e), id2) == find_pool(s, id2),
    decreases s.len(),
{
    if s.len() == 0 {
        assert(s.push(e).drop_first() =~= s);
    } else {
        assert(s.push(e).drop_first() =~= s.drop_first().push(e));
        lemma_find_pool_push_other(s.drop_first(), e, id2);
    }
}

proof fn lemma_find_pool_update(s: Seq<PoolEntry>, i: int, e: PoolEntry)
    requires
        0 <= i < s.len(),
        s[i].id == e.id,
        forall|j: int| 0 <= j < i ==> s[j].id != e.id,
    ensures
        find_pool(s.update(i, e), e.id) == Some(e.state),
        forall|id2: u32| id2 != e.id ==> find_pool(s.update(i, e), id2) == find_pool(s, id2),
    decreases s.len(),
{
    lemma_find_pool_at(s.update(i, e), e.id, i);
    assert forall|id2: u32| id2 != e.id implies find_pool(s.update(i, e), id2) == find_pool(
        s,
        id2,
    ) by {
        lemma_find_pool_update_other(s, i, e, id2);
    }
}

proof fn lemma_find_pool_update_other(s: Seq<PoolEntry>, i: int, e: PoolEntry, id2: u32)
    requires
        0 <= i < s.len(),
        s[i].id == e.id,
        id2 != e.id,
    ensures
        find_pool(s.update(i, e), id2) == find_pool(s, id2),
    decreases s.len(),
{
    if i == 0 {
        assert(s.update(i, e).drop_first() =~= s.drop_first());
    } else {
        assert(s.update(i, e).drop_first() =~= s.drop_first().update(i - 1, e));
        lemma_find_pool_update_other(s.drop_first(), i - 1, e, id2);
    }
}

/// Relates two pool registries of the same shape (same ids at the same
/// positions): a key found in one is found at the same position in the other.
proof fn lemma_find_pool_pointwise(s1: Seq<PoolEntry>, s2: Seq<PoolEntry>, id: u32)
    requires
        s1.len() == s2.len(),
        forall|i: int| 0 <= i < s1.len() ==> s2[i].id == s1[i].id,
    ensures
        find_pool(s1, id) is None ==> find_pool(s2, id) is None,
        find_pool(s1, id) is Some ==> exists|i: int|
            0 <= i < s1.len() && s1[i].id == id && find_pool(s1, id) == Some(s1[i].state)
                && find_pool(s2, id) == Some(s2[i].state),
    decreases s1.len(),
{
    if s1.len() > 0 {
        if s1[0].id == id {
            assert(find_pool(s1, id) == Some(s1[0].state));
            assert(find_pool(s2, id) == Some(s2[0].state));
        } else {
            lemma_find_pool_pointwise(s1.drop_first(), s2.drop_first(), id);
            if find_pool(s1, id) is Some {
                let i = choose|i: int|
                    0 <= i < s1.drop_first().len() && s1.drop_first()[i].id == id && find_pool(
                        s1.drop_first(),
                        id,
                    ) == Some(s1.drop_first()[i].state) && find_pool(s2.drop_first(), id) == Some(
                        s2.drop_first()[i].state,
                    );
                assert(s1[i + 1].id == id && find_pool(s1, id) == Some(s1[i + 1].state)
                    && find_pool(s2, id) == Some(s2[i + 1].state));
            }
        }
    }
}

proof fn lemma_find_stake_at(s: Seq<StakeEntry>, account: u64, pool_id: u32, i: int)
    requires
        0 <= i < s.len(),
        s[i].account == account && s[i].pool_id == pool_id,
        forall|j: int| 0 <= j < i ==> !(s[j].account == account && s[j].pool_id == pool_id),
    ensures
        find_stake(s, account, pool_id) == Some(s[i].position),
    decreases s.len(),
{
    if i > 0 {
        lemma_find_stake_at(s.drop_first(), account, pool_id, i - 1);
    }
}

proof fn lemma_find_stake_none(s: Seq<StakeEntry>, account: u64, pool_id: u32)
    requires
        forall|j: int| 0 <= j < s.len() ==> !(s[j].account == account && s[j].pool_id == pool_id),
    ensures
        find_stake(s, account, pool_id) is None,
    decreases s.len(),
{
    if s.len() > 0 {
        lemma_find_stake_none(s.drop_first(), account, pool_id);
    }
}

proof fn lemma_find_stake_push(s: Seq<StakeEntry>, e: StakeEntry)
    requires
        forall|j: int|
            0 <= j < s.len() ==> !(s[j].account == e.account && s[j].pool_id == e.pool_id),
    ensures
        find_stake(s.push(e), e.account, e.pool_id) == Some(e.position),
        forall|a2: u64, p2: u32|
            !(a2 == e.account && p2 == e.pool_id) ==> find_stake(s.push(e), a2, p2) == find_stake(
                s,
                a2,
                p2,
            ),
    decreases s.len(),
{
    lemma_find_stake_at(s.push(e), e.account, e.pool_id, s.len() as int);
    assert forall|a2: u64, p2: u32| !(a2 == e.account && p2 == e.pool_id) implies find_stake(
        s.push(e),
        a2,
        p2,
    ) == find_stake(s, a2, p2) by {
        lemma_find_stake_push_other(s, e, a2, p2);
    }
}

proof fn lemma_find_stake_push_other(s: Seq<StakeEntry>, e: StakeEntry, a2: u64, p2: u32)
    requires
        !(a2 == e.account && p2 == e.pool_id),
    ensures
        find_stake(s.push(e), a2, p2) == find_stake(s, a2, p2),
    decreases s.len(),
{
    if s.len() == 0 {
        assert(s.push(e).drop_first() =~= s);
    } else {
        assert(s.push(e).drop_first() =~= s.drop_first().push(e));
        lemma_find_stake_push_other(s.drop_first(), e, a2, p2);
    }
}

proof fn lemma_find_stake_update(s: Seq<StakeEntry>, i: int, e: StakeEntry)
    requires
        0 <= i < s.len(),
        s[i].account == e.account && s[i].pool_id == e.pool_id,
        forall|j: int|
            0 <= j < i ==> !(s[j].account == e.account && s[j].pool_id == e.pool_id),
    ensures
        find_stake(s.update(i, e), e.account, e.pool_id) == Some(e.position),
        forall|a2: u64, p2: u32|
            !(a2 == e.account && p2 == e.pool_id) ==> find_stake(s.update(i, e), a2, p2)
                == find_stake(s, a2, p2),
    decreases s.len(),
{
    lemma_find_stake_at(s.update(i, e), e.account, e.pool_id, i);
    assert forall|a2: u64, p2: u32| !(a2 == e.account && p2 == e.pool_id) implies find_stake(
        s.update(i, e),
        a2,
        p2,
    ) == find_stake(s, a2, p2) by {
        lemma_find_stake_update_other(s, i, e, a2, p2);
    }
}

proof fn lemma_find_stake_update_other(s: Seq<StakeEntry>, i: int, e: StakeEntry, a2: u64, p2: u32)
    requires
        0 <= i < s.len(),
        s[i].account == e.account && s[i].pool_id == e.pool_id,
        !(a2 == e.account && p2 == e.pool_id),
    ensures
        find_stake(s.update(i, e), a2, p2) == find_stake(s, a2, p2),
    decreases s.len(),
{
    if i == 0 {
        assert(s.update(i, e).drop_first() =~= s.drop_first());
    } else {
        assert(s.update(i, e).drop_first() =~= s.drop_first().update(i - 1, e));
        lemma_find_stake_update_other(s.drop_first(), i - 1, e, a2, p2);
    }
}

proof fn lemma_sum_activated_update(s: Seq<StakeEntry>, i: int, e: StakeEntry)
    requires
        0 <= i < s.len(),
        s[i].pool_id == e.pool_id,
    ensures
        forall|p: u32|
            p != e.pool_id ==> sum_activated(s.update(i, e), p) == sum_activated(s, p),
        sum_activated(s.update(i, e), e.pool_id) == sum_activated(s, e.pool_id)
            - s[i].position.activated_amount + e.position.activated_amount,
    decreases s.len(),
{
    if i == 0 {
        assert(s.update(i, e).drop_first() =~= s.drop_first());
        assert forall|p: u32| p != e.pool_id implies sum_activated(s.update(i, e), p)
            == sum_activated(s, p) by {
            assert(s.update(i, e)[0] == e);
        }
    } else {
        assert(s.update(i, e).drop_first() =~= s.drop_first().update(i - 1, e));
        lemma_sum_activated_update(s.drop_first(), i - 1, e);
        assert forall|p: u32| p != e.pool_id implies sum_activated(s.update(i, e), p)
            == sum_activated(s, p) by {
            assert(s.update(i, e)[0] == s[0]);
            assert(sum_activated(s.drop_first().update(i - 1, e), p) == sum_activated(
                s.drop_first(),
                p,
            ));
        }
    }
}

proof fn lemma_sum_activated_push(s: Seq<StakeEntry>, e: StakeEntry)
    ensures
        forall|p: u32| p != e.pool_id ==> sum_activated(s.push(e), p) == sum_activated(s, p),
        sum_activated(s.push(e), e.pool_id) == sum_activated(s, e.pool_id)
            + e.position.activated_amount,
    decreases s.len(),
{
    if s.len() == 0 {
        assert(s.push(e)[0] == e);
        assert(s.push(e).drop_first() =~= s);
    } else {
        assert(s.push(e).drop_first() =~= s.drop_first().push(e));
        lemma_sum_activated_push(s.drop_first(), e);
        assert forall|p: u32| p != e.pool_id implies sum_activated(s.push(e), p) == sum_activated(
            s,
            p,
        ) by {
            assert(s.push(e)[0] == s[0]);
            assert(sum_activated(s.drop_first().push(e), p) == sum_activated(s.drop_first(), p));
        }
    }
}

proof fn lemma_sum_activated_absent(s: Seq<StakeEntry>, p: u32)
    requires
        forall|j: int| 0 <= j < s.len() ==> s[j].pool_id != p,
    ensures
        sum_activated(s, p) == 0,
    decreases s.len(),
{
    if s.len() > 0 {
        lemma_sum_activated_absent(s.drop_first(), p);
    }
}

/// One stake's activated amount never exceeds the pool-wide sum.
proof fn lemma_sum_activated_bounds_entry(s: Seq<StakeEntry>, i: int)
    requires
        0 <= i < s.len(),
        forall|j: int, k: int|
            0 <= j < k < s.len() ==> !(s[j].account == s[k].account && s[j].pool_id
                == s[k].pool_id),
        forall|j: int| 0 <= j < s.len() ==> s[j].position.activated_amount >= 0,
    ensures
        s[i].position.activated_amount <= sum_activated(s, s[i].pool_id),
    decreases s.len(),
{
    lemma_sum_activated_nonneg(s.drop_first(), s[i].pool_id);
    if i > 0 {
        lemma_sum_activated_bounds_entry(s.drop_first(), i - 1);
    }
}

pub(crate) proof fn lemma_sum_activated_nonneg(s: Seq<StakeEntry>, p: u32)
    ensures
        sum_activated(s, p) >= 0,
    decreases s.len(),
{
    if s.len() > 0 {
        lemma_sum_activated_nonneg(s.drop_first(), p);
    }
}

/// Reward owed to a position when the pool accumulator stands at `acc`:
/// the already-flushed part plus the stake times the accumulator movement
/// since the last checkpoint, scaled back down.
pub open spec fn pending_math(pos: StakePosition, acc: u128) -> int
    recommends
        pos.checkpoint_accumulator <= acc,
{
    pos.accrued_unclaimed + (pos.activated_amount * (acc - pos.checkpoint_accumulator)) / (
    REWARDS_PRECISION as int)
}

/// Exactly when settlement arithmetic fits in `u128`.
pub open spec fn pending_fits(pos: StakePosition, acc: u128) -> bool {
    &&& pos.activated_amount * (acc - pos.checkpoint_accumulator) <= u128::MAX
    &&& pending_math(pos, acc) <= u128::MAX
}

/// The position after settling against accumulator value `acc`: newly
/// accrued reward is flushed into `accrued_unclaimed` and the checkpoint
/// moves up to `acc`.
pub open spec fn settled_position(pos: StakePosition, acc: u128) -> StakePosition
    recommends
        pos.checkpoint_accumulator <= acc,
        pending_fits(pos, acc),
{
    StakePosition {
        activated_amount: pos.activated_amount,
        checkpoint_accumulator: acc,
        accrued_unclaimed: pending_math(pos, acc) as u128,
    }
}

/// The zero position a first activation starts from: its checkpoint is the
/// pool's current accumulator, so nothing accrues retroactively.
pub open spec fn fresh_position(acc: u128) -> StakePosition {
    StakePosition { activated_amount: 0, checkpoint_accumulator: acc, accrued_unclaimed: 0 }
}

/// The position after settling at `acc` and then activating `amount` more
/// stake: the added amount starts from checkpoint `acc`, so it earns nothing
/// for sessions before the activation.
pub open spec fn activated_position(pos: StakePosition, acc: u128, amount: u128) -> StakePosition
    recommends
        pos.checkpoint_accumulator <= acc,
        pending_fits(pos, acc),
        pos.activated_amount + amount <= u128::MAX,
{
    StakePosition {
        activated_amount: (pos.activated_amount + amount) as u128,
        checkpoint_accumulator: acc,
        accrued_unclaimed: pending_math(pos, acc) as u128,
    }
}

/// The position after settling at `acc` and then deactivating `amount`:
/// reward accrued so far stays payable, only the stake shrinks.
pub open spec fn deactivated_position(pos: StakePosition, acc: u128, amount: u128) -> StakePosition
    recommends
        pos.checkpoint_accumulator <= acc,
        pending_fits(pos, acc),
        amount <= pos.activated_amount,
{
    StakePosition {
        activated_amount: (pos.activated_amount - amount) as u128,
        checkpoint_accumulator: acc,
        accrued_unclaimed: pending_math(pos, acc) as u128,
    }
}

/// The position after a claim: settled at `acc` with all accrued reward paid
/// out.
pub open spec fn claimed_position(pos: StakePosition, acc: u128) -> StakePosition {
    StakePosition {
        activated_amount: pos.activated_amount,
        checkpoint_accumulator: acc,
        accrued_unclaimed: 0,
    }
}

/// A pool state with its stake total replaced.
pub open spec fn pool_total_changed(ps: PoolState, new_total: int) -> PoolState {
    PoolState { total_activated_amount: new_total as u128, ..ps }
}

/// Pool state after `update_pool_promotion`: an existing pool keeps its
/// accounting and takes the new weight; an unknown pool is registered empty.
pub open spec fn promoted_pool_state(prior: Option<PoolState>, weight: u8) -> PoolState {
    match prior {
        Some(ps) => PoolState { promotion_weight: weight, ..ps },
        None => PoolState {
            promotion_weight: weight,
            total_activated_amount: 0,
            reward_per_share_accumulator: 0,
            pending_carry: 0,
        },
    }
}

/// The schedule that `reward_pool` inserts: the per-session rate is the
/// integer quotient, and the remainder is emitted with the final session, so
/// the total emitted over the schedule's life is exactly `amount`.
pub open spec fn new_schedule(
    pool_id: u32,
    reward_token: u32,
    amount: u128,
    number_of_sessions: u32,
) -> RewardSchedule
    recommends
        number_of_sessions > 0,
{
    RewardSchedule {
        pool_id,
        reward_token,
        per_session_rate: (amount / (number_of_sessions as u128)) as u128,
        final_session_extra: (amount % (number_of_sessions as u128)) as u128,
        remaining_sessions: number_of_sessions,
    }
}

/// What a live schedule emits this session: the flat rate, plus the rounding
/// remainder if this is its final session.
pub open spec fn schedule_emission(s: RewardSchedule) -> int {
    if s.remaining_sessions == 1 {
        s.per_session_rate + s.final_session_extra
    } else {
        s.per_session_rate as int
    }
}

/// A schedule after one session boundary: live schedules lose one remaining
/// session; expired ones are left as they are, awaiting eviction.
pub open spec fn matured_schedule(s: RewardSchedule) -> RewardSchedule {
    if s.remaining_sessions > 0 {
        RewardSchedule { remaining_sessions: (s.remaining_sessions - 1) as u32, ..s }
    } else {
        s
    }
}

/// Total emission that the live schedules targeting `pool_id` mature this
/// session.
pub open spec fn pool_schedule_reward(ss: Seq<RewardSchedule>, pool_id: u32) -> int
    decreases ss.len(),
{
    if ss.len() == 0 {
        0
    } else {
        (if ss[0].pool_id == pool_id && ss[0].remaining_sessions > 0 {
            schedule_emission(ss[0])
        } else {
            0
        }) + pool_schedule_reward(ss.drop_first(), pool_id)
    }
}

/// Sum of all pools' promotion weights; pools with weight 0 contribute
/// nothing, so this is the total over the enabled pools.
pub open spec fn total_promotion_weight(ps: Seq<PoolEntry>) -> int
    decreases ps.len(),
{
    if ps.len() == 0 {
        0
    } else {
        ps[0].state.promotion_weight + total_promotion_weight(ps.drop_first())
    }
}

/// An enabled pool's weighted share of the session's native issuance;
/// disabled pools receive nothing.
pub open spec fn native_share(issuance: u128, weight: u8, total_weight: int) -> int {
    if weight > 0 && total_weight > 0 {
        (issuance * weight) / total_weight
    } else {
        0
    }
}

proof fn lemma_pool_schedule_reward_nonneg(ss: Seq<RewardSchedule>, pool_id: u32)
    ensures
        pool_schedule_reward(ss, pool_id) >= 0,
    decreases ss.len(),
{
    if ss.len() > 0 {
        lemma_pool_schedule_reward_nonneg(ss.drop_first(), pool_id);
    }
}

proof fn lemma_div_nonneg(x: int, d: int)
    requires
        x >= 0,
        d > 0,
    ensures
        x / d >= 0,
{
    assert(x / d >= 0) by (nonlinear_arith)
        requires
            x >= 0,
            d > 0,
    ;
}

/// Everything one pool is owed for the session that is closing: its weighted
/// share of the native issuance plus the maturing schedule emissions that
/// target it.
pub open spec fn pool_session_reward(
    pools: Seq<PoolEntry>,
    schedules: Seq<RewardSchedule>,
    issuance: u128,
    id: u32,
    st: PoolState,
) -> int {
    native_share(issuance, st.promotion_weight, total_promotion_weight(pools))
        + pool_schedule_reward(schedules, id)
}

/// A pool after the session apportionment. With no activated stake the
/// accumulator is left alone and the reward joins the pending carry; with
/// stake, the reward plus any carry is folded into the accumulator and the
/// carry is cleared.
pub open spec fn apportioned_pool(st: PoolState, reward: int) -> PoolState {
    if st.total_activated_amount == 0 {
        PoolState { pending_carry: (st.pending_carry + reward) as u128, ..st }
    } else {
        PoolState {
            reward_per_share_accumulator: accumulated(
                st.reward_per_share_accumulator,
                (reward + st.pending_carry) as u128,
                st.total_activated_amount,
            ) as u128,
            pending_carry: 0,
            ..st
        }
    }
}

/// A pool registry entry after the session apportionment.
pub open spec fn apportioned_entry(
    pools: Seq<PoolEntry>,
    schedules: Seq<RewardSchedule>,
    issuance: u128,
    p: PoolEntry,
) -> PoolEntry {
    PoolEntry {
        id: p.id,
        state: apportioned_pool(p.state, pool_session_reward(pools, schedules, issuance, p.id, p.state)),
    }
}

/// Exactly when one pool's apportionment arithmetic fits in `u128`.
pub open spec fn pool_apportion_fits(
    pools: Seq<PoolEntry>,
    schedules: Seq<RewardSchedule>,
    issuance: u128,
    p: PoolEntry,
) -> bool {
    let tw = total_promotion_weight(pools);
    let reward = pool_session_reward(pools, schedules, issuance, p.id, p.state);
    &&& (p.state.promotion_weight > 0 && tw > 0 ==> issuance * p.state.promotion_weight
        <= u128::MAX)
    &&& reward <= u128::MAX
    &&& (if p.state.total_activated_amount == 0 {
        p.state.pending_carry + reward <= u128::MAX
    } else {
        &&& reward + p.state.pending_carry <= u128::MAX
        &&& accumulate_fits(
            p.state.reward_per_share_accumulator,
            (reward + p.state.pending_carry) as u128,
            p.state.total_activated_amount,
        )
    })
}

/// Exactly when the whole session apportionment succeeds: the session
/// counter can advance and every pool's arithmetic fits.
pub open spec fn session_apportion_fits(eng: RewardsEngine, issuance: u128) -> bool {
    &&& eng.session < u32::MAX
    &&& forall|i: int|
        0 <= i < eng.pools@.len() ==> pool_apportion_fits(
            eng.pools@,
            eng.schedules@,
            issuance,
            #[trigger] eng.pools@[i],
        )
}

/// The rewards engine: pool promotion registry, stake ledger, bounded
/// reward-schedule ledger, and the session counter.
pub struct RewardsEngine {
    pub pools: Vec<PoolEntry>,
    pub stakes: Vec<StakeEntry>,
    pub schedules: Vec<RewardSchedule>,
    pub schedules_limit: usize,
    pub session: u32,
}

impl RewardsEngine {
    /// The pool registered under `id`, if any.
    pub open spec fn pool_of(self, id: u32) -> Option<PoolState> {
        find_pool(self.pools@, id)
    }

    /// The stake position of `account` in pool `pool_id`, if any.
    pub open spec fn stake_of(self, account: u64, pool_id: u32) -> Option<StakePosition> {
        find_stake(self.stakes@, account, pool_id)
    }

    /// Well-formedness: keys are unique; every stake references a registered
    /// pool and its checkpoint never runs ahead of that pool's accumulator;
    /// each pool's stake total is exactly the sum of its positions; the
    /// schedule ledger respects its bound; and each schedule's final-session
    /// emission fits the machine representation.
    pub open spec fn wf(self) -> bool {
        &&& forall|i: int, j: int|
            0 <= i < j < self.pools@.len() ==> self.pools@[i].id != self.pools@[j].id
        &&& forall|i: int, j: int|
            0 <= i < j < self.stakes@.len() ==> !(self.stakes@[i].account
                == self.stakes@[j].account && self.stakes@[i].pool_id == self.stakes@[j].pool_id)
        &&& forall|k: int|
            0 <= k < self.stakes@.len() ==> (self.pool_of(
                (#[trigger] self.stakes@[k]).pool_id,
            ) matches Some(ps) && self.stakes@[k].position.checkpoint_accumulator
                <= ps.reward_per_share_accumulator)
        &&& forall|i: int|
            0 <= i < self.pools@.len() ==> (#[trigger] self.pools@[i]).state.total_activated_amount
                == sum_activated(self.stakes@, self.pools@[i].id)
        &&& self.schedules@.len() <= self.schedules_limit
        &&& forall|i: int|
            0 <= i < self.schedules@.len() ==> (#[trigger] self.schedules@[i]).per_session_rate
                + self.schedules@[i].final_session_extra <= u128::MAX
    }

    /// An empty engine whose schedule ledger is capped at `schedules_limit`.
    pub fn new(schedules_limit: usize) -> (r: RewardsEngine)
        ensures
            r.wf(),
            r.pools@.len() == 0,
            r.stakes@.len() == 0,
            r.schedules@.len() == 0,
            r.schedules_limit == schedules_limit,
            r.session == 0,
    {
        RewardsEngine {
            pools: Vec::new(),
            stakes: Vec::new(),
            schedules: Vec::new(),
            schedules_limit,
            session: 0,
        }
    }

    fn pool_index(&self, id: u32) -> (r: Option<usize>)
        ensures
            match r {
                Some(i) => i < self.pools@.len() && self.pools@[i as int].id == id
                    && self.pool_of(id) == Some(self.pools@[i as int].state) && (forall|j: int|
                    0 <= j < i ==> self.pools@[j].id != id),
                None => self.pool_of(id) is None && (forall|j: int|
                    0 <= j < self.pools@.len() ==> self.pools@[j].id != id),
            },
    {
        let n = self.pools.len();
        let mut i: usize = 0;
        while i < n
            invariant
                n == self.pools@.len(),
                i <= n,
                forall|j: int| 0 <= j < i ==> self.pools@[j].id != id,
            decreases n - i,
        {
            if self.pools[i].id == id {
                proof {
                    lemma_find_pool_at(self.pools@, id, i as int);
                }
                return Some(i);
            }
            i += 1;
        }
        proof {
            lemma_find_pool_none(self.pools@, id);
        }
        None
    }

    fn stake_index(&self, account: u64, pool_id: u32) -> (r: Option<usize>)
        ensures
            match r {
                Some(k) => k < self.stakes@.len() && self.stakes@[k as int].account == account
                    && self.stakes@[k as int].pool_id == pool_id && self.stake_of(account, pool_id)
                    == Some(self.stakes@[k as int].position) && (forall|j: int|
                    0 <= j < k ==> !(self.stakes@[j].account == account && self.stakes@[j].pool_id
                        == pool_id)),
                None => self.stake_of(account, pool_id) is None && (forall|j: int|
                    0 <= j < self.stakes@.len() ==> !(self.stakes@[j].account == account
                        && self.stakes@[j].pool_id == pool_id)),
            },
    {
        let n = self.stakes.len();
        let mut k: usize = 0;
        while k < n
            invariant
                n == self.stakes@.len(),
                k <= n,
                forall|j: int|
                    0 <= j < k ==> !(self.stakes@[j].account == account && self.stakes@[j].pool_id
                        == pool_id),
            decreases n - k,
        {
            if self.stakes[k].account == account && self.stakes[k].pool_id == pool_id {
                proof {
                    lemma_find_stake_at(self.stakes@, account, pool_id, k as int);
                }
                return Some(k);
            }
            k += 1;
        }
        proof {
            lemma_find_stake_none(self.stakes@, account, pool_id);
        }
        None
    }

    /// Sets a pool's promotion weight, registering the pool on first use.
    /// Weight 0 stops future apportionment without touching accrued rewards
    /// or activated stake; re-promoting resumes from the pool's last
    /// accumulator value, with no back-payment for the disabled interval.
    pub fn update_pool_promotion(&mut self, liquidity_token_id: u32, weight: u8)
        requires
            old(self).wf(),
        ensures
            final (self).wf(),
            final (self).pool_of(liquidity_token_id) == Some(
                promoted_pool_state(old(self).pool_of(liquidity_token_id), weight),
            ),
            forall|id2: u32|
                id2 != liquidity_token_id ==> final (self).pool_of(id2) == old(self).pool_of(id2),
            final (self).stakes == old(self).stakes,
            final (self).schedules == old(self).schedules,
            final (self).schedules_limit == old(self).schedules_limit,
            final (self).session == old(self).session,
    {
        match self.pool_index(liquidity_token_id) {
            Some(i) => {
                let entry = PoolEntry {
                    id: liquidity_token_id,
                    state: PoolState { promotion_weight: weight, ..self.pools[i].state },
                };
                let ghost prior = self.pools@;
                self.pools.set(i, entry);
                proof {
                    lemma_find_pool_update(prior, i as int, entry);
                    assert forall|k: int| 0 <= k < self.stakes@.len() implies (self.pool_of(
                        (#[trigger] self.stakes@[k]).pool_id,
                    ) matches Some(ps) && self.stakes@[k].position.checkpoint_accumulator
                        <= ps.reward_per_share_accumulator) by {
                        if self.stakes@[k].pool_id != liquidity_token_id {
                            assert(self.pool_of(self.stakes@[k].pool_id) == old(self).pool_of(
                                self.stakes@[k].pool_id,
                            ));
                        }
                    }
                }
            },
            None => {
                let entry = PoolEntry {
                    id: liquidity_token_id,
                    state: PoolState {
                        promotion_weight: weight,
                        total_activated_amount: 0,
                        reward_per_share_accumulator: 0,
                        pending_carry: 0,
                    },
                };
                let ghost prior = self.pools@;
                self.pools.push(entry);
                proof {
                    lemma_find_pool_push(prior, entry);
                    assert forall|k: int| 0 <= k < self.stakes@.len() implies self.stakes@[k].pool_id
                        != liquidity_token_id by {
                        if self.stakes@[k].pool_id == liquidity_token_id {
                            assert(old(self).pool_of(self.stakes@[k].pool_id) is Some);
                        }
                    }
                    lemma_sum_activated_absent(self.stakes@, liquidity_token_id);
                }
            },
        }
    }

    /// A pool is reward-eligible exactly when its promotion weight is
    /// positive.
    pub fn is_enabled(&self, liquidity_token_id: u32) -> (r: bool)
        ensures
            r == (self.pool_of(liquidity_token_id) matches Some(ps) && ps.promotion_weight > 0),
    {
        match self.pool_index(liquidity_token_id) {
            Some(i) => self.pools[i].state.promotion_weight > 0,
            None => false,
        }
    }

    /// The recorded stake position, or the zero position for an account that
    /// never activated in this pool.
    pub fn get_rewards_info(&self, account: u64, liquidity_token_id: u32) -> (r: StakePosition)
        ensures
            r == match self.stake_of(account, liquidity_token_id) {
                Some(pos) => pos,
                None => StakePosition {
                    activated_amount: 0,
                    checkpoint_accumulator: 0,
                    accrued_unclaimed: 0,
                },
            },
    {
        match self.stake_index(account, liquidity_token_id) {
            Some(k) => self.stakes[k].position,
            None => StakePosition {
                activated_amount: 0,
                checkpoint_accumulator: 0,
                accrued_unclaimed: 0,
            },
        }
    }

    /// Side-effect-free dry run of settlement: what a claim would pay out
    /// right now. Reports an unknown pool as `InvalidInput` and settlement
    /// arithmetic that no longer fits as `ArithmeticOverflow`.
    pub fn calculate_rewards_amount(&self, account: u64, liquidity_token_id: u32) -> (r: Result<
        u128,
        RewardsError,
    >)
        requires
            self.wf(),
        ensures
            self.pool_of(liquidity_token_id) is None ==> r == Err::<u128, RewardsError>(
                RewardsError::InvalidInput,
            ),
            self.pool_of(liquidity_token_id) matches Some(ps) ==> match self.stake_of(
                account,
                liquidity_token_id,
            ) {
                None => r == Ok::<u128, RewardsError>(0u128),
                Some(pos) => {
                    &&& pending_fits(pos, ps.reward_per_share_accumulator) ==> r == Ok::<
                        u128,
                        RewardsError,
                    >(pending_math(pos, ps.reward_per_share_accumulator) as u128)
                    &&& !pending_fits(pos, ps.reward_per_share_accumulator) ==> r == Err::<
                        u128,
                        RewardsError,
                    >(RewardsError::ArithmeticOverflow)
                },
            },
    {
        let i = match self.pool_index(liquidity_token_id) {
            Some(i) => i,
            None => {
                return Err(RewardsError::InvalidInput);
            },
        };
        let acc = self.pools[i].state.reward_per_share_accumulator;
        let k = match self.stake_index(account, liquidity_token_id) {
            Some(k) => k,
            None => {
                return Ok(0);
            },
        };
        let pos = self.stakes[k].position;
        let movement = acc - pos.checkpoint_accumulator;
        match pos.activated_amount.checked_mul(movement) {
            Some(scaled) => {
                let newly = scaled / REWARDS_PRECISION;
                match pos.accrued_unclaimed.checked_add(newly) {
                    Some(total) => Ok(total),
                    None => Err(RewardsError::ArithmeticOverflow),
                }
            },
            None => Err(RewardsError::ArithmeticOverflow),
        }
    }

    /// Activates `amount` of the pool's liquidity token for `account`.
    /// The position is settled first, under the stake held so far, so the
    /// newly added amount earns no retroactive reward. The caller is
    /// responsible for having locked `amount` in the external token ledger
    /// before calling.
    pub fn activate_liquidity(
        &mut self,
        account: u64,
        liquidity_token_id: u32,
        amount: u128,
    ) -> (r: Result<(), RewardsError>)
        requires
            old(self).wf(),
        ensures
            final (self).wf(),
            final (self).schedules == old(self).schedules,
            final (self).schedules_limit == old(self).schedules_limit,
            final (self).session == old(self).session,
            forall|a2: u64, p2: u32|
                !(a2 == account && p2 == liquidity_token_id) ==> final (self).stake_of(a2, p2)
                    == old(self).stake_of(a2, p2),
            forall|id2: u32|
                id2 != liquidity_token_id ==> final (self).pool_of(id2) == old(self).pool_of(id2),
            match old(self).pool_of(liquidity_token_id) {
                None => r == Err::<(), RewardsError>(RewardsError::InvalidInput) && *final (self)
                    == *old(self),
                Some(ps) => ({
                    let acc = ps.reward_per_share_accumulator;
                    let pos = (match old(self).stake_of(account, liquidity_token_id) {
                        Some(p) => p,
                        None => fresh_position(acc),
                    });
                    if amount == 0 {
                        r == Err::<(), RewardsError>(RewardsError::InvalidInput) && *final (self)
                            == *old(self)
                    } else if !(pending_fits(pos, acc) && pos.activated_amount + amount
                        <= u128::MAX && ps.total_activated_amount + amount <= u128::MAX) {
                        r == Err::<(), RewardsError>(RewardsError::ArithmeticOverflow) && *final (
                        self) == *old(self)
                    } else {
                        &&& r == Ok::<(), RewardsError>(())
                        &&& final (self).stake_of(account, liquidity_token_id) == Some(
                            activated_position(pos, acc, amount),
                        )
                        &&& final (self).pool_of(liquidity_token_id) == Some(
                            pool_total_changed(ps, ps.total_activated_amount + amount),
                        )
                    }
                }),
            },
    {
        if amount == 0 {
            return Err(RewardsError::InvalidInput);
        }
        let i = match self.pool_index(liquidity_token_id) {
            Some(i) => i,
            None => {
                return Err(RewardsError::InvalidInput);
            },
        };
        let ps = self.pools[i].state;
        let acc = ps.reward_per_share_accumulator;
        let stake_idx = self.stake_index(account, liquidity_token_id);
        let pos = match stake_idx {
            Some(k) => self.stakes[k].position,
            None => StakePosition {
                activated_amount: 0,
                checkpoint_accumulator: acc,
                accrued_unclaimed: 0,
            },
        };
        let movement = acc - pos.checkpoint_accumulator;
        let scaled = match pos.activated_amount.checked_mul(movement) {
            Some(s) => s,
            None => {
                return Err(RewardsError::ArithmeticOverflow);
            },
        };
        let accrued = match pos.accrued_unclaimed.checked_add(scaled / REWARDS_PRECISION) {
            Some(a) => a,
            None => {
                return Err(RewardsError::ArithmeticOverflow);
            },
        };
        let new_activated = match pos.activated_amount.checked_add(amount) {
            Some(v) => v,
            None => {
                return Err(RewardsError::ArithmeticOverflow);
            },
        };
        let new_total = match ps.total_activated_amount.checked_add(amount) {
            Some(v) => v,
            None => {
                return Err(RewardsError::ArithmeticOverflow);
            },
        };
        let entry = StakeEntry {
            account,
            pool_id: liquidity_token_id,
            position: StakePosition {
                activated_amount: new_activated,
                checkpoint_accumulator: acc,
                accrued_unclaimed: accrued,
            },
        };
        let ghost prior_stakes = self.stakes@;
        match stake_idx {
            Some(k) => {
                self.stakes.set(k, entry);
                proof {
                    lemma_find_stake_update(prior_stakes, k as int, entry);
                    lemma_sum_activated_update(prior_stakes, k as int, entry);
                }
            },
            None => {
                self.stakes.push(entry);
                proof {
                    lemma_find_stake_push(prior_stakes, entry);
                    lemma_sum_activated_push(prior_stakes, entry);
                }
            },
        }
        let pool_entry = PoolEntry {
            id: liquidity_token_id,
            state: PoolState { total_activated_amount: new_total, ..ps },
        };
        let ghost prior_pools = self.pools@;
        self.pools.set(i, pool_entry);
        proof {
            lemma_find_pool_update(prior_pools, i as int, pool_entry);
            assert forall|k: int| 0 <= k < self.stakes@.len() implies (self.pool_of(
                (#[trigger] self.stakes@[k]).pool_id,
            ) matches Some(ps2) && self.stakes@[k].position.checkpoint_accumulator
                <= ps2.reward_per_share_accumulator) by {
                if self.stakes@[k].pool_id != liquidity_token_id {
                    assert(self.pool_of(self.stakes@[k].pool_id) == old(self).pool_of(
                        self.stakes@[k].pool_id,
                    ));
                }
                if k < prior_stakes.len() && self.stakes@[k] == prior_stakes[k] {
                    assert(old(self).pool_of(prior_stakes[k].pool_id) matches Some(q)
                        && prior_stakes[k].position.checkpoint_accumulator
                        <= q.reward_per_share_accumulator);
                }
            }
        }
        Ok(())
    }

    /// Deactivates `amount` of `account`'s stake in the pool. The position
    /// is settled first, so reward accrued up to now stays payable via a
    /// later claim; the freed amount is for the external ledger to unlock.
    pub fn deactivate_liquidity(
        &mut self,
        account: u64,
        liquidity_token_id: u32,
        amount: u128,
    ) -> (r: Result<(), RewardsError>)
        requires
            old(self).wf(),
        ensures
            final (self).wf(),
            final (self).schedules == old(self).schedules,
            final (self).schedules_limit == old(self).schedules_limit,
            final (self).session == old(self).session,
            forall|a2: u64, p2: u32|
                !(a2 == account && p2 == liquidity_token_id) ==> final (self).stake_of(a2, p2)
                    == old(self).stake_of(a2, p2),
            forall|id2: u32|
                id2 != liquidity_token_id ==> final (self).pool_of(id2) == old(self).pool_of(id2),
            match old(self).pool_of(liquidity_token_id) {
                None => r == Err::<(), RewardsError>(RewardsError::InvalidInput) && *final (self)
                    == *old(self),
                Some(ps) => ({
                    let acc = ps.reward_per_share_accumulator;
                    let pos = (match old(self).stake_of(account, liquidity_token_id) {
                        Some(p) => p,
                        None => fresh_position(acc),
                    });
                    if amount == 0 {
                        r == Err::<(), RewardsError>(RewardsError::InvalidInput) && *final (self)
                            == *old(self)
                    } else if amount > pos.activated_amount {
                        r == Err::<(), RewardsError>(RewardsError::InsufficientActivatedStake)
                            && *final (self) == *old(self)
                    } else if !pending_fits(pos, acc) {
                        r == Err::<(), RewardsError>(RewardsError::ArithmeticOverflow) && *final (
                        self) == *old(self)
                    } else {
                        &&& r == Ok::<(), RewardsError>(())
                        &&& final (self).stake_of(account, liquidity_token_id) == Some(
                            deactivated_position(pos, acc, amount),
                        )
                        &&& final (self).pool_of(liquidity_token_id) == Some(
                            pool_total_changed(ps, ps.total_activated_amount - amount),
                        )
                    }
                }),
            },
    {
        if amount == 0 {
            return Err(RewardsError::InvalidInput);
        }
        let i = match self.pool_index(liquidity_token_id) {
            Some(i) => i,
            None => {
                return Err(RewardsError::InvalidInput);
            },
        };
        let ps = self.pools[i].state;
        let acc = ps.reward_per_share_accumulator;
        let stake_idx = self.stake_index(account, liquidity_token_id);
        let k = match stake_idx {
            Some(k) => k,
            None => {
                return Err(RewardsError::InsufficientActivatedStake);
            },
        };
        let pos = self.stakes[k].position;
        if amount > pos.activated_amount {
            return Err(RewardsError::InsufficientActivatedStake);
        }
        let movement = acc - pos.checkpoint_accumulator;
        let scaled = match pos.activated_amount.checked_mul(movement) {
            Some(s) => s,
            None => {
                return Err(RewardsError::ArithmeticOverflow);
            },
        };
        let accrued = match pos.accrued_unclaimed.checked_add(scaled / REWARDS_PRECISION) {
            Some(a) => a,
            None => {
                return Err(RewardsError::ArithmeticOverflow);
            },
        };
        proof {
            lemma_sum_activated_bounds_entry(self.stakes@, k as int);
        }
        let entry = StakeEntry {
            account,
            pool_id: liquidity_token_id,
            position: StakePosition {
                activated_amount: pos.activated_amount - amount,
                checkpoint_accumulator: acc,
                accrued_unclaimed: accrued,
            },
        };
        let ghost prior_stakes = self.stakes@;
        self.stakes.set(k, entry);
        proof {
            lemma_find_stake_update(prior_stakes, k as int, entry);
            lemma_sum_activated_update(prior_stakes, k as int, entry);
        }
        let pool_entry = PoolEntry {
            id: liquidity_token_id,
            state: PoolState { total_activated_amount: ps.total_activated_amount - amount, ..ps },
        };
        let ghost prior_pools = self.pools@;
        self.pools.set(i, pool_entry);
        proof {
            lemma_find_pool_update(prior_pools, i as int, pool_entry);
            assert forall|k2: int| 0 <= k2 < self.stakes@.len() implies (self.pool_of(
                (#[trigger] self.stakes@[k2]).pool_id,
            ) matches Some(ps2) && self.stakes@[k2].position.checkpoint_accumulator
                <= ps2.reward_per_share_accumulator) by {
                if self.stakes@[k2].pool_id != liquidity_token_id {
                    assert(self.pool_of(self.stakes@[k2].pool_id) == old(self).pool_of(
                        self.stakes@[k2].pool_id,
                    ));
                }
                if k2 != k as int {
                    assert(old(self).pool_of(prior_stakes[k2].pool_id) matches Some(q)
                        && prior_stakes[k2].position.checkpoint_accumulator
                        <= q.reward_per_share_accumulator);
                }
            }
        }
        Ok(())
    }

    /// Pays out everything `account` has accrued in the pool and zeroes the
    /// unclaimed balance; the returned amount is for the external ledger to
    /// transfer. A claim with nothing accrued succeeds and pays zero.
    pub fn claim_rewards_all(&mut self, account: u64, liquidity_token_id: u32) -> (r: Result<
        u128,
        RewardsError,
    >)
        requires
            old(self).wf(),
        ensures
            final (self).wf(),
            final (self).pools == old(self).pools,
            final (self).schedules == old(self).schedules,
            final (self).schedules_limit == old(self).schedules_limit,
            final (self).session == old(self).session,
            forall|a2: u64, p2: u32|
                !(a2 == account && p2 == liquidity_token_id) ==> final (self).stake_of(a2, p2)
                    == old(self).stake_of(a2, p2),
            match old(self).pool_of(liquidity_token_id) {
                None => r == Err::<u128, RewardsError>(RewardsError::InvalidInput) && *final (self)
                    == *old(self),
                Some(ps) => ({
                    let acc = ps.reward_per_share_accumulator;
                    match old(self).stake_of(account, liquidity_token_id) {
                        None => r == Ok::<u128, RewardsError>(0u128) && *final (self) == *old(
                            self,
                        ),
                        Some(pos) => if !pending_fits(pos, acc) {
                            r == Err::<u128, RewardsError>(RewardsError::ArithmeticOverflow)
                                && *final (self) == *old(self)
                        } else {
                            &&& r == Ok::<u128, RewardsError>(pending_math(pos, acc) as u128)
                            &&& final (self).stake_of(account, liquidity_token_id) == Some(
                                claimed_position(pos, acc),
                            )
                            &&& pending_math(claimed_position(pos, acc), acc) == 0
                        },
                    }
                }),
            },
    {
        let i = match self.pool_index(liquidity_token_id) {
            Some(i) => i,
            None => {
                return Err(RewardsError::InvalidInput);
            },
        };
        let acc = self.pools[i].state.reward_per_share_accumulator;
        let k = match self.stake_index(account, liquidity_token_id) {
            Some(k) => k,
            None => {
                return Ok(0);
            },
        };
        let pos = self.stakes[k].position;
        let movement = acc - pos.checkpoint_accumulator;
        let scaled = match pos.activated_amount.checked_mul(movement) {
            Some(s) => s,
            None => {
                return Err(RewardsError::ArithmeticOverflow);
            },
        };
        let payout = match pos.accrued_unclaimed.checked_add(scaled / REWARDS_PRECISION) {
            Some(a) => a,
            None => {
                return Err(RewardsError::ArithmeticOverflow);
            },
        };
        let entry = StakeEntry {
            account,
            pool_id: liquidity_token_id,
            position: StakePosition {
                activated_amount: pos.activated_amount,
                checkpoint_accumulator: acc,
                accrued_unclaimed: 0,
            },
        };
        let ghost prior_stakes = self.stakes@;
        self.stakes.set(k, entry);
        proof {
            lemma_find_stake_update(prior_stakes, k as int, entry);
            lemma_sum_activated_update(prior_stakes, k as int, entry);
            assert forall|k2: int| 0 <= k2 < self.stakes@.len() implies (self.pool_of(
                (#[trigger] self.stakes@[k2]).pool_id,
            ) matches Some(ps2) && self.stakes@[k2].position.checkpoint_accumulator
                <= ps2.reward_per_share_accumulator) by {
                if k2 != k as int {
                    assert(old(self).pool_of(prior_stakes[k2].pool_id) matches Some(q)
                        && prior_stakes[k2].position.checkpoint_accumulator
                        <= q.reward_per_share_accumulator);
                }
            }
            assert forall|i2: int| 0 <= i2 < self.pools@.len() implies (
            #[trigger] self.pools@[i2]).state.total_activated_amount == sum_activated(
                self.stakes@,
                self.pools@[i2].id,
            ) by {
                if self.pools@[i2].id == liquidity_token_id {
                    assert(sum_activated(self.stakes@, liquidity_token_id) == sum_activated(
                        prior_stakes,
                        liquidity_token_id,
                    ));
                }
            }
        }
        proof {
            assert(pos.activated_amount * (acc - acc) == 0) by (nonlinear_arith);
            assert(0int / (REWARDS_PRECISION as int) == 0) by (nonlinear_arith)
                requires
                    REWARDS_PRECISION > 0,
            ;
        }
        Ok(payout)
    }

    /// The number of sessions closed so far.
    pub fn current_session(&self) -> (r: u32)
        ensures
            r == self.session,
    {
        self.session
    }

    /// How many schedules the ledger holds, expired ones included.
    pub fn schedules_count(&self) -> (r: usize)
        ensures
            r == self.schedules@.len(),
    {
        self.schedules.len()
    }

    /// The configured capacity of the schedule ledger.
    pub fn rewards_schedules_limit(&self) -> (r: usize)
        ensures
            r == self.schedules_limit,
    {
        self.schedules_limit
    }

    fn first_expired_index(&self) -> (r: Option<usize>)
        ensures
            match r {
                Some(j) => j < self.schedules@.len() && self.schedules@[j as int].remaining_sessions
                    == 0 && (forall|j2: int|
                    0 <= j2 < j ==> self.schedules@[j2].remaining_sessions > 0),
                None => forall|j: int|
                    0 <= j < self.schedules@.len() ==> self.schedules@[j].remaining_sessions > 0,
            },
    {
        let n = self.schedules.len();
        let mut j: usize = 0;
        while j < n
            invariant
                n == self.schedules@.len(),
                j <= n,
                forall|j2: int| 0 <= j2 < j ==> self.schedules@[j2].remaining_sessions > 0,
            decreases n - j,
        {
            if self.schedules[j].remaining_sessions == 0 {
                return Some(j);
            }
            j += 1;
        }
        None
    }

    /// Admits a new reward schedule: `amount` of `reward_token`, emitted
    /// into the pool over `number_of_sessions` sessions starting with the
    /// session now in progress. If the bounded ledger is at capacity, the
    /// oldest expired schedule is evicted to make room; with none expired
    /// the call fails with `ScheduleLimitReached`. The caller is responsible
    /// for having locked `amount` in the external token ledger first.
    pub fn reward_pool(
        &mut self,
        liquidity_token_id: u32,
        reward_token: u32,
        amount: u128,
        number_of_sessions: u32,
    ) -> (r: Result<(), RewardsError>)
        requires
            old(self).wf(),
        ensures
            final (self).wf(),
            final (self).pools == old(self).pools,
            final (self).stakes == old(self).stakes,
            final (self).schedules_limit == old(self).schedules_limit,
            final (self).session == old(self).session,
            ({
                let valid = amount > 0 && number_of_sessions > 0 && old(self).pool_of(
                    liquidity_token_id,
                ) is Some;
                let full = old(self).schedules@.len() >= old(self).schedules_limit;
                let entry = new_schedule(
                    liquidity_token_id,
                    reward_token,
                    amount,
                    number_of_sessions,
                );
                if !valid {
                    r == Err::<(), RewardsError>(RewardsError::InvalidInput) && *final (self)
                        == *old(self)
                } else if full && (forall|j: int|
                    0 <= j < old(self).schedules@.len() ==> (#[trigger] old(
                        self,
                    ).schedules@[j]).remaining_sessions > 0) {
                    r == Err::<(), RewardsError>(RewardsError::ScheduleLimitReached) && *final (
                    self) == *old(self)
                } else {
                    &&& r == Ok::<(), RewardsError>(())
                    &&& (!full ==> final (self).schedules@ == old(self).schedules@.push(entry))
                    &&& (full ==> exists|j: int|
                        0 <= j < old(self).schedules@.len() && (#[trigger] old(
                            self,
                        ).schedules@[j]).remaining_sessions == 0 && (forall|j2: int|
                            0 <= j2 < j ==> old(self).schedules@[j2].remaining_sessions > 0)
                            && final (self).schedules@ == old(self).schedules@.remove(j).push(
                            entry,
                        ))
                }
            }),
    {
        if amount == 0 || number_of_sessions == 0 {
            return Err(RewardsError::InvalidInput);
        }
        if let None = self.pool_index(liquidity_token_id) {
            return Err(RewardsError::InvalidInput);
        }
        let sessions = number_of_sessions as u128;
        let rate = amount / sessions;
        let extra = amount % sessions;
        proof {
            vstd::arithmetic::div_mod::lemma_fundamental_div_mod(amount as int, sessions as int);
            assert(rate + extra <= amount) by (nonlinear_arith)
                requires
                    amount == sessions * rate + extra,
                    rate >= 0,
                    extra >= 0,
                    sessions >= 1,
            ;
        }
        let entry = RewardSchedule {
            pool_id: liquidity_token_id,
            reward_token,
            per_session_rate: rate,
            final_session_extra: extra,
            remaining_sessions: number_of_sessions,
        };
        if self.schedules.len() >= self.schedules_limit {
            let j = match self.first_expired_index() {
                Some(j) => j,
                None => {
                    return Err(RewardsError::ScheduleLimitReached);
                },
            };
            let ghost prior = self.schedules@;
            self.schedules.remove(j);
            proof {
                assert(self.schedules@ =~= prior.remove(j as int));
                assert forall|k: int| 0 <= k < self.schedules@.len() implies (
                #[trigger] self.schedules@[k]).per_session_rate
                    + self.schedules@[k].final_session_extra <= u128::MAX by {
                    if k < j {
                        assert(self.schedules@[k] == prior[k]);
                    } else {
                        assert(self.schedules@[k] == prior[k + 1]);
                    }
                }
            }
        }
        self.schedules.push(entry);
        Ok(())
    }

    /// Closes the session in progress: distributes `session_native_issuance`
    /// across the enabled pools in proportion to their promotion weights,
    /// folds in the maturing schedule emissions, advances every live
    /// schedule, and advances the session counter. A pool with no activated
    /// stake keeps its reward as pending carry instead of advancing its
    /// accumulator. The whole step is atomic: on overflow nothing changes.
    pub fn distribute_session_rewards(&mut self, session_native_issuance: u128) -> (r: Result<
        (),
        RewardsError,
    >)
        requires
            old(self).wf(),
        ensures
            final (self).wf(),
            final (self).stakes == old(self).stakes,
            final (self).schedules_limit == old(self).schedules_limit,
            if session_apportion_fits(*old(self), session_native_issuance) {
                &&& r == Ok::<(), RewardsError>(())
                &&& final (self).session == old(self).session + 1
                &&& final (self).pools@.len() == old(self).pools@.len()
                &&& (forall|i: int|
                    0 <= i < old(self).pools@.len() ==> #[trigger] final (self).pools@[i]
                        == apportioned_entry(
                        old(self).pools@,
                        old(self).schedules@,
                        session_native_issuance,
                        old(self).pools@[i],
                    ))
                &&& final (self).schedules@.len() == old(self).schedules@.len()
                &&& (forall|i: int|
                    0 <= i < old(self).schedules@.len() ==> #[trigger] final (self).schedules@[i]
                        == matured_schedule(old(self).schedules@[i]))
                &&& (forall|id: u32|
                    match #[trigger] old(self).pool_of(id) {
                        None => final (self).pool_of(id) is None,
                        Some(ps) => final (self).pool_of(id) == Some(
                            apportioned_pool(
                                ps,
                                pool_session_reward(
                                    old(self).pools@,
                                    old(self).schedules@,
                                    session_native_issuance,
                                    id,
                                    ps,
                                ),
                            ),
                        ),
                    })
            } else {
                r == Err::<(), RewardsError>(RewardsError::ArithmeticOverflow) && *final (self)
                    == *old(self)
            },
    {
        if self.session == u32::MAX {
            return Err(RewardsError::ArithmeticOverflow);
        }
        let n = self.pools.len();
        let mut total_weight: u128 = 0;
        let mut i: usize = 0;
        proof {
            assert(self.pools@.skip(0) =~= self.pools@);
        }
        while i < n
            invariant
                n == self.pools@.len(),
                i <= n,
                total_weight + total_promotion_weight(self.pools@.skip(i as int))
                    == total_promotion_weight(self.pools@),
                total_weight <= 255 * i,
            decreases n - i,
        {
            proof {
                assert(self.pools@.skip(i as int)[0] == self.pools@[i as int]);
                assert(self.pools@.skip(i as int).drop_first() =~= self.pools@.skip(i as int + 1));
            }
            total_weight = total_weight + (self.pools[i].state.promotion_weight as u128);
            i += 1;
        }
        let ghost tw = total_promotion_weight(self.pools@);
        let mut new_pools: Vec<PoolEntry> = Vec::new();
        let mut i: usize = 0;
        while i < n
            invariant
                n == self.pools@.len(),
                i <= n,
                old(self).wf(),
                *self == *old(self),
                self.session < u32::MAX,
                tw == total_promotion_weight(self.pools@),
                total_weight == tw,
                new_pools@.len() == i,
                forall|j: int|
                    0 <= j < i ==> #[trigger] new_pools@[j] == apportioned_entry(
                        self.pools@,
                        self.schedules@,
                        session_native_issuance,
                        self.pools@[j],
                    ),
                forall|j: int|
                    0 <= j < i ==> pool_apportion_fits(
                        self.pools@,
                        self.schedules@,
                        session_native_issuance,
                        #[trigger] self.pools@[j],
                    ),
            decreases n - i,
        {
            let p = self.pools[i];
            let w = p.state.promotion_weight;
            let ghost sched_total = pool_schedule_reward(self.schedules@, p.id);
            proof {
                lemma_pool_schedule_reward_nonneg(self.schedules@, p.id);
            }
            let mut reward: u128;
            if w > 0 && total_weight > 0 {
                let scaled = match session_native_issuance.checked_mul(w as u128) {
                    Some(s) => s,
                    None => {
                        proof {
                            assert(!pool_apportion_fits(
                                self.pools@,
                                self.schedules@,
                                session_native_issuance,
                                self.pools@[i as int],
                            ));
                        }
                        return Err(RewardsError::ArithmeticOverflow);
                    },
                };
                reward = scaled / total_weight;
                proof {
                    lemma_div_nonneg(scaled as int, tw);
                }
            } else {
                reward = 0;
            }
            assert(reward == native_share(session_native_issuance, w, tw));
            let ghost share = reward as int;
            let m = self.schedules.len();
            let mut j: usize = 0;
            proof {
                assert(self.schedules@.skip(0) =~= self.schedules@);
            }
            while j < m
                invariant
                    n == self.pools@.len(),
                    i < n,
                    m == self.schedules@.len(),
                    j <= m,
                    old(self).wf(),
                    *self == *old(self),
                    p == self.pools@[i as int],
                    share == native_share(
                        session_native_issuance,
                        p.state.promotion_weight,
                        total_promotion_weight(self.pools@),
                    ),
                    reward + pool_schedule_reward(self.schedules@.skip(j as int), p.id) == share
                        + pool_schedule_reward(self.schedules@, p.id),
                decreases m - j,
            {
                proof {
                    assert(self.schedules@.skip(j as int)[0] == self.schedules@[j as int]);
                    assert(self.schedules@.skip(j as int).drop_first() =~= self.schedules@.skip(
                        j as int + 1,
                    ));
                    lemma_pool_schedule_reward_nonneg(self.schedules@.skip(j as int + 1), p.id);
                }
                let s = self.schedules[j];
                if s.pool_id == p.id && s.remaining_sessions > 0 {
                    let emission = if s.remaining_sessions == 1 {
                        s.per_session_rate + s.final_session_extra
                    } else {
                        s.per_session_rate
                    };
                    reward = match reward.checked_add(emission) {
                        Some(v) => v,
                        None => {
                            proof {
                                assert(pool_session_reward(
                                    self.pools@,
                                    self.schedules@,
                                    session_native_issuance,
                                    p.id,
                                    p.state,
                                ) > u128::MAX);
                                assert(!pool_apportion_fits(
                                    self.pools@,
                                    self.schedules@,
                                    session_native_issuance,
                                    self.pools@[i as int],
                                ));
                            }
                            return Err(RewardsError::ArithmeticOverflow);
                        },
                    };
                }
                j += 1;
            }
            proof {
                assert(reward == pool_session_reward(
                    self.pools@,
                    self.schedules@,
                    session_native_issuance,
                    p.id,
                    p.state,
                ));
            }
            let st = p.state;
            let new_state: PoolState;
            if st.total_activated_amount == 0 {
                let carried = match st.pending_carry.checked_add(reward) {
                    Some(c) => c,
                    None => {
                        proof {
                            assert(!pool_apportion_fits(
                                self.pools@,
                                self.schedules@,
                                session_native_issuance,
                                self.pools@[i as int],
                            ));
                        }
                        return Err(RewardsError::ArithmeticOverflow);
                    },
                };
                new_state = PoolState { pending_carry: carried, ..st };
            } else {
                let combined = match reward.checked_add(st.pending_carry) {
                    Some(v) => v,
                    None => {
                        proof {
                            assert(!pool_apportion_fits(
                                self.pools@,
                                self.schedules@,
                                session_native_issuance,
                                self.pools@[i as int],
                            ));
                        }
                        return Err(RewardsError::ArithmeticOverflow);
                    },
                };
                match accumulate(
                    st.reward_per_share_accumulator,
                    combined,
                    st.total_activated_amount,
                ) {
                    Ok(bumped) => {
                        new_state = PoolState {
                            reward_per_share_accumulator: bumped,
                            pending_carry: 0,
                            ..st
                        };
                    },
                    Err(e) => {
                        proof {
                            assert(!pool_apportion_fits(
                                self.pools@,
                                self.schedules@,
                                session_native_issuance,
                                self.pools@[i as int],
                            ));
                        }
                        return Err(e);
                    },
                }
            }
            new_pools.push(PoolEntry { id: p.id, state: new_state });
            i += 1;
        }
        let m = self.schedules.len();
        let mut new_schedules: Vec<RewardSchedule> = Vec::new();
        let mut j: usize = 0;
        while j < m
            invariant
                m == self.schedules@.len(),
                j <= m,
                new_schedules@.len() == j,
                forall|j2: int|
                    0 <= j2 < j ==> #[trigger] new_schedules@[j2] == matured_schedule(
                        self.schedules@[j2],
                    ),
            decreases m - j,
        {
            let s = self.schedules[j];
            if s.remaining_sessions > 0 {
                new_schedules.push(
                    RewardSchedule { remaining_sessions: s.remaining_sessions - 1, ..s },
                );
            } else {
                new_schedules.push(s);
            }
            j += 1;
        }
        let ghost prior = *self;
        self.pools = new_pools;
        self.schedules = new_schedules;
        self.session = self.session + 1;
        proof {
            assert(session_apportion_fits(prior, session_native_issuance));
            assert forall|id: u32|
                match #[trigger] prior.pool_of(id) {
                    None => self.pool_of(id) is None,
                    Some(ps) => self.pool_of(id) == Some(
                        apportioned_pool(
                            ps,
                            pool_session_reward(
                                prior.pools@,
                                prior.schedules@,
                                session_native_issuance,
                                id,
                                ps,
                            ),
                        ),
                    ),
                } by {
                lemma_find_pool_pointwise(prior.pools@, self.pools@, id);
                if find_pool(prior.pools@, id) is Some {
                    let w = choose|w: int|
                        0 <= w < prior.pools@.len() && prior.pools@[w].id == id && find_pool(
                            prior.pools@,
                            id,
                        ) == Some(prior.pools@[w].state) && find_pool(self.pools@, id) == Some(
                            self.pools@[w].state,
                        );
                    assert(self.pools@[w] == apportioned_entry(
                        prior.pools@,
                        prior.schedules@,
                        session_native_issuance,
                        prior.pools@[w],
                    ));
                }
            }
            assert forall|k: int| 0 <= k < self.stakes@.len() implies (self.pool_of(
                (#[trigger] self.stakes@[k]).pool_id,
            ) matches Some(ps2) && self.stakes@[k].position.checkpoint_accumulator
                <= ps2.reward_per_share_accumulator) by {
                let pid = self.stakes@[k].pool_id;
                assert(prior.pool_of(pid) matches Some(q)
                    && self.stakes@[k].position.checkpoint_accumulator
                    <= q.reward_per_share_accumulator);
                lemma_find_pool_pointwise(prior.pools@, self.pools@, pid);
                let w = choose|w: int|
                    0 <= w < prior.pools@.len() && prior.pools@[w].id == pid && find_pool(
                        prior.pools@,
                        pid,
                    ) == Some(prior.pools@[w].state) && find_pool(self.pools@, pid) == Some(
                        self.pools@[w].state,
                    );
                let q = prior.pools@[w].state;
                assert(pool_apportion_fits(
                    prior.pools@,
                    prior.schedules@,
                    session_native_issuance,
                    prior.pools@[w],
                ));
                assert(self.pools@[w] == apportioned_entry(
                    prior.pools@,
                    prior.schedules@,
                    session_native_issuance,
                    prior.pools@[w],
                ));
                let rw = pool_session_reward(
                    prior.pools@,
                    prior.schedules@,
                    session_native_issuance,
                    pid,
                    q,
                );
                lemma_pool_schedule_reward_nonneg(prior.schedules@, pid);
                if q.promotion_weight > 0 && total_promotion_weight(prior.pools@) > 0 {
                    vstd::arithmetic::mul::lemma_mul_nonnegative(
                        session_native_issuance as int,
                        q.promotion_weight as int,
                    );
                    lemma_div_nonneg(
                        session_native_issuance * q.promotion_weight,
                        total_promotion_weight(prior.pools@),
                    );
                }
                assert(rw >= 0);
                if q.total_activated_amount != 0 {
                    vstd::arithmetic::mul::lemma_mul_nonnegative(
                        ((rw + q.pending_carry) as u128) as int,
                        REWARDS_PRECISION as int,
                    );
                    lemma_div_nonneg(
                        ((rw + q.pending_carry) as u128) * REWARDS_PRECISION,
                        q.total_activated_amount as int,
                    );
                }
            }
            assert forall|i2: int| 0 <= i2 < self.pools@.len() implies (
            #[trigger] self.pools@[i2]).state.total_activated_amount == sum_activated(
                self.stakes@,
                self.pools@[i2].id,
            ) by {
                assert(prior.pools@[i2].state.total_activated_amount == sum_activated(
                    prior.stakes@,
                    prior.pools@[i2].id,
                ));
            }
        }
        Ok(())
    }
}

} // verus!
