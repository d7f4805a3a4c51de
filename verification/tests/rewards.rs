use proof_of_stake::RewardsError;
use proof_of_stake::engine::RewardsEngine;

const ALICE: u64 = 1;
const BOB: u64 = 2;
const POOL: u32 = 5;
const OTHER_POOL: u32 = 6;
const REWARD_TOKEN: u32 = 9;

#[test]
fn promotion_enables_pool() {
    let mut engine = RewardsEngine::new(10);
    assert!(!engine.is_enabled(POOL));
    engine.update_pool_promotion(POOL, 1);
    assert!(engine.is_enabled(POOL));
    engine.update_pool_promotion(POOL, 0);
    assert!(!engine.is_enabled(POOL));
}

#[test]
fn activation_records_stake() {
    let mut engine = RewardsEngine::new(10);
    engine.update_pool_promotion(POOL, 1);
    assert_eq!(engine.activate_liquidity(ALICE, POOL, 100), Ok(()));
    assert_eq!(engine.get_rewards_info(ALICE, POOL).activated_amount, 100);
    assert_eq!(engine.get_rewards_info(BOB, POOL).activated_amount, 0);
}

#[test]
fn single_staker_earns_whole_session_reward() {
    let mut engine = RewardsEngine::new(10);
    engine.update_pool_promotion(POOL, 1);
    assert_eq!(engine.activate_liquidity(ALICE, POOL, 100), Ok(()));
    assert_eq!(engine.distribute_session_rewards(1000), Ok(()));
    assert_eq!(engine.calculate_rewards_amount(ALICE, POOL), Ok(1000));
}

#[test]
fn no_retroactive_reward_for_later_activation() {
    let mut engine = RewardsEngine::new(10);
    engine.update_pool_promotion(POOL, 1);
    assert_eq!(engine.activate_liquidity(ALICE, POOL, 100), Ok(()));
    assert_eq!(engine.distribute_session_rewards(1000), Ok(()));
    assert_eq!(engine.calculate_rewards_amount(ALICE, POOL), Ok(1000));
    // activating more before the next session boundary must not change what
    // is already accrued
    assert_eq!(engine.activate_liquidity(ALICE, POOL, 100), Ok(()));
    assert_eq!(engine.calculate_rewards_amount(ALICE, POOL), Ok(1000));
    assert_eq!(engine.get_rewards_info(ALICE, POOL).activated_amount, 200);
}

#[test]
fn deactivation_preserves_accrual() {
    let mut engine = RewardsEngine::new(10);
    engine.update_pool_promotion(POOL, 1);
    assert_eq!(engine.activate_liquidity(ALICE, POOL, 100), Ok(()));
    assert_eq!(engine.distribute_session_rewards(1000), Ok(()));
    assert_eq!(engine.deactivate_liquidity(ALICE, POOL, 100), Ok(()));
    assert_eq!(engine.get_rewards_info(ALICE, POOL).activated_amount, 0);
    assert_eq!(engine.calculate_rewards_amount(ALICE, POOL), Ok(1000));
}

#[test]
fn settlement_query_is_idempotent() {
    let mut engine = RewardsEngine::new(10);
    engine.update_pool_promotion(POOL, 1);
    assert_eq!(engine.activate_liquidity(ALICE, POOL, 100), Ok(()));
    assert_eq!(engine.distribute_session_rewards(777), Ok(()));
    let first = engine.calculate_rewards_amount(ALICE, POOL);
    let second = engine.calculate_rewards_amount(ALICE, POOL);
    assert_eq!(first, Ok(777));
    assert_eq!(first, second);
}

#[test]
fn claim_pays_out_and_zeroes() {
    let mut engine = RewardsEngine::new(10);
    engine.update_pool_promotion(POOL, 1);
    assert_eq!(engine.activate_liquidity(ALICE, POOL, 100), Ok(()));
    assert_eq!(engine.distribute_session_rewards(1000), Ok(()));
    assert_eq!(engine.claim_rewards_all(ALICE, POOL), Ok(1000));
    assert_eq!(engine.calculate_rewards_amount(ALICE, POOL), Ok(0));
    // a second claim pays nothing and still succeeds
    assert_eq!(engine.claim_rewards_all(ALICE, POOL), Ok(0));
}

#[test]
fn claim_without_stake_pays_zero() {
    let mut engine = RewardsEngine::new(10);
    engine.update_pool_promotion(POOL, 1);
    assert_eq!(engine.claim_rewards_all(ALICE, POOL), Ok(0));
}

#[test]
fn issuance_splits_by_promotion_weight() {
    let mut engine = RewardsEngine::new(10);
    engine.update_pool_promotion(POOL, 1);
    engine.update_pool_promotion(OTHER_POOL, 3);
    assert_eq!(engine.activate_liquidity(ALICE, POOL, 100), Ok(()));
    assert_eq!(engine.activate_liquidity(BOB, OTHER_POOL, 100), Ok(()));
    assert_eq!(engine.distribute_session_rewards(1000), Ok(()));
    assert_eq!(engine.calculate_rewards_amount(ALICE, POOL), Ok(250));
    assert_eq!(engine.calculate_rewards_amount(BOB, OTHER_POOL), Ok(750));
}

#[test]
fn disabled_pool_receives_no_issuance() {
    let mut engine = RewardsEngine::new(10);
    engine.update_pool_promotion(POOL, 1);
    engine.update_pool_promotion(OTHER_POOL, 0);
    assert_eq!(engine.activate_liquidity(ALICE, POOL, 100), Ok(()));
    assert_eq!(engine.activate_liquidity(BOB, OTHER_POOL, 100), Ok(()));
    assert_eq!(engine.distribute_session_rewards(1000), Ok(()));
    assert_eq!(engine.calculate_rewards_amount(ALICE, POOL), Ok(1000));
    assert_eq!(engine.calculate_rewards_amount(BOB, OTHER_POOL), Ok(0));
}

#[test]
fn two_stakers_split_by_stake() {
    let mut engine = RewardsEngine::new(10);
    engine.update_pool_promotion(POOL, 1);
    assert_eq!(engine.activate_liquidity(ALICE, POOL, 100), Ok(()));
    assert_eq!(engine.activate_liquidity(BOB, POOL, 300), Ok(()));
    assert_eq!(engine.distribute_session_rewards(1000), Ok(()));
    assert_eq!(engine.calculate_rewards_amount(ALICE, POOL), Ok(250));
    assert_eq!(engine.calculate_rewards_amount(BOB, POOL), Ok(750));
    // everything apportioned is paid out, nothing more
    let alice_paid = engine.claim_rewards_all(ALICE, POOL).unwrap();
    let bob_paid = engine.claim_rewards_all(BOB, POOL).unwrap();
    assert_eq!(alice_paid + bob_paid, 1000);
}

#[test]
fn empty_pool_reward_is_carried_not_lost() {
    let mut engine = RewardsEngine::new(10);
    engine.update_pool_promotion(POOL, 1);
    // nobody staked yet: the session reward must wait, not vanish
    assert_eq!(engine.distribute_session_rewards(500), Ok(()));
    assert_eq!(engine.activate_liquidity(ALICE, POOL, 100), Ok(()));
    assert_eq!(engine.calculate_rewards_amount(ALICE, POOL), Ok(0));
    assert_eq!(engine.distribute_session_rewards(300), Ok(()));
    assert_eq!(engine.calculate_rewards_amount(ALICE, POOL), Ok(800));
}

#[test]
fn schedule_emits_over_sessions_with_remainder_last() {
    let mut engine = RewardsEngine::new(10);
    engine.update_pool_promotion(POOL, 1);
    assert_eq!(engine.activate_liquidity(ALICE, POOL, 100), Ok(()));
    // 10 over 3 sessions: 3, 3, then 4 so the total is exact
    assert_eq!(engine.reward_pool(POOL, REWARD_TOKEN, 10, 3), Ok(()));
    assert_eq!(engine.distribute_session_rewards(0), Ok(()));
    assert_eq!(engine.calculate_rewards_amount(ALICE, POOL), Ok(3));
    assert_eq!(engine.distribute_session_rewards(0), Ok(()));
    assert_eq!(engine.calculate_rewards_amount(ALICE, POOL), Ok(6));
    assert_eq!(engine.distribute_session_rewards(0), Ok(()));
    assert_eq!(engine.calculate_rewards_amount(ALICE, POOL), Ok(10));
    // the schedule is spent: further sessions emit nothing
    assert_eq!(engine.distribute_session_rewards(0), Ok(()));
    assert_eq!(engine.calculate_rewards_amount(ALICE, POOL), Ok(10));
}

#[test]
fn schedule_ledger_rejects_when_full_and_none_expired() {
    let mut engine = RewardsEngine::new(2);
    engine.update_pool_promotion(POOL, 1);
    assert_eq!(engine.reward_pool(POOL, REWARD_TOKEN, 100, 5), Ok(()));
    assert_eq!(engine.reward_pool(POOL, REWARD_TOKEN, 100, 5), Ok(()));
    assert_eq!(
        engine.reward_pool(POOL, REWARD_TOKEN, 100, 5),
        Err(RewardsError::ScheduleLimitReached)
    );
    assert_eq!(engine.schedules_count(), 2);
}

#[test]
fn schedule_ledger_evicts_expired_to_make_room() {
    let mut engine = RewardsEngine::new(2);
    engine.update_pool_promotion(POOL, 1);
    assert_eq!(engine.reward_pool(POOL, REWARD_TOKEN, 100, 1), Ok(()));
    assert_eq!(engine.reward_pool(POOL, REWARD_TOKEN, 100, 5), Ok(()));
    assert_eq!(
        engine.reward_pool(POOL, REWARD_TOKEN, 100, 5),
        Err(RewardsError::ScheduleLimitReached)
    );
    // after one session the one-session schedule has expired
    assert_eq!(engine.distribute_session_rewards(0), Ok(()));
    assert_eq!(engine.reward_pool(POOL, REWARD_TOKEN, 100, 5), Ok(()));
    assert_eq!(engine.schedules_count(), 2);
    assert!(engine.schedules_count() <= engine.rewards_schedules_limit());
}

#[test]
fn zero_amount_and_unknown_pool_are_invalid_input() {
    let mut engine = RewardsEngine::new(10);
    engine.update_pool_promotion(POOL, 1);
    assert_eq!(engine.activate_liquidity(ALICE, POOL, 0), Err(RewardsError::InvalidInput));
    assert_eq!(engine.activate_liquidity(ALICE, OTHER_POOL, 5), Err(RewardsError::InvalidInput));
    assert_eq!(engine.deactivate_liquidity(ALICE, OTHER_POOL, 5), Err(RewardsError::InvalidInput));
    assert_eq!(engine.calculate_rewards_amount(ALICE, OTHER_POOL), Err(RewardsError::InvalidInput));
    assert_eq!(engine.claim_rewards_all(ALICE, OTHER_POOL), Err(RewardsError::InvalidInput));
    assert_eq!(
        engine.reward_pool(POOL, REWARD_TOKEN, 0, 5),
        Err(RewardsError::InvalidInput)
    );
    assert_eq!(
        engine.reward_pool(POOL, REWARD_TOKEN, 100, 0),
        Err(RewardsError::InvalidInput)
    );
    assert_eq!(
        engine.reward_pool(OTHER_POOL, REWARD_TOKEN, 100, 5),
        Err(RewardsError::InvalidInput)
    );
}

#[test]
fn deactivating_more_than_activated_fails() {
    let mut engine = RewardsEngine::new(10);
    engine.update_pool_promotion(POOL, 1);
    assert_eq!(engine.activate_liquidity(ALICE, POOL, 100), Ok(()));
    assert_eq!(
        engine.deactivate_liquidity(ALICE, POOL, 101),
        Err(RewardsError::InsufficientActivatedStake)
    );
    assert_eq!(
        engine.deactivate_liquidity(BOB, POOL, 1),
        Err(RewardsError::InsufficientActivatedStake)
    );
    assert_eq!(engine.deactivate_liquidity(ALICE, POOL, 100), Ok(()));
}

#[test]
fn overflowing_apportionment_fails_atomically() {
    let mut engine = RewardsEngine::new(10);
    engine.update_pool_promotion(POOL, 1);
    assert_eq!(engine.activate_liquidity(ALICE, POOL, 1), Ok(()));
    // scaling u128::MAX by the precision cannot fit
    assert_eq!(
        engine.distribute_session_rewards(u128::MAX),
        Err(RewardsError::ArithmeticOverflow)
    );
    // nothing changed: the session did not advance and nothing accrued
    assert_eq!(engine.current_session(), 0);
    assert_eq!(engine.calculate_rewards_amount(ALICE, POOL), Ok(0));
}

#[test]
fn rounding_dust_is_lost_never_amplified() {
    let mut engine = RewardsEngine::new(10);
    engine.update_pool_promotion(POOL, 1);
    // 1000 reward over 3 staked units does not divide evenly: each unit
    // earns the floored per-share rate, so one unit of dust stays unpaid
    assert_eq!(engine.activate_liquidity(ALICE, POOL, 3), Ok(()));
    assert_eq!(engine.distribute_session_rewards(1000), Ok(()));
    assert_eq!(engine.calculate_rewards_amount(ALICE, POOL), Ok(999));
}

#[test]
fn session_counter_advances_once_per_boundary() {
    let mut engine = RewardsEngine::new(10);
    assert_eq!(engine.current_session(), 0);
    assert_eq!(engine.distribute_session_rewards(0), Ok(()));
    assert_eq!(engine.distribute_session_rewards(0), Ok(()));
    assert_eq!(engine.current_session(), 2);
}

#[test]
fn repromotion_resumes_without_back_payment() {
    let mut engine = RewardsEngine::new(10);
    engine.update_pool_promotion(POOL, 1);
    assert_eq!(engine.activate_liquidity(ALICE, POOL, 100), Ok(()));
    assert_eq!(engine.distribute_session_rewards(1000), Ok(()));
    engine.update_pool_promotion(POOL, 0);
    // the disabled interval pays nothing...
    assert_eq!(engine.distribute_session_rewards(1000), Ok(()));
    assert_eq!(engine.calculate_rewards_amount(ALICE, POOL), Ok(1000));
    // ...and what was accrued before is kept after re-enabling
    engine.update_pool_promotion(POOL, 2);
    assert_eq!(engine.distribute_session_rewards(1000), Ok(()));
    assert_eq!(engine.calculate_rewards_amount(ALICE, POOL), Ok(2000));
}
