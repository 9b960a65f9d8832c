//! Farming ledger scenarios: pool administration, accrual, the
//! harvest-on-deposit cycle and the emergency exit.

use amm_farming::farming::{FarmingError, FarmingGetters, FarmingLedger, REWARD_SCALE};

const OWNER: u128 = 1;
const USER: u128 = 5;

/// A ledger with two equally weighted pools and a global emission of 100
/// per block.
fn two_pool_ledger() -> FarmingLedger {
    let mut ledger = FarmingLedger::new(OWNER, 100);
    assert_eq!(ledger.add_pool(OWNER, 50, 1, 0), Ok(0));
    assert_eq!(ledger.add_pool(OWNER, 51, 1, 0), Ok(1));
    ledger
}

#[test]
fn admin_calls_are_owner_only() {
    let mut ledger = two_pool_ledger();
    assert_eq!(ledger.add_pool(2, 52, 1, 0), Err(FarmingError::Unauthorized));
    assert_eq!(ledger.set_allocation_weight(2, 0, 3), Err(FarmingError::Unauthorized));
    assert_eq!(ledger.pool_length(), 2);
}

#[test]
fn getters_report_pools_and_tokens() {
    let ledger = two_pool_ledger();
    assert_eq!(ledger.pool_length(), 2);
    assert_eq!(ledger.get_lp_token(0), Some(50));
    assert_eq!(ledger.get_lp_token(1), Some(51));
    assert_eq!(ledger.get_lp_token(2), None);
    let pool = ledger.get_pool_infos(0).unwrap();
    assert_eq!(pool.staked_token, 50);
    assert_eq!(pool.allocation_weight, 1);
    assert_eq!(pool.acc_reward_per_share, 0);
    assert_eq!(pool.total_staked, 0);
    assert!(ledger.get_pool_infos(2).is_none());
    assert_eq!(ledger.get_user_info(0, USER), None);
}

#[test]
fn set_allocation_weight_adjusts_the_denominator() {
    let mut ledger = two_pool_ledger();
    assert_eq!(ledger.total_allocation_weight, 2);
    assert_eq!(ledger.set_allocation_weight(OWNER, 0, 3), Ok(()));
    assert_eq!(ledger.total_allocation_weight, 4);
    assert_eq!(ledger.get_pool_infos(0).unwrap().allocation_weight, 3);
}

/// Weight 1 of total 2, emission 100 per block, one staker of 10 for 5
/// blocks: 250 pending; after harvest the immediate re-check is 0.
#[test]
fn single_staker_accrual_scenario() {
    let mut ledger = two_pool_ledger();
    assert_eq!(ledger.deposit(USER, 0, 10, 0), 0);
    assert_eq!(ledger.get_user_info(0, USER), Some((10, 0)));
    ledger.update_pool(0, 5);
    let pool = ledger.get_pool_infos(0).unwrap();
    // reward 5 * 100 * 1 / 2 == 250, over 10 staked
    assert_eq!(pool.acc_reward_per_share, 25 * REWARD_SCALE);
    let (amount, debt) = ledger.get_user_info(0, USER).unwrap();
    let pending = (amount * pool.acc_reward_per_share / REWARD_SCALE) as i128 - debt;
    assert_eq!(pending, 250);
    assert_eq!(ledger.harvest(USER, 0, 5), 250);
    let (amount, debt) = ledger.get_user_info(0, USER).unwrap();
    assert_eq!(amount, 10);
    assert_eq!(debt, 250);
    let pool = ledger.get_pool_infos(0).unwrap();
    let pending = (amount * pool.acc_reward_per_share / REWARD_SCALE) as i128 - debt;
    assert_eq!(pending, 0);
    // harvesting again without elapsed time pays nothing
    assert_eq!(ledger.harvest(USER, 0, 5), 0);
}

#[test]
fn update_pool_is_idempotent_and_monotone() {
    let mut ledger = two_pool_ledger();
    ledger.deposit(USER, 0, 10, 0);
    ledger.update_pool(0, 5);
    let acc_once = ledger.get_pool_infos(0).unwrap().acc_reward_per_share;
    ledger.update_pool(0, 5);
    assert_eq!(ledger.get_pool_infos(0).unwrap().acc_reward_per_share, acc_once);
    ledger.update_pool(0, 3);
    assert_eq!(ledger.get_pool_infos(0).unwrap().acc_reward_per_share, acc_once);
    ledger.update_pool(0, 7);
    assert!(ledger.get_pool_infos(0).unwrap().acc_reward_per_share >= acc_once);
}

#[test]
fn empty_pool_advances_without_minting() {
    let mut ledger = two_pool_ledger();
    ledger.update_pool(1, 5);
    let pool = ledger.get_pool_infos(1).unwrap();
    assert_eq!(pool.acc_reward_per_share, 0);
    assert_eq!(pool.last_reward_block, 5);
}

#[test]
fn deposit_harvests_pending_first() {
    let mut ledger = two_pool_ledger();
    assert_eq!(ledger.deposit(USER, 0, 10, 0), 0);
    // 5 blocks later a further deposit pays the 250 pending on entry
    assert_eq!(ledger.deposit(USER, 0, 30, 5), 250);
    let (amount, debt) = ledger.get_user_info(0, USER).unwrap();
    assert_eq!(amount, 40);
    // debt settled against acc 25 * REWARD_SCALE
    assert_eq!(debt, 40 * 25);
    assert_eq!(ledger.get_pool_infos(0).unwrap().total_staked, 40);
}

#[test]
fn withdraw_pays_pending_and_returns_stake() {
    let mut ledger = two_pool_ledger();
    ledger.deposit(USER, 0, 10, 0);
    assert_eq!(ledger.withdraw(USER, 0, 4, 5), Ok(250));
    let (amount, debt) = ledger.get_user_info(0, USER).unwrap();
    assert_eq!(amount, 6);
    assert_eq!(debt, 6 * 25);
    assert_eq!(ledger.get_pool_infos(0).unwrap().total_staked, 6);
    // the remaining pending reward is exactly zero
    let pool = ledger.get_pool_infos(0).unwrap();
    assert_eq!((amount * pool.acc_reward_per_share / REWARD_SCALE) as i128 - debt, 0);
}

#[test]
fn overdrawn_withdraw_is_rejected() {
    let mut ledger = two_pool_ledger();
    ledger.deposit(USER, 0, 10, 0);
    assert_eq!(ledger.withdraw(USER, 0, 11, 5), Err(FarmingError::InsufficientStakedBalance));
    // the rejection changed nothing, not even the accumulator
    assert_eq!(ledger.get_user_info(0, USER), Some((10, 0)));
    assert_eq!(ledger.get_pool_infos(0).unwrap().last_reward_block, 0);
    assert_eq!(ledger.withdraw(7, 0, 1, 5), Err(FarmingError::InsufficientStakedBalance));
}

/// An emergency exit with nonzero pending reward zeroes the position and
/// forfeits the reward: a later harvest yields nothing.
#[test]
fn emergency_withdraw_forfeits_pending_reward() {
    let mut ledger = two_pool_ledger();
    ledger.deposit(USER, 0, 10, 0);
    ledger.update_pool(0, 5);
    assert_eq!(ledger.emergency_withdraw(USER, 0), 10);
    assert_eq!(ledger.get_user_info(0, USER), None);
    assert_eq!(ledger.get_pool_infos(0).unwrap().total_staked, 0);
    assert_eq!(ledger.harvest(USER, 0, 9), 0);
    assert_eq!(ledger.get_user_info(0, USER), None);
}

#[test]
fn emergency_withdraw_without_position_is_a_no_op() {
    let mut ledger = two_pool_ledger();
    assert_eq!(ledger.emergency_withdraw(USER, 0), 0);
    assert_eq!(ledger.pool_length(), 2);
}

#[test]
fn two_stakers_split_by_stake() {
    let mut ledger = two_pool_ledger();
    ledger.deposit(USER, 0, 10, 0);
    ledger.deposit(6, 0, 30, 0);
    assert_eq!(ledger.get_pool_infos(0).unwrap().total_staked, 40);
    // 8 blocks emit 8 * 100 / 2 == 400 over 40 staked
    assert_eq!(ledger.harvest(USER, 0, 8), 100);
    assert_eq!(ledger.harvest(6, 0, 8), 300);
}

#[test]
fn pools_accrue_independently_by_weight() {
    let mut ledger = FarmingLedger::new(OWNER, 100);
    ledger.add_pool(OWNER, 50, 1, 0).unwrap();
    ledger.add_pool(OWNER, 51, 3, 0).unwrap();
    ledger.deposit(USER, 0, 10, 0);
    ledger.deposit(USER, 1, 10, 0);
    // of each block's 100, pool 0 earns 25 and pool 1 earns 75
    assert_eq!(ledger.harvest(USER, 0, 4), 100);
    assert_eq!(ledger.harvest(USER, 1, 4), 300);
}
