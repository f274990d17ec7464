use rewards::Error;
use rewards::Manager;
use rewards::PoolRewardConfig;
use rewards::UserRewardData;

const FAN_OUT: u64 = 4;

fn engine(tps: u64, expired_at: u64) -> Manager {
    let mut m = Manager::new(FAN_OUT);
    m.set_pool_reward_config(PoolRewardConfig { tps, expired_at });
    m
}

#[test]
fn test_simple_ongoing_reward() {
    let reward_1_tps: u64 = 10_5000000;
    let total_reward_1: u128 = reward_1_tps as u128 * 60;
    let mut m = engine(reward_1_tps, 60);

    let user1: u64 = 1;

    // 10 seconds passed since config, user depositing: the deposit
    // settles the user with the pre-deposit balances
    let pd = m.update_rewards_data(10, 0).unwrap();
    m.update_user_reward(&pd, user1, 0).unwrap();

    // 30 more seconds passed, half of the reward is available; the
    // user is the sole shareholder with 100 shares
    assert_eq!(m.claim_reward(user1, 40, 100, 100), Ok(total_reward_1 / 2));
    assert_eq!(
        m.get_user_reward_data(user1).unwrap().to_claim,
        0,
        "claim must zero the stored balance"
    );
}

#[test]
fn sole_shareholder_worked_scenario() {
    // rate 10, campaign of 60 time units from t = 0; the user deposits
    // 100 shares at t = 10 and reads their reward at t = 40
    let mut m = engine(10, 60);
    let user: u64 = 42;

    let pd = m.update_rewards_data(10, 0).unwrap();
    m.update_user_reward(&pd, user, 0).unwrap();

    assert_eq!(m.get_amount_to_claim(user, 40, 100, 100), Ok(300));
    assert_eq!(m.claim_reward(user, 40, 100, 100), Ok(300));
    assert_eq!(m.get_user_reward_data(user).unwrap().to_claim, 0);
    // nothing further accrued at the same instant
    assert_eq!(m.claim_reward(user, 40, 100, 100), Ok(0));
}

#[test]
fn two_shareholders_proportional_split() {
    // users holding 100 and 200 shares from t = 0, rate 9 (in the
    // token's smallest unit), settled after 30 time units: the 270
    // generated tokens split 90 / 180
    let tps: u64 = 9_0000000;
    let mut m = engine(tps, 100);
    let (alice, bob): (u64, u64) = (1, 2);

    // both enter at t = 0, before any emission
    let pd = m.update_rewards_data(0, 300).unwrap();
    m.update_user_reward(&pd, alice, 100).unwrap();
    let pd = m.update_rewards_data(0, 300).unwrap();
    m.update_user_reward(&pd, bob, 200).unwrap();

    let a = m.get_amount_to_claim(alice, 30, 300, 100).unwrap();
    let b = m.get_amount_to_claim(bob, 30, 300, 200).unwrap();
    assert_eq!(a, 90_0000000);
    assert_eq!(b, 180_0000000);
    assert_eq!(a + b, m.get_pool_reward_data().accumulated);
}

#[test]
fn sync_with_unchanged_now_generates_nothing() {
    let mut m = engine(4, 100);
    let d0 = m.get_pool_reward_data();
    let d1 = m.update_rewards_data(5, 10).unwrap();
    assert_eq!(d1.block, d0.block + 1);
    assert_eq!(d1.accumulated, 20);
    // a second sync at the same instant: zero tokens, epoch still
    // advances by exactly one under the active branch
    let d2 = m.update_rewards_data(5, 10).unwrap();
    assert_eq!(d2.block, d1.block + 1);
    assert_eq!(d2.accumulated, d1.accumulated);
    assert_eq!(d2.last_time, 5);
}

#[test]
fn settlement_is_idempotent() {
    let mut m = engine(10, 100);
    let user: u64 = 7;
    let pd = m.update_rewards_data(0, 50).unwrap();
    m.update_user_reward(&pd, user, 50).unwrap();

    assert_eq!(m.get_amount_to_claim(user, 20, 50, 50), Ok(200));
    let first: UserRewardData = m.get_user_reward_data(user).unwrap();
    // settling again with every input unchanged returns the identical
    // record and stores nothing new
    assert_eq!(m.get_amount_to_claim(user, 20, 50, 50), Ok(200));
    let second: UserRewardData = m.get_user_reward_data(user).unwrap();
    assert_eq!(first, second);
}

#[test]
fn claim_zeroes_and_second_claim_pays_nothing() {
    let mut m = engine(6, 100);
    let user: u64 = 3;
    let pd = m.update_rewards_data(0, 10).unwrap();
    m.update_user_reward(&pd, user, 10).unwrap();

    let before = m.get_amount_to_claim(user, 15, 10, 10).unwrap();
    assert_eq!(before, 90);
    assert_eq!(m.claim_reward(user, 15, 10, 10), Ok(90));
    let stored = m.get_user_reward_data(user).unwrap();
    assert_eq!(stored.to_claim, 0);
    assert_eq!(m.claim_reward(user, 15, 10, 10), Ok(0));
}

#[test]
fn expiry_catchup_is_exact() {
    // last sync at t = 10, expiry at t = 60: however far past expiry
    // the next sync happens, exactly tps * 50 more tokens exist
    let run = |now: u64| -> (u64, u128) {
        let mut m = engine(7, 60);
        let d = m.update_rewards_data(10, 0).unwrap();
        assert_eq!(d.accumulated, 70);
        let d2 = m.update_rewards_data(now, 0).unwrap();
        (d2.block - d.block, d2.accumulated - d.accumulated)
    };
    assert_eq!(run(61), (2, 7 * 50));
    assert_eq!(run(100), (2, 7 * 50));
    assert_eq!(run(u64::MAX / 2), (2, 7 * 50));
}

#[test]
fn lapsed_campaign_keeps_advancing_epochs_with_zeros() {
    let mut m = engine(5, 30);
    let user: u64 = 9;
    let pd = m.update_rewards_data(0, 25).unwrap();
    m.update_user_reward(&pd, user, 25).unwrap();

    // the campaign lapses between the syncs; afterwards every sync is
    // a zero-generation epoch
    let d1 = m.update_rewards_data(50, 25).unwrap();
    assert_eq!(d1.accumulated, 150);
    let d2 = m.update_rewards_data(80, 25).unwrap();
    assert_eq!(d2.block, d1.block + 1);
    assert_eq!(d2.accumulated, d1.accumulated);

    // the user still collects exactly the pre-expiry emission
    assert_eq!(m.get_amount_to_claim(user, 90, 25, 25), Ok(150));
}

#[test]
fn zero_share_interval_earns_nothing() {
    let mut m = engine(10, 100);
    let user: u64 = 5;
    let pd = m.update_rewards_data(0, 10).unwrap();
    m.update_user_reward(&pd, user, 10).unwrap();

    // holding all 10 shares over (0, 10]
    assert_eq!(m.get_amount_to_claim(user, 10, 10, 10), Ok(100));
    // holding none over (10, 20]: the balance carries, the checkpoint
    // advances, nothing is earned
    assert_eq!(m.get_amount_to_claim(user, 20, 10, 0), Ok(100));
    // holding all 10 again over (20, 30]
    assert_eq!(m.get_amount_to_claim(user, 30, 10, 10), Ok(200));
}

#[test]
fn first_settlement_is_not_retroactive() {
    let mut m = engine(10, 100);
    let user: u64 = 11;
    // tokens were generated before the user ever settled
    let pd = m.update_rewards_data(50, 0).unwrap();
    assert_eq!(pd.accumulated, 500);
    let ud = m.update_user_reward(&pd, user, 25).unwrap();
    assert_eq!(ud.to_claim, 0);
    assert_eq!(ud.last_block, pd.block);
    assert_eq!(ud.pool_accumulated, pd.accumulated);
}

#[test]
fn unset_campaign_generates_zero() {
    let mut m = Manager::new(FAN_OUT);
    let d = m.update_rewards_data(100, 10).unwrap();
    assert_eq!(d.accumulated, 0);
    assert_eq!(m.get_amount_to_claim(1, 200, 10, 10), Ok(0));
}

#[test]
fn per_share_overflow_aborts_the_sync() {
    let mut m = engine(u64::MAX, u64::MAX);
    let before = m.get_pool_reward_data();
    // three time units at the maximal rate give a per-share value far
    // beyond u64 when a single share is outstanding
    assert_eq!(
        m.update_rewards_data(3, 1),
        Err(Error::ArithmeticOverflow)
    );
    assert_eq!(m.get_pool_reward_data(), before);
}

#[test]
fn wide_products_settle_exactly() {
    // the generated amount needs 128-bit arithmetic: 2^30 time units
    // at 2^40 tokens per unit, split over 2^20 shares
    let tps: u64 = 1 << 40;
    let mut m = engine(tps, u64::MAX);
    let user: u64 = 2;
    let shares: u128 = 1 << 20;
    let pd = m.update_rewards_data(0, shares).unwrap();
    m.update_user_reward(&pd, user, shares).unwrap();

    let expected: u128 = 1u128 << 70;
    assert_eq!(
        m.get_amount_to_claim(user, 1 << 30, shares, shares),
        Ok(expected)
    );
}

#[test]
fn restore_round_trips_a_running_engine() {
    let mut m = engine(10, 100);
    let pd = m.update_rewards_data(0, 10).unwrap();
    m.update_user_reward(&pd, 1, 10).unwrap();
    assert_eq!(m.get_amount_to_claim(1, 20, 10, 10), Ok(200));

    // extract the persistable state through the getters
    let config = m.get_pool_reward_config();
    let data = m.get_pool_reward_data();
    let users = vec![(1u64, m.get_user_reward_data(1).unwrap())];
    let mut values: Vec<u64> = Vec::new();
    let mut epoch: u64 = 0;
    while let Some(v) = m.recorded_value(epoch) {
        values.push(v);
        epoch += 1;
    }

    let mut restored = rewards::Manager::restore(4, config, data, users, values).unwrap();
    assert_eq!(restored.get_pool_reward_data(), m.get_pool_reward_data());
    assert_eq!(restored.get_user_reward_data(1), m.get_user_reward_data(1));
    // both copies continue identically
    assert_eq!(
        restored.get_amount_to_claim(1, 30, 10, 10),
        m.get_amount_to_claim(1, 30, 10, 10)
    );
}

#[test]
fn restore_rejects_inconsistent_state() {
    let config = PoolRewardConfig { tps: 1, expired_at: 10 };
    let data = rewards::PoolRewardData { block: 2, accumulated: 5, last_time: 3 };
    // two values cannot cover blocks 0..=2
    assert!(matches!(
        rewards::Manager::restore(4, config, data, vec![], vec![1, 2]),
        Err(Error::IndexConsistencyViolation)
    ));
    // a checkpoint ahead of the pool is refused
    let ahead = UserRewardData { last_block: 9, pool_accumulated: 0, to_claim: 0 };
    assert!(matches!(
        rewards::Manager::restore(4, config, data, vec![(1, ahead)], vec![1, 2, 3]),
        Err(Error::IndexConsistencyViolation)
    ));
}

#[test]
fn initialize_resets_the_engine() {
    let mut m = engine(10, 100);
    let pd = m.update_rewards_data(5, 10).unwrap();
    m.update_user_reward(&pd, 1, 10).unwrap();

    m.initialize();
    let d = m.get_pool_reward_data();
    assert_eq!((d.block, d.accumulated, d.last_time), (0, 0, 0));
    let c = m.get_pool_reward_config();
    assert_eq!((c.tps, c.expired_at), (0, 0));
    assert!(m.get_user_reward_data(1).is_none());
}
