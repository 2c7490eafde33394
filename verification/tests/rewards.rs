use solana_yield::{
    accrual_fits, calculate_rewards, claim_fits, claim_rewards, pending_rewards, Identity,
    Position, UserPosition, YieldAggregatorError,
};

const DAY: i64 = 86400;

fn position(amount: u64, start_time: i64, reward_accrued: u64) -> Position {
    Position { chain_id: 1, protocol_id: 2, amount, start_time, reward_accrued }
}

fn record_of(owner: Identity, positions: Vec<Position>) -> UserPosition {
    UserPosition { owner, deposited_amount: 1000, claimed_rewards: 5, positions, bump: 3 }
}

#[test]
fn accrual_over_two_days() {
    let t0: i64 = 1_700_000_000;
    let mut positions = vec![position(365000, t0, 0)];
    let total = calculate_rewards(&mut positions, t0 + 172800);
    assert_eq!(total, 30000);
    assert_eq!(positions[0].reward_accrued, 30000);
    assert_eq!(positions[0].start_time, t0 + 172800);
    assert_eq!(positions[0].amount, 365000);
}

#[test]
fn accrual_credits_whole_days_only() {
    let mut positions = vec![position(365000, 0, 10)];
    assert_eq!(calculate_rewards(&mut positions, DAY - 1), 0);
    assert_eq!(positions, vec![position(365000, DAY - 1, 10)]);
    let mut positions = vec![position(365000, 0, 10)];
    assert_eq!(calculate_rewards(&mut positions, 2 * DAY - 1), 15000);
    assert_eq!(positions, vec![position(365000, 2 * DAY - 1, 15010)]);
}

#[test]
fn accrual_rounds_each_reward_down() {
    // 100 * 1500 * 1 / 36500 = 4.1..., 24 * 1500 * 1 / 36500 = 0.98...
    let mut positions = vec![position(100, 0, 0), position(24, 0, 0), position(25, 0, 0)];
    assert_eq!(calculate_rewards(&mut positions, DAY), 5);
    assert_eq!(positions[0].reward_accrued, 4);
    assert_eq!(positions[1].reward_accrued, 0);
    assert_eq!(positions[2].reward_accrued, 1);
}

#[test]
fn accrual_of_no_positions_is_zero() {
    let mut positions: Vec<Position> = vec![];
    assert_eq!(calculate_rewards(&mut positions, 12345), 0);
    assert!(positions.is_empty());
}

#[test]
fn accrual_before_start_earns_nothing_and_restarts_clock() {
    let mut positions = vec![position(365000, 10 * DAY, 7)];
    assert_eq!(calculate_rewards(&mut positions, 0), 0);
    assert_eq!(positions, vec![position(365000, 0, 7)]);
}

#[test]
fn accrual_twice_equals_accrual_once() {
    let t0: i64 = 1000;
    let delta: i64 = 5 * DAY + 17;
    let start = vec![position(365000, t0, 1), position(999, t0, 2), position(73, t0, 0)];
    let mut twice = start.clone();
    let first = calculate_rewards(&mut twice, t0);
    let second = calculate_rewards(&mut twice, t0 + delta);
    let mut once = start.clone();
    let single = calculate_rewards(&mut once, t0 + delta);
    assert_eq!(first, 0);
    assert_eq!(first + second, single);
    assert_eq!(single, 75000 + 205 + 15);
    assert_eq!(twice, once);
}

#[test]
fn accrual_sums_over_positions() {
    let mut positions = vec![position(365000, 0, 0), position(730000, DAY, 100)];
    let total = calculate_rewards(&mut positions, 3 * DAY);
    assert_eq!(total, 45000 + 60000);
    assert_eq!(positions, vec![position(365000, 3 * DAY, 45000), position(730000, 3 * DAY, 60100)]);
}

#[test]
fn accrual_over_the_widest_interval_is_computed_exactly() {
    let positions = vec![position(1, i64::MIN, 0)];
    // 213503982334601 whole days lie between the two ends of the clock.
    assert_eq!(pending_rewards(&positions, i64::MAX), Some(213503982334601 * 1500 / 36500));
}

#[test]
fn accrual_that_leaves_the_counters_is_reported() {
    let positions = vec![position(u64::MAX, 0, 0)];
    assert!(accrual_fits(&positions, 24 * DAY));
    assert!(!accrual_fits(&positions, 25 * DAY));
    assert_eq!(pending_rewards(&positions, 25 * DAY), None);
    let positions = vec![position(365000, 0, u64::MAX - 14999)];
    assert!(!accrual_fits(&positions, DAY));
    let positions = vec![position(365000, 0, u64::MAX - 15000)];
    assert!(accrual_fits(&positions, DAY));
    assert_eq!(pending_rewards(&positions, DAY), Some(15000));
    let half = vec![position(u64::MAX, 0, 0), position(u64::MAX, 0, 0)];
    assert!(accrual_fits(&half, 12 * DAY));
    assert!(!accrual_fits(&half, 13 * DAY));
}

#[test]
fn claim_credits_rewards_to_owner() {
    let owner = Identity::new([4u8; 32]);
    let mut record = record_of(owner, vec![position(365000, 0, 0), position(100, 0, 1)]);
    assert!(claim_fits(&record, DAY));
    let got = claim_rewards(&mut record, &owner, DAY);
    assert_eq!(got, Ok(15004));
    assert_eq!(record.claimed_rewards, 15009);
    assert_eq!(record.deposited_amount, 1000);
    assert_eq!(record.positions, vec![position(365000, DAY, 15000), position(100, DAY, 5)]);
    let again = claim_rewards(&mut record, &owner, DAY);
    assert_eq!(again, Ok(0));
    assert_eq!(record.claimed_rewards, 15009);
}

#[test]
fn claim_by_stranger_is_refused() {
    let owner = Identity::new([4u8; 32]);
    let mut stranger_bytes = [4u8; 32];
    stranger_bytes[31] = 5;
    let stranger = Identity::new(stranger_bytes);
    let mut record = record_of(owner, vec![position(365000, 0, 0)]);
    let before = record.clone();
    let got = claim_rewards(&mut record, &stranger, 10 * DAY);
    assert_eq!(got, Err(YieldAggregatorError::Unauthorized));
    assert_eq!(record, before);
}

#[test]
fn claim_that_leaves_the_counter_is_reported() {
    let owner = Identity::new([4u8; 32]);
    let mut record = record_of(owner, vec![position(365000, 0, 0)]);
    record.claimed_rewards = u64::MAX - 14999;
    assert!(!claim_fits(&record, DAY));
    record.claimed_rewards = u64::MAX - 15000;
    assert!(claim_fits(&record, DAY));
    assert_eq!(claim_rewards(&mut record, &owner, DAY), Ok(15000));
    assert_eq!(record.claimed_rewards, u64::MAX);
}

#[test]
fn accrual_in_two_steps_never_earns_more() {
    let start = vec![position(365000, 0, 0), position(100, 0, 0)];
    for (t0, t1) in [(DAY / 2, DAY), (DAY, 3 * DAY), (DAY + 1, 2 * DAY), (0, 5 * DAY), (7 * DAY, 7 * DAY)] {
        let mut twice = start.clone();
        let first = calculate_rewards(&mut twice, t0);
        let second = calculate_rewards(&mut twice, t1);
        let mut once = start.clone();
        let single = calculate_rewards(&mut once, t1);
        assert!(first + second <= single);
    }
    // Half a day and another half: the halves are lost, the whole day is not.
    let mut twice = start.clone();
    assert_eq!(calculate_rewards(&mut twice, DAY / 2), 0);
    assert_eq!(calculate_rewards(&mut twice, DAY), 0);
    let mut once = start.clone();
    assert_eq!(calculate_rewards(&mut once, DAY), 15004);
}

#[test]
fn accrual_after_whole_days_with_whole_reward_is_additive() {
    let start = vec![position(365000, 0, 3), position(73, 0, 0)];
    let t0 = 5 * DAY;
    let t1 = 12 * DAY + 100;
    let mut twice = start.clone();
    let first = calculate_rewards(&mut twice, t0);
    let second = calculate_rewards(&mut twice, t1);
    let mut once = start.clone();
    let single = calculate_rewards(&mut once, t1);
    assert_eq!(first, 75000 + 15);
    assert_eq!(second, 105000 + 21);
    assert_eq!(single, 180000 + 36);
    assert_eq!(twice, once);
}
