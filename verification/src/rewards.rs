//! The reward accrual engine: what a position earns for the whole days that
//! have passed since it last accrued.
//!
//! Every position earns at one fixed annual rate of fifteen percent, whatever
//! venue it was placed in.

use vstd::prelude::*;
use crate::model::Position;

verus! {

/// Seconds in a day.
pub const SECONDS_PER_DAY: i64 = 86400;

/// Numerator of the daily rate.
pub const RATE_NUMERATOR: u64 = 1500;

/// Denominator of the daily rate.
pub const RATE_DENOMINATOR: u64 = 36500;

/// The whole days from `start_time` to `now`; none where `now` is earlier.
pub open spec fn elapsed_days(start_time: i64, now: i64) -> int {
    if now >= start_time {
        (now - start_time) / (SECONDS_PER_DAY as int)
    } else {
        0
    }
}

/// What a position earns from its start time to `now`, rounded down.
pub open spec fn reward_for(p: Position, now: i64) -> int {
    (p.amount as int * RATE_NUMERATOR as int * elapsed_days(p.start_time, now)) / (
    RATE_DENOMINATOR as int)
}

/// A position after accrual at `now`: the reward is added and the clock restarts.
pub open spec fn accrued(p: Position, now: i64) -> Position {
    Position {
        chain_id: p.chain_id,
        protocol_id: p.protocol_id,
        amount: p.amount,
        start_time: now,
        reward_accrued: (p.reward_accrued + reward_for(p, now)) as u64,
    }
}

/// A list of positions after accrual at `now`.
pub open spec fn accrue_all(positions: Seq<Position>, now: i64) -> Seq<Position> {
    Seq::new(positions.len(), |k: int| accrued(positions[k], now))
}

/// What a list of positions earns up to `now`, all together.
pub open spec fn total_reward(positions: Seq<Position>, now: i64) -> int
    decreases positions.len(),
{
    if positions.len() == 0 {
        0
    } else {
        total_reward(positions.drop_last(), now) + reward_for(positions.last(), now)
    }
}

/// Whether accrual at `now` stays within the range of the counters: each
/// position's accrued reward, and the total of this accrual.
pub open spec fn can_accrue(positions: Seq<Position>, now: i64) -> bool {
    &&& total_reward(positions, now) <= u64::MAX
    &&& forall|k: int|
        0 <= k < positions.len() ==> (#[trigger] positions[k]).reward_accrued + reward_for(
            positions[k],
            now,
        ) <= u64::MAX
}

/// A reward is never negative.
pub proof fn lemma_reward_not_negative(p: Position, now: i64)
    ensures
        0 <= elapsed_days(p.start_time, now) < 0x1_0000_0000_0000,
        0 <= p.amount as int * RATE_NUMERATOR as int * elapsed_days(p.start_time, now)
            < 0x8000_0000_0000_0000_0000_0000_0000_0000,
        0 <= reward_for(p, now),
{
    let days = elapsed_days(p.start_time, now);
    let amount = p.amount as int;
    assert(0 <= days < 0x1_0000_0000_0000);
    assert(0 <= amount * 1500 * days < 0x8000_0000_0000_0000_0000_0000_0000_0000)
        by (nonlinear_arith)
        requires
            0 <= days < 0x1_0000_0000_0000,
            0 <= amount < 0x1_0000_0000_0000_0000,
    ;
}

/// A position earns nothing before a whole day has passed.
pub proof fn lemma_no_day_no_reward(p: Position, now: i64)
    requires
        elapsed_days(p.start_time, now) == 0,
    ensures
        reward_for(p, now) == 0,
{
    let amount = p.amount as int;
    assert(amount * 1500 * 0 == 0) by (nonlinear_arith);
}

/// The total reward of a list is never negative and never below that of a prefix.
pub proof fn lemma_total_reward_grows(positions: Seq<Position>, now: i64, n: int)
    requires
        0 <= n <= positions.len(),
    ensures
        0 <= total_reward(positions.take(n), now) <= total_reward(positions, now),
    decreases positions.len(),
{
    if positions.len() == 0 {
        assert(positions.take(n) =~= positions);
    } else if n == positions.len() {
        assert(positions.take(n) =~= positions);
        lemma_reward_not_negative(positions.last(), now);
        lemma_total_reward_grows(positions.drop_last(), now, n - 1);
    } else {
        lemma_reward_not_negative(positions.last(), now);
        lemma_total_reward_grows(positions.drop_last(), now, n);
        assert(positions.drop_last().take(n) =~= positions.take(n));
    }
}

/// The total reward of the first `n + 1` positions is that of the first `n`
/// and the reward of the next.
pub proof fn lemma_total_reward_step(positions: Seq<Position>, now: i64, n: int)
    requires
        0 <= n < positions.len(),
    ensures
        total_reward(positions.take(n + 1), now) == total_reward(positions.take(n), now)
            + reward_for(positions[n], now),
{
    assert(positions.take(n + 1).drop_last() =~= positions.take(n));
}

/// What one position earns up to `now`.
fn reward_due(p: &Position, now: i64) -> (reward: u128)
    ensures
        reward == reward_for(*p, now),
{
    proof {
        lemma_reward_not_negative(*p, now);
    }
    if now < p.start_time {
        proof {
            lemma_no_day_no_reward(*p, now);
        }
        return 0;
    }
    let seconds: i128 = now as i128 - p.start_time as i128;
    let days: u128 = (seconds / 86400) as u128;
    let scaled: u128 = p.amount as u128 * 1500 * days;
    scaled / 36500
}

/// What the positions would earn together at `now`, without accruing it;
/// `None` where accrual would leave the range of the counters.
pub fn pending_rewards(positions: &Vec<Position>, now: i64) -> (pending: Option<u64>)
    ensures
        pending is Some <==> can_accrue(positions@, now),
        pending matches Some(total) ==> total == total_reward(positions@, now),
{
    let mut total: u64 = 0;
    let mut i: usize = 0;
    while i < positions.len()
        invariant
            i <= positions@.len(),
            total == total_reward(positions@.take(i as int), now),
            forall|k: int|
                0 <= k < i ==> (#[trigger] positions@[k]).reward_accrued + reward_for(
                    positions@[k],
                    now,
                ) <= u64::MAX,
        decreases positions@.len() - i,
    {
        let p = &positions[i];
        let reward = reward_due(p, now);
        proof {
            lemma_total_reward_step(positions@, now, i as int);
            lemma_total_reward_grows(positions@, now, i as int + 1);
        }
        if reward > (u64::MAX - p.reward_accrued) as u128 {
            return None;
        }
        if reward > (u64::MAX - total) as u128 {
            return None;
        }
        total = total + reward as u64;
        i += 1;
    }
    assert(positions@.take(i as int) =~= positions@);
    Some(total)
}

/// Whether accrual at `now` stays within the range of the counters, so that
/// [`calculate_rewards`] can be called.
pub fn accrual_fits(positions: &Vec<Position>, now: i64) -> (fits: bool)
    ensures
        fits == can_accrue(positions@, now),
{
    pending_rewards(positions, now).is_some()
}

/// Accrues every position up to `now` and returns what they earned together.
///
/// Each position's reward is added to its accrued reward and its clock
/// restarts at `now`, so that no interval is counted twice.
pub fn calculate_rewards(positions: &mut Vec<Position>, now: i64) -> (total: u64)
    requires
        can_accrue(old(positions)@, now),
    ensures
        total == total_reward(old(positions)@, now),
        final(positions)@ == accrue_all(old(positions)@, now),
{
    let ghost before = positions@;
    let mut total: u64 = 0;
    let mut i: usize = 0;
    while i < positions.len()
        invariant
            i <= positions@.len(),
            positions@.len() == before.len(),
            can_accrue(before, now),
            total == total_reward(before.take(i as int), now),
            forall|k: int| 0 <= k < i ==> positions@[k] == accrued(before[k], now),
            forall|k: int| i <= k < before.len() ==> positions@[k] == before[k],
        decreases positions@.len() - i,
    {
        let p = positions[i];
        let reward = reward_due(&p, now);
        proof {
            lemma_total_reward_step(before, now, i as int);
            lemma_total_reward_grows(before, now, i as int + 1);
            assert(before[i as int].reward_accrued + reward_for(before[i as int], now)
                <= u64::MAX);
        }
        let earned: u64 = reward as u64;
        positions.set(
            i,
            Position {
                chain_id: p.chain_id,
                protocol_id: p.protocol_id,
                amount: p.amount,
                start_time: now,
                reward_accrued: p.reward_accrued + earned,
            },
        );
        total = total + earned;
        i += 1;
    }
    assert(before.take(i as int) =~= before);
    assert(positions@ =~= accrue_all(before, now));
    total
}

/// A position never loses accrued reward by an accrual.
pub proof fn lemma_accrual_never_decreases(p: Position, now: i64)
    requires
        p.reward_accrued + reward_for(p, now) <= u64::MAX,
    ensures
        accrued(p, now).reward_accrued >= p.reward_accrued,
        accrued(p, now).amount == p.amount,
{
    lemma_reward_not_negative(p, now);
}

/// Positions that start at `t0` earn nothing at `t0` and are left as they are.
pub proof fn lemma_accrual_at_start_is_idle(positions: Seq<Position>, t0: i64)
    requires
        forall|k: int| 0 <= k < positions.len() ==> (#[trigger] positions[k]).start_time == t0,
    ensures
        total_reward(positions, t0) == 0,
        accrue_all(positions, t0) == positions,
    decreases positions.len(),
{
    if positions.len() > 0 {
        lemma_accrual_at_start_is_idle(positions.drop_last(), t0);
        lemma_no_day_no_reward(positions.last(), t0);
    }
    assert forall|k: int| 0 <= k < positions.len() implies accrued(positions[k], t0)
        == positions[k] by {
        lemma_no_day_no_reward(positions[k], t0);
    }
    assert(accrue_all(positions, t0) =~= positions);
}

/// Accrual does not count an interval twice: for positions that start at
/// `t0`, accruing at `t0` and then at `t1` earns in total what accruing once
/// at `t1` earns, and leaves the same positions.
pub proof fn lemma_accrual_twice_is_once(positions: Seq<Position>, t0: i64, t1: i64)
    requires
        forall|k: int| 0 <= k < positions.len() ==> (#[trigger] positions[k]).start_time == t0,
    ensures
        total_reward(positions, t0) + total_reward(accrue_all(positions, t0), t1) == total_reward(
            positions,
            t1,
        ),
        accrue_all(accrue_all(positions, t0), t1) == accrue_all(positions, t1),
{
    lemma_accrual_at_start_is_idle(positions, t0);
}

/// Whether nothing is left over when the position accrues at `t0`: it has
/// run a whole number of days, and they earn a whole reward.
pub open spec fn accrues_evenly(p: Position, t0: i64) -> bool {
    &&& p.start_time <= t0
    &&& (t0 - p.start_time) % (SECONDS_PER_DAY as int) == 0
    &&& (p.amount as int * RATE_NUMERATOR as int * elapsed_days(p.start_time, t0)) % (
    RATE_DENOMINATOR as int) == 0
}

/// Accrual is additive where nothing is left over: a position that accrues
/// evenly at `t0` and then accrues at a later `t1` has earned exactly what
/// one accrual at `t1` earns.
pub proof fn lemma_even_split_is_exact(p: Position, t0: i64, t1: i64)
    requires
        accrues_evenly(p, t0),
        t0 <= t1,
    ensures
        reward_for(p, t0) + reward_for(accrued(p, t0), t1) == reward_for(p, t1),
{
    let amount = p.amount as int;
    let first = elapsed_days(p.start_time, t0);
    let second = elapsed_days(t0, t1);
    let whole = elapsed_days(p.start_time, t1);
    assert(first + second == whole);
    assert(amount * 1500 * first + amount * 1500 * second == amount * 1500 * whole)
        by (nonlinear_arith)
        requires
            first + second == whole,
    ;
}

/// Accrual is additive where nothing is left over: positions that all accrue
/// evenly at `t0` and accrue again at a later `t1` have earned in total
/// exactly what one accrual at `t1` earns.
pub proof fn lemma_even_accrual_is_additive(positions: Seq<Position>, t0: i64, t1: i64)
    requires
        forall|k: int| 0 <= k < positions.len() ==> accrues_evenly(#[trigger] positions[k], t0),
        t0 <= t1,
    ensures
        total_reward(positions, t0) + total_reward(accrue_all(positions, t0), t1) == total_reward(
            positions,
            t1,
        ),
    decreases positions.len(),
{
    if positions.len() > 0 {
        lemma_even_accrual_is_additive(positions.drop_last(), t0, t1);
        assert(accrue_all(positions, t0).drop_last() =~= accrue_all(positions.drop_last(), t0));
        assert(accrue_all(positions, t0).last() == accrued(positions.last(), t0));
        lemma_even_split_is_exact(positions.last(), t0, t1);
    }
}

/// Splitting an interval never earns more: while time moves forward, a
/// position accrued at `t0` and again at `t1` has earned at most what one
/// accrual at `t1` earns.
pub proof fn lemma_split_interval_earns_no_more(p: Position, t0: i64, t1: i64)
    requires
        p.start_time <= t0 <= t1,
    ensures
        reward_for(p, t0) + reward_for(accrued(p, t0), t1) <= reward_for(p, t1),
{
    let amount = p.amount as int;
    let first = elapsed_days(p.start_time, t0);
    let second = elapsed_days(t0, t1);
    let whole = elapsed_days(p.start_time, t1);
    assert(0 <= first && 0 <= second && first + second <= whole);
    assert(0 <= amount * 1500 * first && 0 <= amount * 1500 * second && amount * 1500 * first
        + amount * 1500 * second <= amount * 1500 * whole) by (nonlinear_arith)
        requires
            0 <= amount,
            0 <= first,
            0 <= second,
            first + second <= whole,
    ;
}

/// No interval is counted twice: while time moves forward, accruing at `t0`
/// and again at `t1` earns in total at most what one accrual at `t1` earns.
pub proof fn lemma_accrual_never_counts_twice(positions: Seq<Position>, t0: i64, t1: i64)
    requires
        forall|k: int| 0 <= k < positions.len() ==> (#[trigger] positions[k]).start_time <= t0,
        t0 <= t1,
    ensures
        total_reward(positions, t0) + total_reward(accrue_all(positions, t0), t1) <= total_reward(
            positions,
            t1,
        ),
    decreases positions.len(),
{
    if positions.len() > 0 {
        lemma_accrual_never_counts_twice(positions.drop_last(), t0, t1);
        assert(accrue_all(positions, t0).drop_last() =~= accrue_all(positions.drop_last(), t0));
        assert(accrue_all(positions, t0).last() == accrued(positions.last(), t0));
        lemma_split_interval_earns_no_more(positions.last(), t0, t1);
    }
}

} // verus!
