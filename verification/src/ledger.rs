//! The operations on the registry and on an owner's record, each guarded by
//! the checks it needs. A refused operation leaves every record as it was.

use vstd::prelude::*;
use crate::model::{
    ChainInfo, Identity, Position, ProtocolInfo, ProtocolRegistry, UserPosition,
    YieldAggregatorError, MAX_RISK,
};
use crate::allocation::{allocation, chain_filter, optimize_yield_allocation, total_amount};
use crate::rewards::{
    accrue_all, accrued, calculate_rewards, can_accrue, lemma_accrual_never_decreases,
    lemma_total_reward_grows, pending_rewards, total_reward,
};

verus! {

/// Whether `caller` is the admin of the registry.
pub fn is_admin(caller: &Identity, registry: &ProtocolRegistry) -> (yes: bool)
    ensures
        yes == (caller@ == registry.admin@),
{
    caller.same_as(&registry.admin)
}

/// Whether `caller` is the owner of the record.
pub fn is_owner(caller: &Identity, record: &UserPosition) -> (yes: bool)
    ensures
        yes == (caller@ == record.owner@),
{
    caller.same_as(&record.owner)
}

/// Accepts a risk tolerance from 0 to 10 and refuses any other.
pub fn check_risk_tolerance(risk_tolerance: u8) -> (result: Result<(), YieldAggregatorError>)
    ensures
        risk_tolerance <= MAX_RISK ==> result is Ok,
        risk_tolerance > MAX_RISK ==> result == Err::<(), YieldAggregatorError>(
            YieldAggregatorError::InvalidRiskTolerance,
        ),
{
    if risk_tolerance <= MAX_RISK {
        Ok(())
    } else {
        Err(YieldAggregatorError::InvalidRiskTolerance)
    }
}

/// Creates the registry with its admin and its catalogs.
pub fn initialize_protocol(
    admin: Identity,
    supported_chains: Vec<ChainInfo>,
    supported_protocols: Vec<ProtocolInfo>,
    bump: u8,
) -> (registry: ProtocolRegistry)
    ensures
        registry.admin == admin,
        registry.supported_chains == supported_chains,
        registry.supported_protocols == supported_protocols,
        registry.bump == bump,
{
    ProtocolRegistry { admin, supported_chains, supported_protocols, bump }
}

/// The positions that a deposit opens, or the reason why it opens no record.
pub open spec fn deposit_outcome(
    amount: u64,
    risk_tolerance: u8,
    chains: Option<Seq<u32>>,
    catalog: Seq<ProtocolInfo>,
    now: i64,
) -> Result<Seq<Position>, YieldAggregatorError> {
    if risk_tolerance > MAX_RISK {
        Err(YieldAggregatorError::InvalidRiskTolerance)
    } else {
        allocation(catalog, amount, risk_tolerance, chains, now)
    }
}

/// Opens the record of `owner` for a deposit of `amount`, allocated over the
/// registry's catalog at `now`.
///
/// A risk tolerance above 10 is refused before anything else; a request that
/// no venue suits is refused by the allocation. Either way no record comes
/// back. A new record holds the whole amount as principal, the allocated
/// positions, and no claimed reward.
pub fn deposit_funds(
    owner: Identity,
    amount: u64,
    risk_tolerance: u8,
    preferred_chains: Option<Vec<u32>>,
    protocol_registry: &ProtocolRegistry,
    now: i64,
    bump: u8,
) -> (result: Result<UserPosition, YieldAggregatorError>)
    ensures
        risk_tolerance > MAX_RISK ==> result == Err::<UserPosition, YieldAggregatorError>(
            YieldAggregatorError::InvalidRiskTolerance,
        ),
        result matches Err(e) ==> deposit_outcome(
            amount,
            risk_tolerance,
            chain_filter(preferred_chains),
            protocol_registry.supported_protocols@,
            now,
        ) == Err::<Seq<Position>, YieldAggregatorError>(e),
        result matches Ok(record) ==> {
            &&& deposit_outcome(
                amount,
                risk_tolerance,
                chain_filter(preferred_chains),
                protocol_registry.supported_protocols@,
                now,
            ) == Ok::<Seq<Position>, YieldAggregatorError>(record.positions@)
            &&& record.owner == owner
            &&& record.deposited_amount == amount
            &&& record.claimed_rewards == 0
            &&& record.bump == bump
            &&& record.well_formed()
            &&& total_amount(record.positions@) == record.deposited_amount
        },
{
    match check_risk_tolerance(risk_tolerance) {
        Err(e) => {
            return Err(e);
        },
        Ok(_) => {},
    }
    match optimize_yield_allocation(
        amount,
        risk_tolerance,
        preferred_chains,
        protocol_registry,
        now,
    ) {
        Err(e) => Err(e),
        Ok(positions) => Ok(
            UserPosition { owner, deposited_amount: amount, claimed_rewards: 0, positions, bump },
        ),
    }
}

/// Takes `amount` out of the recorded principal of `caller`'s record.
///
/// Refused with `Unauthorized` where `caller` does not own the record, and
/// with `InsufficientFunds` where `amount` exceeds the principal. The
/// positions are left as they are.
pub fn withdraw_funds(record: &mut UserPosition, caller: &Identity, amount: u64) -> (result: Result<
    (),
    YieldAggregatorError,
>)
    ensures
        caller@ != old(record).owner@ ==> result == Err::<(), YieldAggregatorError>(
            YieldAggregatorError::Unauthorized,
        ),
        caller@ == old(record).owner@ && amount > old(record).deposited_amount ==> result == Err::<
            (),
            YieldAggregatorError,
        >(YieldAggregatorError::InsufficientFunds),
        caller@ == old(record).owner@ && amount <= old(record).deposited_amount ==> result is Ok,
        result is Err ==> *final(record) == *old(record),
        result is Ok ==> final(record).deposited_amount == old(record).deposited_amount - amount,
        final(record).owner == old(record).owner,
        final(record).claimed_rewards == old(record).claimed_rewards,
        final(record).positions == old(record).positions,
        final(record).bump == old(record).bump,
        old(record).well_formed() ==> final(record).well_formed(),
{
    if !is_owner(caller, record) {
        return Err(YieldAggregatorError::Unauthorized);
    }
    if amount > record.deposited_amount {
        return Err(YieldAggregatorError::InsufficientFunds);
    }
    record.deposited_amount = record.deposited_amount - amount;
    Ok(())
}

/// Whether a claim at `now` stays within the range of the counters: the
/// accrual does, and so does the sum of claimed rewards.
pub open spec fn can_claim(record: UserPosition, now: i64) -> bool {
    &&& can_accrue(record.positions@, now)
    &&& record.claimed_rewards + total_reward(record.positions@, now) <= u64::MAX
}

/// Whether a claim at `now` stays within the range of the counters, so that
/// [`claim_rewards`] can be called by the owner.
pub fn claim_fits(record: &UserPosition, now: i64) -> (fits: bool)
    ensures
        fits == can_claim(*record, now),
{
    match pending_rewards(&record.positions, now) {
        Some(total) => total <= u64::MAX - record.claimed_rewards,
        None => false,
    }
}

/// Accrues the positions of `caller`'s record up to `now`, adds what they
/// earned to the claimed rewards and returns it.
///
/// Refused with `Unauthorized`, and nothing changed, where `caller` does not
/// own the record.
pub fn claim_rewards(record: &mut UserPosition, caller: &Identity, now: i64) -> (result: Result<
    u64,
    YieldAggregatorError,
>)
    requires
        caller@ == old(record).owner@ ==> can_claim(*old(record), now),
    ensures
        caller@ != old(record).owner@ ==> result == Err::<u64, YieldAggregatorError>(
            YieldAggregatorError::Unauthorized,
        ) && *final(record) == *old(record),
        caller@ == old(record).owner@ ==> {
            &&& result == Ok::<u64, YieldAggregatorError>(
                total_reward(old(record).positions@, now) as u64,
            )
            &&& final(record).positions@ == accrue_all(old(record).positions@, now)
            &&& final(record).claimed_rewards == old(record).claimed_rewards + total_reward(
                old(record).positions@,
                now,
            )
        },
        final(record).owner == old(record).owner,
        final(record).deposited_amount == old(record).deposited_amount,
        final(record).bump == old(record).bump,
        final(record).positions@.len() == old(record).positions@.len(),
        forall|k: int|
            0 <= k < old(record).positions@.len() ==> old(record).positions@[k].reward_accrued <= (
            #[trigger] final(record).positions@[k]).reward_accrued,
        old(record).well_formed() ==> final(record).well_formed(),
{
    if !is_owner(caller, record) {
        return Err(YieldAggregatorError::Unauthorized);
    }
    let ghost before = record.positions@;
    proof {
        lemma_total_reward_grows(before, now, 0);
        assert forall|k: int| 0 <= k < before.len() implies accrued(before[k], now).reward_accrued
            >= before[k].reward_accrued by {
            lemma_accrual_never_decreases(before[k], now);
        }
    }
    let rewards = calculate_rewards(&mut record.positions, now);
    record.claimed_rewards = record.claimed_rewards + rewards;
    Ok(rewards)
}

/// Replaces the venue catalog of the registry, whole, on the admin's behalf.
///
/// Refused with `Unauthorized`, and nothing changed, where `caller` is not
/// the admin. The admin and the chains never change.
pub fn update_strategies(
    registry: &mut ProtocolRegistry,
    caller: &Identity,
    new_protocols: Vec<ProtocolInfo>,
) -> (result: Result<(), YieldAggregatorError>)
    ensures
        caller@ != old(registry).admin@ ==> result == Err::<(), YieldAggregatorError>(
            YieldAggregatorError::Unauthorized,
        ) && *final(registry) == *old(registry),
        caller@ == old(registry).admin@ ==> result is Ok && final(registry).supported_protocols
            == new_protocols,
        final(registry).admin == old(registry).admin,
        final(registry).supported_chains == old(registry).supported_chains,
        final(registry).bump == old(registry).bump,
{
    if !is_admin(caller, registry) {
        return Err(YieldAggregatorError::Unauthorized);
    }
    registry.supported_protocols = new_protocols;
    Ok(())
}

} // verus!
