use solana_yield::{
    deposit_funds, initialize_protocol, optimize_yield_allocation, ChainInfo, Identity, Position,
    ProtocolInfo, ProtocolRegistry, YieldAggregatorError,
};

fn venue(protocol_id: u32, risk_score: u8, apy: u32, chain_id: u32) -> ProtocolInfo {
    ProtocolInfo { protocol_id, name: format!("V{}", protocol_id), chain_id, apy, risk_score }
}

fn admin() -> Identity {
    Identity::new([7u8; 32])
}

fn registry_of(venues: Vec<ProtocolInfo>) -> ProtocolRegistry {
    let chains = vec![ChainInfo {
        chain_id: 1,
        bridge_address: String::from("bridge-1"),
        gas_token: String::from("GAS"),
    }];
    initialize_protocol(admin(), chains, venues, 254)
}

fn four_venues() -> ProtocolRegistry {
    registry_of(vec![
        venue(1, 2, 500, 1),
        venue(2, 5, 800, 1),
        venue(3, 1, 300, 2),
        venue(4, 8, 1000, 3),
    ])
}

fn opened(chain_id: u32, protocol_id: u32, amount: u64, start_time: i64) -> Position {
    Position { chain_id, protocol_id, amount, start_time, reward_accrued: 0 }
}

#[test]
fn allocation_splits_over_three_best_and_keeps_order_on_tie() {
    let got = optimize_yield_allocation(1000, 5, None, &four_venues(), 77).unwrap();
    assert_eq!(got, vec![opened(1, 1, 334, 77), opened(1, 2, 333, 77), opened(2, 3, 333, 77)]);
}

#[test]
fn allocation_amounts_sum_to_request() {
    for amount in [0u64, 1, 2, 3, 4, 5, 999, 1000, 1001, u64::MAX - 1, u64::MAX] {
        for tolerance in [1u8, 2, 5, 10] {
            let got = optimize_yield_allocation(amount, tolerance, None, &four_venues(), 0).unwrap();
            assert!(!got.is_empty() && got.len() <= 3);
            let sum: u128 = got.iter().map(|p| p.amount as u128).sum();
            assert_eq!(sum, amount as u128);
        }
    }
}

#[test]
fn allocation_with_no_venue_on_preferred_chain_is_refused() {
    let got = optimize_yield_allocation(1000, 5, Some(vec![9]), &four_venues(), 0);
    assert_eq!(got, Err(YieldAggregatorError::NoSuitableProtocols));
}

#[test]
fn allocation_with_chains_disjoint_after_risk_filter_is_refused() {
    // Chain 3 holds only a venue of risk 8.
    let got = optimize_yield_allocation(1000, 5, Some(vec![3, 9]), &four_venues(), 0);
    assert_eq!(got, Err(YieldAggregatorError::NoSuitableProtocols));
    let got = optimize_yield_allocation(1000, 8, Some(vec![3, 9]), &four_venues(), 0).unwrap();
    assert_eq!(got, vec![opened(3, 4, 1000, 0)]);
}

#[test]
fn allocation_on_empty_catalog_is_refused() {
    let got = optimize_yield_allocation(1000, 10, None, &registry_of(vec![]), 0);
    assert_eq!(got, Err(YieldAggregatorError::NoSuitableProtocols));
}

#[test]
fn allocation_with_nothing_within_tolerance_is_refused() {
    let got = optimize_yield_allocation(1000, 0, None, &four_venues(), 0);
    assert_eq!(got, Err(YieldAggregatorError::NoSuitableProtocols));
}

#[test]
fn allocation_follows_chain_preference() {
    let got = optimize_yield_allocation(1001, 5, Some(vec![2, 1]), &four_venues(), 5).unwrap();
    assert_eq!(got, vec![opened(1, 1, 335, 5), opened(1, 2, 333, 5), opened(2, 3, 333, 5)]);
    let got = optimize_yield_allocation(1001, 5, Some(vec![1]), &four_venues(), 5).unwrap();
    assert_eq!(got, vec![opened(1, 1, 501, 5), opened(1, 2, 500, 5)]);
    let got = optimize_yield_allocation(1001, 5, Some(vec![]), &four_venues(), 5);
    assert_eq!(got, Err(YieldAggregatorError::NoSuitableProtocols));
}

#[test]
fn allocation_takes_highest_scores_first() {
    // Scores: 100, 900, 900, 2000, 0, 450.
    let registry = registry_of(vec![
        venue(10, 9, 100, 1),
        venue(11, 1, 100, 1),
        venue(12, 7, 300, 2),
        venue(13, 0, 200, 2),
        venue(14, 10, 5000, 3),
        venue(15, 5, 90, 3),
    ]);
    let got = optimize_yield_allocation(10, 10, None, &registry, -3).unwrap();
    assert_eq!(got, vec![opened(2, 13, 4, -3), opened(1, 11, 3, -3), opened(2, 12, 3, -3)]);
    let got = optimize_yield_allocation(10, 6, None, &registry, -3).unwrap();
    assert_eq!(got, vec![opened(2, 13, 4, -3), opened(1, 11, 3, -3), opened(3, 15, 3, -3)]);
}

#[test]
fn allocation_keeps_catalog_order_among_equal_scores() {
    let registry = registry_of(vec![
        venue(1, 5, 100, 1),
        venue(2, 5, 100, 1),
        venue(3, 5, 100, 1),
        venue(4, 5, 100, 1),
    ]);
    let got = optimize_yield_allocation(8, 5, None, &registry, 0).unwrap();
    assert_eq!(got, vec![opened(1, 1, 4, 0), opened(1, 2, 2, 0), opened(1, 3, 2, 0)]);
}

#[test]
fn allocation_scores_do_not_wrap() {
    // In 32 bits the first score would wrap to a small number.
    let registry = registry_of(vec![venue(1, 0, 429_496_730, 1), venue(2, 0, 1000, 1)]);
    let got = optimize_yield_allocation(11, 0, None, &registry, 0).unwrap();
    assert_eq!(got, vec![opened(1, 1, 6, 0), opened(1, 2, 5, 0)]);
}

#[test]
fn allocation_to_one_venue_gets_everything() {
    let got = optimize_yield_allocation(u64::MAX, 1, None, &four_venues(), 1).unwrap();
    assert_eq!(got, vec![opened(2, 3, u64::MAX, 1)]);
}

#[test]
fn deposit_with_risk_tolerance_out_of_range_is_refused() {
    let owner = Identity::new([1u8; 32]);
    let got = deposit_funds(owner, 1000, 11, None, &four_venues(), 0, 1);
    assert_eq!(got, Err(YieldAggregatorError::InvalidRiskTolerance));
    for tolerance in 11u8..=255 {
        let got = deposit_funds(owner, 1000, tolerance, Some(vec![9]), &four_venues(), 0, 1);
        assert_eq!(got, Err(YieldAggregatorError::InvalidRiskTolerance));
    }
}

#[test]
fn deposit_opens_record_with_allocated_positions() {
    let owner = Identity::new([1u8; 32]);
    let record = deposit_funds(owner, 1000, 5, None, &four_venues(), 42, 9).unwrap();
    assert_eq!(record.owner, owner);
    assert_eq!(record.deposited_amount, 1000);
    assert_eq!(record.claimed_rewards, 0);
    assert_eq!(record.bump, 9);
    assert_eq!(
        record.positions,
        vec![opened(1, 1, 334, 42), opened(1, 2, 333, 42), opened(2, 3, 333, 42)]
    );
    let sum: u64 = record.positions.iter().map(|p| p.amount).sum();
    assert_eq!(sum, record.deposited_amount);
}

#[test]
fn deposit_that_suits_no_venue_is_refused() {
    let owner = Identity::new([1u8; 32]);
    let got = deposit_funds(owner, 1000, 5, Some(vec![9]), &four_venues(), 0, 1);
    assert_eq!(got, Err(YieldAggregatorError::NoSuitableProtocols));
}
