use pallet_network::math::{percent_div, percent_mul, PERCENTAGE_FACTOR};
use pallet_network::runtime::{
    deposit, do_deactivation_ledger, rocks_db_weight, AuraAccountAdapter, ProxyType, RuntimeCall, SubstrateWeight,
    Weight, BYTES_FEE, ITEMS_FEE,
};
use pallet_network::subnet_params::{
    can_subnet_register, get_min_subnet_delegate_stake_balance, get_next_registration_epoch,
    get_target_subnet_nodes, registration_cost,
};
use pallet_network::utils::{exceeds_tx_rate_limit, get_eligible_epoch_block, validate_peer_id};

#[test]
fn percent_mul_scales_by_factor() {
    assert_eq!(percent_mul(1_000, 500_000_000), 500);
    assert_eq!(percent_mul(9_000_000_000_000_000_000, 110_000_000), 990_000_000_000_000_000);
    assert_eq!(percent_mul(0, 5), 0);
    assert_eq!(percent_mul(5, 0), 0);
    // a product too large for the headroom answers zero
    assert_eq!(percent_mul(u128::MAX, 2), 0);
}

#[test]
fn percent_div_scales_by_factor() {
    assert_eq!(percent_div(1, 2), 500_000_000);
    assert_eq!(percent_div(4, 5), 800_000_000);
    assert_eq!(percent_div(100, 500), 200_000_000);
    assert_eq!(percent_div(0, 5), 0);
    assert_eq!(percent_div(5, 0), 0);
    // the product saturates before the division
    assert_eq!(percent_div(u128::MAX, 1), u128::MAX);
    assert_eq!(PERCENTAGE_FACTOR, 1_000_000_000);
}

#[test]
fn deposit_counts_items_and_bytes() {
    assert_eq!(deposit(1, 10), ITEMS_FEE + 10 * BYTES_FEE);
    assert_eq!(deposit(2, 0), 40_000_000);
    assert_eq!(deposit(0, 0), 0);
}

#[test]
fn peer_ids_are_validated_loosely() {
    assert!(validate_peer_id(&b"QmYyQSo1c1Ym7orWxLYvCrM2EmxFTANf8wXmmE7DWjhx5N".to_vec()));
    assert!(validate_peer_id(&vec![b'1'; 32]));
    assert!(validate_peer_id(&vec![b'f'; 128]));
    assert!(!validate_peer_id(&vec![b'f'; 129]));
    assert!(!validate_peer_id(&vec![b'Q'; 40]));
    assert!(!validate_peer_id(&vec![b'1'; 31]));
}

#[test]
fn rate_limit_blocks_recent_calls() {
    assert!(!exceeds_tx_rate_limit(0, 5, 6));
    assert!(!exceeds_tx_rate_limit(10, 0, 6));
    assert!(exceeds_tx_rate_limit(10, 5, 15));
    assert!(!exceeds_tx_rate_limit(10, 5, 16));
}

#[test]
fn eligible_epoch_block_starts_at_an_epoch() {
    assert_eq!(get_eligible_epoch_block(10, 25, 3), 50);
    assert_eq!(get_eligible_epoch_block(10, 30, 0), 30);
}

#[test]
fn min_delegate_stake_has_a_floor() {
    // 5 nodes at 1e21 with 100% required: 5e21, above the floor
    assert_eq!(
        get_min_subnet_delegate_stake_balance(5, 1_000_000_000_000_000_000_000, 1_000_000_000, 1_000_000_000_000_000_000_000),
        5_000_000_000_000_000_000_000
    );
    // the floor wins when the computed requirement is lower
    assert_eq!(get_min_subnet_delegate_stake_balance(1, 10, 1_000_000_000, 1_000), 1_000);
}

#[test]
fn target_nodes_add_a_share_of_the_minimum() {
    assert_eq!(get_target_subnet_nodes(5, 333_333_333), 6);
    assert_eq!(get_target_subnet_nodes(30, 333_333_333), 39);
}

#[test]
fn registration_epochs_follow_the_period() {
    assert_eq!(get_next_registration_epoch(7, 5), 10);
    assert_eq!(get_next_registration_epoch(10, 5), 15);
    assert!(can_subnet_register(10, 7, 5));
    assert!(!can_subnet_register(9, 7, 5));
}

#[test]
fn registration_cost_stays_between_its_bounds() {
    for epoch in 0..60u32 {
        let cost = registration_cost(epoch, 7, 100, 1_000, 5);
        assert!(cost >= 100);
        assert!(cost <= 1_000);
    }
}

#[test]
fn proxy_types_filter_calls() {
    assert!(ProxyType::Any.filter(&RuntimeCall::Balances));
    assert!(!ProxyType::NonTransfer.filter(&RuntimeCall::Balances));
    assert!(ProxyType::NonTransfer.filter(&RuntimeCall::NetworkOther));
    assert!(ProxyType::DelegateStaking.filter(&RuntimeCall::NetworkAddToDelegateStake));
    assert!(!ProxyType::DelegateStaking.filter(&RuntimeCall::Balances));
    assert!(ProxyType::Any.is_superset(&ProxyType::NonTransfer));
    assert!(!ProxyType::NonTransfer.is_superset(&ProxyType::Any));
    assert!(ProxyType::default() == ProxyType::Any);
}

#[test]
fn weights_saturate() {
    let w = Weight::from_parts(u64::MAX - 1, 3).saturating_add(Weight::from_parts(5, 4));
    assert_eq!(w.ref_time, u64::MAX);
    assert_eq!(w.proof_size, 7);
    let db = rocks_db_weight();
    let a = SubstrateWeight::do_deactivation_ledger(db, 2, 3);
    let b = do_deactivation_ledger(2, 3);
    assert_eq!(a.ref_time, b.ref_time);
    assert_eq!(a.proof_size, b.proof_size);
}

#[test]
fn authors_are_thirty_two_bytes() {
    assert_eq!(AuraAccountAdapter::find_author(Some(vec![7u8; 32])), Some(vec![7u8; 32]));
    assert_eq!(AuraAccountAdapter::find_author(Some(vec![7u8; 31])), None);
    assert_eq!(AuraAccountAdapter::find_author(None), None);
}
