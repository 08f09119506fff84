use pallet_network::network::{Error, Network, NetworkConfig};
use pallet_network::runtime::Runtime;
use pallet_network::table::SubnetAccount;
use pallet_network::types::{PreliminarySubnetData, SubnetNodeData};

const FUNDS: u128 = 10_000_000_000_000_000_000_000;
const MIN_STAKE: u128 = 1_000_000_000_000_000_000_000;

fn peer(n: u16) -> Vec<u8> {
    format!("QmYyQSo1c1Ym7orWxLYvCrM2EmxFTANf8wXmmE7DWjhx{:04}", n).into_bytes()
}

fn with_subnet(config: NetworkConfig, block: u64) -> Network {
    let mut n = Network::new(config, 500, block);
    n.deposit_creating(1, FUNDS);
    n.activate_subnet(0, 1, PreliminarySubnetData { path: b"subnet".to_vec(), memory_mb: 500 }).unwrap();
    n
}

#[test]
fn too_many_subnets_are_refused() {
    let mut n = Network::new(Runtime::network_config(), 500, 100);
    for i in 0..64u32 {
        let path = format!("subnet-{}", i).into_bytes();
        assert_eq!(n.activate_subnet(0, 1, PreliminarySubnetData { path, memory_mb: 500 }), Ok(()));
    }
    let path = b"one-more".to_vec();
    assert_eq!(n.activate_subnet(0, 1, PreliminarySubnetData { path, memory_mb: 500 }), Err(Error::MaxSubnets));
}

#[test]
fn a_full_subnet_refuses_nodes() {
    let mut config = Runtime::network_config();
    config.max_subnet_nodes = 2;
    let mut n = with_subnet(config, 100);
    for a in 2u64..=4 {
        n.deposit_creating(a, FUNDS);
    }
    assert_eq!(n.add_subnet_node(2, 1, peer(2), MIN_STAKE), Ok(()));
    assert_eq!(n.add_subnet_node(3, 1, peer(3), MIN_STAKE), Ok(()));
    assert_eq!(n.add_subnet_node(4, 1, peer(4), MIN_STAKE), Err(Error::SubnetNodesMax));
}

#[test]
fn staking_needs_funds_and_limits() {
    let mut n = with_subnet(Runtime::network_config(), 100);
    n.deposit_creating(2, 2 * MIN_STAKE);
    assert_eq!(n.do_add_stake(3, 1, 3, MIN_STAKE), Err(Error::NotEnoughBalanceToStake));
    assert_eq!(n.do_add_stake(2, 1, 2, 300_000_000_000_000_000_000_000), Err(Error::MaxStakeReached));
    // all of the free balance would leave less than the existential deposit
    assert_eq!(n.do_add_stake(2, 1, 2, 2 * MIN_STAKE), Err(Error::BalanceWithdrawalError));
    assert_eq!(n.do_remove_stake(2, 1, 2, false, 1), Err(Error::NotEnoughStakeToWithdraw));
}

#[test]
fn rate_limited_calls_are_refused() {
    let config = NetworkConfig::default_params(10, 100, 32, 0, 5);
    let mut n = with_subnet(config, 100);
    n.deposit_creating(2, FUNDS);
    assert_eq!(n.do_add_stake(2, 1, 2, MIN_STAKE), Ok(()));
    assert_eq!(n.do_add_stake(2, 1, 2, MIN_STAKE), Err(Error::TxRateLimitExceeded));
    n.set_block(106);
    assert_eq!(n.do_add_stake(2, 1, 2, MIN_STAKE), Ok(()));
}

#[test]
fn unbondings_are_limited() {
    let config = NetworkConfig::default_params(10, 100, 2, 0, 0);
    let mut n = with_subnet(config, 100);
    n.deposit_creating(2, FUNDS);
    assert_eq!(n.do_add_stake(2, 1, 2, 3 * MIN_STAKE), Ok(()));
    assert_eq!(n.do_remove_stake(2, 1, 2, false, 10), Ok(()));
    assert_eq!(n.do_remove_stake(2, 1, 2, false, 10), Err(Error::MaxUnlockingsPerEpochReached));
    n.set_block(110);
    assert_eq!(n.do_remove_stake(2, 1, 2, false, 10), Ok(()));
    n.set_block(120);
    assert_eq!(n.do_remove_stake(2, 1, 2, false, 10), Err(Error::MaxUnlockingsReached));
}

#[test]
fn delegate_stake_needs_funds() {
    let mut n = with_subnet(Runtime::network_config(), 100);
    assert_eq!(n.increase_delegate_stake(9, 1, 5), Err(Error::NotEnoughBalance));
    assert_eq!(n.increase_delegate_stake(1, 7, 5), Err(Error::SubnetNotExist));
    assert_eq!(n.increase_delegate_stake(1, 1, FUNDS), Err(Error::BalanceWithdrawalError));
}

#[test]
fn removing_a_subnet_needs_time_and_low_delegate_stake() {
    let mut n = with_subnet(Runtime::network_config(), 100);
    assert_eq!(n.remove_subnet(1), Err(Error::SubnetInitializing));
    assert_eq!(n.remove_subnet(5), Err(Error::SubnetNotExist));
    n.set_block(100 + 10 * 17);
    n.deposit_creating(8, FUNDS);
    assert_eq!(n.increase_delegate_stake(8, 1, 5_000_000_000_000_000_000_000), Ok(()));
    assert_eq!(n.remove_subnet(1), Err(Error::SubnetMinDelegateStakeBalanceMet));
    let mut m = with_subnet(Runtime::network_config(), 100);
    m.set_block(100 + 10 * 17);
    assert_eq!(m.remove_subnet(1), Ok(()));
    assert!(!m.get_subnet_id_exist(1));
}

#[test]
fn an_ineligible_account_cannot_join() {
    let mut n = with_subnet(Runtime::network_config(), 100);
    n.deposit_creating(2, FUNDS);
    assert_eq!(n.do_add_subnet_node(2, 1, peer(2), MIN_STAKE, false), Err(Error::AccountIneligible));
    assert_eq!(n.do_add_subnet_node(2, 1, peer(2), MIN_STAKE, true), Ok(()));
}

#[test]
fn rejoining_waits_for_the_unstaking_epochs() {
    let mut n = with_subnet(Runtime::network_config(), 100);
    n.deposit_creating(2, FUNDS);
    assert_eq!(n.add_subnet_node(2, 1, peer(2), MIN_STAKE), Ok(()));
    assert_eq!(n.remove_subnet_node(2, 1), Ok(()));
    assert_eq!(n.add_subnet_node(2, 1, peer(2), MIN_STAKE), Err(Error::RequiredUnstakeEpochsNotMet));
    // the same refusal through the eligibility-checked entry moves no stake
    let stake = n.staking.get_stake(2, 1);
    let balance = n.get_coldkey_balance(2);
    assert_eq!(n.do_add_subnet_node(2, 1, peer(2), MIN_STAKE, true), Err(Error::RequiredUnstakeEpochsNotMet));
    assert_eq!(n.staking.get_stake(2, 1), stake);
    assert_eq!(n.get_coldkey_balance(2), balance);
    assert_eq!(n.do_add_subnet_node(2, 1, peer(2), MIN_STAKE, false), Err(Error::AccountIneligible));
}

#[test]
fn attesting_needs_a_submission_and_scores_need_included_nodes() {
    let mut n = with_subnet(Runtime::network_config(), 100);
    for a in 2u64..=6 {
        n.deposit_creating(a, FUNDS);
        n.add_subnet_node(a, 1, peer(a as u16), MIN_STAKE).unwrap();
    }
    // a node that is not Submittable cannot attest
    assert_eq!(n.attest(2, 1), Err(Error::NodeConsensusSubmitEpochNotReached));
    n.registry.node_classes[3].insert(SubnetAccount { subnet_id: 1, account: 2 }, 0);
    assert_eq!(n.attest(2, 1), Err(Error::InvalidSubnetRewardsSubmission));
    n.choose_validator(100, 1, &vec![2], 1, 10, 0);
    // only one node is included, but its score is sent twice, apart: the
    // repeat and the score of the node that is not included are dropped
    let data = vec![
        SubnetNodeData { peer_id: peer(2), score: 1 },
        SubnetNodeData { peer_id: peer(3), score: 1 },
        SubnetNodeData { peer_id: peer(2), score: 1 },
    ];
    assert_eq!(n.validate(2, 1, data), Ok(()));
    assert_eq!(n.get_consensus_data(1, 10).unwrap().data.len(), 1);
}
