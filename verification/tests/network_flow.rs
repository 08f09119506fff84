use pallet_network::network::{Error, Network};
use pallet_network::runtime::Runtime;
use pallet_network::table::SubnetAccount;
use pallet_network::types::{PreliminarySubnetData, SubnetDemocracySubnetData, SubnetNodeData, SubnetRemovalReason};
use pallet_network::validation::on_initialize;

const FUNDS: u128 = 10_000_000_000_000_000_000_000;
const MIN_STAKE: u128 = 1_000_000_000_000_000_000_000;
const PATH: &[u8] = b"petals-team/StableBeluga2";

fn peer(n: u8) -> Vec<u8> {
    let mut p = b"QmYyQSo1c1Ym7orWxLYvCrM2EmxFTANf8wXmmE7DWjhx5".to_vec();
    p.push(b'A' + n);
    p
}

fn network_at(block: u64) -> Network {
    Network::new(Runtime::network_config(), 500, block)
}

/// A network at block 100 with one subnet and five funded nodes (accounts 2..=6).
fn network_with_nodes() -> Network {
    let mut n = network_at(100);
    n.deposit_creating(1, FUNDS);
    n.activate_subnet(0, 1, PreliminarySubnetData { path: PATH.to_vec(), memory_mb: 500 }).unwrap();
    for a in 2u64..=6 {
        n.deposit_creating(a, FUNDS);
        n.add_subnet_node(a, 1, peer(a as u8), MIN_STAKE).unwrap();
    }
    n
}

/// Moves every node of subnet 1 to the Submittable class from block 0.
fn make_submittable(n: &mut Network) {
    for a in 2u64..=6 {
        n.registry.node_classes[3].insert(SubnetAccount { subnet_id: 1, account: a }, 0);
    }
}

fn scores() -> Vec<SubnetNodeData> {
    (2u8..=6).map(|a| SubnetNodeData { peer_id: peer(a), score: 100 }).collect()
}

#[test]
fn activating_a_subnet_records_it() {
    let mut n = network_at(100);
    n.deposit_creating(1, FUNDS);
    assert_eq!(n.activate_subnet(0, 1, PreliminarySubnetData { path: PATH.to_vec(), memory_mb: 500 }), Ok(()));
    assert_eq!(n.get_total_subnets(), 1);
    assert!(n.get_subnet_path_exist(&PATH.to_vec()));
    assert_eq!(n.get_subnet_id_by_path(&PATH.to_vec()), 1);
    assert_eq!(n.get_subnet_id_by_path(&b"other".to_vec()), 0);
    assert!(n.get_subnet_id_exist(1));
    let d = n.get_subnet_data(1);
    assert_eq!(d.id, 1);
    assert_eq!(d.path, PATH.to_vec());
    assert_eq!(d.min_nodes, 5);
    assert_eq!(d.target_nodes, 6);
    assert_eq!(d.initialized, 100);
    assert_eq!(n.get_minimum_subnet_nodes(500), 5);
    assert_eq!(n.get_minimum_delegate_stake(500), 5_000_000_000_000_000_000_000);
    // the same path twice is refused
    assert_eq!(
        n.activate_subnet(0, 1, PreliminarySubnetData { path: PATH.to_vec(), memory_mb: 500 }),
        Err(Error::SubnetExist)
    );
    // too much memory is refused
    assert_eq!(
        n.activate_subnet(0, 1, PreliminarySubnetData { path: b"big".to_vec(), memory_mb: 2_000_000 }),
        Err(Error::MaxSubnetMemory)
    );
}

#[test]
fn adding_a_node_stakes_and_registers_it() {
    let n = network_with_nodes();
    assert!(n.is_subnet_node_by_peer_id(1, &peer(2)));
    assert!(!n.is_subnet_node_by_peer_id(1, &peer(9)));
    assert_eq!(n.get_subnet_node_stake_by_peer_id(1, &peer(2)), MIN_STAKE);
    assert_eq!(n.get_subnet_node_stake_by_peer_id(1, &peer(9)), 0);
    assert_eq!(n.staking.get_stake(2, 1), MIN_STAKE);
    assert_eq!(n.staking.get_subnet_stake(1), 5 * MIN_STAKE);
    assert_eq!(n.get_coldkey_balance(2), FUNDS - MIN_STAKE);
    assert_eq!(n.get_subnet_nodes(1).len(), 5);
    assert_eq!(n.get_subnet_nodes_included(1).len(), 0);
    let answers = n.are_subnet_nodes_by_peer_id(1, &vec![peer(2), peer(9), peer(2)]);
    assert_eq!(answers, vec![(peer(2), true), (peer(9), false)]);
}

#[test]
fn adding_a_node_twice_is_refused() {
    let mut n = network_with_nodes();
    assert_eq!(n.add_subnet_node(2, 1, peer(7), MIN_STAKE), Err(Error::SubnetNodeExist));
    n.deposit_creating(7, FUNDS);
    assert_eq!(n.add_subnet_node(7, 1, peer(2), MIN_STAKE), Err(Error::PeerIdExist));
    assert_eq!(n.add_subnet_node(7, 1, vec![b'x'; 40], MIN_STAKE), Err(Error::InvalidPeerId));
    assert_eq!(n.add_subnet_node(7, 9, peer(7), MIN_STAKE), Err(Error::SubnetNotExist));
    assert_eq!(n.add_subnet_node(7, 1, peer(7), 5), Err(Error::MinStakeNotReached));
}

#[test]
fn removing_a_node_keeps_its_stake() {
    let mut n = network_with_nodes();
    assert_eq!(n.remove_subnet_node(2, 1), Ok(()));
    assert!(!n.is_subnet_node_by_peer_id(1, &peer(2)));
    assert_eq!(n.staking.get_stake(2, 1), MIN_STAKE);
    assert_eq!(n.remove_subnet_node(2, 1), Err(Error::SubnetNodeNotExist));
    assert_eq!(n.remove_subnet_node(2, 9), Err(Error::SubnetNotExist));
}

#[test]
fn stake_moves_between_balance_and_ledger() {
    let mut n = network_with_nodes();
    assert_eq!(n.add_to_stake(2, 1, 500), Ok(()));
    assert_eq!(n.staking.get_stake(2, 1), MIN_STAKE + 500);
    assert_eq!(n.get_coldkey_balance(2), FUNDS - MIN_STAKE - 500);
    // a node keeps its minimum stake
    assert_eq!(n.remove_stake(2, 1, 501), Err(Error::MinStakeNotReached));
    assert_eq!(n.remove_stake(2, 1, 500), Ok(()));
    assert_eq!(n.staking.get_stake(2, 1), MIN_STAKE);
    // the unbonding waits for its cooldown
    assert_eq!(n.claim_stake_unbondings(2, 1), Err(Error::NoStakeUnbondingsOrCooldownNotMet));
    n.set_block(100 + 10 * 100);
    assert_eq!(n.claim_stake_unbondings(2, 1), Err(Error::NoStakeUnbondingsOrCooldownNotMet));
    n.set_block(100 + 10 * 101);
    assert_eq!(n.claim_stake_unbondings(2, 1), Ok(()));
    assert_eq!(n.get_coldkey_balance(2), FUNDS - MIN_STAKE);
}

#[test]
fn validation_attestation_and_rewards() {
    let mut n = network_with_nodes();
    make_submittable(&mut n);
    let epoch = n.get_current_epoch_as_u32();
    assert_eq!(epoch, 10);
    n.choose_validator(100, 1, &vec![2, 3, 4, 5, 6], 5, epoch, 0);
    // only the chosen validator submits
    assert_eq!(n.validate(3, 1, scores()), Err(Error::InvalidValidator));
    assert_eq!(n.validate(2, 1, scores()), Ok(()));
    assert_eq!(n.validate(2, 1, scores()), Err(Error::SubnetRewardsAlreadySubmitted));
    let data = n.get_consensus_data(1, epoch).unwrap();
    assert_eq!(data.validator, 2);
    assert_eq!(data.sum, 500);
    assert_eq!(data.nodes_count, 5);
    assert_eq!(data.data.len(), 5);
    for a in 3u64..=5 {
        assert_eq!(n.attest(a, 1), Ok(()));
    }
    assert_eq!(n.attest(3, 1), Err(Error::AlreadyAttested));
    assert_eq!(n.attest(9, 1), Err(Error::SubnetNodeNotExist));
    assert!(n.counters_fit_check());

    // four of five attested: 80%; each scored 100 of 500, a fifth of the reward
    n.reward_subnets_1(100, epoch, 10);
    // the nodes share the base reward less the delegators' 11%
    let share: u128 = 1_602_000_000_000_000_000;
    let validator_reward: u128 = 800_000_000_000_000_000;
    assert_eq!(n.staking.get_stake(2, 1), MIN_STAKE + share + validator_reward);
    assert_eq!(n.registry.delegate_stake_balance.get(&1), Some(&990_000_000_000_000_000));
    for a in 3u64..=5 {
        assert_eq!(n.staking.get_stake(a, 1), MIN_STAKE + share);
    }
    // the node that did not attest receives nothing
    assert_eq!(n.staking.get_stake(6, 1), MIN_STAKE);
    assert_eq!(n.get_validator_reward(800_000_000), validator_reward);
    assert_eq!(n.get_validator_reward(100_000_000), 0);
}

#[test]
fn too_little_attestation_slashes_the_validator() {
    let mut n = network_with_nodes();
    make_submittable(&mut n);
    let epoch = n.get_current_epoch_as_u32();
    n.choose_validator(100, 1, &vec![2, 3, 4, 5, 6], 5, epoch, 0);
    assert_eq!(n.validate(2, 1, scores()), Ok(()));
    // only the validator attested: 20%
    n.reward_subnets_1(100, epoch, 10);
    // slash: 3.125% of the stake, scaled by the 80% that did not attest,
    // capped at the maximum slash
    let slash = pallet_network::math::percent_mul(
        pallet_network::math::percent_mul(MIN_STAKE, 31_250_000),
        800_000_000,
    );
    assert_eq!(slash, 25_000_000_000_000_000_000);
    assert_eq!(n.staking.get_stake(2, 1), MIN_STAKE - 1_000_000_000_000_000_000);
    assert_eq!(n.get_total_subnet_errors(1), 0);
}

#[test]
fn a_chosen_validator_that_submits_nothing_is_penalized() {
    let mut n = network_with_nodes();
    let epoch = n.get_current_epoch_as_u32();
    n.choose_validator(100, 1, &vec![2, 3, 4, 5, 6], 5, epoch, 3);
    n.reward_subnets(100, epoch, 10);
    assert_eq!(n.get_total_subnet_errors(1), 1);
    // a full slash when nothing was attested, capped at the maximum slash
    let slash = pallet_network::math::percent_mul(MIN_STAKE, 31_250_000);
    let slash = if slash > 1_000_000_000_000_000_000 { 1_000_000_000_000_000_000 } else { slash };
    assert_eq!(n.staking.get_stake(5, 1), MIN_STAKE - slash);
}

#[test]
fn choosing_a_validator_uses_the_random_number() {
    let mut n = network_with_nodes();
    n.choose_validator(100, 1, &vec![2, 3, 4], 3, 10, 7);
    let chosen = n.consensus.rewards_validator.get(&pallet_network::table::SubnetEpoch { subnet_id: 1, epoch: 10 });
    assert_eq!(chosen, Some(&3));
    // too few candidates: nothing is chosen
    n.choose_validator(100, 1, &vec![2], 3, 11, 7);
    assert!(n.consensus.rewards_validator.get(&pallet_network::table::SubnetEpoch { subnet_id: 1, epoch: 11 }).is_none());
}

#[test]
fn weighted_selection_follows_reputation() {
    let mut n = network_with_nodes();
    let candidates = vec![(2u64, 10u32), (3u64, 0u32), (4u64, 5u32)];
    // total 15; 12 % 16 = 12 falls past 10, within 15: account 4
    n.select_validator(1, &candidates, 10, 12);
    let key = pallet_network::table::SubnetEpoch { subnet_id: 1, epoch: 10 };
    assert_eq!(n.consensus.rewards_validator.get(&key), Some(&4));
    // a pick at the total chooses nobody
    n.select_validator(1, &candidates, 11, 15);
    let key = pallet_network::table::SubnetEpoch { subnet_id: 1, epoch: 11 };
    assert!(n.consensus.rewards_validator.get(&key).is_none());
    assert_eq!(pallet_network::validation::calculate_weight(0), 0);
    assert_eq!(pallet_network::validation::calculate_weight(7), 7);
}

#[test]
fn preliminaries_drop_a_subnet_short_of_delegate_stake() {
    let mut n = network_with_nodes();
    n.do_epoch_preliminaries(100, 10, 10, 0);
    assert!(!n.get_subnet_id_exist(1));
    assert!(!n.is_subnet_node_by_peer_id(1, &peer(2)));
}

#[test]
fn preliminaries_choose_a_validator() {
    let mut n = network_with_nodes();
    make_submittable(&mut n);
    n.deposit_creating(8, FUNDS);
    assert_eq!(n.increase_delegate_stake(8, 1, 5_000_000_000_000_000_000_000), Ok(()));
    n.do_epoch_preliminaries(100, 10, 10, 6);
    assert!(n.get_subnet_id_exist(1));
    let key = pallet_network::table::SubnetEpoch { subnet_id: 1, epoch: 10 };
    // 6 modulo the five candidates picks the second
    assert_eq!(n.consensus.rewards_validator.get(&key), Some(&3));
}

#[test]
fn democracy_votes_are_recorded() {
    let mut n = network_at(100);
    n.deposit_creating(1, FUNDS);
    let vote = SubnetDemocracySubnetData {
        data: PreliminarySubnetData { path: PATH.to_vec(), memory_mb: 500 },
        active: true,
    };
    assert_eq!(n.vote_activated(0, PATH.to_vec(), 1, vote), Ok(()));
    assert!(n.get_subnet_path_exist(&PATH.to_vec()));
    assert_eq!(n.registry.subnet_activated.len(), 1);
    let vote = SubnetDemocracySubnetData {
        data: PreliminarySubnetData { path: PATH.to_vec(), memory_mb: 500 },
        active: false,
    };
    assert_eq!(n.vote_deactivated(0, PATH.to_vec(), 1, vote), Ok(()));
    assert!(!n.get_subnet_path_exist(&PATH.to_vec()));
    assert_eq!(n.registry.subnet_activated.len(), 1);
    assert!(!n.registry.subnet_activated[0].1.active);
    assert_eq!(n.council_remove_subnet(PATH.to_vec()), Err(Error::SubnetNotExist));
}

#[test]
fn council_removes_subnets_and_nodes() {
    let mut n = network_with_nodes();
    assert_eq!(n.council_remove_subnet_node(3, 1), Ok(()));
    assert!(!n.is_subnet_node_by_peer_id(1, &peer(3)));
    assert_eq!(n.council_remove_subnet(PATH.to_vec()), Ok(()));
    assert!(!n.get_subnet_id_exist(1));
    let _ = n.deactivate_subnet(&PATH.to_vec(), SubnetRemovalReason::Council);
}

#[test]
fn stake_vault_grows() {
    let mut n = network_at(0);
    assert_eq!(n.increase_stake_vault(7), Ok(()));
    assert_eq!(n.staking.stake_vault_balance, 7);
}

#[test]
fn hook_chooses_after_each_epoch() {
    assert_eq!(on_initialize(11, 10), Some(1));
    assert_eq!(on_initialize(21, 10), Some(2));
    assert_eq!(on_initialize(10, 10), None);
    assert_eq!(on_initialize(1, 10), None);
}

#[test]
fn only_submittable_nodes_attest() {
    let mut n = network_with_nodes();
    for a in 2u64..=5 {
        n.registry.node_classes[3].insert(SubnetAccount { subnet_id: 1, account: a }, 0);
    }
    let epoch = n.get_current_epoch_as_u32();
    n.choose_validator(100, 1, &vec![2, 3, 4, 5], 4, epoch, 0);
    assert_eq!(n.validate(2, 1, scores()), Ok(()));
    let before = n.get_consensus_data(1, epoch).unwrap().attests.len();
    assert_eq!(n.attest(6, 1), Err(Error::NodeConsensusSubmitEpochNotReached));
    assert_eq!(n.get_consensus_data(1, epoch).unwrap().attests.len(), before);
    assert_eq!(n.attest(3, 1), Ok(()));
}

#[test]
fn a_peer_scored_twice_is_kept_once() {
    let mut n = network_with_nodes();
    make_submittable(&mut n);
    let epoch = n.get_current_epoch_as_u32();
    n.choose_validator(100, 1, &vec![2, 3, 4, 5, 6], 5, epoch, 0);
    let data = vec![
        SubnetNodeData { peer_id: peer(2), score: 10 },
        SubnetNodeData { peer_id: peer(3), score: 20 },
        SubnetNodeData { peer_id: peer(2), score: 30 },
    ];
    assert_eq!(n.validate(2, 1, data), Ok(()));
    let stored = n.get_consensus_data(1, epoch).unwrap();
    let scores: Vec<u128> = stored.data.iter().map(|d| d.score).collect();
    assert_eq!(scores, vec![10, 20]);
    assert_eq!(stored.sum, 30);
}

#[test]
fn the_flat_part_of_the_curve_divides_the_memory() {
    let n = network_at(100);
    // 100_000 MB is 10% of the maximum, before the curve starts at 15%
    assert_eq!(n.get_min_subnet_nodes(100_000), 6);
    assert_eq!(n.get_min_subnet_nodes(16_000), 5);
}
