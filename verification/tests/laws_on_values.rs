use pallet_network::math::{percent_div, percent_mul};
use pallet_network::network::{Network, Staking};
use pallet_network::runtime::Runtime;
use pallet_network::tasks::xor_stream;
use pallet_network::types::{PreliminarySubnetData, SubnetNodeData};
use pallet_network::validation::dedup_by_peer;

fn peer(n: u8) -> Vec<u8> {
    let mut p = b"QmYyQSo1c1Ym7orWxLYvCrM2EmxFTANf8wXmmE7DWjhx5".to_vec();
    p.push(b'A' + n);
    p
}

#[test]
fn added_node_is_found_and_removed_node_is_gone() {
    let mut n = Network::new(Runtime::network_config(), 500, 100);
    n.activate_subnet(0, 1, PreliminarySubnetData { path: b"p".to_vec(), memory_mb: 500 }).unwrap();
    n.deposit_creating(2, 10_000_000_000_000_000_000_000);
    n.add_subnet_node(2, 1, peer(2), 1_000_000_000_000_000_000_000).unwrap();
    assert_eq!(n.registry.find_peer_account(1, &peer(2)), Some(2));
    n.remove_subnet_node(2, 1).unwrap();
    assert_eq!(n.registry.find_peer_account(1, &peer(2)), None);
}

#[test]
fn stake_round_trip_restores_stake() {
    let mut s = Staking::new();
    s.increase_account_stake(4, 1, 1_000);
    s.increase_account_stake(4, 1, 250);
    s.decrease_account_stake(4, 1, 250);
    assert_eq!(s.get_stake(4, 1), 1_000);
    assert_eq!(s.get_subnet_stake(1), 1_000);
    assert_eq!(s.total_stake, 1_000);
    // taking more than is held stops at zero
    s.decrease_account_stake(4, 1, 5_000);
    assert_eq!(s.get_stake(4, 1), 0);
}

#[test]
fn staking_conserves_tokens() {
    let mut n = Network::new(Runtime::network_config(), 500, 100);
    n.activate_subnet(0, 1, PreliminarySubnetData { path: b"p".to_vec(), memory_mb: 500 }).unwrap();
    n.deposit_creating(2, 10_000_000_000_000_000_000_000);
    let before = n.get_coldkey_balance(2) + n.staking.get_stake(2, 1);
    n.do_add_stake(2, 1, 2, 1_000_000_000_000_000_000_000).unwrap();
    assert_eq!(n.get_coldkey_balance(2) + n.staking.get_stake(2, 1), before);
}

#[test]
fn a_node_reward_stays_within_the_subnet_reward() {
    let subnet_reward: u128 = 990_000_000_000_000_000;
    for score in [0u128, 1, 100, 499, 500] {
        let reward = percent_mul(percent_div(score, 500), subnet_reward);
        assert!(reward <= subnet_reward);
    }
    assert_eq!(percent_mul(percent_div(500, 500), subnet_reward), subnet_reward);
}

#[test]
fn xor_twice_gives_back_the_text() {
    let key = [0x5au8; 32];
    let mut framed = vec![0u8; 32];
    framed.extend_from_slice(b"some text to hide, some text to hide");
    let once = xor_stream(&framed, &key);
    let mut framed_again = vec![0u8; 32];
    framed_again.extend_from_slice(&once);
    assert_eq!(xor_stream(&framed_again, &key), framed[32..].to_vec());
}

#[test]
fn dedup_keeps_the_first_entry_of_each_peer() {
    let data = vec![
        SubnetNodeData { peer_id: peer(1), score: 1 },
        SubnetNodeData { peer_id: peer(1), score: 2 },
        SubnetNodeData { peer_id: peer(2), score: 3 },
        SubnetNodeData { peer_id: peer(1), score: 4 },
        SubnetNodeData { peer_id: peer(1), score: 5 },
    ];
    let kept = dedup_by_peer(data);
    let scores: Vec<u128> = kept.iter().map(|d| d.score).collect();
    assert_eq!(scores, vec![1, 3]);
}
