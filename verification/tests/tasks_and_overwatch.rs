use pallet_network::benchmark::subnet_benchmark_shares;
use pallet_network::network::{Error, Network};
use pallet_network::overwatch::{
    generate_commitment, reveal_weight, u128_le_bytes, Overwatch, RevealKey, SubnetBenchmarkWeightCommitment,
    SubnetBenchmarkWeightReveal,
};
use pallet_network::runtime::Runtime;
use pallet_network::tasks::{decrypt_data, xor_stream, ByteSet, TaskBoard};
use pallet_network::types::PreliminarySubnetData;

fn encrypt(recipient_public: [u8; 32], sender_secret: [u8; 32], text: &[u8]) -> Vec<u8> {
    let secret = x25519_dalek::StaticSecret::from(sender_secret);
    let sender_public = x25519_dalek::PublicKey::from(&secret);
    let shared = secret.diffie_hellman(&x25519_dalek::PublicKey::from(recipient_public));
    let mut out = sender_public.as_bytes().to_vec();
    for (i, b) in text.iter().enumerate() {
        out.push(b ^ shared.as_bytes()[i % 32]);
    }
    out
}

fn recipient() -> ([u8; 32], [u8; 32]) {
    let secret_bytes = [9u8; 32];
    let secret = x25519_dalek::StaticSecret::from(secret_bytes);
    let public = x25519_dalek::PublicKey::from(&secret);
    (secret_bytes, public.to_bytes())
}

#[test]
fn decryption_undoes_encryption() {
    let (secret, public) = recipient();
    let text = b"the weights of the forty-second epoch, longer than one key".to_vec();
    let encrypted = encrypt(public, [3u8; 32], &text);
    assert_eq!(decrypt_data(&secret, &encrypted), Ok(text));
}

#[test]
fn decryption_needs_a_public_key() {
    let (secret, _) = recipient();
    assert_eq!(decrypt_data(&secret, &vec![1u8; 31]), Err(Error::DecryptionFailed));
    assert_eq!(decrypt_data(&secret, &vec![1u8; 32]), Ok(vec![]));
}

#[test]
fn xor_stream_repeats_the_key() {
    let mut key = [0u8; 32];
    key[0] = 0xff;
    key[1] = 0x0f;
    let mut data = vec![0u8; 32];
    data.extend_from_slice(&[0x01, 0x02, 0x03]);
    data.extend_from_slice(&[0u8; 30]);
    let out = xor_stream(&data, &key);
    assert_eq!(out.len(), 33);
    assert_eq!(out[0], 0xfe);
    assert_eq!(out[1], 0x0d);
    assert_eq!(out[2], 0x03);
    assert_eq!(out[32], 0xff);
}

#[test]
fn tasks_are_submitted_once_and_revealed_by_their_owner() {
    let (secret, public) = recipient();
    let mut board = TaskBoard::new();
    let r1 = encrypt(public, [3u8; 32], b"first answer");
    let r2 = encrypt(public, [4u8; 32], b"second answer");
    assert_eq!(board.submit_task(7, 1, b"task".to_vec(), vec![r1.clone(), r2.clone(), r1.clone()]), Ok(()));
    assert_eq!(board.submit_task(8, 1, b"again".to_vec(), vec![]), Err(Error::TaskNotFound));
    assert_eq!(board.reveal_results(8, 1, secret), Err(Error::TaskNotFound));
    assert_eq!(board.reveal_results(7, 2, secret), Err(Error::TaskNotFound));
    assert_eq!(board.reveal_results(7, 1, secret), Ok(()));
    let results: &ByteSet = board.decrypted_results.get(&1).unwrap();
    assert_eq!(results.len(), 2);
    assert!(results.contains(&b"first answer".to_vec()));
    assert!(results.contains(&b"second answer".to_vec()));
}

#[test]
fn a_short_response_fails_the_reveal() {
    let (secret, _) = recipient();
    let mut board = TaskBoard::new();
    assert_eq!(board.submit_task(7, 1, vec![], vec![vec![0u8; 10]]), Ok(()));
    assert_eq!(board.reveal_results(7, 1, secret), Err(Error::DecryptionFailed));
    assert!(board.decrypted_results.get(&1).is_none());
}

#[test]
fn commitments_hash_the_value_then_the_seed() {
    let seed = b"seed".to_vec();
    let mut data = 250_000_000u128.to_le_bytes().to_vec();
    data.extend_from_slice(&seed);
    assert_eq!(generate_commitment(250_000_000, &seed), sp_crypto_hashing::blake2_256(&data));
    assert_eq!(reveal_weight(250_000_000, &seed), generate_commitment(250_000_000, &seed));
    assert_ne!(reveal_weight(250_000_001, &seed), generate_commitment(250_000_000, &seed));
    assert_eq!(u128_le_bytes(0x0102), vec![2, 1, 0, 0, 0, 0, 0, 0, 0, 0, 0, 0, 0, 0, 0, 0]);
}

fn two_subnets() -> Network {
    let mut n = Network::new(Runtime::network_config(), 500, 100);
    n.activate_subnet(0, 1, PreliminarySubnetData { path: b"a".to_vec(), memory_mb: 500 }).unwrap();
    n.activate_subnet(0, 1, PreliminarySubnetData { path: b"b".to_vec(), memory_mb: 500 }).unwrap();
    n
}

#[test]
fn weights_are_committed_then_revealed() {
    let n = two_subnets();
    let seed = b"salt".to_vec();
    let mut o = Overwatch::new();
    o.stakes.insert(5, 77);
    let commits = vec![
        SubnetBenchmarkWeightCommitment { subnet_id: 1, weight: generate_commitment(300, &seed) },
        SubnetBenchmarkWeightCommitment { subnet_id: 1, weight: generate_commitment(300, &seed) },
        SubnetBenchmarkWeightCommitment { subnet_id: 9, weight: generate_commitment(1, &seed) },
    ];
    // more commitments than subnets
    assert_eq!(o.submit_benchmark_weights(&n, 5, commits.clone()), Err(pallet_network::network::Error::InvalidOverwatchCommitments));
    let commits = vec![commits[0], commits[1]];
    assert_eq!(o.submit_benchmark_weights(&n, 5, commits), Ok(()));
    let key = pallet_network::overwatch::EpochAccount { epoch: 10, account: 5 };
    assert_eq!(o.commitments.get(&key).unwrap().len(), 1);
    // a weight that does not match
    let wrong = vec![SubnetBenchmarkWeightReveal { subnet_id: 1, weight: 301 }];
    assert_eq!(o.reveal_benchmark_weights(&n, 5, wrong, &seed), Err(Error::WeightRevealMismatch));
    let revealed = vec![SubnetBenchmarkWeightReveal { subnet_id: 1, weight: 300 }];
    assert_eq!(o.reveal_benchmark_weights(&n, 5, revealed, &seed), Ok(()));
    assert_eq!(o.reveals.get(&RevealKey { epoch: 10, subnet_id: 1, stake: 77 }), Some(&300));
    // nothing committed by another account
    assert_eq!(
        o.reveal_benchmark_weights(&n, 6, vec![SubnetBenchmarkWeightReveal { subnet_id: 1, weight: 300 }], &seed),
        Err(Error::CommitNotExist)
    );
}

#[test]
fn a_weight_over_the_whole_is_refused() {
    let n = two_subnets();
    let seed = b"salt".to_vec();
    let mut o = Overwatch::new();
    let commits = vec![SubnetBenchmarkWeightCommitment { subnet_id: 2, weight: generate_commitment(2_000_000_000, &seed) }];
    assert_eq!(o.submit_benchmark_weights(&n, 5, commits), Ok(()));
    let revealed = vec![SubnetBenchmarkWeightReveal { subnet_id: 2, weight: 2_000_000_000 }];
    assert_eq!(o.reveal_benchmark_weights(&n, 5, revealed, &seed), Err(Error::InvalidWeight));
}

#[test]
fn a_subnet_committed_twice_is_kept_once() {
    let mut n = two_subnets();
    n.activate_subnet(0, 1, PreliminarySubnetData { path: b"c".to_vec(), memory_mb: 500 }).unwrap();
    let seed = b"salt".to_vec();
    let mut o = Overwatch::new();
    let commits = vec![
        SubnetBenchmarkWeightCommitment { subnet_id: 1, weight: generate_commitment(300, &seed) },
        SubnetBenchmarkWeightCommitment { subnet_id: 2, weight: generate_commitment(400, &seed) },
        SubnetBenchmarkWeightCommitment { subnet_id: 1, weight: generate_commitment(500, &seed) },
    ];
    assert_eq!(o.submit_benchmark_weights(&n, 5, commits), Ok(()));
    let key = pallet_network::overwatch::EpochAccount { epoch: 10, account: 5 };
    let kept = o.commitments.get(&key).unwrap();
    let ids: Vec<u32> = kept.iter().map(|c| c.subnet_id).collect();
    assert_eq!(ids, vec![1, 2]);
    assert_eq!(kept[0].weight, generate_commitment(300, &seed));
}

#[test]
fn benchmark_shares_weigh_stake_against_a_zero_total() {
    let n = two_subnets();
    let mut o = Overwatch::new();
    o.reveals.insert(RevealKey { epoch: 10, subnet_id: 2, stake: 50 }, 300_000_000);
    o.reveals.insert(RevealKey { epoch: 10, subnet_id: 2, stake: 70 }, 100_000_000);
    o.reveals.insert(RevealKey { epoch: 11, subnet_id: 1, stake: 50 }, 500_000_000);
    // only subnet 2 revealed at epoch 10; every stake weight is zero
    assert_eq!(subnet_benchmark_shares(&n, &o, 10), vec![(2, 0)]);
    assert_eq!(subnet_benchmark_shares(&n, &o, 11), vec![(1, 0)]);
    assert_eq!(subnet_benchmark_shares(&n, &o, 12), vec![]);
}
