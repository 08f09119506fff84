//! Overwatch: commitments to subnet benchmark weights and their reveal.

use vstd::prelude::*;
use crate::math::PERCENTAGE_FACTOR;
use crate::network::{Error, Network, read_u128, u128_at};
use crate::table::{Table, TableKey};
use crate::types::AccountId;

verus! {

/// A committed weight for a subnet: the hash of the weight and a seed.
#[derive(Clone, Copy, Debug)]
pub struct SubnetBenchmarkWeightCommitment {
    pub subnet_id: u32,
    pub weight: [u8; 32],
}

/// A revealed weight for a subnet.
#[derive(Clone, Copy, Debug)]
pub struct SubnetBenchmarkWeightReveal {
    pub subnet_id: u32,
    pub weight: u128,
}

/// Key of the commitments of an account at an epoch.
#[derive(Clone, Copy, PartialEq, Eq, Debug)]
pub struct EpochAccount {
    pub epoch: u32,
    pub account: u64,
}

/// Key of a revealed weight: the epoch, the subnet, and the stake of the revealer.
#[derive(Clone, Copy, PartialEq, Eq, Debug)]
pub struct RevealKey {
    pub epoch: u32,
    pub subnet_id: u32,
    pub stake: u128,
}

impl TableKey for EpochAccount {
    fn key_eq(&self, other: &Self) -> (b: bool) {
        self.epoch == other.epoch && self.account == other.account
    }
}

impl TableKey for RevealKey {
    fn key_eq(&self, other: &Self) -> (b: bool) {
        self.epoch == other.epoch && self.subnet_id == other.subnet_id && self.stake == other.stake
    }
}

/// The Blake2b-256 digest that sp-crypto-hashing computes of `data`.
pub uninterp spec fn blake2_256_digest(data: Seq<u8>) -> Seq<u8>;

/// sp-crypto-hashing: `blake2_256(data)`. Claimed: the result is
/// `blake2_256_digest` of the bytes hashed.
#[verifier::external_body]
fn blake2_256(data: &Vec<u8>) -> (r: [u8; 32])
    ensures
        r@ == blake2_256_digest(data@),
{
    sp_crypto_hashing::blake2_256(data.as_slice())
}

/// The `n` low bytes of `v`, least significant first.
pub open spec fn le_bytes(v: nat, n: nat) -> Seq<u8>
    decreases n,
{
    if n == 0 {
        Seq::empty()
    } else {
        seq![(v % 256) as u8] + le_bytes(v / 256, (n - 1) as nat)
    }
}

/// The 16 bytes of `v`, least significant first.
pub fn u128_le_bytes(v: u128) -> (r: Vec<u8>)
    ensures
        r@ == le_bytes(v as nat, 16),
{
    let mut out: Vec<u8> = Vec::new();
    let mut x = v;
    let mut i: usize = 0;
    proof {
        assert(out@ + le_bytes(x as nat, 16) =~= le_bytes(v as nat, 16));
    }
    while i < 16
        invariant
            i <= 16,
            out@ + le_bytes(x as nat, (16 - i) as nat) == le_bytes(v as nat, 16),
        decreases 16 - i,
    {
        let b = (x % 256) as u8;
        proof {
            let k = (16 - i) as nat;
            assert(le_bytes(x as nat, k) == seq![(x as nat % 256) as u8] + le_bytes(x as nat / 256, (k - 1) as nat));
            assert(out@.push(b) + le_bytes((x / 256) as nat, (k - 1) as nat) =~= out@ + le_bytes(x as nat, k));
        }
        out.push(b);
        x = x / 256;
        i = i + 1;
    }
    proof {
        assert(le_bytes(x as nat, 0) == Seq::<u8>::empty());
        assert(out@ + Seq::<u8>::empty() =~= out@);
    }
    out
}

/// The commitment to `value` under `seed`: the digest of the value's bytes,
/// least significant first, followed by the seed.
pub open spec fn commitment_of(value: u128, seed: Seq<u8>) -> Seq<u8> {
    blake2_256_digest(le_bytes(value as nat, 16) + seed)
}

/// The commitment to `value` under `seed`, to hold against a committed weight.
pub fn reveal_weight(value: u128, seed: &Vec<u8>) -> (r: [u8; 32])
    ensures
        r@ == commitment_of(value, seed@),
{
    let mut data = u128_le_bytes(value);
    let mut i: usize = 0;
    let ghost start = data@;
    while i < seed.len()
        invariant
            i <= seed@.len(),
            start == le_bytes(value as nat, 16),
            data@ == start + seed@.take(i as int),
        decreases seed@.len() - i,
    {
        data.push(seed[i]);
        proof {
            assert(seed@.take(i + 1) =~= seed@.take(i as int).push(seed@[i as int]));
            assert(data@ =~= start + seed@.take(i + 1));
        }
        i = i + 1;
    }
    proof {
        assert(seed@.take(i as int) =~= seed@);
    }
    blake2_256(&data)
}

/// The commitment to `value` under `seed`, as a committer computes it.
pub fn generate_commitment(value: u128, seed: &Vec<u8>) -> (r: [u8; 32])
    ensures
        r@ == commitment_of(value, seed@),
{
    reveal_weight(value, seed)
}

/// Whether some commitment of `s` is for `subnet_id`.
pub open spec fn has_subnet(s: Seq<SubnetBenchmarkWeightCommitment>, subnet_id: u32) -> bool {
    exists|j: int| 0 <= j < s.len() && #[trigger] s[j].subnet_id == subnet_id
}

/// No two commitments of `s` are for one subnet.
pub open spec fn distinct_subnets(s: Seq<SubnetBenchmarkWeightCommitment>) -> bool {
    forall|i: int, j: int| 0 <= i < j < s.len() ==> #[trigger] s[i].subnet_id != #[trigger] s[j].subnet_id
}

/// `s` with only the first commitment for each subnet kept, in order.
pub open spec fn dedup_subnets(s: Seq<SubnetBenchmarkWeightCommitment>) -> Seq<SubnetBenchmarkWeightCommitment>
    decreases s.len(),
{
    if s.len() == 0 {
        s
    } else {
        let d = dedup_subnets(s.drop_last());
        if has_subnet(s.drop_last(), s.last().subnet_id) {
            d
        } else {
            d.push(s.last())
        }
    }
}

/// The deduplicated commitments hold the subnets of `s`, each once.
pub proof fn lemma_dedup_subnets(s: Seq<SubnetBenchmarkWeightCommitment>)
    ensures
        forall|id: u32| #[trigger] has_subnet(dedup_subnets(s), id) == has_subnet(s, id),
        distinct_subnets(dedup_subnets(s)),
    decreases s.len(),
{
    if s.len() > 0 {
        let t = s.drop_last();
        lemma_dedup_subnets(t);
        let d = dedup_subnets(t);
        let last = s.last();
        assert forall|id: u32| #[trigger] has_subnet(s, id) == (has_subnet(t, id) || last.subnet_id == id) by {
            if has_subnet(s, id) {
                let j = choose|j: int| 0 <= j < s.len() && #[trigger] s[j].subnet_id == id;
                if j < s.len() - 1 {
                    assert(t[j] == s[j]);
                }
            }
            if has_subnet(t, id) {
                let j = choose|j: int| 0 <= j < t.len() && #[trigger] t[j].subnet_id == id;
                assert(s[j] == t[j]);
            }
            if last.subnet_id == id {
                assert(s[s.len() - 1].subnet_id == id);
            }
        }
        if !has_subnet(t, last.subnet_id) {
            let e = d.push(last);
            assert forall|id: u32| #[trigger] has_subnet(e, id) == (has_subnet(d, id) || last.subnet_id == id) by {
                if has_subnet(e, id) {
                    let j = choose|j: int| 0 <= j < e.len() && #[trigger] e[j].subnet_id == id;
                    if j < d.len() {
                        assert(d[j] == e[j]);
                    }
                }
                if has_subnet(d, id) {
                    let j = choose|j: int| 0 <= j < d.len() && #[trigger] d[j].subnet_id == id;
                    assert(e[j] == d[j]);
                }
                if last.subnet_id == id {
                    assert(e[e.len() - 1].subnet_id == id);
                }
            }
            assert forall|i: int, j: int| 0 <= i < j < e.len() implies #[trigger] e[i].subnet_id != #[trigger] e[j].subnet_id by {
                assert(e[i] == d[i]);
                if j == e.len() - 1 {
                    if e[i].subnet_id == last.subnet_id {
                        assert(has_subnet(d, last.subnet_id));
                    }
                } else {
                    assert(e[j] == d[j]);
                }
            }
        }
    }
}

/// Keeping some commitments of `s` keeps no subnet twice.
pub proof fn lemma_filter_distinct_subnets(s: Seq<SubnetBenchmarkWeightCommitment>, pred: spec_fn(SubnetBenchmarkWeightCommitment) -> bool)
    requires
        distinct_subnets(s),
    ensures
        distinct_subnets(s.filter(pred)),
        forall|id: u32| #[trigger] has_subnet(s.filter(pred), id) ==> has_subnet(s, id),
    decreases s.len(),
{
    reveal(Seq::filter);
    if s.len() > 0 {
        let t = s.drop_last();
        let last = s.last();
        assert(distinct_subnets(t)) by {
            assert forall|i: int, j: int| 0 <= i < j < t.len() implies #[trigger] t[i].subnet_id != #[trigger] t[j].subnet_id by {
                assert(t[i] == s[i] && t[j] == s[j]);
            }
        }
        lemma_filter_distinct_subnets(t, pred);
        let f = t.filter(pred);
        assert(!has_subnet(t, last.subnet_id)) by {
            if has_subnet(t, last.subnet_id) {
                let j = choose|j: int| 0 <= j < t.len() && #[trigger] t[j].subnet_id == last.subnet_id;
                assert(s[j] == t[j]);
                assert(s[s.len() - 1].subnet_id == last.subnet_id);
            }
        }
        assert forall|id: u32| #[trigger] has_subnet(t, id) implies has_subnet(s, id) by {
            let j = choose|j: int| 0 <= j < t.len() && #[trigger] t[j].subnet_id == id;
            assert(s[j] == t[j]);
        }
        if pred(last) {
            let e = f.push(last);
            assert(e == s.filter(pred));
            assert forall|id: u32| #[trigger] has_subnet(e, id) implies has_subnet(s, id) by {
                let j = choose|j: int| 0 <= j < e.len() && #[trigger] e[j].subnet_id == id;
                if j < f.len() {
                    assert(e[j] == f[j]);
                    assert(has_subnet(f, id));
                } else {
                    assert(s[s.len() - 1].subnet_id == id);
                }
            }
            assert forall|i: int, j: int| 0 <= i < j < e.len() implies #[trigger] e[i].subnet_id != #[trigger] e[j].subnet_id by {
                assert(e[i] == f[i]);
                if j == e.len() - 1 {
                    if f[i].subnet_id == last.subnet_id {
                        assert(has_subnet(f, last.subnet_id));
                    }
                } else {
                    assert(e[j] == f[j]);
                }
            }
        } else {
            assert(f == s.filter(pred));
        }
    }
}

/// The weight revealed first for `subnet_id`.
pub open spec fn find_reveal(revealed: Seq<SubnetBenchmarkWeightReveal>, subnet_id: u32) -> Option<u128>
    decreases revealed.len(),
{
    if revealed.len() == 0 {
        None
    } else if revealed[0].subnet_id == subnet_id {
        Some(revealed[0].weight)
    } else {
        find_reveal(revealed.drop_first(), subnet_id)
    }
}

/// What the reveal answers to `commit`: nothing without a revealed weight for
/// its subnet, an error for a weight over 100% or one that does not match the
/// commitment, the weight otherwise.
pub open spec fn reveal_outcome(commit: SubnetBenchmarkWeightCommitment, revealed: Seq<SubnetBenchmarkWeightReveal>, seed: Seq<u8>) -> Option<Result<u128, Error>> {
    match find_reveal(revealed, commit.subnet_id) {
        None => None,
        Some(w) => if w > PERCENTAGE_FACTOR {
            Some(Err(Error::InvalidWeight))
        } else if commit.weight@ != commitment_of(w, seed) {
            Some(Err(Error::WeightRevealMismatch))
        } else {
            Some(Ok(w))
        },
    }
}

/// The first error the reveal of `commits` meets, in order.
pub open spec fn first_reveal_error(commits: Seq<SubnetBenchmarkWeightCommitment>, revealed: Seq<SubnetBenchmarkWeightReveal>, seed: Seq<u8>) -> Option<Error>
    decreases commits.len(),
{
    if commits.len() == 0 {
        None
    } else {
        match first_reveal_error(commits.drop_last(), revealed, seed) {
            Some(e) => Some(e),
            None => match reveal_outcome(commits.last(), revealed, seed) {
                Some(Err(e)) => Some(e),
                _ => None,
            },
        }
    }
}

/// The first error met in a prefix of `commits` is the first error of all of them.
pub proof fn lemma_first_reveal_error_prefix(
    commits: Seq<SubnetBenchmarkWeightCommitment>,
    k: int,
    revealed: Seq<SubnetBenchmarkWeightReveal>,
    seed: Seq<u8>,
)
    requires
        0 <= k <= commits.len(),
        first_reveal_error(commits.take(k), revealed, seed) is Some,
    ensures
        first_reveal_error(commits, revealed, seed) == first_reveal_error(commits.take(k), revealed, seed),
    decreases commits.len(),
{
    if k == commits.len() {
        assert(commits.take(k) =~= commits);
    } else {
        let d = commits.drop_last();
        assert(d.take(k) =~= commits.take(k));
        lemma_first_reveal_error_prefix(d, k, revealed, seed);
    }
}

/// The subnets and weights revealed for `commits`, in order.
pub open spec fn revealed_pairs(commits: Seq<SubnetBenchmarkWeightCommitment>, revealed: Seq<SubnetBenchmarkWeightReveal>, seed: Seq<u8>) -> Seq<(u32, u128)>
    decreases commits.len(),
{
    if commits.len() == 0 {
        Seq::empty()
    } else {
        let prev = revealed_pairs(commits.drop_last(), revealed, seed);
        match reveal_outcome(commits.last(), revealed, seed) {
            Some(Ok(w)) => prev.push((commits.last().subnet_id, w)),
            _ => prev,
        }
    }
}

/// `m` with the weights of `pairs` recorded for `epoch` under `stake`, in order.
pub open spec fn record_pairs(m: Map<RevealKey, u128>, epoch: u32, stake: u128, pairs: Seq<(u32, u128)>) -> Map<RevealKey, u128>
    decreases pairs.len(),
{
    if pairs.len() == 0 {
        m
    } else {
        record_pairs(m, epoch, stake, pairs.drop_last()).insert(
            RevealKey { epoch, subnet_id: pairs.last().0, stake },
            pairs.last().1,
        )
    }
}

/// Commitments, revealed weights and the overwatch stake of accounts.
pub struct Overwatch {
    pub commitments: Table<EpochAccount, Vec<SubnetBenchmarkWeightCommitment>>,
    pub reveals: Table<RevealKey, u128>,
    pub stakes: Table<AccountId, u128>,
}

impl Overwatch {
    pub open spec fn wf(&self) -> bool {
        &&& self.commitments.wf()
        &&& self.reveals.wf()
        &&& self.stakes.wf()
    }

    pub fn new() -> (o: Overwatch)
        ensures
            o.wf(),
            o.commitments@ == Map::<EpochAccount, Vec<SubnetBenchmarkWeightCommitment>>::empty(),
            o.reveals@ == Map::<RevealKey, u128>::empty(),
            o.stakes@ == Map::<AccountId, u128>::empty(),
    {
        Overwatch { commitments: Table::new(), reveals: Table::new(), stakes: Table::new() }
    }
}


/// The weight revealed first for `subnet_id`.
pub fn find_reveal_exec(revealed: &Vec<SubnetBenchmarkWeightReveal>, subnet_id: u32) -> (r: Option<u128>)
    ensures
        r == find_reveal(revealed@, subnet_id),
{
    let mut i: usize = 0;
    proof {
        assert(revealed@.subrange(0, revealed@.len() as int) =~= revealed@);
    }
    while i < revealed.len()
        invariant
            i <= revealed@.len(),
            find_reveal(revealed@, subnet_id) == find_reveal(revealed@.subrange(i as int, revealed@.len() as int), subnet_id),
        decreases revealed@.len() - i,
    {
        let ghost rest = revealed@.subrange(i as int, revealed@.len() as int);
        proof {
            assert(rest[0] == revealed@[i as int]);
            assert(rest.drop_first() =~= revealed@.subrange(i + 1, revealed@.len() as int));
        }
        if revealed[i].subnet_id == subnet_id {
            return Some(revealed[i].weight);
        }
        i = i + 1;
    }
    None
}

/// Keeps the first commitment for each subnet, in order, and drops the later ones.
pub fn dedup_by_subnet(data: Vec<SubnetBenchmarkWeightCommitment>) -> (r: Vec<SubnetBenchmarkWeightCommitment>)
    ensures
        r@ == dedup_subnets(data@),
{
    let mut kept: Vec<SubnetBenchmarkWeightCommitment> = Vec::new();
    let mut i: usize = 0;
    proof {
        assert(data@.take(0) =~= Seq::<SubnetBenchmarkWeightCommitment>::empty());
    }
    while i < data.len()
        invariant
            i <= data@.len(),
            kept@ == dedup_subnets(data@.take(i as int)),
        decreases data@.len() - i,
    {
        let c = data[i];
        proof {
            assert(data@.take(i + 1).drop_last() =~= data@.take(i as int));
            assert(data@.take(i + 1).last() == data@[i as int]);
            lemma_dedup_subnets(data@.take(i as int));
        }
        let mut seen = false;
        let mut j: usize = 0;
        while j < kept.len()
            invariant
                j <= kept.len(),
                seen == (exists|k: int| 0 <= k < j && #[trigger] kept@[k].subnet_id == c.subnet_id),
            decreases kept.len() - j,
        {
            if kept[j].subnet_id == c.subnet_id {
                seen = true;
            }
            proof {
                assert(kept@[j as int].subnet_id == kept[j as int].subnet_id);
            }
            j = j + 1;
        }
        proof {
            assert(seen == has_subnet(kept@, c.subnet_id));
            assert(seen == has_subnet(data@.take(i + 1).drop_last(), data@.take(i + 1).last().subnet_id));
        }
        if !seen {
            kept.push(c);
        }
        i = i + 1;
    }
    proof {
        assert(data@.take(i as int) =~= data@);
    }
    kept
}

/// The commitments of `commits` that stand: repeated subnets cut, and only
/// live subnets.
pub open spec fn kept_commitments(network: Network, commits: Seq<SubnetBenchmarkWeightCommitment>) -> Seq<SubnetBenchmarkWeightCommitment> {
    dedup_subnets(commits).filter(|c: SubnetBenchmarkWeightCommitment| network.registry.subnets@.contains_key(c.subnet_id))
}

/// The key of the commitments of `account` at the current epoch of `network`.
pub open spec fn epoch_key(network: Network, account: AccountId) -> EpochAccount {
    EpochAccount { epoch: network.epoch() as u32, account }
}

impl Overwatch {
    /// The error a submission of `commits` answers with: at least one and at
    /// most one per live subnet, and one left after the cuts.
    pub open spec fn submit_error(network: Network, commits: Seq<SubnetBenchmarkWeightCommitment>) -> Option<Error> {
        let total_subnets = network.registry.subnets@.dom().len() as u32;
        let total = commits.len() as u32;
        if !(total <= total_subnets && total > 0) {
            Some(Error::InvalidOverwatchCommitments)
        } else if kept_commitments(network, commits).len() == 0 {
            Some(Error::InvalidOverwatchCommitments)
        } else {
            None
        }
    }

    /// Records the weight commitments of `hotkey` for the current epoch.
    pub fn submit_benchmark_weights(&mut self, network: &Network, hotkey: AccountId, encrypted_weights: Vec<SubnetBenchmarkWeightCommitment>) -> (r: Result<(), Error>)
        requires
            old(self).wf(),
            network.wf(),
        ensures
            final(self).wf(),
            r == match Overwatch::submit_error(*network, encrypted_weights@) {
                Some(e) => Err(e),
                None => Ok(()),
            },
            r is Err ==> *final(self) == *old(self),
            r is Ok ==> {
                let key = epoch_key(*network, hotkey);
                &&& final(self).commitments@.contains_key(key)
                &&& final(self).commitments@[key]@ == kept_commitments(*network, encrypted_weights@)
                &&& distinct_subnets(final(self).commitments@[key]@)
                &&& forall|i: int| 0 <= i < final(self).commitments@[key]@.len()
                    ==> network.registry.subnets@.contains_key(#[trigger] final(self).commitments@[key]@[i].subnet_id)
                &&& final(self).commitments@.remove(key) == old(self).commitments@.remove(key)
                &&& final(self).reveals == old(self).reveals
                &&& final(self).stakes == old(self).stakes
            },
    {
        let total_subnets = #[verifier::truncate] (network.registry.subnets.len() as u32);
        let total = #[verifier::truncate] (encrypted_weights.len() as u32);
        if !(total <= total_subnets && total > 0) {
            return Err(Error::InvalidOverwatchCommitments);
        }
        let deduped = dedup_by_subnet(encrypted_weights);
        let ghost pred = |c: SubnetBenchmarkWeightCommitment| network.registry.subnets@.contains_key(c.subnet_id);
        let ghost ds = deduped@;
        let mut kept: Vec<SubnetBenchmarkWeightCommitment> = Vec::new();
        let mut i: usize = 0;
        proof {
            assert(ds.take(0) =~= Seq::<SubnetBenchmarkWeightCommitment>::empty());
            reveal(Seq::filter);
            assert(ds.take(0).filter(pred) =~= Seq::<SubnetBenchmarkWeightCommitment>::empty());
        }
        while i < deduped.len()
            invariant
                network.wf(),
                ds == deduped@,
                i <= ds.len(),
                kept@ == ds.take(i as int).filter(pred),
                pred == (|c: SubnetBenchmarkWeightCommitment| network.registry.subnets@.contains_key(c.subnet_id)),
            decreases ds.len() - i,
        {
            let c = deduped[i];
            proof {
                assert(ds.take(i + 1) =~= ds.take(i as int).push(c));
                ds.take(i as int).lemma_filter_push(c, pred);
            }
            if network.registry.subnets.contains_key(&c.subnet_id) {
                kept.push(c);
            }
            i = i + 1;
        }
        proof {
            assert(ds.take(i as int) =~= ds);
            lemma_dedup_subnets(encrypted_weights@);
            lemma_filter_distinct_subnets(ds, pred);
            assert forall|k: int| 0 <= k < kept@.len() implies network.registry.subnets@.contains_key(#[trigger] kept@[k].subnet_id) by {
                ds.lemma_filter_pred(pred, k);
            }
        }
        if kept.len() == 0 {
            return Err(Error::InvalidOverwatchCommitments);
        }
        let epoch = #[verifier::truncate] ((network.block / network.config.epoch_length) as u32);
        let key = EpochAccount { epoch, account: hotkey };
        self.commitments.insert(key, kept);
        proof {
            assert(self.commitments@.remove(key) =~= old(self).commitments@.remove(key));
        }
        Ok(())
    }

    /// The error a reveal of `revealed` under `seed` by `hotkey` answers with.
    pub open spec fn reveal_error(&self, network: Network, hotkey: AccountId, revealed: Seq<SubnetBenchmarkWeightReveal>, seed: Seq<u8>) -> Option<Error> {
        let key = epoch_key(network, hotkey);
        if !self.commitments@.contains_key(key) {
            Some(Error::CommitNotExist)
        } else if !(self.commitments@[key]@.len() <= revealed.len() && revealed.len() > 0) {
            Some(Error::InvalidOverwatchCommitments)
        } else {
            first_reveal_error(self.commitments@[key]@, revealed, seed)
        }
    }

    /// Reveals the weights `hotkey` committed to at the current epoch; each
    /// matching weight is recorded under the stake of `hotkey`.
    pub fn reveal_benchmark_weights(&mut self, network: &Network, hotkey: AccountId, revealed_weights: Vec<SubnetBenchmarkWeightReveal>, seed: &Vec<u8>) -> (r: Result<(), Error>)
        requires
            old(self).wf(),
            network.wf(),
        ensures
            final(self).wf(),
            r == match old(self).reveal_error(*network, hotkey, revealed_weights@, seed@) {
                Some(e) => Err(e),
                None => Ok(()),
            },
            r is Err ==> *final(self) == *old(self),
            r is Ok ==> {
                let key = epoch_key(*network, hotkey);
                &&& final(self).reveals@ == record_pairs(
                    old(self).reveals@,
                    key.epoch,
                    u128_at(old(self).stakes@, hotkey),
                    revealed_pairs(old(self).commitments@[key]@, revealed_weights@, seed@),
                )
                &&& final(self).commitments == old(self).commitments
                &&& final(self).stakes == old(self).stakes
            },
    {
        let epoch = #[verifier::truncate] ((network.block / network.config.epoch_length) as u32);
        let key = EpochAccount { epoch, account: hotkey };
        let commits = match self.commitments.get(&key) {
            Some(c) => c,
            None => {
                return Err(Error::CommitNotExist);
            },
        };
        if !(commits.len() <= revealed_weights.len() && revealed_weights.len() > 0) {
            return Err(Error::InvalidOverwatchCommitments);
        }
        let stake = read_u128(&self.stakes, &hotkey);
        let ghost cs = commits@;
        let mut pending: Vec<(u32, u128)> = Vec::new();
        let mut i: usize = 0;
        proof {
            assert(cs.take(0) =~= Seq::<SubnetBenchmarkWeightCommitment>::empty());
        }
        while i < commits.len()
            invariant
                *self == *old(self),
                self.wf(),
                network.wf(),
                key == epoch_key(*network, hotkey),
                old(self).commitments@.contains_key(key),
                *commits == old(self).commitments@[key],
                cs.len() <= revealed_weights@.len() && revealed_weights@.len() > 0,
                stake == u128_at(old(self).stakes@, hotkey),
                cs == commits@,
                i <= cs.len(),
                first_reveal_error(cs.take(i as int), revealed_weights@, seed@) is None,
                pending@ == revealed_pairs(cs.take(i as int), revealed_weights@, seed@),
            decreases cs.len() - i,
        {
            let c = commits[i];
            proof {
                assert(cs.take(i + 1).drop_last() =~= cs.take(i as int));
                assert(cs.take(i + 1).last() == c);
            }
            match find_reveal_exec(&revealed_weights, c.subnet_id) {
                None => {},
                Some(w) => {
                    if w > PERCENTAGE_FACTOR {
                        proof {
                            lemma_first_reveal_error_prefix(cs, i + 1, revealed_weights@, seed@);
                        }
                        return Err(Error::InvalidWeight);
                    }
                    let expected = reveal_weight(w, seed);
                    let mut same = true;
                    let mut j: usize = 0;
                    while j < 32
                        invariant
                            j <= 32,
                            same == (forall|m: int| 0 <= m < j ==> #[trigger] c.weight@[m] == expected@[m]),
                        decreases 32 - j,
                    {
                        if c.weight[j] != expected[j] {
                            same = false;
                        }
                        j = j + 1;
                    }
                    proof {
                        assert(same == (c.weight@ =~= expected@));
                    }
                    if !same {
                        proof {
                            lemma_first_reveal_error_prefix(cs, i + 1, revealed_weights@, seed@);
                        }
                        return Err(Error::WeightRevealMismatch);
                    }
                    pending.push((c.subnet_id, w));
                },
            }
            i = i + 1;
        }
        proof {
            assert(cs.take(i as int) =~= cs);
        }
        let mut j: usize = 0;
        let ghost base = self.reveals@;
        proof {
            assert(pending@.take(0) =~= Seq::<(u32, u128)>::empty());
        }
        while j < pending.len()
            invariant
                self.wf(),
                base == old(self).reveals@,
                pending@ == revealed_pairs(old(self).commitments@[key]@, revealed_weights@, seed@),
                stake == u128_at(old(self).stakes@, hotkey),
                key == epoch_key(*network, hotkey),
                j <= pending@.len(),
                self.reveals@ == record_pairs(base, epoch, stake, pending@.take(j as int)),
                self.commitments == old(self).commitments,
                self.stakes == old(self).stakes,
            decreases pending@.len() - j,
        {
            let (subnet_id, w) = pending[j];
            self.reveals.insert(RevealKey { epoch, subnet_id, stake }, w);
            proof {
                assert(pending@.take(j + 1).drop_last() =~= pending@.take(j as int));
                assert(pending@.take(j + 1).last() == pending@[j as int]);
            }
            j = j + 1;
        }
        proof {
            assert(pending@.take(j as int) =~= pending@);
        }
        Ok(())
    }
}

} // verus!
