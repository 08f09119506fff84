//! Node classes, validator submissions, attestations and slashing.

use vstd::prelude::*;
use crate::math::{percent_mul, spec_percent_mul, PERCENTAGE_FACTOR};
use crate::network::{claims_kept, nodes_shrunk, Error, Network, NetworkConfig, read_u32, u32_at};
use crate::registry::{node_detached, node_removed, Registry, NODE_CLASSES};
use crate::staking::stake_decreased;
use crate::table::{Table, SubnetAccount, SubnetEpoch};
use crate::types::{spec_class_index, AccountId, RewardsData, SubnetNode, SubnetNodeClass, SubnetNodeData};
use crate::utils::bytes_eq;

verus! {

/// Penalties and the validation of each epoch.
pub struct Consensus {
    pub subnet_penalty_count: Table<u32, u32>,
    pub account_penalty_count: Table<AccountId, u32>,
    pub sequential_absent: Table<SubnetAccount, u32>,
    pub node_penalties: Table<SubnetAccount, u32>,
    pub rewards_validator: Table<SubnetEpoch, AccountId>,
    pub rewards_submission: Table<SubnetEpoch, RewardsData>,
}

impl Consensus {
    pub open spec fn wf(&self) -> bool {
        &&& self.subnet_penalty_count.wf()
        &&& self.account_penalty_count.wf()
        &&& self.sequential_absent.wf()
        &&& self.node_penalties.wf()
        &&& self.rewards_validator.wf()
        &&& self.rewards_submission.wf()
        &&& forall|k: SubnetEpoch| #[trigger] self.rewards_submission@.contains_key(k)
            ==> self.rewards_submission@[k].attests.wf()
    }

    /// Consensus state with no penalties, absences, validators or submissions.
    pub fn new() -> (c: Consensus)
        ensures
            c.wf(),
            c.subnet_penalty_count@ == Map::<u32, u32>::empty(),
            c.account_penalty_count@ == Map::<AccountId, u32>::empty(),
            c.sequential_absent@ == Map::<SubnetAccount, u32>::empty(),
            c.node_penalties@ == Map::<SubnetAccount, u32>::empty(),
            c.rewards_validator@ == Map::<SubnetEpoch, AccountId>::empty(),
            c.rewards_submission@ == Map::<SubnetEpoch, RewardsData>::empty(),
    {
        Consensus {
            subnet_penalty_count: Table::new(),
            account_penalty_count: Table::new(),
            sequential_absent: Table::new(),
            node_penalties: Table::new(),
            rewards_validator: Table::new(),
            rewards_submission: Table::new(),
        }
    }
}

impl Registry {
    /// Whether the node of `account` on `subnet_id` holds the class of index
    /// `class` or a higher one, entered at a block whose epoch is at most `epoch`.
    pub open spec fn has_class(&self, subnet_id: u32, account: AccountId, class: int, epoch: u64, epoch_length: u64) -> bool {
        exists|c: int|
            class <= c && 0 <= c < NODE_CLASSES && #[trigger] self.node_classes@[c]@.contains_key(
                SubnetAccount { subnet_id, account },
            ) && self.node_classes@[c]@[SubnetAccount { subnet_id, account }] / epoch_length <= epoch
    }

    /// Node table entries of `subnet_id` whose node holds `class` at `epoch`.
    pub open spec fn classified_entries(&self, subnet_id: u32, class: int, epoch: u64, epoch_length: u64) -> Seq<(SubnetAccount, SubnetNode)> {
        self.nodes.entries().filter(
            |e: (SubnetAccount, SubnetNode)|
                e.0.subnet_id == subnet_id && self.has_class(subnet_id, e.0.account, class, epoch, epoch_length),
        )
    }

    /// Accounts of the nodes of `subnet_id` that hold `class` at `epoch`, in table order.
    pub open spec fn classified_accounts(&self, subnet_id: u32, class: int, epoch: u64, epoch_length: u64) -> Seq<AccountId> {
        self.classified_entries(subnet_id, class, epoch, epoch_length).map_values(
            |e: (SubnetAccount, SubnetNode)| e.0.account,
        )
    }

    /// Registries that agree on the nodes and node classes of `subnet_id` agree
    /// on its classified accounts.
    pub proof fn lemma_classified_stable(&self, other: Registry, subnet_id: u32, class: int, epoch: u64, epoch_length: u64)
        requires
            self.wf(),
            other.wf(),
            other.nodes.subnet_entries(subnet_id) == self.nodes.subnet_entries(subnet_id),
            forall|c: int, a: AccountId|
                0 <= c < NODE_CLASSES ==> (#[trigger] other.node_classes@[c]@.contains_key(SubnetAccount { subnet_id, account: a })
                    == self.node_classes@[c]@.contains_key(SubnetAccount { subnet_id, account: a })),
            forall|c: int, a: AccountId|
                0 <= c < NODE_CLASSES && self.node_classes@[c]@.contains_key(SubnetAccount { subnet_id, account: a })
                    ==> #[trigger] other.node_classes@[c]@[SubnetAccount { subnet_id, account: a }]
                    == self.node_classes@[c]@[SubnetAccount { subnet_id, account: a }],
        ensures
            other.classified_accounts(subnet_id, class, epoch, epoch_length) == self.classified_accounts(subnet_id, class, epoch, epoch_length),
    {
        let q = |e: (SubnetAccount, SubnetNode)| e.0.subnet_id == subnet_id;
        let p1 = |e: (SubnetAccount, SubnetNode)|
            e.0.subnet_id == subnet_id && self.has_class(subnet_id, e.0.account, class, epoch, epoch_length);
        let p2 = |e: (SubnetAccount, SubnetNode)|
            e.0.subnet_id == subnet_id && other.has_class(subnet_id, e.0.account, class, epoch, epoch_length);
        crate::filters::lemma_filter_implied(self.nodes.entries(), p1, q);
        crate::filters::lemma_filter_implied(other.nodes.entries(), p2, q);
        let sub = self.nodes.entries().filter(q);
        assert(sub == self.nodes.subnet_entries(subnet_id));
        assert(other.nodes.entries().filter(q) == other.nodes.subnet_entries(subnet_id));
        assert forall|i: int| 0 <= i < sub.len() implies #[trigger] p2(sub[i]) == p1(sub[i]) by {
            self.nodes.entries().lemma_filter_pred(q, i);
            let a = sub[i].0.account;
            assert(sub[i].0 == SubnetAccount { subnet_id, account: a });
            if self.has_class(subnet_id, a, class, epoch, epoch_length) {
                let c = choose|c: int|
                    class <= c && 0 <= c < NODE_CLASSES && #[trigger] self.node_classes@[c]@.contains_key(
                        SubnetAccount { subnet_id, account: a },
                    ) && self.node_classes@[c]@[SubnetAccount { subnet_id, account: a }] / epoch_length <= epoch;
                assert(other.node_classes@[c]@.contains_key(SubnetAccount { subnet_id, account: a }));
            }
            if other.has_class(subnet_id, a, class, epoch, epoch_length) {
                let c = choose|c: int|
                    class <= c && 0 <= c < NODE_CLASSES && #[trigger] other.node_classes@[c]@.contains_key(
                        SubnetAccount { subnet_id, account: a },
                    ) && other.node_classes@[c]@[SubnetAccount { subnet_id, account: a }] / epoch_length <= epoch;
                assert(self.node_classes@[c]@.contains_key(SubnetAccount { subnet_id, account: a }));
            }
        }
        crate::filters::lemma_filter_agree(sub, p2, p1);
        assert(other.classified_entries(subnet_id, class, epoch, epoch_length) == self.classified_entries(subnet_id, class, epoch, epoch_length));
    }

    /// Whether the node of `account` on `subnet_id` holds `class` at `epoch`.
    pub fn node_has_class(&self, subnet_id: u32, account: AccountId, class: SubnetNodeClass, epoch: u64, epoch_length: u64) -> (b: bool)
        requires
            self.wf(),
            epoch_length > 0,
        ensures
            b == self.has_class(subnet_id, account, spec_class_index(class) as int, epoch, epoch_length),
    {
        let k = SubnetAccount { subnet_id, account };
        let mut c: usize = class.index();
        while c < NODE_CLASSES
            invariant
                self.wf(),
                spec_class_index(class) <= c <= NODE_CLASSES,
                epoch_length > 0,
                k == (SubnetAccount { subnet_id, account }),
                forall|j: int| spec_class_index(class) <= j < c ==> !(#[trigger] self.node_classes@[j]@.contains_key(k)
                    && self.node_classes@[j]@[k] / epoch_length <= epoch),
            decreases NODE_CLASSES - c,
        {
            match self.node_classes[c].get(&k) {
                Some(entered) => {
                    if *entered / epoch_length <= epoch {
                        proof {
                            assert(self.node_classes@[c as int]@.contains_key(k));
                        }
                        return true;
                    }
                },
                None => {},
            }
            c = c + 1;
        }
        false
    }

    /// Accounts of the nodes of `subnet_id` that hold `class` at `epoch`.
    pub fn get_classified_subnet_node_ids(&self, subnet_id: u32, class: SubnetNodeClass, epoch: u64, epoch_length: u64) -> (r: Vec<AccountId>)
        requires
            self.wf(),
            epoch_length > 0,
        ensures
            r@ == self.classified_accounts(subnet_id, spec_class_index(class) as int, epoch, epoch_length),
    {
        let ghost ci = spec_class_index(class) as int;
        let ghost pred = |e: (SubnetAccount, SubnetNode)|
            e.0.subnet_id == subnet_id && self.has_class(subnet_id, e.0.account, ci, epoch, epoch_length);
        let ghost f = |e: (SubnetAccount, SubnetNode)| e.0.account;
        let ghost es = self.nodes.entries();
        let n = self.nodes.len();
        let mut out: Vec<AccountId> = Vec::new();
        let mut i: usize = 0;
        proof {
            assert(es.take(0) =~= Seq::<(SubnetAccount, SubnetNode)>::empty());
            reveal(Seq::filter);
            assert(es.take(0).filter(pred) =~= Seq::<(SubnetAccount, SubnetNode)>::empty());
            assert(es.take(0).filter(pred).map_values(f) =~= Seq::<AccountId>::empty());
        }
        while i < n
            invariant
                self.wf(),
                epoch_length > 0,
                n == es.len(),
                es == self.nodes.entries(),
                i <= n,
                out@ == es.take(i as int).filter(pred).map_values(f),
                pred == (|e: (SubnetAccount, SubnetNode)|
                    e.0.subnet_id == subnet_id && self.has_class(subnet_id, e.0.account, ci, epoch, epoch_length)),
                f == (|e: (SubnetAccount, SubnetNode)| e.0.account),
                ci == spec_class_index(class) as int,
            decreases n - i,
        {
            let k = self.nodes.key_at(i);
            let ghost e = es[i as int];
            proof {
                assert(es.take(i + 1) =~= es.take(i as int).push(e));
                es.take(i as int).lemma_filter_push(e, pred);
            }
            let ghost prev = out@;
            if k.subnet_id == subnet_id && self.node_has_class(subnet_id, k.account, class, epoch, epoch_length) {
                out.push(k.account);
                proof {
                    assert(pred(e));
                    assert(es.take(i + 1).filter(pred) == es.take(i as int).filter(pred).push(e));
                    assert(out@ =~= es.take(i + 1).filter(pred).map_values(f));
                }
            } else {
                proof {
                    assert(!pred(e));
                    assert(out@ =~= es.take(i + 1).filter(pred).map_values(f));
                }
            }
            i = i + 1;
        }
        proof {
            assert(es.take(n as int) =~= es);
        }
        out
    }
}

/// Reward of the validator whose submission drew `attestation_percentage`:
/// nothing below the minimum attestation, else that share of the base reward.
pub open spec fn spec_validator_reward(config: NetworkConfig, attestation_percentage: u128) -> u128 {
    if config.min_attestation_percentage > attestation_percentage {
        0
    } else {
        spec_percent_mul(config.base_validator_reward, attestation_percentage)
    }
}

/// Stake slashed from a validator holding `stake` whose submission drew
/// `attestation_percentage`: the slash share of the stake, scaled by the share
/// that did not attest, capped at the maximum slash.
pub open spec fn spec_slash_amount(config: NetworkConfig, stake: u128, attestation_percentage: u128) -> u128 {
    let s = spec_percent_mul(
        spec_percent_mul(stake, config.slash_percentage),
        (PERCENTAGE_FACTOR - attestation_percentage) as u128,
    );
    if s > config.max_slash_amount {
        config.max_slash_amount
    } else {
        s
    }
}

/// Whether slashing `validator` on `subnet_id` takes its node off the subnet:
/// its penalty count passes the maximum and it has a node.
pub open spec fn slash_removes(old: Network, subnet_id: u32, validator: AccountId) -> bool {
    let k = SubnetAccount { subnet_id, account: validator };
    &&& u32_at(old.consensus.node_penalties@, k) + 1 > old.config.max_subnet_node_penalties
    &&& old.registry.nodes@.contains_key(k)
}

/// The effect of slashing `validator` on `subnet_id` at `block`: its stake
/// shrinks by the slash amount, its penalty count grows by one, and its node is
/// removed once the count passes the maximum.
pub open spec fn validator_slashed(old: Network, new: Network, subnet_id: u32, validator: AccountId, attestation_percentage: u128, block: u64) -> bool {
    let k = SubnetAccount { subnet_id, account: validator };
    let amount = spec_slash_amount(old.config, old.staking.stake(validator, subnet_id), attestation_percentage);
    &&& stake_decreased(old.staking, new.staking, validator, subnet_id, amount)
    &&& new.consensus.sequential_absent == old.consensus.sequential_absent
    &&& slash_removes(old, subnet_id, validator) ==> {
        &&& node_detached(old, new, block, subnet_id, validator)
        &&& new.consensus.node_penalties@ == old.consensus.node_penalties@.remove(k)
    }
    &&& !slash_removes(old, subnet_id, validator) ==> {
        &&& new.consensus.node_penalties@ == old.consensus.node_penalties@.insert(
            k,
            (u32_at(old.consensus.node_penalties@, k) + 1) as u32,
        )
        &&& new.registry == old.registry
        &&& new.consensus.subnet_penalty_count == old.consensus.subnet_penalty_count
        &&& new.consensus.account_penalty_count == old.consensus.account_penalty_count
        &&& new.consensus.rewards_validator == old.consensus.rewards_validator
        &&& new.consensus.rewards_submission == old.consensus.rewards_submission
        &&& new.balances == old.balances
        &&& new.config == old.config
        &&& new.block == old.block
    }
}

impl Network {
    /// Reward of the validator whose submission drew `attestation_percentage`.
    pub fn get_validator_reward(&self, attestation_percentage: u128) -> (r: u128)
        ensures
            r == spec_validator_reward(self.config, attestation_percentage),
            r <= u128::MAX / PERCENTAGE_FACTOR,
    {
        if self.config.min_attestation_percentage > attestation_percentage {
            return 0;
        }
        percent_mul(self.config.base_validator_reward, attestation_percentage)
    }

    /// Slashes the validator of `subnet_id` whose submission drew
    /// `attestation_percentage`, removing its node after too many penalties.
    pub fn slash_validator(&mut self, subnet_id: u32, validator: AccountId, attestation_percentage: u128, block: u64)
        requires
            old(self).wf(),
            attestation_percentage <= PERCENTAGE_FACTOR,
            u32_at(old(self).consensus.node_penalties@, SubnetAccount { subnet_id, account: validator }) < u32::MAX,
        ensures
            nodes_shrunk(*old(self), *final(self)),
            final(self).wf(),
            validator_slashed(*old(self), *final(self), subnet_id, validator, attestation_percentage, block),
    {
        let stake = self.staking.get_stake(validator, subnet_id);
        let mut slash_amount = percent_mul(stake, self.config.slash_percentage);
        slash_amount = percent_mul(slash_amount, PERCENTAGE_FACTOR - attestation_percentage);
        let max_slash = self.config.max_slash_amount;
        if slash_amount > max_slash {
            slash_amount = max_slash;
        }
        self.staking.decrease_account_stake(validator, subnet_id, slash_amount);
        let k = SubnetAccount { subnet_id, account: validator };
        let penalties = read_u32(&self.consensus.node_penalties, &k);
        self.consensus.node_penalties.insert(k, penalties + 1);
        if penalties + 1 > self.config.max_subnet_node_penalties {
            let ghost mid = self.consensus.node_penalties@;
            self.perform_remove_subnet_node(block, subnet_id, validator);
            proof {
                assert(mid.remove(k) =~= old(self).consensus.node_penalties@.remove(k));
            }
        }
    }
}

/// The choice of the validator of `subnet_id` for `epoch` among `accounts`:
/// none when one is already chosen or fewer than `min_nodes` accounts are
/// eligible, else the account at position `random` modulo their count.
pub open spec fn validator_chosen(
    old: Network,
    new: Network,
    subnet_id: u32,
    accounts: Seq<AccountId>,
    min_nodes: u32,
    epoch: u32,
    random: u32,
) -> bool {
    let ek = SubnetEpoch { subnet_id, epoch };
    if old.consensus.rewards_validator@.contains_key(ek) || (accounts.len() as u32) < min_nodes {
        new == old
    } else {
        &&& new.consensus.rewards_validator@ == old.consensus.rewards_validator@.insert(
            ek,
            accounts[random as int % accounts.len() as int],
        )
        &&& new.consensus.subnet_penalty_count == old.consensus.subnet_penalty_count
        &&& new.consensus.account_penalty_count == old.consensus.account_penalty_count
        &&& new.consensus.sequential_absent == old.consensus.sequential_absent
        &&& new.consensus.node_penalties == old.consensus.node_penalties
        &&& new.consensus.rewards_submission == old.consensus.rewards_submission
        &&& new.registry == old.registry
        &&& new.staking == old.staking
        &&& new.balances == old.balances
        &&& new.config == old.config
        &&& new.block == old.block
    }
}

impl Network {
    /// The error an attestation by `account` of the submission of `subnet_id` at
    /// `epoch` answers with: the account needs a node that is Submittable at
    /// `epoch`, the epoch a submission, and the account must not have attested it yet.
    pub open spec fn attest_error(&self, subnet_id: u32, account: AccountId, epoch: u32, epoch_length: u64) -> Option<Error> {
        let ek = SubnetEpoch { subnet_id, epoch };
        if !self.registry.nodes@.contains_key(SubnetAccount { subnet_id, account }) {
            Some(Error::SubnetNodeNotExist)
        } else if !self.registry.has_class(subnet_id, account, 3, epoch as u64, epoch_length) {
            Some(Error::NodeConsensusSubmitEpochNotReached)
        } else if !self.consensus.rewards_submission@.contains_key(ek) {
            Some(Error::InvalidSubnetRewardsSubmission)
        } else if self.consensus.rewards_submission@[ek].attests@.contains_key(account) {
            Some(Error::AlreadyAttested)
        } else {
            None
        }
    }

    /// Attests, at `block`, the submission of `subnet_id` for `epoch`.
    pub fn do_attest(&mut self, subnet_id: u32, account_id: AccountId, block: u64, epoch_length: u64, epoch: u32) -> (r: Result<(), Error>)
        requires
            old(self).wf(),
            epoch_length > 0,
        ensures
            nodes_shrunk(*old(self), *final(self)),
            final(self).wf(),
            r == match old(self).attest_error(subnet_id, account_id, epoch, epoch_length) {
                Some(e) => Err(e),
                None => Ok(()),
            },
            r is Err ==> *final(self) == *old(self),
            r is Ok ==> {
                let ek = SubnetEpoch { subnet_id, epoch };
                let o = old(self).consensus.rewards_submission@[ek];
                let n = final(self).consensus.rewards_submission@[ek];
                &&& final(self).consensus.rewards_submission@.contains_key(ek)
                &&& final(self).consensus.rewards_submission@.remove(ek) == old(self).consensus.rewards_submission@.remove(ek)
                &&& n.attests@ == o.attests@.insert(account_id, block)
                &&& n.validator == o.validator
                &&& n.nodes_count == o.nodes_count
                &&& n.sum == o.sum
                &&& n.data == o.data
                &&& n.complete == o.complete
                &&& final(self).consensus.subnet_penalty_count == old(self).consensus.subnet_penalty_count
                &&& final(self).consensus.account_penalty_count == old(self).consensus.account_penalty_count
                &&& final(self).consensus.sequential_absent == old(self).consensus.sequential_absent
                &&& final(self).consensus.node_penalties == old(self).consensus.node_penalties
                &&& final(self).consensus.rewards_validator == old(self).consensus.rewards_validator
                &&& final(self).registry == old(self).registry
                &&& final(self).staking == old(self).staking
                &&& final(self).balances == old(self).balances
                &&& final(self).config == old(self).config
                &&& final(self).block == old(self).block
            },
    {
        if !self.registry.nodes.contains_key(&SubnetAccount { subnet_id, account: account_id }) {
            return Err(Error::SubnetNodeNotExist);
        }
        if !self.registry.node_has_class(subnet_id, account_id, SubnetNodeClass::Submittable, epoch as u64, epoch_length) {
            return Err(Error::NodeConsensusSubmitEpochNotReached);
        }
        let ek = SubnetEpoch { subnet_id, epoch };
        match self.consensus.rewards_submission.get(&ek) {
            Some(p) => {
                if p.attests.contains_key(&account_id) {
                    return Err(Error::AlreadyAttested);
                }
            },
            None => {
                return Err(Error::InvalidSubnetRewardsSubmission);
            },
        }
        let mut params = match self.consensus.rewards_submission.remove(&ek) {
            Some(p) => p,
            None => {
                return Err(Error::InvalidSubnetRewardsSubmission);
            },
        };
        params.attests.insert(account_id, block);
        self.consensus.rewards_submission.insert(ek, params);
        proof {
            assert(self.consensus.rewards_submission@.remove(ek) =~= old(self).consensus.rewards_submission@.remove(ek));
        }
        Ok(())
    }

    /// Picks, for `subnet_id` at `epoch`, the validator among `account_ids`
    /// at position `random` modulo their count, unless one is already chosen or
    /// fewer than `min_subnet_nodes` accounts are eligible. `random` is the
    /// chain's random number for `block`.
    pub fn choose_validator(&mut self, block: u64, subnet_id: u32, account_ids: &Vec<AccountId>, min_subnet_nodes: u32, epoch: u32, random: u32)
        requires
            old(self).wf(),
            account_ids.len() > 0 || min_subnet_nodes > 0
                || old(self).consensus.rewards_validator@.contains_key(SubnetEpoch { subnet_id, epoch }),
        ensures
            nodes_shrunk(*old(self), *final(self)),
            final(self).wf(),
            validator_chosen(*old(self), *final(self), subnet_id, account_ids@, min_subnet_nodes, epoch, random),
    {
        let _ = block;
        let ek = SubnetEpoch { subnet_id, epoch };
        if self.consensus.rewards_validator.contains_key(&ek) {
            return;
        }
        let len = account_ids.len();
        if (#[verifier::truncate] (len as u32)) < min_subnet_nodes {
            return;
        }
        let index = (random as usize) % len;
        let validator = account_ids[index];
        self.consensus.rewards_validator.insert(ek, validator);
    }
}

/// Whether some entry of `s` is for `peer`.
pub open spec fn has_peer(s: Seq<SubnetNodeData>, peer: Seq<u8>) -> bool {
    exists|j: int| 0 <= j < s.len() && #[trigger] s[j].peer_id@ == peer
}

/// `s` with only the first entry of each peer kept, in order.
pub open spec fn dedup_peers(s: Seq<SubnetNodeData>) -> Seq<SubnetNodeData>
    decreases s.len(),
{
    if s.len() == 0 {
        s
    } else {
        let d = dedup_peers(s.drop_last());
        if has_peer(s.drop_last(), s.last().peer_id@) {
            d
        } else {
            d.push(s.last())
        }
    }
}

/// The deduplicated entries are entries of `s`, hold the same peers as `s`, and
/// hold each peer once.
pub proof fn lemma_dedup_peers(s: Seq<SubnetNodeData>)
    ensures
        forall|p: Seq<u8>| #[trigger] has_peer(dedup_peers(s), p) == has_peer(s, p),
        forall|i: int, j: int|
            0 <= i < j < dedup_peers(s).len() ==> #[trigger] dedup_peers(s)[i].peer_id@ != #[trigger] dedup_peers(s)[j].peer_id@,
        dedup_peers(s).len() <= s.len(),
    decreases s.len(),
{
    if s.len() > 0 {
        let t = s.drop_last();
        lemma_dedup_peers(t);
        let d = dedup_peers(t);
        let last = s.last();
        assert forall|p: Seq<u8>| #[trigger] has_peer(s, p) == (has_peer(t, p) || last.peer_id@ == p) by {
            if has_peer(s, p) {
                let j = choose|j: int| 0 <= j < s.len() && #[trigger] s[j].peer_id@ == p;
                if j < s.len() - 1 {
                    assert(t[j] == s[j]);
                }
            }
            if has_peer(t, p) {
                let j = choose|j: int| 0 <= j < t.len() && #[trigger] t[j].peer_id@ == p;
                assert(s[j] == t[j]);
            }
            if last.peer_id@ == p {
                assert(s[s.len() - 1].peer_id@ == p);
            }
        }
        if !has_peer(t, last.peer_id@) {
            let e = d.push(last);
            assert forall|p: Seq<u8>| #[trigger] has_peer(e, p) == (has_peer(d, p) || last.peer_id@ == p) by {
                if has_peer(e, p) {
                    let j = choose|j: int| 0 <= j < e.len() && #[trigger] e[j].peer_id@ == p;
                    if j < d.len() {
                        assert(d[j] == e[j]);
                    }
                }
                if has_peer(d, p) {
                    let j = choose|j: int| 0 <= j < d.len() && #[trigger] d[j].peer_id@ == p;
                    assert(e[j] == d[j]);
                }
                if last.peer_id@ == p {
                    assert(e[e.len() - 1].peer_id@ == p);
                }
            }
            assert forall|i: int, j: int| 0 <= i < j < e.len() implies #[trigger] e[i].peer_id@ != #[trigger] e[j].peer_id@ by {
                if j == e.len() - 1 {
                    assert(e[i] == d[i]);
                    if e[i].peer_id@ == last.peer_id@ {
                        assert(has_peer(d, last.peer_id@));
                    }
                } else {
                    assert(e[i] == d[i]);
                    assert(e[j] == d[j]);
                }
            }
        }
    }
}

/// Sum of the scores of `s`.
pub open spec fn score_sum(s: Seq<SubnetNodeData>) -> nat
    decreases s.len(),
{
    if s.len() == 0 {
        0
    } else {
        score_sum(s.drop_last()) + s.last().score as nat
    }
}

/// Whether some entry of `kept` is for `peer`.
fn holds_peer(kept: &Vec<SubnetNodeData>, peer: &Vec<u8>) -> (b: bool)
    ensures
        b == has_peer(kept@, peer@),
{
    let mut i: usize = 0;
    while i < kept.len()
        invariant
            i <= kept.len(),
            forall|j: int| 0 <= j < i ==> #[trigger] kept@[j].peer_id@ != peer@,
        decreases kept.len() - i,
    {
        if bytes_eq(&kept[i].peer_id, peer) {
            proof {
                assert(kept@[i as int].peer_id@ == peer@);
            }
            return true;
        }
        i = i + 1;
    }
    false
}

/// Keeps the first entry of each peer, in order, and drops the later ones.
pub fn dedup_by_peer(data: Vec<SubnetNodeData>) -> (r: Vec<SubnetNodeData>)
    ensures
        r@ == dedup_peers(data@),
{
    let mut data = data;
    let ghost o = data@;
    let mut kept: Vec<SubnetNodeData> = Vec::new();
    let ghost mut i: int = 0;
    proof {
        assert(o.take(0) =~= Seq::<SubnetNodeData>::empty());
        assert(data@ =~= o.subrange(0, o.len() as int));
    }
    while data.len() > 0
        invariant
            0 <= i <= o.len(),
            data@ == o.subrange(i, o.len() as int),
            kept@ == dedup_peers(o.take(i)),
        decreases data@.len(),
    {
        let d = data.remove(0);
        proof {
            assert(d == o[i]);
            assert(o.take(i + 1).drop_last() =~= o.take(i));
            assert(o.take(i + 1).last() == o[i]);
            lemma_dedup_peers(o.take(i));
        }
        let seen = holds_peer(&kept, &d.peer_id);
        if !seen {
            kept.push(d);
        }
        proof {
            i = i + 1;
            assert(data@ =~= o.subrange(i, o.len() as int));
        }
    }
    proof {
        assert(o.take(i) =~= o);
    }
    kept
}

/// The sum of the scores of `s`, at most `u128::MAX`.
pub open spec fn saturated_score_sum(s: Seq<SubnetNodeData>) -> u128 {
    if score_sum(s) > u128::MAX {
        u128::MAX
    } else {
        score_sum(s) as u128
    }
}

/// Sum of the scores, stopping at `u128::MAX`.
pub fn sum_scores(data: &Vec<SubnetNodeData>) -> (r: u128)
    ensures
        r == saturated_score_sum(data@),
{
    let mut acc: u128 = 0;
    let mut i: usize = 0;
    proof {
        assert(data@.take(0) =~= Seq::<SubnetNodeData>::empty());
    }
    while i < data.len()
        invariant
            i <= data.len(),
            acc == saturated_score_sum(data@.take(i as int)),
        decreases data.len() - i,
    {
        proof {
            assert(data@.take(i + 1).drop_last() =~= data@.take(i as int));
            assert(data@.take(i + 1).last() == data@[i as int]);
        }
        acc = acc.saturating_add(data[i].score);
        i = i + 1;
    }
    proof {
        assert(data@.take(i as int) =~= data@);
    }
    acc
}

impl Registry {
    /// Whether `peer` is the peer of a node of `subnet_id` holding the Included
    /// class at `epoch`.
    pub open spec fn peer_included(&self, subnet_id: u32, peer: Seq<u8>, epoch: u64, epoch_length: u64) -> bool {
        match self.peer_account(subnet_id, peer) {
            Some(a) => self.has_class(subnet_id, a, 1, epoch, epoch_length),
            None => false,
        }
    }

    /// The scores of `s` whose peer is included at `epoch`, in order.
    pub open spec fn included_scores(&self, subnet_id: u32, s: Seq<SubnetNodeData>, epoch: u64, epoch_length: u64) -> Seq<SubnetNodeData> {
        s.filter(|d: SubnetNodeData| self.peer_included(subnet_id, d.peer_id@, epoch, epoch_length))
    }

    /// Keeps the scores whose peer is included at `epoch`.
    pub fn retain_included(&self, subnet_id: u32, data: Vec<SubnetNodeData>, epoch: u64, epoch_length: u64) -> (r: Vec<SubnetNodeData>)
        requires
            self.wf(),
            epoch_length > 0,
        ensures
            r@ == self.included_scores(subnet_id, data@, epoch, epoch_length),
    {
        let mut data = data;
        let ghost o = data@;
        let ghost pred = |d: SubnetNodeData| self.peer_included(subnet_id, d.peer_id@, epoch, epoch_length);
        let mut kept: Vec<SubnetNodeData> = Vec::new();
        let ghost mut i: int = 0;
        proof {
            assert(o.take(0) =~= Seq::<SubnetNodeData>::empty());
            reveal(Seq::filter);
            assert(o.take(0).filter(pred) =~= Seq::<SubnetNodeData>::empty());
            assert(data@ =~= o.subrange(0, o.len() as int));
        }
        while data.len() > 0
            invariant
                self.wf(),
                epoch_length > 0,
                0 <= i <= o.len(),
                data@ == o.subrange(i, o.len() as int),
                kept@ == o.take(i).filter(pred),
                pred == (|d: SubnetNodeData| self.peer_included(subnet_id, d.peer_id@, epoch, epoch_length)),
            decreases data@.len(),
        {
            let d = data.remove(0);
            proof {
                assert(d == o[i]);
                assert(o.take(i + 1) =~= o.take(i).push(o[i]));
                o.take(i).lemma_filter_push(o[i], pred);
            }
            let keep = match self.find_peer_account(subnet_id, &d.peer_id) {
                Some(a) => self.node_has_class(subnet_id, a, SubnetNodeClass::Included, epoch, epoch_length),
                None => false,
            };
            let ghost prev = kept@;
            if keep {
                kept.push(d);
                assert(kept@ == prev.push(o[i]));
            }
            assert(kept@ == o.take(i + 1).filter(pred));
            proof {
                i = i + 1;
                assert(data@ =~= o.subrange(i, o.len() as int));
            }
        }
        proof {
            assert(o.take(i) =~= o);
        }
        kept
    }
}

impl Network {
    /// What is left of the submitted `data` for `subnet_id` at `epoch`: repeated
    /// peers cut, and only peers of nodes holding the Included class.
    pub open spec fn validated_scores(&self, subnet_id: u32, epoch: u32, data: Seq<SubnetNodeData>) -> Seq<SubnetNodeData> {
        self.registry.included_scores(subnet_id, dedup_peers(data), epoch as u64, self.config.epoch_length)
    }

    /// The error a submission of `data` by `account` for `subnet_id` at `epoch`
    /// answers with: only the chosen validator submits, once, and no more scores
    /// than included nodes.
    pub open spec fn validate_error(&self, subnet_id: u32, account: AccountId, epoch: u32, data: Seq<SubnetNodeData>) -> Option<Error> {
        let ek = SubnetEpoch { subnet_id, epoch };
        if !self.consensus.rewards_validator@.contains_key(ek) || self.consensus.rewards_validator@[ek] != account {
            Some(Error::InvalidValidator)
        } else if self.consensus.rewards_submission@.contains_key(ek) {
            Some(Error::SubnetRewardsAlreadySubmitted)
        } else if (self.validated_scores(subnet_id, epoch, data).len() as u32) > (self.registry.classified_accounts(
            subnet_id,
            1,
            epoch as u64,
            self.config.epoch_length,
        ).len() as u32) {
            Some(Error::InvalidRewardsDataLength)
        } else {
            None
        }
    }

    /// The validator of `subnet_id` at `epoch` submits the scores `data` at
    /// `block`, attesting them itself.
    pub fn do_validate(
        &mut self,
        subnet_id: u32,
        account_id: AccountId,
        block: u64,
        epoch_length: u64,
        epoch: u32,
        data: Vec<SubnetNodeData>,
        args: Option<Vec<u8>>,
    ) -> (r: Result<(), Error>)
        requires
            old(self).wf(),
        ensures
            final(self).wf(),
            r == match old(self).validate_error(subnet_id, account_id, epoch, data@) {
                Some(e) => Err(e),
                None => Ok(()),
            },
            r is Err ==> *final(self) == *old(self),
            r is Ok ==> {
                let ek = SubnetEpoch { subnet_id, epoch };
                let n = final(self).consensus.rewards_submission@[ek];
                let kept = old(self).validated_scores(subnet_id, epoch, data@);
                &&& final(self).consensus.rewards_submission@.contains_key(ek)
                &&& final(self).consensus.rewards_submission@.remove(ek) == old(self).consensus.rewards_submission@
                &&& n.validator == account_id
                &&& n.data@ == kept
                &&& n.sum == saturated_score_sum(kept)
                &&& n.nodes_count == old(self).registry.classified_accounts(
                    subnet_id,
                    3,
                    epoch as u64,
                    old(self).config.epoch_length,
                ).len() as u32
                &&& n.attests@ == Map::<AccountId, u64>::empty().insert(account_id, block)
                &&& !n.complete
                &&& final(self).consensus.subnet_penalty_count == old(self).consensus.subnet_penalty_count
                &&& final(self).consensus.account_penalty_count == old(self).consensus.account_penalty_count
                &&& final(self).consensus.sequential_absent == old(self).consensus.sequential_absent
                &&& final(self).consensus.node_penalties == old(self).consensus.node_penalties
                &&& final(self).consensus.rewards_validator == old(self).consensus.rewards_validator
                &&& final(self).registry == old(self).registry
                &&& final(self).staking == old(self).staking
                &&& final(self).balances == old(self).balances
                &&& final(self).config == old(self).config
                &&& final(self).block == old(self).block
            },
    {
        let _ = epoch_length;
        let _ = args;
        let ek = SubnetEpoch { subnet_id, epoch };
        match self.consensus.rewards_validator.get(&ek) {
            Some(v) => {
                if *v != account_id {
                    return Err(Error::InvalidValidator);
                }
            },
            None => {
                return Err(Error::InvalidValidator);
            },
        }
        if self.consensus.rewards_submission.contains_key(&ek) {
            return Err(Error::SubnetRewardsAlreadySubmitted);
        }
        let len = self.config.epoch_length;
        let deduped = dedup_by_peer(data);
        let kept = self.registry.retain_included(subnet_id, deduped, epoch as u64, len);
        let included = self.registry.get_classified_subnet_node_ids(subnet_id, SubnetNodeClass::Included, epoch as u64, len);
        if (#[verifier::truncate] (kept.len() as u32)) > (#[verifier::truncate] (included.len() as u32)) {
            return Err(Error::InvalidRewardsDataLength);
        }
        let submittable = self.registry.get_classified_subnet_node_ids(subnet_id, SubnetNodeClass::Submittable, epoch as u64, len);
        let sum = sum_scores(&kept);
        let mut attests: Table<AccountId, u64> = Table::new();
        attests.insert(account_id, block);
        let rewards_data = RewardsData {
            validator: account_id,
            nodes_count: #[verifier::truncate] (submittable.len() as u32),
            sum,
            attests,
            data: kept,
            complete: false,
        };
        self.consensus.rewards_submission.insert(ek, rewards_data);
        proof {
            assert(self.consensus.rewards_submission@.remove(ek) =~= old(self).consensus.rewards_submission@);
        }
        Ok(())
    }
}


impl Network {
    /// `account_id`, the validator of `subnet_id` at the current epoch, submits `data`.
    pub fn validate(&mut self, account_id: AccountId, subnet_id: u32, data: Vec<SubnetNodeData>) -> (r: Result<(), Error>)
        requires
            old(self).wf(),
        ensures
            nodes_shrunk(*old(self), *final(self)),
            final(self).wf(),
            r == match old(self).validate_error(subnet_id, account_id, old(self).epoch() as u32, data@) {
                Some(e) => Err(e),
                None => Ok(()),
            },
            r is Err ==> *final(self) == *old(self),
    {
        let block = self.block;
        let epoch_length = self.config.epoch_length;
        let epoch = #[verifier::truncate] ((block / epoch_length) as u32);
        self.do_validate(subnet_id, account_id, block, epoch_length, epoch, data, None)
    }

    /// `account_id` attests the submission of `subnet_id` at the current epoch.
    pub fn attest(&mut self, account_id: AccountId, subnet_id: u32) -> (r: Result<(), Error>)
        requires
            old(self).wf(),
        ensures
            nodes_shrunk(*old(self), *final(self)),
            final(self).wf(),
            r == match old(self).attest_error(subnet_id, account_id, old(self).epoch() as u32, old(self).config.epoch_length) {
                Some(e) => Err(e),
                None => Ok(()),
            },
            r is Err ==> *final(self) == *old(self),
            r is Ok ==> {
                let ek = SubnetEpoch { subnet_id, epoch: old(self).epoch() as u32 };
                &&& final(self).consensus.rewards_submission@[ek].attests@ == old(self).consensus.rewards_submission@[ek].attests@.insert(
                    account_id,
                    old(self).block,
                )
                &&& final(self).consensus.rewards_submission@.remove(ek) == old(self).consensus.rewards_submission@.remove(ek)
            },
    {
        let block = self.block;
        let epoch_length = self.config.epoch_length;
        let epoch = #[verifier::truncate] ((block / epoch_length) as u32);
        self.do_attest(subnet_id, account_id, block, epoch_length, epoch)
    }
}

/// The epoch whose validators the block-initialization hook chooses at `block`:
/// the hook acts on the block after each epoch boundary past the first epoch.
pub open spec fn hook_epoch(block: u64, epoch_length: u64) -> Option<u32> {
    if block - 1 >= epoch_length && (block - 1) % (epoch_length as int) == 0 {
        Some((block / epoch_length) as u32)
    } else {
        None
    }
}

/// The decision of the block-initialization hook at `block`: the epoch whose
/// validators are chosen, if any.
pub fn on_initialize(block: u64, epoch_length: u64) -> (r: Option<u32>)
    requires
        block >= 1,
        epoch_length > 0,
    ensures
        r == hook_epoch(block, epoch_length),
{
    if block - 1 >= epoch_length && (block - 1) % epoch_length == 0 {
        Some(#[verifier::truncate] ((block / epoch_length) as u32))
    } else {
        None
    }
}


/// Weight of a validator in the weighted choice: its reputation.
pub fn calculate_weight(reputation: u32) -> (w: u32)
    ensures
        w == reputation,
{
    if reputation == 0 {
        0
    } else {
        reputation
    }
}

/// Sum of the reputations of the first `n` candidates.
pub open spec fn reputation_sum(candidates: Seq<(AccountId, u32)>, n: int) -> int
    decreases n,
{
    if n <= 0 {
        0
    } else {
        reputation_sum(candidates, n - 1) + candidates[n - 1].1
    }
}

/// The first candidate whose running sum of reputations passes `pick`.
pub open spec fn weighted_pick(candidates: Seq<(AccountId, u32)>, pick: int) -> Option<int> {
    if exists|i: int| 0 <= i < candidates.len() && pick < #[trigger] reputation_sum(candidates, i + 1) {
        Some(choose|i: int|
            0 <= i < candidates.len() && pick < #[trigger] reputation_sum(candidates, i + 1) && forall|j: int|
                0 <= j < i ==> pick >= #[trigger] reputation_sum(candidates, j + 1))
    } else {
        None
    }
}

/// Running sums of reputations do not decrease.
pub proof fn lemma_reputation_sum_monotone(candidates: Seq<(AccountId, u32)>, a: int, b: int)
    requires
        0 <= a <= b,
    ensures
        reputation_sum(candidates, a) <= reputation_sum(candidates, b),
    decreases b - a,
{
    if a < b {
        lemma_reputation_sum_monotone(candidates, a, b - 1);
    }
}

/// The candidate at `j` is the weighted pick when its running sum is the first
/// to pass `pick`.
pub proof fn lemma_weighted_pick_at(candidates: Seq<(AccountId, u32)>, pick: int, j: int)
    requires
        0 <= j < candidates.len(),
        pick < reputation_sum(candidates, j + 1),
        forall|m: int| 0 <= m < j ==> pick >= #[trigger] reputation_sum(candidates, m + 1),
    ensures
        weighted_pick(candidates, pick) == Some(j),
{
    let c = choose|i: int|
        0 <= i < candidates.len() && pick < #[trigger] reputation_sum(candidates, i + 1) && forall|jj: int|
            0 <= jj < i ==> pick >= #[trigger] reputation_sum(candidates, jj + 1);
    assert(0 <= c < candidates.len() && pick < reputation_sum(candidates, c + 1));
    if c < j {
        assert(pick >= reputation_sum(candidates, c + 1));
    } else if c > j {
        assert(pick >= reputation_sum(candidates, j + 1));
    }
}

/// No candidate is picked when no running sum passes `pick`.
pub proof fn lemma_weighted_pick_none(candidates: Seq<(AccountId, u32)>, pick: int)
    requires
        forall|m: int| 0 <= m < candidates.len() ==> pick >= #[trigger] reputation_sum(candidates, m + 1),
    ensures
        weighted_pick(candidates, pick) is None,
{
}

impl Network {
    /// Chooses the validator of `subnet_id` at `epoch` among `candidates`
    /// (accounts with their reputation), each with a chance in proportion to its
    /// reputation: `random` modulo one more than the total reputation picks the
    /// first candidate whose running sum passes it. Nothing happens when the
    /// total is zero or the pick lies at the total.
    #[verifier::spinoff_prover]
    #[verifier::rlimit(40)]
    pub fn select_validator(&mut self, subnet_id: u32, candidates: &Vec<(AccountId, u32)>, epoch: u32, random: u32)
        requires
            old(self).wf(),
            reputation_sum(candidates@, candidates@.len() as int) < u32::MAX,
        ensures
            nodes_shrunk(*old(self), *final(self)),
            final(self).wf(),
            ({
                let total = reputation_sum(candidates@, candidates@.len() as int);
                let pick = random as int % (total + 1);
                if total == 0 || weighted_pick(candidates@, pick) is None {
                    *final(self) == *old(self)
                } else {
                    &&& final(self).consensus.rewards_validator@ == old(self).consensus.rewards_validator@.insert(
                        SubnetEpoch { subnet_id, epoch },
                        candidates@[weighted_pick(candidates@, pick)->0].0,
                    )
                    &&& final(self).consensus.subnet_penalty_count == old(self).consensus.subnet_penalty_count
                    &&& final(self).consensus.account_penalty_count == old(self).consensus.account_penalty_count
                    &&& final(self).consensus.sequential_absent == old(self).consensus.sequential_absent
                    &&& final(self).consensus.node_penalties == old(self).consensus.node_penalties
                    &&& final(self).consensus.rewards_submission == old(self).consensus.rewards_submission
                    &&& final(self).registry == old(self).registry
                    &&& final(self).staking == old(self).staking
                    &&& final(self).balances == old(self).balances
                    &&& final(self).config == old(self).config
                    &&& final(self).block == old(self).block
                }
            }),
    {
        let ghost cs = candidates@;
        let ghost total_s = reputation_sum(cs, cs.len() as int);
        let mut total: u32 = 0;
        let mut i: usize = 0;
        while i < candidates.len()
            invariant
                cs == candidates@,
                i <= cs.len(),
                total == reputation_sum(cs, i as int),
                total_s == reputation_sum(cs, cs.len() as int),
                total_s < u32::MAX,
            decreases cs.len() - i,
        {
            proof {
                lemma_reputation_sum_monotone(cs, i + 1, cs.len() as int);
            }
            total = total + calculate_weight(candidates[i].1);
            i = i + 1;
        }
        if total == 0 {
            return;
        }
        let pick = random % (total + 1);
        let mut cumulative: u32 = 0;
        let mut j: usize = 0;
        while j < candidates.len()
            invariant
                self == old(self),
                self.wf(),
                cs == candidates@,
                j <= cs.len(),
                cumulative == reputation_sum(cs, j as int),
                total == total_s,
                total_s == reputation_sum(cs, cs.len() as int),
                total_s < u32::MAX,
                pick == random as int % (total + 1),
                forall|m: int| 0 <= m < j ==> pick >= #[trigger] reputation_sum(cs, m + 1),
            decreases cs.len() - j,
        {
            proof {
                lemma_reputation_sum_monotone(cs, j + 1, cs.len() as int);
            }
            cumulative = cumulative + candidates[j].1;
            if pick < cumulative {
                let account = candidates[j].0;
                self.consensus.rewards_validator.insert(SubnetEpoch { subnet_id, epoch }, account);
                proof {
                    lemma_weighted_pick_at(cs, pick as int, j as int);
                }
                return;
            }
            j = j + 1;
        }
        proof {
            lemma_weighted_pick_none(cs, pick as int);
        }
    }
}

} // verus!
