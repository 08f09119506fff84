//! Settlement of an epoch: rewards, absences and penalties, subnet by subnet.

use vstd::prelude::*;
use crate::math::{percent_div, percent_mul, spec_percent_div, spec_percent_mul, PERCENTAGE_FACTOR};
use crate::network::{claims_kept, nodes_shrunk, all_at_most, Network, NetworkConfig, read_u128, read_u32, sat_add, sat_sub, u32_at};
use crate::registry::{node_detached, sat_dec, subnet_dropped, Registry};
use crate::staking::stake_increased;
use crate::table::{Table, SubnetAccount, SubnetEpoch};
use crate::types::{AccountId, RewardsData, SubnetNodeData, SubnetRemovalReason};
use crate::validation::{spec_validator_reward, validator_slashed};
use crate::utils::bytes_eq;

verus! {

/// How an epoch's rewards are sized and which nodes are settled.
#[derive(Clone, Copy, PartialEq, Eq, Structural, Debug)]
pub enum RewardScheme {
    /// Rewards per MB of subnet memory; attestation counted against the
    /// subnet's Submittable nodes, at most 100%; every node of the subnet is settled.
    ByMemory,
    /// A flat reward per subnet; attestation counted against the submission's
    /// node count; every node of the subnet is settled.
    Flat,
    /// As `Flat`, settling only the nodes of the Included class.
    FlatIncluded,
}

/// Terms under which the nodes of one subnet are settled for an epoch.
#[derive(Clone, Copy, Debug)]
pub struct SettleParams {
    pub subnet_id: u32,
    pub block: u64,
    pub validator: AccountId,
    pub attestation_percentage: u128,
    /// Share of the subnet's reward handed out by score.
    pub subnet_reward: u128,
    /// Extra reward of the validator.
    pub validator_reward: u128,
    /// Attestation above which absent nodes count an absence.
    pub removal_threshold: u128,
    /// Absences after which a node is removed.
    pub max_absent: u32,
    /// Sum of the submitted scores.
    pub sum: u128,
}

/// Peers and scores of submitted data.
pub open spec fn score_view(s: Seq<SubnetNodeData>) -> Seq<(Seq<u8>, u128)> {
    s.map_values(|d: SubnetNodeData| (d.peer_id@, d.score))
}

/// Score of the first entry for `peer`.
pub open spec fn peer_score(s: Seq<(Seq<u8>, u128)>, peer: Seq<u8>) -> Option<u128>
    decreases s.len(),
{
    if s.len() == 0 {
        None
    } else if s[0].0 == peer {
        Some(s[0].1)
    } else {
        peer_score(s.drop_first(), peer)
    }
}

/// Reward of `account` scored `score`: its share of the sum of scores applied
/// to the subnet reward, plus the validator reward for the validator.
pub open spec fn node_reward(p: SettleParams, account: AccountId, score: u128) -> int {
    spec_percent_mul(spec_percent_div(score, p.sum), p.subnet_reward) + if account == p.validator {
        p.validator_reward as int
    } else {
        0
    }
}

/// `new` is `old` but for stake and absences.
pub open spec fn frame_stake_absent(old: Network, new: Network) -> bool {
    &&& new.registry == old.registry
    &&& new.balances == old.balances
    &&& new.config == old.config
    &&& new.block == old.block
    &&& new.consensus.subnet_penalty_count == old.consensus.subnet_penalty_count
    &&& new.consensus.account_penalty_count == old.consensus.account_penalty_count
    &&& new.consensus.node_penalties == old.consensus.node_penalties
    &&& new.consensus.rewards_validator == old.consensus.rewards_validator
    &&& new.consensus.rewards_submission == old.consensus.rewards_submission
}

/// The settlement of the node of `account` under `p`, given the submitted
/// `scores` and the accounts that `attested`. A node without a score counts an
/// absence when attestation passed the removal threshold, and is removed past
/// the maximum absences; a scored node that attested loses one absence and is
/// credited its reward as stake; others are left alone.
pub open spec fn node_settled(
    old: Network,
    new: Network,
    p: SettleParams,
    scores: Seq<(Seq<u8>, u128)>,
    attested: Set<AccountId>,
    account: AccountId,
) -> bool {
    let k = SubnetAccount { subnet_id: p.subnet_id, account };
    let absent = u32_at(old.consensus.sequential_absent@, k);
    if !old.registry.nodes@.contains_key(k) {
        new == old
    } else {
        match peer_score(scores, old.registry.nodes@[k].peer_id@) {
            None => if p.attestation_percentage > p.removal_threshold {
                &&& new.consensus.sequential_absent@ == old.consensus.sequential_absent@.insert(k, (absent + 1) as u32)
                &&& new.staking == old.staking
                &&& if absent + 1 > p.max_absent {
                    &&& node_detached(old, new, p.block, p.subnet_id, account)
                    &&& new.consensus.node_penalties@ == old.consensus.node_penalties@.remove(k)
                } else {
                    frame_stake_absent(old, new)
                }
            } else {
                new == old
            },
            Some(score) => if !attested.contains(account) {
                new == old
            } else {
                &&& new.consensus.sequential_absent@ == old.consensus.sequential_absent@.insert(k, sat_dec(absent))
                &&& frame_stake_absent(old, new)
                &&& if node_reward(p, account, score) == 0 {
                    new.staking == old.staking
                } else {
                    stake_increased(old.staking, new.staking, account, p.subnet_id, node_reward(p, account, score) as u128)
                }
            },
        }
    }
}

/// Step `i` of `trace` settles the `i`-th of `accounts`.
pub open spec fn settle_step(
    trace: Seq<Network>,
    i: int,
    p: SettleParams,
    scores: Seq<(Seq<u8>, u128)>,
    attested: Set<AccountId>,
    accounts: Seq<AccountId>,
) -> bool {
    node_settled(trace[i], trace[i + 1], p, scores, attested, accounts[i])
}

/// `trace` is a run of settlements of `accounts`, one state per step.
pub open spec fn is_settle_trace(
    trace: Seq<Network>,
    p: SettleParams,
    scores: Seq<(Seq<u8>, u128)>,
    attested: Set<AccountId>,
    accounts: Seq<AccountId>,
) -> bool {
    &&& trace.len() == accounts.len() + 1
    &&& forall|i: int| 0 <= i < accounts.len() ==> #[trigger] settle_step(trace, i, p, scores, attested, accounts)
}

/// Settling the nodes of `accounts`, in order, leads from `old` to `new`.
pub open spec fn nodes_settled(
    old: Network,
    new: Network,
    p: SettleParams,
    scores: Seq<(Seq<u8>, u128)>,
    attested: Set<AccountId>,
    accounts: Seq<AccountId>,
) -> bool {
    exists|trace: Seq<Network>|
        #[trigger] is_settle_trace(trace, p, scores, attested, accounts) && trace[0] == old && trace.last() == new
}

/// What settling the nodes of `subnet_id` leaves alone: configuration, block,
/// balances, subnets, subnet and account penalties, chosen validators, and the
/// absences and node penalties of other subnets.
pub open spec fn settle_frame(old: Network, new: Network, subnet_id: u32) -> bool {
    &&& new.config == old.config
    &&& new.block == old.block
    &&& new.balances == old.balances
    &&& new.registry.subnets == old.registry.subnets
    &&& new.registry.total_subnets == old.registry.total_subnets
    &&& new.registry.node_classes == old.registry.node_classes
    &&& new.registry.delegate_stake_balance == old.registry.delegate_stake_balance
    &&& new.consensus.subnet_penalty_count == old.consensus.subnet_penalty_count
    &&& new.consensus.account_penalty_count == old.consensus.account_penalty_count
    &&& new.consensus.rewards_validator == old.consensus.rewards_validator
    &&& forall|k: SubnetAccount|
        k.subnet_id != subnet_id ==> #[trigger] u32_at(new.consensus.sequential_absent@, k) == u32_at(
            old.consensus.sequential_absent@,
            k,
        )
    &&& forall|k: SubnetAccount|
        k.subnet_id != subnet_id ==> #[trigger] u32_at(new.consensus.node_penalties@, k) == u32_at(
            old.consensus.node_penalties@,
            k,
        )
}

/// The frame of a subnet's settlement composes.
pub proof fn lemma_settle_frame_trans(a: Network, b: Network, c: Network, subnet_id: u32)
    requires
        settle_frame(a, b, subnet_id),
        settle_frame(b, c, subnet_id),
    ensures
        settle_frame(a, c, subnet_id),
{
    assert forall|k: SubnetAccount| k.subnet_id != subnet_id implies #[trigger] u32_at(c.consensus.sequential_absent@, k)
        == u32_at(a.consensus.sequential_absent@, k) by {
        assert(u32_at(b.consensus.sequential_absent@, k) == u32_at(a.consensus.sequential_absent@, k));
    }
    assert forall|k: SubnetAccount| k.subnet_id != subnet_id implies #[trigger] u32_at(c.consensus.node_penalties@, k)
        == u32_at(a.consensus.node_penalties@, k) by {
        assert(u32_at(b.consensus.node_penalties@, k) == u32_at(a.consensus.node_penalties@, k));
    }
}

/// Settling one node touches the absences of that node alone, within the frame.
pub proof fn lemma_node_settled_frame(
    old: Network,
    new: Network,
    p: SettleParams,
    scores: Seq<(Seq<u8>, u128)>,
    attested: Set<AccountId>,
    account: AccountId,
)
    requires
        node_settled(old, new, p, scores, attested, account),
    ensures
        settle_frame(old, new, p.subnet_id),
        forall|k: SubnetAccount|
            k != (SubnetAccount { subnet_id: p.subnet_id, account }) ==> #[trigger] u32_at(new.consensus.sequential_absent@, k)
                == u32_at(old.consensus.sequential_absent@, k),
{
}

/// A copy of submitted scores.
pub fn copy_scores(data: &Vec<SubnetNodeData>) -> (r: Vec<SubnetNodeData>)
    ensures
        score_view(r@) == score_view(data@),
{
    let mut out: Vec<SubnetNodeData> = Vec::new();
    let mut i: usize = 0;
    while i < data.len()
        invariant
            i <= data.len(),
            out@.len() == i,
            forall|j: int| 0 <= j < i ==> #[trigger] out@[j].peer_id@ == data@[j].peer_id@ && out@[j].score == data@[j].score,
        decreases data.len() - i,
    {
        out.push(data[i].copy());
        i = i + 1;
    }
    proof {
        assert(score_view(out@) =~= score_view(data@));
    }
    out
}

/// The score of the first entry for `peer`.
pub fn find_score(scores: &Vec<SubnetNodeData>, peer: &Vec<u8>) -> (r: Option<u128>)
    ensures
        r == peer_score(score_view(scores@), peer@),
{
    let ghost v = score_view(scores@);
    let mut i: usize = 0;
    proof {
        assert(v.subrange(0, v.len() as int) =~= v);
    }
    while i < scores.len()
        invariant
            i <= scores.len(),
            v == score_view(scores@),
            v.len() == scores@.len(),
            peer_score(v, peer@) == peer_score(v.subrange(i as int, v.len() as int), peer@),
        decreases scores.len() - i,
    {
        let ghost rest = v.subrange(i as int, v.len() as int);
        proof {
            assert(rest[0] == v[i as int]);
            assert(rest.drop_first() =~= v.subrange(i + 1, v.len() as int));
        }
        if bytes_eq(&scores[i].peer_id, peer) {
            return Some(scores[i].score);
        }
        i = i + 1;
    }
    proof {
        assert(v.subrange(i as int, v.len() as int).len() == 0);
    }
    None
}

impl Network {
    /// Settles the node of `account` under `p` for the submitted `scores` and
    /// attestations `attests`.
    pub fn settle_node(&mut self, p: &SettleParams, scores: &Vec<SubnetNodeData>, attests: &Table<AccountId, u64>, account: AccountId)
        requires
            old(self).wf(),
            attests.wf(),
            p.validator_reward <= u128::MAX / PERCENTAGE_FACTOR,
            u32_at(old(self).consensus.sequential_absent@, SubnetAccount { subnet_id: p.subnet_id, account }) < u32::MAX,
        ensures
            nodes_shrunk(*old(self), *final(self)),
            final(self).wf(),
            node_settled(*old(self), *final(self), *p, score_view(scores@), attests@.dom(), account),
    {
        let k = SubnetAccount { subnet_id: p.subnet_id, account };
        let peer = match self.registry.nodes.get(&k) {
            Some(n) => n.peer_id.clone(),
            None => {
                return;
            },
        };
        match find_score(scores, &peer) {
            None => {
                if p.attestation_percentage > p.removal_threshold {
                    let absent = read_u32(&self.consensus.sequential_absent, &k);
                    self.consensus.sequential_absent.insert(k, absent + 1);
                    if absent + 1 > p.max_absent {
                        self.perform_remove_subnet_node(p.block, p.subnet_id, account);
                    }
                }
            },
            Some(score) => {
                if !attests.contains_key(&account) {
                    return;
                }
                let absent = read_u32(&self.consensus.sequential_absent, &k);
                let dec = if absent > 0 { absent - 1 } else { 0 };
                self.consensus.sequential_absent.insert(k, dec);
                let share = percent_div(score, p.sum);
                let mut reward = percent_mul(share, p.subnet_reward);
                if account == p.validator {
                    reward = reward + p.validator_reward;
                }
                if reward == 0 {
                    return;
                }
                self.staking.increase_account_stake(account, p.subnet_id, reward);
            },
        }
    }

    /// Settles the nodes of `accounts`, in order.
    pub fn settle_nodes(&mut self, p: &SettleParams, scores: &Vec<SubnetNodeData>, attests: &Table<AccountId, u64>, accounts: &Vec<AccountId>)
        requires
            old(self).wf(),
            attests.wf(),
            p.validator_reward <= u128::MAX / PERCENTAGE_FACTOR,
            accounts@.no_duplicates(),
            forall|a: AccountId|
                accounts@.contains(a) ==> #[trigger] u32_at(
                    old(self).consensus.sequential_absent@,
                    SubnetAccount { subnet_id: p.subnet_id, account: a },
                ) < u32::MAX,
        ensures
            nodes_shrunk(*old(self), *final(self)),
            final(self).wf(),
            nodes_settled(*old(self), *final(self), *p, score_view(scores@), attests@.dom(), accounts@),
            settle_frame(*old(self), *final(self), p.subnet_id),
    {
        let ghost orig = *self;
        let ghost sv = score_view(scores@);
        let ghost at = attests@.dom();
        let ghost mut trace: Seq<Network> = seq![*self];
        let mut i: usize = 0;
        proof {
            assert(accounts@.take(0) =~= Seq::<AccountId>::empty());
        }
        while i < accounts.len()
            invariant
                self.wf(),
                attests.wf(),
                orig == *old(self),
                sv == score_view(scores@),
                at == attests@.dom(),
                p.validator_reward <= u128::MAX / PERCENTAGE_FACTOR,
                accounts@.no_duplicates(),
                i <= accounts.len(),
                is_settle_trace(trace, *p, sv, at, accounts@.take(i as int)),
                trace[0] == orig,
                trace.last() == *self,
                settle_frame(orig, *self, p.subnet_id),
                nodes_shrunk(orig, *self),
                forall|j: int|
                    i <= j < accounts@.len() ==> #[trigger] u32_at(
                        self.consensus.sequential_absent@,
                        SubnetAccount { subnet_id: p.subnet_id, account: accounts@[j] },
                    ) == u32_at(orig.consensus.sequential_absent@, SubnetAccount { subnet_id: p.subnet_id, account: accounts@[j] }),
                forall|a: AccountId|
                    accounts@.contains(a) ==> #[trigger] u32_at(
                        orig.consensus.sequential_absent@,
                        SubnetAccount { subnet_id: p.subnet_id, account: a },
                    ) < u32::MAX,
            decreases accounts.len() - i,
        {
            let a = accounts[i];
            let ghost mid = *self;
            proof {
                assert(accounts@.contains(a));
                assert(u32_at(self.consensus.sequential_absent@, SubnetAccount { subnet_id: p.subnet_id, account: accounts@[i as int] })
                    == u32_at(orig.consensus.sequential_absent@, SubnetAccount { subnet_id: p.subnet_id, account: accounts@[i as int] }));
            }
            self.settle_node(p, scores, attests, a);
            proof {
                lemma_node_settled_frame(mid, *self, *p, sv, at, a);
                lemma_settle_frame_trans(orig, mid, *self, p.subnet_id);
                let t = accounts@.take(i + 1);
                let old_trace = trace;
                trace = trace.push(*self);
                assert forall|j: int| 0 <= j < t.len() implies #[trigger] settle_step(trace, j, *p, sv, at, t) by {
                    if j < i {
                        assert(settle_step(old_trace, j, *p, sv, at, accounts@.take(i as int)));
                        assert(trace[j] == old_trace[j]);
                        assert(trace[j + 1] == old_trace[j + 1]);
                        assert(t[j] == accounts@.take(i as int)[j]);
                    } else {
                        assert(trace[j] == mid);
                        assert(t[j] == a);
                    }
                }
                assert(is_settle_trace(trace, *p, sv, at, t));
                assert forall|j: int| i + 1 <= j < accounts@.len() implies #[trigger] u32_at(
                    self.consensus.sequential_absent@,
                    SubnetAccount { subnet_id: p.subnet_id, account: accounts@[j] },
                ) == u32_at(orig.consensus.sequential_absent@, SubnetAccount { subnet_id: p.subnet_id, account: accounts@[j] }) by {
                    assert(accounts@[j] != accounts@[i as int]);
                    assert(u32_at(mid.consensus.sequential_absent@, SubnetAccount { subnet_id: p.subnet_id, account: accounts@[j] })
                        == u32_at(orig.consensus.sequential_absent@, SubnetAccount { subnet_id: p.subnet_id, account: accounts@[j] }));
                }
            }
            i = i + 1;
        }
        proof {
            assert(accounts@.take(accounts@.len() as int) =~= accounts@);
            assert(is_settle_trace(trace, *p, sv, at, accounts@));
        }
    }
}

/// Accounts settled for `subnet_id` under `scheme`: the members of the
/// Included class for `FlatIncluded`, every node of the subnet otherwise.
pub open spec fn settled_accounts(reg: Registry, scheme: RewardScheme, subnet_id: u32) -> Seq<AccountId> {
    if scheme == RewardScheme::FlatIncluded {
        reg.node_classes@[1].subnet_accounts(subnet_id)
    } else {
        reg.nodes.subnet_accounts(subnet_id)
    }
}

/// Share of the expected attesters that attested `sub`, the submission of
/// `subnet_id`: against the Submittable class (at most 100%) for `ByMemory`,
/// against the submission's node count otherwise.
pub open spec fn attestation_of(s: Network, scheme: RewardScheme, subnet_id: u32, sub: RewardsData) -> u128 {
    let attests = sub.attests@.dom().len();
    let expected: nat = if scheme == RewardScheme::ByMemory {
        s.registry.node_classes@[3].subnet_accounts(subnet_id).len()
    } else {
        sub.nodes_count as nat
    };
    let p = spec_percent_div(attests as u128, expected as u128);
    if scheme == RewardScheme::ByMemory && p > PERCENTAGE_FACTOR {
        PERCENTAGE_FACTOR
    } else {
        p
    }
}

/// Rewards of a subnet with `memory_mb` of memory: the part its nodes share
/// by score, and the part its delegators receive.
pub open spec fn subnet_rewards(scheme: RewardScheme, config: NetworkConfig, memory_mb: u128) -> (u128, u128) {
    if scheme == RewardScheme::ByMemory {
        let overall = spec_percent_mul(config.base_reward_per_mb, memory_mb);
        let delegate = spec_percent_mul(overall, config.delegate_stake_rewards_percentage);
        (sat_sub(overall, delegate), delegate)
    } else {
        let delegate = spec_percent_mul(config.base_subnet_reward, config.delegate_stake_rewards_percentage);
        (sat_sub(config.base_subnet_reward, delegate), delegate)
    }
}

/// Terms of the settlement of the nodes of `subnet_id` for the submission `sub`.
pub open spec fn settle_params(s: Network, scheme: RewardScheme, subnet_id: u32, block: u64, sub: RewardsData) -> SettleParams {
    let att = attestation_of(s, scheme, subnet_id, sub);
    SettleParams {
        subnet_id,
        block,
        validator: sub.validator,
        attestation_percentage: att,
        subnet_reward: subnet_rewards(scheme, s.config, s.registry.subnets@[subnet_id].memory_mb).0,
        validator_reward: spec_validator_reward(s.config, att),
        removal_threshold: s.config.node_removal_threshold,
        max_absent: s.config.max_sequential_absent_subnet_node,
        sum: sub.sum,
    }
}

/// `new` is `old` but for the penalty counts of subnets and of accounts.
pub open spec fn frame_penalty_counts(old: Network, new: Network) -> bool {
    &&& new.consensus.sequential_absent == old.consensus.sequential_absent
    &&& new.consensus.node_penalties == old.consensus.node_penalties
    &&& new.consensus.rewards_validator == old.consensus.rewards_validator
    &&& new.consensus.rewards_submission == old.consensus.rewards_submission
    &&& new.registry == old.registry
    &&& new.staking == old.staking
    &&& new.balances == old.balances
    &&& new.config == old.config
    &&& new.block == old.block
}

/// The penalty count of `subnet_id` grows by one.
pub open spec fn subnet_penalized(old: Network, new: Network, subnet_id: u32) -> bool {
    &&& new.consensus.subnet_penalty_count@ == old.consensus.subnet_penalty_count@.insert(
        subnet_id,
        (u32_at(old.consensus.subnet_penalty_count@, subnet_id) + 1) as u32,
    )
    &&& new.consensus.account_penalty_count == old.consensus.account_penalty_count
    &&& frame_penalty_counts(old, new)
}

/// The penalty count of `account` grows by one.
pub open spec fn account_penalized(old: Network, new: Network, account: AccountId) -> bool {
    &&& new.consensus.account_penalty_count@ == old.consensus.account_penalty_count@.insert(
        account,
        (u32_at(old.consensus.account_penalty_count@, account) + 1) as u32,
    )
    &&& new.consensus.subnet_penalty_count == old.consensus.subnet_penalty_count
    &&& frame_penalty_counts(old, new)
}

/// A rewarded epoch of `subnet_id` ends: its delegators receive
/// `delegate_reward` and its penalty count drops by one.
pub open spec fn epoch_closed(old: Network, new: Network, subnet_id: u32, delegate_reward: u128) -> bool {
    &&& new.registry.delegate_stake_balance@ == old.registry.delegate_stake_balance@.insert(
        subnet_id,
        sat_add(old.registry.delegate_stake(subnet_id), delegate_reward),
    )
    &&& new.consensus.subnet_penalty_count@ == old.consensus.subnet_penalty_count@.insert(
        subnet_id,
        sat_dec(u32_at(old.consensus.subnet_penalty_count@, subnet_id)),
    )
    &&& new.registry.total_subnets == old.registry.total_subnets
    &&& new.registry.subnets == old.registry.subnets
    &&& new.registry.subnet_activated == old.registry.subnet_activated
    &&& new.registry.nodes == old.registry.nodes
    &&& new.registry.total_subnet_nodes == old.registry.total_subnet_nodes
    &&& new.registry.subnet_accounts == old.registry.subnet_accounts
    &&& new.registry.node_classes == old.registry.node_classes
    &&& new.registry.account_subnets == old.registry.account_subnets
    &&& new.consensus.account_penalty_count == old.consensus.account_penalty_count
    &&& new.consensus.sequential_absent == old.consensus.sequential_absent
    &&& new.consensus.node_penalties == old.consensus.node_penalties
    &&& new.consensus.rewards_validator == old.consensus.rewards_validator
    &&& new.consensus.rewards_submission == old.consensus.rewards_submission
    &&& new.staking == old.staking
    &&& new.balances == old.balances
    &&& new.config == old.config
    &&& new.block == old.block
}

/// With `drop_on_penalties`, a subnet whose penalty count passed the maximum is
/// taken off the network; otherwise nothing happens.
pub open spec fn penalties_checked(old: Network, new: Network, drop_on_penalties: bool, subnet_id: u32) -> bool {
    if drop_on_penalties && u32_at(old.consensus.subnet_penalty_count@, subnet_id) > old.config.max_subnet_penalty_count {
        subnet_dropped(old, new, subnet_id)
    } else {
        new == old
    }
}

/// The settlement of `subnet_id` for `epoch` at `block`. With a submission:
/// too few scores count a penalty against the subnet (and against the validator
/// when attestation fell short); too little attestation slashes the validator;
/// otherwise the nodes are settled, the delegators rewarded and a penalty
/// forgiven. Under `FlatIncluded`, a subnet with no node in the Included class
/// has no class record to settle by and is left as it is. Without a submission
/// but with a chosen validator, the subnet is penalized and the validator
/// slashed in full.
pub open spec fn subnet_settled(
    old: Network,
    new: Network,
    scheme: RewardScheme,
    drop_on_penalties: bool,
    epoch: u32,
    block: u64,
    subnet_id: u32,
) -> bool {
    let ek = SubnetEpoch { subnet_id, epoch };
    if old.consensus.rewards_submission@.contains_key(ek) {
        let sub = old.consensus.rewards_submission@[ek];
        let p = settle_params(old, scheme, subnet_id, block, sub);
        if (sub.data@.len() as u32) < old.registry.subnets@[subnet_id].min_nodes {
            if p.attestation_percentage < old.config.min_attestation_percentage {
                exists|mid: Network| #[trigger] subnet_penalized(old, mid, subnet_id) && account_penalized(mid, new, sub.validator)
            } else {
                subnet_penalized(old, new, subnet_id)
            }
        } else if old.config.min_attestation_percentage > p.attestation_percentage {
            validator_slashed(old, new, subnet_id, sub.validator, p.attestation_percentage, block)
        } else if scheme == RewardScheme::FlatIncluded && settled_accounts(old.registry, scheme, subnet_id).len() == 0 {
            new == old
        } else {
            exists|mid: Network, mid2: Network|
                #[trigger] nodes_settled(old, mid, p, score_view(sub.data@), sub.attests@.dom(), settled_accounts(old.registry, scheme, subnet_id))
                    && #[trigger] epoch_closed(mid, mid2, subnet_id, subnet_rewards(scheme, old.config, old.registry.subnets@[subnet_id].memory_mb).1)
                    && penalties_checked(mid2, new, drop_on_penalties, subnet_id)
        }
    } else if old.consensus.rewards_validator@.contains_key(ek) {
        exists|mid: Network, mid2: Network|
            #[trigger] subnet_penalized(old, mid, subnet_id) && #[trigger] validator_slashed(
                mid,
                mid2,
                subnet_id,
                old.consensus.rewards_validator@[ek],
                0,
                block,
            ) && penalties_checked(mid2, new, drop_on_penalties, subnet_id)
    } else {
        penalties_checked(old, new, drop_on_penalties, subnet_id)
    }
}

/// What settling `subnet_id` leaves of the other subnets: their data, their
/// penalty counts, the absences and penalties of their nodes; an account's
/// penalty count grows by at most one.
pub open spec fn subnet_frame(old: Network, new: Network, subnet_id: u32) -> bool {
    &&& new.config == old.config
    &&& new.block == old.block
    &&& forall|id: u32| id != subnet_id ==> (#[trigger] new.registry.subnets@.contains_key(id) <==> old.registry.subnets@.contains_key(id))
    &&& forall|id: u32| id != subnet_id && old.registry.subnets@.contains_key(id) ==> #[trigger] new.registry.subnets@[id] == old.registry.subnets@[id]
    &&& forall|id: u32| id != subnet_id ==> #[trigger] u32_at(new.consensus.subnet_penalty_count@, id) == u32_at(old.consensus.subnet_penalty_count@, id)
    &&& forall|k: SubnetAccount| k.subnet_id != subnet_id ==> #[trigger] u32_at(new.consensus.sequential_absent@, k) == u32_at(old.consensus.sequential_absent@, k)
    &&& forall|k: SubnetAccount| k.subnet_id != subnet_id ==> #[trigger] u32_at(new.consensus.node_penalties@, k) == u32_at(old.consensus.node_penalties@, k)
    &&& forall|a: AccountId| #[trigger] u32_at(new.consensus.account_penalty_count@, a) <= u32_at(old.consensus.account_penalty_count@, a) + 1
}

/// Rewards of a subnet with `memory_mb` of memory, for its nodes and its delegators.
pub fn compute_subnet_rewards(scheme: RewardScheme, config: &NetworkConfig, memory_mb: u128) -> (r: (u128, u128))
    ensures
        r == subnet_rewards(scheme, *config, memory_mb),
{
    if scheme == RewardScheme::ByMemory {
        let overall = percent_mul(config.base_reward_per_mb, memory_mb);
        let delegate = percent_mul(overall, config.delegate_stake_rewards_percentage);
        (overall.saturating_sub(delegate), delegate)
    } else {
        let delegate = percent_mul(config.base_subnet_reward, config.delegate_stake_rewards_percentage);
        (config.base_subnet_reward.saturating_sub(delegate), delegate)
    }
}

impl Network {
    /// Adds one to the penalty count of `subnet_id`.
    pub fn penalize_subnet(&mut self, subnet_id: u32)
        requires
            old(self).wf(),
            u32_at(old(self).consensus.subnet_penalty_count@, subnet_id) < u32::MAX,
        ensures
            nodes_shrunk(*old(self), *final(self)),
            final(self).wf(),
            subnet_penalized(*old(self), *final(self), subnet_id),
    {
        let n = read_u32(&self.consensus.subnet_penalty_count, &subnet_id);
        self.consensus.subnet_penalty_count.insert(subnet_id, n + 1);
    }

    /// Adds one to the penalty count of `account`.
    pub fn penalize_account(&mut self, account: AccountId)
        requires
            old(self).wf(),
            u32_at(old(self).consensus.account_penalty_count@, account) < u32::MAX,
        ensures
            nodes_shrunk(*old(self), *final(self)),
            final(self).wf(),
            account_penalized(*old(self), *final(self), account),
    {
        let n = read_u32(&self.consensus.account_penalty_count, &account);
        self.consensus.account_penalty_count.insert(account, n + 1);
    }

    /// Ends a rewarded epoch of `subnet_id`: credits its delegators and forgives one penalty.
    pub fn close_epoch(&mut self, subnet_id: u32, delegate_reward: u128)
        requires
            old(self).wf(),
        ensures
            nodes_shrunk(*old(self), *final(self)),
            final(self).wf(),
            epoch_closed(*old(self), *final(self), subnet_id, delegate_reward),
    {
        let b = read_u128(&self.registry.delegate_stake_balance, &subnet_id);
        self.registry.delegate_stake_balance.insert(subnet_id, b.saturating_add(delegate_reward));
        let n = read_u32(&self.consensus.subnet_penalty_count, &subnet_id);
        let dec = if n > 0 { n - 1 } else { 0 };
        self.consensus.subnet_penalty_count.insert(subnet_id, dec);
    }

    /// Settles `subnet_id` for `epoch` at `block` under `scheme`; with
    /// `drop_on_penalties` a subnet past the maximum penalty count is taken off.
    pub fn settle_subnet(&mut self, scheme: RewardScheme, drop_on_penalties: bool, block: u64, epoch: u32, subnet_id: u32)
        requires
            old(self).wf(),
            old(self).registry.subnets@.contains_key(subnet_id),
            u32_at(old(self).consensus.subnet_penalty_count@, subnet_id) < u32::MAX,
            forall|a: AccountId| #[trigger] u32_at(old(self).consensus.account_penalty_count@, a) < u32::MAX,
            forall|a: AccountId|
                #[trigger] u32_at(old(self).consensus.node_penalties@, SubnetAccount { subnet_id, account: a }) < u32::MAX,
            forall|a: AccountId|
                #[trigger] u32_at(old(self).consensus.sequential_absent@, SubnetAccount { subnet_id, account: a }) < u32::MAX,
        ensures
            nodes_shrunk(*old(self), *final(self)),
            final(self).wf(),
            subnet_settled(*old(self), *final(self), scheme, drop_on_penalties, epoch, block, subnet_id),
            subnet_frame(*old(self), *final(self), subnet_id),
    {
        let ek = SubnetEpoch { subnet_id, epoch };
        let (min_nodes, memory_mb, path) = match self.registry.subnets.get(&subnet_id) {
            Some(d) => (d.min_nodes, d.memory_mb, d.path.clone()),
            None => {
                return;
            },
        };
        let found = match self.consensus.rewards_submission.get(&ek) {
            Some(sub) => Some(
                (sub.validator, sub.data.len(), sub.sum, sub.nodes_count, sub.attests.len(), copy_scores(&sub.data), sub.attests.copy()),
            ),
            None => None,
        };
        match found {
            Some((validator, data_len, sum, nodes_count, attests_len, scores, attests)) => {
                let expected: u128 = if scheme == RewardScheme::ByMemory {
                    self.registry.node_classes[3].accounts_of(subnet_id).len() as u128
                } else {
                    nodes_count as u128
                };
                let mut att = percent_div(attests_len as u128, expected);
                if scheme == RewardScheme::ByMemory && att > PERCENTAGE_FACTOR {
                    att = PERCENTAGE_FACTOR;
                }
                if (#[verifier::truncate] (data_len as u32)) < min_nodes {
                    let ghost s0 = *self;
                    self.penalize_subnet(subnet_id);
                    if att < self.config.min_attestation_percentage {
                        let ghost s1 = *self;
                        self.penalize_account(validator);
                        proof {
                            assert(subnet_penalized(s0, s1, subnet_id));
                        }
                    }
                    return;
                }
                if self.config.min_attestation_percentage > att {
                    self.slash_validator(subnet_id, validator, att, block);
                    return;
                }
                let accounts = if scheme == RewardScheme::FlatIncluded {
                    self.registry.node_classes[1].accounts_of(subnet_id)
                } else {
                    self.registry.nodes.accounts_of(subnet_id)
                };
                if scheme == RewardScheme::FlatIncluded && accounts.len() == 0 {
                    return;
                }
                let (nodes_reward, delegate_reward) = compute_subnet_rewards(scheme, &self.config, memory_mb);
                let p = SettleParams {
                    subnet_id,
                    block,
                    validator,
                    attestation_percentage: att,
                    subnet_reward: nodes_reward,
                    validator_reward: self.get_validator_reward(att),
                    removal_threshold: self.config.node_removal_threshold,
                    max_absent: self.config.max_sequential_absent_subnet_node,
                    sum,
                };
                let ghost s0 = *self;
                self.settle_nodes(&p, &scores, &attests, &accounts);
                let ghost s1 = *self;
                self.close_epoch(subnet_id, delegate_reward);
                let ghost s2 = *self;
                self.check_penalties(drop_on_penalties, subnet_id, &path);
                proof {
                    assert(nodes_settled(s0, s1, p, score_view(scores@), attests@.dom(), settled_accounts(s0.registry, scheme, subnet_id)));
                    assert(epoch_closed(s1, s2, subnet_id, delegate_reward));
                }
            },
            None => {
                let chosen = match self.consensus.rewards_validator.get(&ek) {
                    Some(v) => Some(*v),
                    None => None,
                };
                match chosen {
                    Some(v) => {
                        let ghost s0 = *self;
                        self.penalize_subnet(subnet_id);
                        let ghost s1 = *self;
                        self.slash_validator(subnet_id, v, 0, block);
                        let ghost s2 = *self;
                        self.check_penalties(drop_on_penalties, subnet_id, &path);
                        proof {
                            assert(subnet_penalized(s0, s1, subnet_id));
                            assert(validator_slashed(s1, s2, subnet_id, v, 0, block));
                        }
                    },
                    None => {
                        self.check_penalties(drop_on_penalties, subnet_id, &path);
                    },
                }
            },
        }
    }

    /// With `drop_on_penalties`, takes `subnet_id`, whose path is `path`, off
    /// the network once its penalty count passed the maximum.
    pub fn check_penalties(&mut self, drop_on_penalties: bool, subnet_id: u32, path: &Vec<u8>)
        requires
            old(self).wf(),
            old(self).registry.subnets@.contains_key(subnet_id),
            old(self).registry.subnets@[subnet_id].path@ == path@,
        ensures
            nodes_shrunk(*old(self), *final(self)),
            final(self).wf(),
            penalties_checked(*old(self), *final(self), drop_on_penalties, subnet_id),
    {
        if drop_on_penalties {
            let penalties = read_u32(&self.consensus.subnet_penalty_count, &subnet_id);
            if penalties > self.config.max_subnet_penalty_count {
                proof {
                    self.registry.lemma_path_subnet(subnet_id);
                }
                let _ = self.deactivate_subnet(path, SubnetRemovalReason::MaxPenalties);
            }
        }
    }
}


/// Step `i` of `trace` settles the `i`-th of the subnets `ids`.
pub open spec fn subnet_settle_step(
    trace: Seq<Network>,
    i: int,
    scheme: RewardScheme,
    drop_on_penalties: bool,
    epoch: u32,
    block: u64,
    ids: Seq<u32>,
) -> bool {
    subnet_settled(trace[i], trace[i + 1], scheme, drop_on_penalties, epoch, block, ids[i])
}

/// `trace` is a run of settlements of the subnets `ids`, one state per step.
pub open spec fn is_subnet_trace(
    trace: Seq<Network>,
    scheme: RewardScheme,
    drop_on_penalties: bool,
    epoch: u32,
    block: u64,
    ids: Seq<u32>,
) -> bool {
    &&& trace.len() == ids.len() + 1
    &&& forall|i: int| 0 <= i < ids.len() ==> #[trigger] subnet_settle_step(trace, i, scheme, drop_on_penalties, epoch, block, ids)
}

/// Settling the subnets `ids`, in order, leads from `old` to `new`.
pub open spec fn subnets_settled(
    old: Network,
    new: Network,
    scheme: RewardScheme,
    drop_on_penalties: bool,
    epoch: u32,
    block: u64,
    ids: Seq<u32>,
) -> bool {
    exists|trace: Seq<Network>|
        #[trigger] is_subnet_trace(trace, scheme, drop_on_penalties, epoch, block, ids) && trace[0] == old
            && trace.last() == new
}

/// Every penalty and absence counter has room for what one settlement of the
/// epoch adds: one for a subnet or a node, one per subnet for an account (it
/// may be the validator of each).
pub open spec fn counters_fit(s: Network) -> bool {
    &&& forall|id: u32| #[trigger] u32_at(s.consensus.subnet_penalty_count@, id) < u32::MAX
    &&& forall|k: SubnetAccount| #[trigger] u32_at(s.consensus.node_penalties@, k) < u32::MAX
    &&& forall|k: SubnetAccount| #[trigger] u32_at(s.consensus.sequential_absent@, k) < u32::MAX
    &&& forall|a: AccountId|
        #[trigger] u32_at(s.consensus.account_penalty_count@, a) + s.registry.subnets@.dom().len() <= u32::MAX
}

impl Network {
    /// Whether the counters have room for one settlement of an epoch.
    pub fn counters_fit_check(&self) -> (b: bool)
        requires
            self.wf(),
        ensures
            b == counters_fit(*self),
    {
        let n = self.registry.subnets.len();
        if n > u32::MAX as usize {
            proof {
                assert(u32_at(self.consensus.account_penalty_count@, 0) + self.registry.subnets@.dom().len() > u32::MAX);
            }
            return false;
        }
        let room = u32::MAX - n as u32;
        all_at_most(&self.consensus.subnet_penalty_count, u32::MAX - 1)
            && all_at_most(&self.consensus.node_penalties, u32::MAX - 1)
            && all_at_most(&self.consensus.sequential_absent, u32::MAX - 1)
            && all_at_most(&self.consensus.account_penalty_count, room)
    }

    /// Settles every subnet for `epoch` at `block` under `scheme`, in the order
    /// the subnets are stored.
    pub fn settle_epoch(&mut self, scheme: RewardScheme, drop_on_penalties: bool, block: u64, epoch: u32)
        requires
            old(self).wf(),
            counters_fit(*old(self)),
        ensures
            nodes_shrunk(*old(self), *final(self)),
            final(self).wf(),
            subnets_settled(*old(self), *final(self), scheme, drop_on_penalties, epoch, block, old(self).registry.subnets.key_seq()),
    {
        let ids = self.registry.subnets.keys();
        let ghost orig = *self;
        let ghost n = ids@.len();
        let ghost mut trace: Seq<Network> = seq![*self];
        proof {
            self.registry.subnets.lemma_keys();
            assert(ids@.take(0) =~= Seq::<u32>::empty());
            assert forall|j: int| 0 <= j < ids@.len() implies #[trigger] self.registry.subnets@.contains_key(ids@[j]) by {
                assert(self.registry.subnets.key_seq().to_set().contains(ids@[j]));
            }
        }
        let mut i: usize = 0;
        while i < ids.len()
            invariant
                self.wf(),
                orig == *old(self),
                counters_fit(orig),
                ids@ == orig.registry.subnets.key_seq(),
                ids@.no_duplicates(),
                n == ids@.len(),
                n == orig.registry.subnets@.dom().len(),
                i <= n,
                is_subnet_trace(trace, scheme, drop_on_penalties, epoch, block, ids@.take(i as int)),
                trace[0] == orig,
                trace.last() == *self,
                nodes_shrunk(orig, *self),
                forall|j: int| i <= j < n ==> #[trigger] self.registry.subnets@.contains_key(ids@[j]),
                forall|j: int|
                    i <= j < n ==> #[trigger] u32_at(self.consensus.subnet_penalty_count@, ids@[j]) == u32_at(
                        orig.consensus.subnet_penalty_count@,
                        ids@[j],
                    ),
                forall|j: int, a: AccountId|
                    i <= j < n ==> #[trigger] u32_at(self.consensus.node_penalties@, SubnetAccount { subnet_id: ids@[j], account: a })
                        == u32_at(orig.consensus.node_penalties@, SubnetAccount { subnet_id: ids@[j], account: a }),
                forall|j: int, a: AccountId|
                    i <= j < n ==> #[trigger] u32_at(self.consensus.sequential_absent@, SubnetAccount { subnet_id: ids@[j], account: a })
                        == u32_at(orig.consensus.sequential_absent@, SubnetAccount { subnet_id: ids@[j], account: a }),
                forall|a: AccountId|
                    #[trigger] u32_at(self.consensus.account_penalty_count@, a) <= u32_at(orig.consensus.account_penalty_count@, a) + i,
            decreases n - i,
        {
            let id = ids[i];
            let ghost mid = *self;
            proof {
                assert(self.registry.subnets@.contains_key(ids@[i as int]));
                assert(u32_at(self.consensus.subnet_penalty_count@, ids@[i as int]) == u32_at(orig.consensus.subnet_penalty_count@, ids@[i as int]));
                assert forall|a: AccountId| #[trigger] u32_at(self.consensus.account_penalty_count@, a) < u32::MAX by {
                    assert(u32_at(orig.consensus.account_penalty_count@, a) + n <= u32::MAX);
                }
                assert forall|a: AccountId|
                    #[trigger] u32_at(self.consensus.node_penalties@, SubnetAccount { subnet_id: id, account: a }) < u32::MAX by {
                    assert(u32_at(self.consensus.node_penalties@, SubnetAccount { subnet_id: ids@[i as int], account: a })
                        == u32_at(orig.consensus.node_penalties@, SubnetAccount { subnet_id: ids@[i as int], account: a }));
                }
                assert forall|a: AccountId|
                    #[trigger] u32_at(self.consensus.sequential_absent@, SubnetAccount { subnet_id: id, account: a }) < u32::MAX by {
                    assert(u32_at(self.consensus.sequential_absent@, SubnetAccount { subnet_id: ids@[i as int], account: a })
                        == u32_at(orig.consensus.sequential_absent@, SubnetAccount { subnet_id: ids@[i as int], account: a }));
                }
            }
            self.settle_subnet(scheme, drop_on_penalties, block, epoch, id);
            proof {
                let t = ids@.take(i + 1);
                let old_trace = trace;
                trace = trace.push(*self);
                assert forall|j: int| 0 <= j < t.len() implies #[trigger] subnet_settle_step(trace, j, scheme, drop_on_penalties, epoch, block, t) by {
                    if j < i {
                        assert(subnet_settle_step(old_trace, j, scheme, drop_on_penalties, epoch, block, ids@.take(i as int)));
                        assert(trace[j] == old_trace[j]);
                        assert(trace[j + 1] == old_trace[j + 1]);
                        assert(t[j] == ids@.take(i as int)[j]);
                    } else {
                        assert(trace[j] == mid);
                        assert(t[j] == id);
                    }
                }
                assert(is_subnet_trace(trace, scheme, drop_on_penalties, epoch, block, t));
                assert forall|j: int| i + 1 <= j < n implies #[trigger] self.registry.subnets@.contains_key(ids@[j]) by {
                    assert(ids@[j] != id);
                    assert(mid.registry.subnets@.contains_key(ids@[j]));
                }
                assert forall|j: int| i + 1 <= j < n implies #[trigger] u32_at(self.consensus.subnet_penalty_count@, ids@[j])
                    == u32_at(orig.consensus.subnet_penalty_count@, ids@[j]) by {
                    assert(ids@[j] != id);
                    assert(u32_at(mid.consensus.subnet_penalty_count@, ids@[j]) == u32_at(orig.consensus.subnet_penalty_count@, ids@[j]));
                }
                assert forall|j: int, a: AccountId| i + 1 <= j < n implies #[trigger] u32_at(
                    self.consensus.node_penalties@,
                    SubnetAccount { subnet_id: ids@[j], account: a },
                ) == u32_at(orig.consensus.node_penalties@, SubnetAccount { subnet_id: ids@[j], account: a }) by {
                    assert(ids@[j] != id);
                    assert(u32_at(mid.consensus.node_penalties@, SubnetAccount { subnet_id: ids@[j], account: a })
                        == u32_at(orig.consensus.node_penalties@, SubnetAccount { subnet_id: ids@[j], account: a }));
                }
                assert forall|j: int, a: AccountId| i + 1 <= j < n implies #[trigger] u32_at(
                    self.consensus.sequential_absent@,
                    SubnetAccount { subnet_id: ids@[j], account: a },
                ) == u32_at(orig.consensus.sequential_absent@, SubnetAccount { subnet_id: ids@[j], account: a }) by {
                    assert(ids@[j] != id);
                    assert(u32_at(mid.consensus.sequential_absent@, SubnetAccount { subnet_id: ids@[j], account: a })
                        == u32_at(orig.consensus.sequential_absent@, SubnetAccount { subnet_id: ids@[j], account: a }));
                }
                assert forall|a: AccountId| #[trigger] u32_at(self.consensus.account_penalty_count@, a)
                    <= u32_at(orig.consensus.account_penalty_count@, a) + i + 1 by {
                    assert(u32_at(mid.consensus.account_penalty_count@, a) <= u32_at(orig.consensus.account_penalty_count@, a) + i);
                }
            }
            i = i + 1;
        }
        proof {
            assert(ids@.take(n as int) =~= ids@);
            assert(is_subnet_trace(trace, scheme, drop_on_penalties, epoch, block, ids@));
        }
    }

    /// Rewards the subnets for `epoch` by their memory, and takes off those past
    /// the maximum penalty count.
    pub fn reward_subnets(&mut self, block: u64, epoch: u32, epoch_length: u64)
        requires
            old(self).wf(),
            counters_fit(*old(self)),
        ensures
            nodes_shrunk(*old(self), *final(self)),
            final(self).wf(),
            subnets_settled(*old(self), *final(self), RewardScheme::ByMemory, true, epoch, block, old(self).registry.subnets.key_seq()),
    {
        let _ = epoch_length;
        self.settle_epoch(RewardScheme::ByMemory, true, block, epoch);
    }

    /// Rewards the subnets for `epoch` by their memory.
    pub fn reward_subnets_mem(&mut self, block: u64, epoch: u32, epoch_length: u64)
        requires
            old(self).wf(),
            counters_fit(*old(self)),
        ensures
            nodes_shrunk(*old(self), *final(self)),
            final(self).wf(),
            subnets_settled(*old(self), *final(self), RewardScheme::ByMemory, false, epoch, block, old(self).registry.subnets.key_seq()),
    {
        let _ = epoch_length;
        self.settle_epoch(RewardScheme::ByMemory, false, block, epoch);
    }

    /// Rewards the Included nodes of each subnet for `epoch` with the flat subnet reward.
    pub fn reward_subnets2(&mut self, block: u64, epoch: u32, epoch_length: u64)
        requires
            old(self).wf(),
            counters_fit(*old(self)),
        ensures
            nodes_shrunk(*old(self), *final(self)),
            final(self).wf(),
            subnets_settled(*old(self), *final(self), RewardScheme::FlatIncluded, false, epoch, block, old(self).registry.subnets.key_seq()),
    {
        let _ = epoch_length;
        self.settle_epoch(RewardScheme::FlatIncluded, false, block, epoch);
    }

    /// Rewards the nodes of each subnet for `epoch` with the flat subnet reward.
    pub fn reward_subnets_1(&mut self, block: u64, epoch: u32, epoch_length: u64)
        requires
            old(self).wf(),
            counters_fit(*old(self)),
        ensures
            nodes_shrunk(*old(self), *final(self)),
            final(self).wf(),
            subnets_settled(*old(self), *final(self), RewardScheme::Flat, false, epoch, block, old(self).registry.subnets.key_seq()),
    {
        let _ = epoch_length;
        self.settle_epoch(RewardScheme::Flat, false, block, epoch);
    }
}

} // verus!
