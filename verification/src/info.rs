//! Queries on the network's state.

use vstd::prelude::*;
use crate::network::{claims_kept, nodes_shrunk, Error, Network, read_u128, read_u32, read_u64, u128_at, u32_at, u64_at};
use crate::registry::Registry;
use crate::rewards::{copy_scores, score_view};
use crate::subnet_params::{
    get_min_subnet_delegate_stake_balance, get_min_subnet_nodes, get_target_subnet_nodes,
    min_subnet_nodes_inputs_ok, spec_target_subnet_nodes,
};
use crate::table::{SubnetAccount, SubnetEpoch};
use crate::types::{spec_class_index, AccountId, RewardsData, SubnetData, SubnetNode, SubnetNodeClass};
use crate::utils::{bytes_eq, get_eligible_epoch_block, spec_eligible_epoch_block};

verus! {

/// A node by the values it holds.
pub open spec fn node_view(n: SubnetNode) -> (AccountId, Seq<u8>, u64) {
    (n.account_id, n.peer_id@, n.initialized)
}

impl SubnetNode {
    pub fn copy(&self) -> (c: Self)
        ensures
            node_view(c) == node_view(*self),
    {
        SubnetNode { account_id: self.account_id, peer_id: self.peer_id.clone(), initialized: self.initialized }
    }
}

impl Registry {
    /// The nodes of `subnet_id` that hold `class` at `epoch`, in table order.
    pub fn get_classified_subnet_nodes(&self, subnet_id: u32, class: SubnetNodeClass, epoch: u64, epoch_length: u64) -> (r: Vec<SubnetNode>)
        requires
            self.wf(),
            epoch_length > 0,
        ensures
            r@.map_values(|n: SubnetNode| node_view(n)) == self.classified_entries(
                subnet_id,
                spec_class_index(class) as int,
                epoch,
                epoch_length,
            ).map_values(|e: (SubnetAccount, SubnetNode)| node_view(e.1)),
    {
        let ghost ci = spec_class_index(class) as int;
        let ghost pred = |e: (SubnetAccount, SubnetNode)|
            e.0.subnet_id == subnet_id && self.has_class(subnet_id, e.0.account, ci, epoch, epoch_length);
        let ghost f = |e: (SubnetAccount, SubnetNode)| node_view(e.1);
        let ghost g = |n: SubnetNode| node_view(n);
        let ghost es = self.nodes.entries();
        let n = self.nodes.len();
        let mut out: Vec<SubnetNode> = Vec::new();
        let mut i: usize = 0;
        proof {
            assert(es.take(0) =~= Seq::<(SubnetAccount, SubnetNode)>::empty());
            reveal(Seq::filter);
            assert(es.take(0).filter(pred) =~= Seq::<(SubnetAccount, SubnetNode)>::empty());
            assert(es.take(0).filter(pred).map_values(f) =~= out@.map_values(g));
        }
        while i < n
            invariant
                self.wf(),
                epoch_length > 0,
                n == es.len(),
                es == self.nodes.entries(),
                i <= n,
                out@.map_values(g) == es.take(i as int).filter(pred).map_values(f),
                pred == (|e: (SubnetAccount, SubnetNode)|
                    e.0.subnet_id == subnet_id && self.has_class(subnet_id, e.0.account, ci, epoch, epoch_length)),
                f == (|e: (SubnetAccount, SubnetNode)| node_view(e.1)),
                g == (|n: SubnetNode| node_view(n)),
                ci == spec_class_index(class) as int,
            decreases n - i,
        {
            let k = self.nodes.key_at(i);
            let ghost e = es[i as int];
            proof {
                assert(es.take(i + 1) =~= es.take(i as int).push(e));
                es.take(i as int).lemma_filter_push(e, pred);
            }
            let ghost prev = out@;
            if k.subnet_id == subnet_id && self.node_has_class(subnet_id, k.account, class, epoch, epoch_length) {
                let node = self.nodes.value_at(i).copy();
                out.push(node);
                proof {
                    assert(pred(e));
                    assert(out@.map_values(g) =~= prev.map_values(g).push(f(e)));
                    assert(out@.map_values(g) =~= es.take(i + 1).filter(pred).map_values(f));
                }
            } else {
                proof {
                    assert(!pred(e));
                    assert(out@.map_values(g) =~= es.take(i + 1).filter(pred).map_values(f));
                }
            }
            i = i + 1;
        }
        proof {
            assert(es.take(n as int) =~= es);
        }
        out
    }
}

/// The nodes of `subnet_id` holding `class` at the current epoch, by value;
/// none when the subnet does not exist.
pub open spec fn classified_node_views(s: Network, subnet_id: u32, class: int) -> Seq<(AccountId, Seq<u8>, u64)> {
    if !s.registry.subnets@.contains_key(subnet_id) {
        Seq::empty()
    } else {
        s.registry.classified_entries(subnet_id, class, s.epoch(), s.config.epoch_length).map_values(
            |e: (SubnetAccount, SubnetNode)| node_view(e.1),
        )
    }
}

/// The peer ids answered for in `r`.
pub open spec fn answered_peers(r: Seq<(Vec<u8>, bool)>) -> Set<Seq<u8>> {
    Set::new(|p: Seq<u8>| exists|i: int| 0 <= i < r.len() && #[trigger] r[i].0@ == p)
}

/// The peer ids among the first `n` of `ids`.
pub open spec fn listed_peers(ids: Seq<Vec<u8>>, n: int) -> Set<Seq<u8>> {
    Set::new(|p: Seq<u8>| exists|j: int| 0 <= j < n && #[trigger] ids[j]@ == p)
}

impl Network {
    /// The current block.
    pub fn get_current_block_as_u64(&self) -> (b: u64)
        ensures
            b == self.block,
    {
        self.block
    }

    /// The current epoch.
    pub fn get_current_epoch_as_u32(&self) -> (e: u32)
        requires
            self.wf(),
        ensures
            e == self.epoch() as u32,
    {
        #[verifier::truncate] ((self.block / self.config.epoch_length) as u32)
    }

    fn classified_nodes_now(&self, subnet_id: u32, class: SubnetNodeClass) -> (r: Vec<SubnetNode>)
        requires
            self.wf(),
        ensures
            r@.map_values(|n: SubnetNode| node_view(n)) == classified_node_views(*self, subnet_id, spec_class_index(class) as int),
    {
        if !self.registry.subnets.contains_key(&subnet_id) {
            let r: Vec<SubnetNode> = Vec::new();
            proof {
                assert(r@.map_values(|n: SubnetNode| node_view(n)) =~= Seq::<(AccountId, Seq<u8>, u64)>::empty());
            }
            return r;
        }
        let epoch = self.block / self.config.epoch_length;
        self.registry.get_classified_subnet_nodes(subnet_id, class, epoch, self.config.epoch_length)
    }

    /// The nodes of `subnet_id` of the Idle class or above at the current epoch.
    pub fn get_subnet_nodes(&self, subnet_id: u32) -> (r: Vec<SubnetNode>)
        requires
            self.wf(),
        ensures
            r@.map_values(|n: SubnetNode| node_view(n)) == classified_node_views(*self, subnet_id, 0),
    {
        self.classified_nodes_now(subnet_id, SubnetNodeClass::Idle)
    }

    /// The nodes of `subnet_id` of the Included class or above at the current epoch.
    pub fn get_subnet_nodes_included(&self, subnet_id: u32) -> (r: Vec<SubnetNode>)
        requires
            self.wf(),
        ensures
            r@.map_values(|n: SubnetNode| node_view(n)) == classified_node_views(*self, subnet_id, 1),
    {
        self.classified_nodes_now(subnet_id, SubnetNodeClass::Included)
    }

    /// The nodes of `subnet_id` of the Submittable class or above at the current epoch.
    pub fn get_subnet_nodes_submittable(&self, subnet_id: u32) -> (r: Vec<SubnetNode>)
        requires
            self.wf(),
        ensures
            r@.map_values(|n: SubnetNode| node_view(n)) == classified_node_views(*self, subnet_id, 3),
    {
        self.classified_nodes_now(subnet_id, SubnetNodeClass::Submittable)
    }

    /// Count of unconfirmed nodes of `subnet_id`: none are tracked.
    pub fn get_subnet_nodes_subnet_unconfirmed_count(&self, subnet_id: u32) -> (n: u32)
        ensures
            n == 0,
    {
        let _ = subnet_id;
        0
    }

    /// The submission of `subnet_id` at `epoch`, if any, by value.
    pub fn get_consensus_data(&self, subnet_id: u32, epoch: u32) -> (r: Option<RewardsData>)
        requires
            self.wf(),
        ensures
            ({
                let ek = SubnetEpoch { subnet_id, epoch };
                let o = self.consensus.rewards_submission@[ek];
                &&& r is Some <==> self.consensus.rewards_submission@.contains_key(ek)
                &&& r matches Some(d) ==> {
                    &&& d.validator == o.validator
                    &&& d.nodes_count == o.nodes_count
                    &&& d.sum == o.sum
                    &&& d.attests@ == o.attests@
                    &&& score_view(d.data@) == score_view(o.data@)
                    &&& d.complete == o.complete
                }
            }),
    {
        match self.consensus.rewards_submission.get(&SubnetEpoch { subnet_id, epoch }) {
            Some(o) => Some(
                RewardsData {
                    validator: o.validator,
                    nodes_count: o.nodes_count,
                    sum: o.sum,
                    attests: o.attests.copy(),
                    data: copy_scores(&o.data),
                    complete: o.complete,
                },
            ),
            None => None,
        }
    }

    /// Minimum node count of a subnet with `memory_mb` of memory.
    pub fn get_minimum_subnet_nodes(&self, memory_mb: u128) -> (n: u32)
        requires
            min_subnet_nodes_inputs_ok(self.config.base_subnet_node_memory_mb, memory_mb, self.config.min_nodes_curve, self.config.max_subnet_memory_mb),
        ensures
            n == self.min_nodes_for(memory_mb),
    {
        get_min_subnet_nodes(
            self.config.base_subnet_node_memory_mb,
            memory_mb,
            self.config.min_nodes_curve,
            self.config.max_subnet_memory_mb,
            self.config.min_subnet_nodes,
        )
    }

    /// Minimum node count of a subnet with `memory_mb` of memory.
    pub fn get_min_subnet_nodes(&self, memory_mb: u128) -> (n: u32)
        requires
            min_subnet_nodes_inputs_ok(self.config.base_subnet_node_memory_mb, memory_mb, self.config.min_nodes_curve, self.config.max_subnet_memory_mb),
        ensures
            n == self.min_nodes_for(memory_mb),
    {
        self.get_minimum_subnet_nodes(memory_mb)
    }

    /// Target node count of a subnet whose minimum is `min_subnet_nodes`.
    pub fn get_target_subnet_nodes(&self, min_subnet_nodes: u32) -> (n: u32)
        requires
            self.wf(),
            spec_target_subnet_nodes(min_subnet_nodes, self.config.target_subnet_nodes_multiplier) <= u32::MAX,
        ensures
            n == spec_target_subnet_nodes(min_subnet_nodes, self.config.target_subnet_nodes_multiplier),
    {
        get_target_subnet_nodes(min_subnet_nodes, self.config.target_subnet_nodes_multiplier)
    }

    /// Minimum delegate stake of a subnet with `memory_mb` of memory.
    pub fn get_minimum_delegate_stake(&self, memory_mb: u128) -> (b: u128)
        requires
            self.wf(),
            min_subnet_nodes_inputs_ok(self.config.base_subnet_node_memory_mb, memory_mb, self.config.min_nodes_curve, self.config.max_subnet_memory_mb),
            self.config.min_stake_balance * self.min_nodes_for(memory_mb) <= u128::MAX,
        ensures
            b == self.min_delegate_stake_for(self.min_nodes_for(memory_mb)),
    {
        let min_nodes = self.get_minimum_subnet_nodes(memory_mb);
        get_min_subnet_delegate_stake_balance(
            min_nodes,
            self.config.min_stake_balance,
            self.config.min_subnet_delegate_stake_percentage,
            self.config.min_subnet_delegate_stake,
        )
    }

    /// Stake on `subnet_id` of the node with peer id `peer_id`; zero without one.
    pub fn get_subnet_node_stake_by_peer_id(&self, subnet_id: u32, peer_id: &Vec<u8>) -> (b: u128)
        requires
            self.wf(),
        ensures
            b == match self.registry.peer_account(subnet_id, peer_id@) {
                Some(a) => self.staking.stake(a, subnet_id),
                None => 0,
            },
    {
        match self.registry.find_peer_account(subnet_id, peer_id) {
            Some(a) => self.staking.get_stake(a, subnet_id),
            None => 0,
        }
    }

    /// Whether a node of `subnet_id` has peer id `peer_id`.
    pub fn is_subnet_node_by_peer_id(&self, subnet_id: u32, peer_id: &Vec<u8>) -> (b: bool)
        requires
            self.wf(),
        ensures
            b == self.registry.peer_account(subnet_id, peer_id@) is Some,
    {
        self.registry.find_peer_account(subnet_id, peer_id).is_some()
    }

    /// For each peer id of `peer_ids`, once, whether a node of `subnet_id` has it.
    pub fn are_subnet_nodes_by_peer_id(&self, subnet_id: u32, peer_ids: &Vec<Vec<u8>>) -> (r: Vec<(Vec<u8>, bool)>)
        requires
            self.wf(),
        ensures
            forall|i: int, j: int| 0 <= i < j < r@.len() ==> #[trigger] r@[i].0@ != #[trigger] r@[j].0@,
            forall|i: int| 0 <= i < r@.len() ==> #[trigger] r@[i].1 == (self.registry.peer_account(subnet_id, r@[i].0@) is Some),
            answered_peers(r@) == listed_peers(peer_ids@, peer_ids@.len() as int),
    {
        let mut out: Vec<(Vec<u8>, bool)> = Vec::new();
        let mut i: usize = 0;
        proof {
            assert(answered_peers(out@) =~= listed_peers(peer_ids@, 0));
        }
        while i < peer_ids.len()
            invariant
                self.wf(),
                i <= peer_ids@.len(),
                forall|a: int, b: int| 0 <= a < b < out@.len() ==> #[trigger] out@[a].0@ != #[trigger] out@[b].0@,
                forall|a: int| 0 <= a < out@.len() ==> #[trigger] out@[a].1 == (self.registry.peer_account(subnet_id, out@[a].0@) is Some),
                answered_peers(out@) == listed_peers(peer_ids@, i as int),
            decreases peer_ids@.len() - i,
        {
            let peer = &peer_ids[i];
            let mut seen = false;
            let mut k: usize = 0;
            while k < out.len()
                invariant
                    k <= out@.len(),
                    seen == (exists|a: int| 0 <= a < k && #[trigger] out@[a].0@ == peer@),
                decreases out@.len() - k,
            {
                if bytes_eq(&out[k].0, peer) {
                    seen = true;
                }
                k = k + 1;
            }
            let ghost prev = out@;
            if !seen {
                let is = self.registry.find_peer_account(subnet_id, peer).is_some();
                out.push((peer.clone(), is));
                proof {
                    assert forall|a: int, b: int| 0 <= a < b < out@.len() implies #[trigger] out@[a].0@ != #[trigger] out@[b].0@ by {
                        if b == prev.len() {
                            assert(out@[a] == prev[a]);
                        } else {
                            assert(prev[a].0@ != prev[b].0@);
                        }
                    }
                }
            }
            proof {
                assert(answered_peers(out@) =~= listed_peers(peer_ids@, i + 1)) by {
                    assert forall|p: Seq<u8>| answered_peers(out@).contains(p) implies listed_peers(peer_ids@, i + 1).contains(p) by {
                        let a = choose|a: int| 0 <= a < out@.len() && #[trigger] out@[a].0@ == p;
                        if a < prev.len() {
                            assert(answered_peers(prev).contains(p));
                        } else {
                            assert(peer_ids@[i as int]@ == p);
                        }
                    }
                    assert forall|p: Seq<u8>| listed_peers(peer_ids@, i + 1).contains(p) implies answered_peers(out@).contains(p) by {
                        let j = choose|j: int| 0 <= j < i + 1 && #[trigger] peer_ids@[j]@ == p;
                        if j < i {
                            assert(listed_peers(peer_ids@, i as int).contains(p));
                            let a = choose|a: int| 0 <= a < prev.len() && #[trigger] prev[a].0@ == p;
                            assert(out@[a].0@ == p);
                        } else if seen {
                            let a = choose|a: int| 0 <= a < prev.len() && #[trigger] prev[a].0@ == peer@;
                            assert(out@[a].0@ == p);
                        } else {
                            assert(out@[prev.len() as int].0@ == p);
                        }
                    }
                }
            }
            i = i + 1;
        }
        out
    }

    /// Count of subnets ever activated.
    pub fn get_total_subnets(&self) -> (n: u32)
        ensures
            n == self.registry.total_subnets,
    {
        self.registry.total_subnets
    }

    /// Cost of activating a subnet.
    pub fn get_subnet_initialization_cost(&self) -> (c: u128)
        ensures
            c == self.config.subnet_initialization_cost,
    {
        self.config.subnet_initialization_cost
    }

    /// Whether a live subnet has path `path`.
    pub fn get_subnet_path_exist(&self, path: &Vec<u8>) -> (b: bool)
        requires
            self.wf(),
        ensures
            b == self.registry.path_subnet(path@) is Some,
    {
        self.registry.find_subnet_by_path(path).is_some()
    }

    /// Id of the live subnet with path `path`; zero without one.
    pub fn get_subnet_id_by_path(&self, path: &Vec<u8>) -> (id: u32)
        requires
            self.wf(),
        ensures
            id == match self.registry.path_subnet(path@) {
                Some(i) => i,
                None => 0,
            },
    {
        match self.registry.find_subnet_by_path(path) {
            Some(id) => id,
            None => 0,
        }
    }

    /// Whether subnet `id` is live.
    pub fn get_subnet_id_exist(&self, id: u32) -> (b: bool)
        requires
            self.wf(),
        ensures
            b == self.registry.subnets@.contains_key(id),
    {
        self.registry.subnets.contains_key(&id)
    }

    /// The data of the live subnet `id`.
    pub fn get_subnet_data(&self, id: u32) -> (d: SubnetData)
        requires
            self.wf(),
            self.registry.subnets@.contains_key(id),
        ensures
            ({
                let o = self.registry.subnets@[id];
                &&& d.id == o.id
                &&& d.path@ == o.path@
                &&& d.min_nodes == o.min_nodes
                &&& d.target_nodes == o.target_nodes
                &&& d.memory_mb == o.memory_mb
                &&& d.initialized == o.initialized
                &&& d.activated == o.activated
                &&& d.registration_blocks == o.registration_blocks
            }),
    {
        match self.registry.subnets.get(&id) {
            Some(d) => d.copy(),
            None => {
                proof {
                    assert(false);
                }
                SubnetData {
                    id: 0,
                    path: Vec::new(),
                    min_nodes: 0,
                    target_nodes: 0,
                    memory_mb: 0,
                    initialized: 0,
                    activated: 0,
                    registration_blocks: 0,
                }
            },
        }
    }

    /// Maximum node count of a subnet.
    pub fn get_max_subnet_nodes(&self) -> (n: u32)
        ensures
            n == self.config.max_subnet_nodes,
    {
        self.config.max_subnet_nodes
    }

    /// Minimum stake of a node.
    pub fn get_min_stake_balance(&self) -> (b: u128)
        ensures
            b == self.config.min_stake_balance,
    {
        self.config.min_stake_balance
    }

    /// Every account may submit.
    pub fn is_submittable_subnet_node_account(&self, account_id: AccountId) -> (b: bool)
        ensures
            b,
    {
        let _ = account_id;
        true
    }

    /// Whether the consensus-submission period of the live subnet `id` has begun.
    pub fn is_subnet_initialized(&self, id: u32) -> (b: bool)
        requires
            self.wf(),
            self.registry.subnets@.contains_key(id),
        ensures
            b == (self.block >= self.subnet_initialized_block(id)),
    {
        let initialized = match self.registry.subnets.get(&id) {
            Some(d) => d.initialized,
            None => {
                return false;
            },
        };
        let eligible = get_eligible_epoch_block(
            self.config.epoch_length,
            initialized,
            self.config.min_required_subnet_consensus_submit_epochs,
        );
        self.block >= eligible
    }

    /// Penalty count of subnet `id`.
    pub fn get_total_subnet_errors(&self, id: u32) -> (n: u32)
        requires
            self.wf(),
        ensures
            n == u32_at(self.consensus.subnet_penalty_count@, id),
    {
        read_u32(&self.consensus.subnet_penalty_count, &id)
    }

    /// Blocks between two rate-limited calls.
    pub fn get_tx_rate_limit(&self) -> (n: u64)
        ensures
            n == self.config.tx_rate_limit,
    {
        self.config.tx_rate_limit
    }

    /// Block of the last rate-limited call of `key`; zero without one.
    pub fn get_last_tx_block(&self, key: AccountId) -> (b: u64)
        requires
            self.wf(),
        ensures
            b == u64_at(self.staking.last_tx_block@, key),
    {
        read_u64(&self.staking.last_tx_block, &key)
    }

    /// Records `block` as the block of the last rate-limited call of `key`.
    pub fn set_last_tx_block(&mut self, key: AccountId, block: u64)
        requires
            old(self).wf(),
            block <= old(self).block,
        ensures
            nodes_shrunk(*old(self), *final(self)),
            final(self).wf(),
            final(self).staking.last_tx_block@ == old(self).staking.last_tx_block@.insert(key, block),
            final(self).staking.account_subnet_stake == old(self).staking.account_subnet_stake,
            final(self).staking.total_subnet_stake == old(self).staking.total_subnet_stake,
            final(self).staking.total_stake == old(self).staking.total_stake,
            final(self).staking.unbondings == old(self).staking.unbondings,
            final(self).staking.stake_vault_balance == old(self).staking.stake_vault_balance,
            final(self).registry == old(self).registry,
            final(self).consensus == old(self).consensus,
            final(self).balances == old(self).balances,
            final(self).config == old(self).config,
            final(self).block == old(self).block,
    {
        self.staking.last_tx_block.insert(key, block);
    }

    /// Free balance of `coldkey`.
    pub fn get_coldkey_balance(&self, coldkey: AccountId) -> (b: u128)
        requires
            self.wf(),
        ensures
            b == self.balances.free(coldkey),
    {
        self.balances.free_balance(coldkey)
    }

    /// Whether `amount` can leave `coldkey` keeping the account alive.
    pub fn can_remove_balance_from_coldkey_account(&self, coldkey: AccountId, amount: u128) -> (b: bool)
        requires
            self.wf(),
        ensures
            b == self.balances.spec_withdraw_ok(coldkey, amount),
    {
        self.balances.can_withdraw_keep_alive(coldkey, amount)
    }

    /// Takes `amount` from `coldkey`, keeping the account alive; answers whether it did.
    pub fn remove_balance_from_coldkey_account(&mut self, coldkey: AccountId, amount: u128) -> (ok: bool)
        requires
            old(self).wf(),
        ensures
            nodes_shrunk(*old(self), *final(self)),
            final(self).wf(),
            ok == old(self).balances.spec_withdraw_ok(coldkey, amount),
            ok && amount > 0 ==> final(self).balances@ == old(self).balances@.insert(coldkey, (old(self).balances.free(coldkey) - amount) as u128),
            !ok || amount == 0 ==> *final(self) == *old(self),
            final(self).balances.existential_deposit == old(self).balances.existential_deposit,
            final(self).staking == old(self).staking,
            final(self).registry == old(self).registry,
            final(self).consensus == old(self).consensus,
            final(self).config == old(self).config,
            final(self).block == old(self).block,
    {
        self.balances.withdraw_keep_alive(coldkey, amount)
    }

    /// Credits `amount` to `coldkey`.
    pub fn add_balance_to_coldkey_account(&mut self, coldkey: AccountId, amount: u128)
        requires
            old(self).wf(),
        ensures
            nodes_shrunk(*old(self), *final(self)),
            final(self).wf(),
            final(self).balances@ == old(self).balances.spec_deposit(coldkey, amount),
            final(self).balances.existential_deposit == old(self).balances.existential_deposit,
            final(self).staking == old(self).staking,
            final(self).registry == old(self).registry,
            final(self).consensus == old(self).consensus,
            final(self).config == old(self).config,
            final(self).block == old(self).block,
    {
        self.deposit_creating(coldkey, amount);
    }

    /// Moves the stake of `old_hotkey` on `subnet_id` to `new_hotkey`.
    pub fn do_swap_hotkey_balance(&mut self, subnet_id: u32, old_hotkey: AccountId, new_hotkey: AccountId)
        requires
            old(self).wf(),
        ensures
            nodes_shrunk(*old(self), *final(self)),
            final(self).wf(),
            old_hotkey != new_hotkey ==> final(self).staking.account_subnet_stake@ == old(self).staking.account_subnet_stake@.remove(
                crate::table::AccountSubnet { account: old_hotkey, subnet_id },
            ).insert(
                crate::table::AccountSubnet { account: new_hotkey, subnet_id },
                crate::network::sat_add(old(self).staking.stake(old_hotkey, subnet_id), old(self).staking.stake(new_hotkey, subnet_id)),
            ),
            final(self).registry == old(self).registry,
            final(self).consensus == old(self).consensus,
            final(self).balances == old(self).balances,
            final(self).config == old(self).config,
            final(self).block == old(self).block,
    {
        self.staking.swap_account_stake(old_hotkey, new_hotkey, subnet_id);
    }
}

/// The balance `input` stands for.
pub fn u128_to_balance(input: u128) -> (r: Option<u128>)
    ensures
        r == Some(input),
{
    Some(input)
}

} // verus!
