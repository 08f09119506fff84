//! Subnets and their nodes: activation, removal, node registration.

use vstd::prelude::*;
use crate::network::{claims_kept, nodes_shrunk, Error, Network, read_u128, read_u32, u128_at, u32_at, u64_at, sat_add};
use crate::staking::add_stake_effect;
use crate::subnet_params::{
    get_min_subnet_delegate_stake_balance, get_min_subnet_nodes, get_target_subnet_nodes, min_subnet_nodes_inputs_ok,
    spec_min_subnet_delegate_stake_balance, spec_min_subnet_nodes, spec_target_subnet_nodes,
};
use crate::table::{Table, SubnetAccount, SubnetEpoch};
use crate::types::{other_peers, AccountId, PreliminarySubnetData, SubnetData, SubnetDemocracySubnetData, SubnetNode, SubnetNodeData, SubnetRemovalReason};
use crate::utils::{bytes_eq, get_eligible_epoch_block, spec_eligible_epoch_block};

verus! {

/// Number of node classes.
pub const NODE_CLASSES: usize = 5;

/// Subnets and their nodes.
pub struct Registry {
    /// Count of subnets ever activated; the next subnet id is one more.
    pub total_subnets: u32,
    pub subnets: Table<u32, SubnetData>,
    /// Subnet data of the democracy votes, by path.
    pub subnet_activated: Vec<(Vec<u8>, SubnetDemocracySubnetData)>,
    pub nodes: Table<SubnetAccount, SubnetNode>,
    pub total_subnet_nodes: Table<u32, u32>,
    /// Block each account was added to a subnet.
    pub subnet_accounts: Table<SubnetAccount, u64>,
    /// For each node class, its members with the block they entered it.
    pub node_classes: Vec<Table<SubnetAccount, u64>>,
    pub account_subnets: Table<AccountId, Vec<u32>>,
    /// Delegate stake pool of each subnet.
    pub delegate_stake_balance: Table<u32, u128>,
}

impl Registry {
    pub open spec fn wf(&self) -> bool {
        &&& self.subnets.wf()
        &&& self.nodes.wf()
        &&& self.total_subnet_nodes.wf()
        &&& self.subnet_accounts.wf()
        &&& self.account_subnets.wf()
        &&& self.delegate_stake_balance.wf()
        &&& self.node_classes@.len() == NODE_CLASSES
        &&& forall|c: int| 0 <= c < NODE_CLASSES ==> #[trigger] self.node_classes@[c].wf()
        &&& forall|id: u32| #[trigger] self.subnets@.contains_key(id) ==> self.subnets@[id].id == id
            && 1 <= id <= self.total_subnets
        &&& forall|a: u32, b: u32|
            #[trigger] self.subnets@.contains_key(a) && #[trigger] self.subnets@.contains_key(b) && a
                != b ==> self.subnets@[a].path@ != self.subnets@[b].path@
        &&& forall|k: SubnetAccount| #[trigger] self.nodes@.contains_key(k) ==> self.nodes@[k].account_id
            == k.account && self.subnets@.contains_key(k.subnet_id)
        &&& forall|k1: SubnetAccount, k2: SubnetAccount|
            #[trigger] self.nodes@.contains_key(k1) && #[trigger] self.nodes@.contains_key(k2) && k1
                != k2 && k1.subnet_id == k2.subnet_id ==> self.nodes@[k1].peer_id@
                != self.nodes@[k2].peer_id@
        &&& forall|i: int, j: int|
            0 <= i < j < self.subnet_activated@.len() ==> #[trigger] self.subnet_activated@[i].0@
                != #[trigger] self.subnet_activated@[j].0@
    }

    /// The democracy data recorded for each path.
    pub open spec fn activated(&self) -> Map<Seq<u8>, SubnetDemocracySubnetData> {
        Map::new(
            |p: Seq<u8>| exists|i: int| 0 <= i < self.subnet_activated@.len() && #[trigger] self.subnet_activated@[i].0@ == p,
            |p: Seq<u8>|
                self.subnet_activated@[choose|i: int|
                    0 <= i < self.subnet_activated@.len() && #[trigger] self.subnet_activated@[i].0@ == p].1,
        )
    }

    /// The live subnet with path `path`, if any.
    pub open spec fn path_subnet(&self, path: Seq<u8>) -> Option<u32> {
        if exists|id: u32| #[trigger] self.subnets@.contains_key(id) && self.subnets@[id].path@ == path {
            Some(choose|id: u32| #[trigger] self.subnets@.contains_key(id) && self.subnets@[id].path@ == path)
        } else {
            None
        }
    }

    /// The account whose node on `subnet_id` has peer id `peer`, if any.
    pub open spec fn peer_account(&self, subnet_id: u32, peer: Seq<u8>) -> Option<AccountId> {
        if exists|k: SubnetAccount| #[trigger] self.nodes@.contains_key(k) && k.subnet_id == subnet_id
            && self.nodes@[k].peer_id@ == peer {
            Some(
                (choose|k: SubnetAccount| #[trigger] self.nodes@.contains_key(k) && k.subnet_id == subnet_id
                    && self.nodes@[k].peer_id@ == peer).account,
            )
        } else {
            None
        }
    }

    /// Whether `account` has a node on `subnet_id`.
    pub open spec fn has_node(&self, subnet_id: u32, account: AccountId) -> bool {
        self.nodes@.contains_key(SubnetAccount { subnet_id, account })
    }

    /// The recorded node count of `subnet_id`.
    pub open spec fn node_count(&self, subnet_id: u32) -> u32 {
        u32_at(self.total_subnet_nodes@, subnet_id)
    }

    /// Delegate stake pool of `subnet_id`.
    pub open spec fn delegate_stake(&self, subnet_id: u32) -> u128 {
        u128_at(self.delegate_stake_balance@, subnet_id)
    }

    /// Subnets `account` joined, in order.
    pub open spec fn subnets_of(&self, account: AccountId) -> Seq<u32> {
        if self.account_subnets@.contains_key(account) {
            self.account_subnets@[account]@
        } else {
            Seq::empty()
        }
    }

    pub fn new() -> (r: Registry)
        ensures
            r.wf(),
            r.total_subnets == 0,
            r.subnets@ == Map::<u32, SubnetData>::empty(),
            r.nodes@ == Map::<SubnetAccount, SubnetNode>::empty(),
            r.subnet_accounts@ == Map::<SubnetAccount, u64>::empty(),
    {
        let mut node_classes: Vec<Table<SubnetAccount, u64>> = Vec::new();
        let mut c: usize = 0;
        while c < NODE_CLASSES
            invariant
                c <= NODE_CLASSES,
                node_classes@.len() == c,
                forall|i: int| 0 <= i < c ==> #[trigger] node_classes@[i].wf(),
            decreases NODE_CLASSES - c,
        {
            node_classes.push(Table::new());
            c = c + 1;
        }
        Registry {
            total_subnets: 0,
            subnets: Table::new(),
            subnet_activated: Vec::new(),
            nodes: Table::new(),
            total_subnet_nodes: Table::new(),
            subnet_accounts: Table::new(),
            node_classes,
            account_subnets: Table::new(),
            delegate_stake_balance: Table::new(),
        }
    }

    /// The live subnet with path `path`.
    pub fn find_subnet_by_path(&self, path: &Vec<u8>) -> (r: Option<u32>)
        requires
            self.wf(),
        ensures
            r == self.path_subnet(path@),
    {
        let n = self.subnets.len();
        let mut i: usize = 0;
        while i < n
            invariant
                self.wf(),
                n == self.subnets.entries().len(),
                i <= n,
                forall|j: int| 0 <= j < i ==> #[trigger] self.subnets.entries()[j].1.path@ != path@,
            decreases n - i,
        {
            let data = self.subnets.value_at(i);
            if bytes_eq(&data.path, path) {
                let id = self.subnets.key_at(i);
                proof {
                    self.subnets.lemma_index(i as int);
                    let c = choose|id: u32| #[trigger] self.subnets@.contains_key(id) && self.subnets@[id].path@ == path@;
                    assert(self.subnets@.contains_key(id) && self.subnets@[id].path@ == path@);
                    if c != id {
                        assert(self.subnets@[c].path@ != self.subnets@[id].path@);
                    }
                }
                return Some(id);
            }
            i = i + 1;
        }
        proof {
            assert forall|id: u32| #[trigger] self.subnets@.contains_key(id) implies self.subnets@[id].path@ != path@ by {
                let j = self.subnets.index_of(id);
                self.subnets.lemma_index(j);
            }
        }
        None
    }

    /// The account whose node on `subnet_id` has peer id `peer`.
    pub fn find_peer_account(&self, subnet_id: u32, peer: &Vec<u8>) -> (r: Option<AccountId>)
        requires
            self.wf(),
        ensures
            r == self.peer_account(subnet_id, peer@),
    {
        let n = self.nodes.len();
        let mut i: usize = 0;
        while i < n
            invariant
                self.wf(),
                n == self.nodes.entries().len(),
                i <= n,
                forall|j: int| 0 <= j < i ==> !(#[trigger] self.nodes.entries()[j].0.subnet_id == subnet_id
                    && self.nodes.entries()[j].1.peer_id@ == peer@),
            decreases n - i,
        {
            let k = self.nodes.key_at(i);
            let node = self.nodes.value_at(i);
            if k.subnet_id == subnet_id && bytes_eq(&node.peer_id, peer) {
                proof {
                    self.nodes.lemma_index(i as int);
                    let c = choose|k2: SubnetAccount| #[trigger] self.nodes@.contains_key(k2) && k2.subnet_id == subnet_id
                        && self.nodes@[k2].peer_id@ == peer@;
                    assert(self.nodes@.contains_key(k) && k.subnet_id == subnet_id && self.nodes@[k].peer_id@ == peer@);
                    if c != k {
                        assert(self.nodes@[c].peer_id@ != self.nodes@[k].peer_id@);
                    }
                }
                return Some(k.account);
            }
            i = i + 1;
        }
        proof {
            assert forall|k: SubnetAccount| #[trigger] self.nodes@.contains_key(k) && k.subnet_id == subnet_id
                implies self.nodes@[k].peer_id@ != peer@ by {
                let j = self.nodes.index_of(k);
                self.nodes.lemma_index(j);
            }
        }
        None
    }
}

/// The effect of taking subnet `id` off the network: the subnet, its nodes,
/// node count, penalty count and node classes go; the rest stays.
pub open spec fn subnet_dropped(old: Network, new: Network, id: u32) -> bool {
    &&& new.registry.subnets@ == old.registry.subnets@.remove(id)
    &&& new.registry.nodes@ == Map::new(
        |k: SubnetAccount| old.registry.nodes@.contains_key(k) && k.subnet_id != id,
        |k: SubnetAccount| old.registry.nodes@[k],
    )
    &&& forall|other: u32| other != id ==> #[trigger] new.registry.nodes.subnet_entries(other) == old.registry.nodes.subnet_entries(other)
    &&& new.registry.total_subnet_nodes@ == old.registry.total_subnet_nodes@.remove(id)
    &&& new.consensus.subnet_penalty_count@ == old.consensus.subnet_penalty_count@.remove(id)
    &&& new.registry.node_classes@.len() == old.registry.node_classes@.len()
    &&& forall|c: int|
        0 <= c < NODE_CLASSES ==> #[trigger] new.registry.node_classes@[c]@ == Map::new(
            |k: SubnetAccount| old.registry.node_classes@[c]@.contains_key(k) && k.subnet_id != id,
            |k: SubnetAccount| old.registry.node_classes@[c]@[k],
        )
    &&& new.registry.total_subnets == old.registry.total_subnets
    &&& new.registry.subnet_accounts == old.registry.subnet_accounts
    &&& new.registry.account_subnets == old.registry.account_subnets
    &&& new.registry.delegate_stake_balance == old.registry.delegate_stake_balance
    &&& new.registry.subnet_activated == old.registry.subnet_activated
    &&& new.consensus.account_penalty_count == old.consensus.account_penalty_count
    &&& new.consensus.sequential_absent == old.consensus.sequential_absent
    &&& new.consensus.node_penalties == old.consensus.node_penalties
    &&& new.consensus.rewards_validator == old.consensus.rewards_validator
    &&& new.consensus.rewards_submission == old.consensus.rewards_submission
    &&& new.staking == old.staking
    &&& new.balances == old.balances
    &&& new.config == old.config
    &&& new.block == old.block
}

impl Registry {
    /// A live subnet is found by its own path.
    pub proof fn lemma_path_subnet(&self, id: u32)
        requires
            self.wf(),
            self.subnets@.contains_key(id),
        ensures
            self.path_subnet(self.subnets@[id].path@) == Some(id),
    {
        let path = self.subnets@[id].path@;
        assert(self.subnets@.contains_key(id) && self.subnets@[id].path@ == path);
        let c = choose|c: u32| #[trigger] self.subnets@.contains_key(c) && self.subnets@[c].path@ == path;
        if c != id {
            assert(self.subnets@[c].path@ != self.subnets@[id].path@);
        }
    }
}

/// The effect of activating a subnet with path `path` and `memory_mb` of
/// memory proposed by `proposer`: the subnet counter had room for one more and
/// the subnet takes the next id, its minimum and target
/// node counts follow from its memory, it is initialized and activated at the
/// current block, and the proposer pays the initialization cost into the stake vault.
pub open spec fn subnet_activated_effect(old: Network, new: Network, proposer: AccountId, path: Seq<u8>, memory_mb: u128) -> bool {
    let id = (old.registry.total_subnets + 1) as u32;
    let cost = old.config.subnet_initialization_cost;
    let min_nodes = old.min_nodes_for(memory_mb);
    let d = new.registry.subnets@[id];
    &&& old.registry.total_subnets < u32::MAX
    &&& new.registry.subnets@.contains_key(id)
    &&& new.registry.subnets@.remove(id) == old.registry.subnets@
    &&& d.id == id
    &&& d.path@ == path
    &&& d.min_nodes == min_nodes
    &&& d.target_nodes == spec_target_subnet_nodes(min_nodes, old.config.target_subnet_nodes_multiplier) as u32
    &&& d.memory_mb == memory_mb
    &&& d.initialized == old.block
    &&& d.activated == old.block
    &&& d.registration_blocks == 0
    &&& new.registry.total_subnets == id
    &&& new.staking.stake_vault_balance == old.staking.stake_vault_balance + cost
    &&& new.balances@ == Network::balances_after_withdraw(old.balances, proposer, cost)
    &&& new.balances.existential_deposit == old.balances.existential_deposit
    &&& new.registry.nodes == old.registry.nodes
    &&& new.registry.total_subnet_nodes == old.registry.total_subnet_nodes
    &&& new.registry.subnet_accounts == old.registry.subnet_accounts
    &&& new.registry.node_classes == old.registry.node_classes
    &&& new.registry.account_subnets == old.registry.account_subnets
    &&& new.registry.delegate_stake_balance == old.registry.delegate_stake_balance
    &&& new.registry.subnet_activated == old.registry.subnet_activated
    &&& new.staking.account_subnet_stake == old.staking.account_subnet_stake
    &&& new.staking.total_subnet_stake == old.staking.total_subnet_stake
    &&& new.staking.total_stake == old.staking.total_stake
    &&& new.staking.unbondings == old.staking.unbondings
    &&& new.staking.last_tx_block == old.staking.last_tx_block
    &&& new.config == old.config
    &&& new.block == old.block
    &&& new.consensus == old.consensus
}

impl Network {
    /// The error `activate_subnet` answers with: the path must be new, the
    /// subnet count below the maximum, the memory within the maximum, and a
    /// positive initialization cost must be payable by the proposer.
    pub open spec fn activate_subnet_error(&self, proposer: AccountId, path: Seq<u8>, memory_mb: u128) -> Option<Error> {
        let cost = self.config.subnet_initialization_cost;
        if self.registry.path_subnet(path) is Some {
            Some(Error::SubnetExist)
        } else if self.registry.subnets@.dom().len() >= self.config.max_subnets {
            Some(Error::MaxSubnets)
        } else if memory_mb > self.config.max_subnet_memory_mb {
            Some(Error::MaxSubnetMemory)
        } else if cost > 0 && cost > self.balances.free(proposer) {
            Some(Error::NotEnoughBalanceToStake)
        } else if cost > 0 && !self.balances.spec_withdraw_ok(proposer, cost) {
            Some(Error::BalanceWithdrawalError)
        } else {
            None
        }
    }

    /// Minimum node count of a subnet with `memory_mb` of memory under this configuration.
    pub open spec fn min_nodes_for(&self, memory_mb: u128) -> u32 {
        spec_min_subnet_nodes(
            self.config.base_subnet_node_memory_mb,
            memory_mb,
            self.config.min_nodes_curve,
            self.config.max_subnet_memory_mb,
            self.config.min_subnet_nodes,
        )
    }

    /// Minimum delegate stake of a subnet with `min_nodes` minimum nodes.
    pub open spec fn min_delegate_stake_for(&self, min_nodes: u32) -> u128 {
        spec_min_subnet_delegate_stake_balance(
            min_nodes,
            self.config.min_stake_balance,
            self.config.min_subnet_delegate_stake_percentage,
            self.config.min_subnet_delegate_stake,
        )
    }

    /// Activates a subnet voted in by the democracy, charging the proposer the
    /// initialization cost into the stake vault.
    pub fn activate_subnet(&mut self, activator: AccountId, proposer: AccountId, subnet_data: PreliminarySubnetData) -> (r: Result<(), Error>)
        requires
            old(self).wf(),
            old(self).registry.total_subnets < u32::MAX,
            old(self).staking.stake_vault_balance + old(self).config.subnet_initialization_cost <= u128::MAX,
            subnet_data.memory_mb <= old(self).config.max_subnet_memory_mb ==> min_subnet_nodes_inputs_ok(
                old(self).config.base_subnet_node_memory_mb,
                subnet_data.memory_mb,
                old(self).config.min_nodes_curve,
                old(self).config.max_subnet_memory_mb,
            ),
            subnet_data.memory_mb <= old(self).config.max_subnet_memory_mb ==> spec_target_subnet_nodes(
                old(self).min_nodes_for(subnet_data.memory_mb),
                old(self).config.target_subnet_nodes_multiplier,
            ) <= u32::MAX,
        ensures
            nodes_shrunk(*old(self), *final(self)),
            final(self).wf(),
            r == match old(self).activate_subnet_error(proposer, subnet_data.path@, subnet_data.memory_mb) {
                Some(e) => Err(e),
                None => Ok(()),
            },
            r is Err ==> *final(self) == *old(self),
            r is Ok ==> subnet_activated_effect(*old(self), *final(self), proposer, subnet_data.path@, subnet_data.memory_mb),
    {
        let _ = activator;
        if self.registry.find_subnet_by_path(&subnet_data.path).is_some() {
            return Err(Error::SubnetExist);
        }
        let total_subnets = self.registry.subnets.len();
        if total_subnets >= self.config.max_subnets as usize {
            return Err(Error::MaxSubnets);
        }
        if subnet_data.memory_mb > self.config.max_subnet_memory_mb {
            return Err(Error::MaxSubnetMemory);
        }
        let block = self.block;
        let subnet_cost = self.config.subnet_initialization_cost;
        if subnet_cost > 0 {
            if subnet_cost > self.balances.free_balance(proposer) {
                return Err(Error::NotEnoughBalanceToStake);
            }
            if !self.balances.withdraw_keep_alive(proposer, subnet_cost) {
                return Err(Error::BalanceWithdrawalError);
            }
            self.staking.stake_vault_balance = self.staking.stake_vault_balance + subnet_cost;
        }
        let subnet_id = self.registry.total_subnets + 1;
        let min_subnet_nodes = get_min_subnet_nodes(
            self.config.base_subnet_node_memory_mb,
            subnet_data.memory_mb,
            self.config.min_nodes_curve,
            self.config.max_subnet_memory_mb,
            self.config.min_subnet_nodes,
        );
        let target_subnet_nodes = get_target_subnet_nodes(
            min_subnet_nodes,
            self.config.target_subnet_nodes_multiplier,
        );
        let data = SubnetData {
            id: subnet_id,
            path: subnet_data.path,
            min_nodes: min_subnet_nodes,
            target_nodes: target_subnet_nodes,
            memory_mb: subnet_data.memory_mb,
            initialized: block,
            activated: block,
            registration_blocks: 0,
        };
        let ghost path = data.path@;
        proof {
            assert(!self.registry.subnets@.contains_key(subnet_id));
            assert forall|id: u32| #[trigger] self.registry.subnets@.contains_key(id) implies self.registry.subnets@[id].path@ != path by {
                if self.registry.subnets@[id].path@ == path {
                    assert(self.registry.path_subnet(path) is Some);
                }
            }
        }
        self.registry.subnets.insert(subnet_id, data);
        self.registry.total_subnets = subnet_id;
        proof {
            assert(self.registry.subnets@.remove(subnet_id) =~= old(self).registry.subnets@);
        }
        Ok(())
    }

    /// Takes the subnet with path `path` off the network with its nodes, node
    /// count, penalties and node classes.
    pub fn deactivate_subnet(&mut self, path: &Vec<u8>, reason: SubnetRemovalReason) -> (r: Result<(), Error>)
        requires
            old(self).wf(),
        ensures
            nodes_shrunk(*old(self), *final(self)),
            final(self).wf(),
            r is Err <==> old(self).registry.path_subnet(path@) is None,
            r is Err ==> r == Err::<(), Error>(Error::SubnetNotExist) && *final(self) == *old(self),
            r is Ok ==> subnet_dropped(*old(self), *final(self), old(self).registry.path_subnet(path@)->0),
    {
        let _ = reason;
        let subnet_id = match self.registry.find_subnet_by_path(path) {
            Some(id) => id,
            None => {
                return Err(Error::SubnetNotExist);
            },
        };
        self.registry.subnets.remove(&subnet_id);
        self.registry.nodes.remove_subnet(subnet_id);
        self.registry.total_subnet_nodes.remove(&subnet_id);
        self.consensus.subnet_penalty_count.remove(&subnet_id);
        let mut classes: Vec<Table<SubnetAccount, u64>> = Vec::new();
        std::mem::swap(&mut classes, &mut self.registry.node_classes);
        let ghost classes0 = classes@;
        let mut c: usize = 0;
        while c < NODE_CLASSES
            invariant
                c <= NODE_CLASSES,
                classes@.len() == NODE_CLASSES,
                classes0.len() == NODE_CLASSES,
                forall|i: int| 0 <= i < NODE_CLASSES ==> #[trigger] classes0[i].wf(),
                forall|i: int| 0 <= i < NODE_CLASSES ==> #[trigger] classes@[i].wf(),
                forall|i: int| c <= i < NODE_CLASSES ==> #[trigger] classes@[i] == classes0[i],
                forall|i: int| 0 <= i < c ==> #[trigger] classes@[i]@ == Map::new(
                    |k: SubnetAccount| classes0[i]@.contains_key(k) && k.subnet_id != subnet_id,
                    |k: SubnetAccount| classes0[i]@[k],
                ),
            decreases NODE_CLASSES - c,
        {
            let mut t = classes.remove(c);
            t.remove_subnet(subnet_id);
            classes.insert(c, t);
            c = c + 1;
        }
        std::mem::swap(&mut classes, &mut self.registry.node_classes);
        Ok(())
    }

    /// Whether the consensus-submission period of the subnet has begun.
    pub open spec fn subnet_initialized_block(&self, subnet_id: u32) -> int {
        spec_eligible_epoch_block(
            self.config.epoch_length,
            self.registry.subnets@[subnet_id].initialized,
            self.config.min_required_subnet_consensus_submit_epochs,
        )
    }

    /// The error `remove_subnet` answers with: the subnet must exist, be past its
    /// initialization period, and hold less delegate stake than required.
    pub open spec fn remove_subnet_error(&self, subnet_id: u32) -> Option<Error> {
        if !self.registry.subnets@.contains_key(subnet_id) {
            Some(Error::SubnetNotExist)
        } else if self.block <= self.subnet_initialized_block(subnet_id) {
            Some(Error::SubnetInitializing)
        } else if self.registry.delegate_stake(subnet_id) >= self.min_delegate_stake_for(
            self.registry.subnets@[subnet_id].min_nodes,
        ) {
            Some(Error::SubnetMinDelegateStakeBalanceMet)
        } else {
            None
        }
    }

    /// The stake the minimum nodes of subnet `id` hold together, the minimum
    /// stake times the subnet's minimum node count, fits in a `u128`.
    pub open spec fn delegate_floor_fits(&self, id: u32) -> bool {
        self.config.min_stake_balance * self.registry.subnets@[id].min_nodes <= u128::MAX
    }

    /// Anyone may remove a subnet past its initialization period whose delegate
    /// stake fell below the minimum.
    pub fn remove_subnet(&mut self, subnet_id: u32) -> (r: Result<(), Error>)
        requires
            old(self).wf(),
            old(self).registry.subnets@.contains_key(subnet_id) && old(self).block > old(self).subnet_initialized_block(
                subnet_id,
            ) ==> old(self).delegate_floor_fits(subnet_id),
        ensures
            nodes_shrunk(*old(self), *final(self)),
            final(self).wf(),
            r == match old(self).remove_subnet_error(subnet_id) {
                Some(e) => Err(e),
                None => Ok(()),
            },
            r is Err ==> *final(self) == *old(self),
            r is Ok ==> subnet_dropped(*old(self), *final(self), subnet_id),
    {
        let data = match self.registry.subnets.get(&subnet_id) {
            Some(d) => d,
            None => {
                return Err(Error::SubnetNotExist);
            },
        };
        let eligible = get_eligible_epoch_block(
            self.config.epoch_length,
            data.initialized,
            self.config.min_required_subnet_consensus_submit_epochs,
        );
        if self.block <= eligible {
            return Err(Error::SubnetInitializing);
        }
        let balance = read_u128(&self.registry.delegate_stake_balance, &subnet_id);
        let min_balance = get_min_subnet_delegate_stake_balance(
            data.min_nodes,
            self.config.min_stake_balance,
            self.config.min_subnet_delegate_stake_percentage,
            self.config.min_subnet_delegate_stake,
        );
        if balance >= min_balance {
            return Err(Error::SubnetMinDelegateStakeBalanceMet);
        }
        let path = data.path.clone();
        proof {
            assert(path@ == self.registry.subnets@[subnet_id].path@);
            assert(self.registry.subnets@.contains_key(subnet_id) && self.registry.subnets@[subnet_id].path@ == path@);
            let c = choose|id: u32| #[trigger] self.registry.subnets@.contains_key(id) && self.registry.subnets@[id].path@ == path@;
            if c != subnet_id {
                assert(self.registry.subnets@[c].path@ != self.registry.subnets@[subnet_id].path@);
            }
            assert(self.registry.path_subnet(path@) == Some(subnet_id));
            assert(self.registry.subnets@.contains_key(subnet_id));
            assert(!(self.block <= self.subnet_initialized_block(subnet_id)));
            assert(balance == self.registry.delegate_stake(subnet_id));
            assert(min_balance == self.min_delegate_stake_for(self.registry.subnets@[subnet_id].min_nodes));
            assert(self.remove_subnet_error(subnet_id) is None);
            assert(old(self).remove_subnet_error(subnet_id) is None);
        }
        match self.deactivate_subnet(&path, SubnetRemovalReason::MinSubnetDelegateStake) {
            Ok(_) => Ok(()),
            Err(e) => Err(e),
        }
    }
}

/// The effect of registering the node of `account` on `subnet_id` with peer id
/// `peer` at `block`: the node, its registration block, its idle class entry, the
/// account's subnet list and the node count.
pub open spec fn node_added(old: Registry, new: Registry, subnet_id: u32, account: AccountId, peer: Vec<u8>, block: u64) -> bool {
    let k = SubnetAccount { subnet_id, account };
    &&& new.nodes@ == old.nodes@.insert(k, SubnetNode { account_id: account, peer_id: peer, initialized: block })
    &&& new.subnet_accounts@ == old.subnet_accounts@.insert(k, block)
    &&& new.node_classes@.len() == NODE_CLASSES
    &&& new.node_classes@[0]@ == old.node_classes@[0]@.insert(k, block)
    &&& forall|c: int| 1 <= c < NODE_CLASSES ==> #[trigger] new.node_classes@[c] == old.node_classes@[c]
    &&& new.subnets_of(account) == old.subnets_of(account).push(subnet_id)
    &&& new.account_subnets@.remove(account) == old.account_subnets@.remove(account)
    &&& new.total_subnet_nodes@ == old.total_subnet_nodes@.insert(subnet_id, (old.node_count(subnet_id) + 1) as u32)
    &&& new.total_subnets == old.total_subnets
    &&& new.subnets == old.subnets
    &&& new.subnet_activated == old.subnet_activated
    &&& new.delegate_stake_balance == old.delegate_stake_balance
}

impl Network {
    /// Block from which an account added to a subnet at `block_added` may join again.
    pub open spec fn rejoin_block(&self, block_added: u64) -> int {
        spec_eligible_epoch_block(self.config.epoch_length, block_added, self.config.min_required_unstake_epochs)
    }

    /// The error `add_subnet_node` answers with: the subnet must exist and have
    /// room, the account and the peer id must be new on it, the peer id must be
    /// valid, the stake must be accepted, and an account that was on the subnet
    /// before must have waited the unstaking epochs.
    pub open spec fn add_subnet_node_error(&self, account: AccountId, subnet_id: u32, peer: Seq<u8>, stake: u128) -> Option<Error> {
        let prev = u64_at(self.registry.subnet_accounts@, SubnetAccount { subnet_id, account });
        if !self.registry.subnets@.contains_key(subnet_id) {
            Some(Error::SubnetNotExist)
        } else if self.registry.node_count(subnet_id) >= self.config.max_subnet_nodes {
            Some(Error::SubnetNodesMax)
        } else if self.registry.has_node(subnet_id, account) {
            Some(Error::SubnetNodeExist)
        } else if self.registry.peer_account(subnet_id, peer) is Some {
            Some(Error::PeerIdExist)
        } else if !crate::utils::spec_valid_peer_id(peer) {
            Some(Error::InvalidPeerId)
        } else if self.add_stake_error(account, subnet_id, account, stake) is Some {
            self.add_stake_error(account, subnet_id, account, stake)
        } else if prev != 0 && self.block < self.rejoin_block(prev) {
            Some(Error::RequiredUnstakeEpochsNotMet)
        } else {
            None
        }
    }

    /// Registers the node of `account` on `subnet_id` with peer id `peer_id`,
    /// staking `stake_to_be_added` from the account.
    pub fn add_subnet_node(&mut self, account: AccountId, subnet_id: u32, peer_id: Vec<u8>, stake_to_be_added: u128) -> (r: Result<(), Error>)
        requires
            old(self).wf(),
        ensures
            claims_kept(*old(self), *final(self)),
            final(self).wf(),
            r == match old(self).add_subnet_node_error(account, subnet_id, peer_id@, stake_to_be_added) {
                Some(e) => Err(e),
                None => Ok(()),
            },
            r is Err ==> *final(self) == *old(self),
            r is Ok ==> add_stake_effect(*old(self), *final(self), account, subnet_id, account, stake_to_be_added)
                && node_added(old(self).registry, final(self).registry, subnet_id, account, peer_id, old(self).block),
    {
        if !self.registry.subnets.contains_key(&subnet_id) {
            return Err(Error::SubnetNotExist);
        }
        let total_subnet_nodes = read_u32(&self.registry.total_subnet_nodes, &subnet_id);
        if total_subnet_nodes >= self.config.max_subnet_nodes {
            return Err(Error::SubnetNodesMax);
        }
        let k = SubnetAccount { subnet_id, account };
        if self.registry.nodes.contains_key(&k) {
            return Err(Error::SubnetNodeExist);
        }
        if self.registry.find_peer_account(subnet_id, &peer_id).is_some() {
            return Err(Error::PeerIdExist);
        }
        if !crate::utils::validate_peer_id(&peer_id) {
            return Err(Error::InvalidPeerId);
        }
        match self.check_add_stake(account, subnet_id, account, stake_to_be_added) {
            Some(e) => {
                return Err(e);
            },
            None => {},
        }
        let block = self.block;
        let prev = crate::network::read_u64(&self.registry.subnet_accounts, &k);
        if prev != 0 {
            let eligible = get_eligible_epoch_block(
                self.config.epoch_length,
                prev,
                self.config.min_required_unstake_epochs,
            );
            if block < eligible {
                return Err(Error::RequiredUnstakeEpochsNotMet);
            }
        }
        let ghost before = *self;
        let _ = self.do_add_stake(account, subnet_id, account, stake_to_be_added);
        let ghost peer = peer_id@;
        proof {
            assert forall|k2: SubnetAccount| #[trigger] self.registry.nodes@.contains_key(k2) && k2.subnet_id == subnet_id
                implies self.registry.nodes@[k2].peer_id@ != peer by {
                if self.registry.nodes@[k2].peer_id@ == peer {
                    assert(self.registry.peer_account(subnet_id, peer) is Some);
                }
            }
        }
        self.registry.nodes.insert(k, SubnetNode { account_id: account, peer_id, initialized: block });
        self.registry.subnet_accounts.insert(k, block);
        let mut idle = self.registry.node_classes.remove(0);
        idle.insert(k, block);
        self.registry.node_classes.insert(0, idle);
        let mut list = match self.registry.account_subnets.remove(&account) {
            Some(l) => l,
            None => Vec::new(),
        };
        list.push(subnet_id);
        self.registry.account_subnets.insert(account, list);
        self.registry.total_subnet_nodes.insert(subnet_id, total_subnet_nodes + 1);
        proof {
            assert(self.registry.account_subnets@.remove(account) =~= before.registry.account_subnets@.remove(account));
            assert forall|c: int| 0 <= c < NODE_CLASSES implies #[trigger] self.registry.node_classes@[c].wf() by {
                if c > 0 {
                    assert(self.registry.node_classes@[c] == before.registry.node_classes@[c]);
                }
            }
            assert forall|c: int| 1 <= c < NODE_CLASSES implies #[trigger] self.registry.node_classes@[c] == before.registry.node_classes@[c] by {}
        }
        Ok(())
    }

    /// Registers a node as `add_subnet_node` does, for an account whose
    /// eligibility the caller decided.
    pub fn do_add_subnet_node(&mut self, account: AccountId, subnet_id: u32, peer_id: Vec<u8>, stake_to_be_added: u128, eligible: bool) -> (r: Result<(), Error>)
        requires
            old(self).wf(),
        ensures
            claims_kept(*old(self), *final(self)),
            final(self).wf(),
            !old(self).registry.subnets@.contains_key(subnet_id) ==> r == Err::<(), Error>(Error::SubnetNotExist),
            old(self).registry.subnets@.contains_key(subnet_id) && !eligible ==> r == Err::<(), Error>(Error::AccountIneligible),
            old(self).registry.subnets@.contains_key(subnet_id) && eligible ==> r == match old(self).add_subnet_node_error(account, subnet_id, peer_id@, stake_to_be_added) {
                Some(e) => Err(e),
                None => Ok(()),
            },
            r is Err ==> *final(self) == *old(self),
            r is Ok ==> add_stake_effect(*old(self), *final(self), account, subnet_id, account, stake_to_be_added)
                && node_added(old(self).registry, final(self).registry, subnet_id, account, peer_id, old(self).block),
    {
        if !self.registry.subnets.contains_key(&subnet_id) {
            return Err(Error::SubnetNotExist);
        }
        if !eligible {
            return Err(Error::AccountIneligible);
        }
        self.add_subnet_node(account, subnet_id, peer_id, stake_to_be_added)
    }
}

/// `n - 1`, at least zero.
pub open spec fn sat_dec(n: u32) -> u32 {
    if n > 0 {
        (n - 1) as u32
    } else {
        0
    }
}

/// What removing the node of `account` on `subnet_id` at `block` does to the
/// registry and to the epoch's submission: the node leaves the node table, its
/// peer leaves the submitted scores and its attestation is dropped, and the node
/// count drops by one. Stake, penalties and absences are not covered here.
pub open spec fn node_detached(old: Network, new: Network, block: u64, subnet_id: u32, account: AccountId) -> bool {
    let k = SubnetAccount { subnet_id, account };
    let peer = old.registry.nodes@[k].peer_id@;
    let ek = SubnetEpoch { subnet_id, epoch: (block / old.config.epoch_length) as u32 };
    &&& new.registry.nodes@ == old.registry.nodes@.remove(k)
    &&& new.registry.total_subnet_nodes@ == old.registry.total_subnet_nodes@.insert(
        subnet_id,
        sat_dec(old.registry.node_count(subnet_id)),
    )
    &&& (old.consensus.rewards_submission@.contains_key(ek) ==> {
        let o = old.consensus.rewards_submission@[ek];
        let n = new.consensus.rewards_submission@[ek];
        &&& new.consensus.rewards_submission@.contains_key(ek)
        &&& new.consensus.rewards_submission@.remove(ek) == old.consensus.rewards_submission@.remove(ek)
        &&& n.data@ == other_peers(o.data@, peer)
        &&& n.attests@ == o.attests@.remove(account)
        &&& n.validator == o.validator
        &&& n.nodes_count == o.nodes_count
        &&& n.sum == o.sum
        &&& n.complete == o.complete
    })
    &&& (!old.consensus.rewards_submission@.contains_key(ek) ==> new.consensus.rewards_submission
        == old.consensus.rewards_submission)
    &&& new.registry.subnets == old.registry.subnets
    &&& new.registry.total_subnets == old.registry.total_subnets
    &&& new.registry.subnet_accounts == old.registry.subnet_accounts
    &&& new.registry.node_classes == old.registry.node_classes
    &&& new.registry.account_subnets == old.registry.account_subnets
    &&& new.registry.delegate_stake_balance == old.registry.delegate_stake_balance
    &&& new.registry.subnet_activated == old.registry.subnet_activated
    &&& new.consensus.subnet_penalty_count == old.consensus.subnet_penalty_count
    &&& new.consensus.account_penalty_count == old.consensus.account_penalty_count
    &&& new.consensus.rewards_validator == old.consensus.rewards_validator
    &&& new.balances == old.balances
    &&& new.config == old.config
    &&& new.block == old.block
}

/// The effect of removing the node of `account` on `subnet_id` at `block`: the
/// node is detached and its penalties are cleared; stake and absences stay;
/// nothing happens without a node.
pub open spec fn node_removed(old: Network, new: Network, block: u64, subnet_id: u32, account: AccountId) -> bool {
    let k = SubnetAccount { subnet_id, account };
    if !old.registry.nodes@.contains_key(k) {
        new == old
    } else {
        &&& node_detached(old, new, block, subnet_id, account)
        &&& new.consensus.node_penalties@ == old.consensus.node_penalties@.remove(k)
        &&& new.consensus.sequential_absent == old.consensus.sequential_absent
        &&& new.staking == old.staking
    }
}

impl Network {
    /// Removes the node of `account` on `subnet_id`, as of `block`.
    pub fn perform_remove_subnet_node(&mut self, block: u64, subnet_id: u32, account: AccountId)
        requires
            old(self).wf(),
        ensures
            nodes_shrunk(*old(self), *final(self)),
            final(self).wf(),
            node_removed(*old(self), *final(self), block, subnet_id, account),
    {
        let k = SubnetAccount { subnet_id, account };
        let node = match self.registry.nodes.remove(&k) {
            Some(n) => n,
            None => {
                return;
            },
        };
        let epoch = #[verifier::truncate] ((block / self.config.epoch_length) as u32);
        let ek = SubnetEpoch { subnet_id, epoch };
        match self.consensus.rewards_submission.remove(&ek) {
            Some(mut params) => {
                crate::types::retain_other_peers(&mut params.data, &node.peer_id);
                params.attests.remove(&account);
                self.consensus.rewards_submission.insert(ek, params);
                proof {
                    assert(self.consensus.rewards_submission@.remove(ek) =~= old(self).consensus.rewards_submission@.remove(ek));
                }
            },
            None => {},
        }
        let n = read_u32(&self.registry.total_subnet_nodes, &subnet_id);
        let dec = if n > 0 { n - 1 } else { 0 };
        self.registry.total_subnet_nodes.insert(subnet_id, dec);
        self.consensus.node_penalties.remove(&k);
    }

    /// The error removing the node of `account` on `subnet_id` answers with.
    pub open spec fn remove_subnet_node_error(&self, account: AccountId, subnet_id: u32) -> Option<Error> {
        if !self.registry.subnets@.contains_key(subnet_id) {
            Some(Error::SubnetNotExist)
        } else if !self.registry.has_node(subnet_id, account) {
            Some(Error::SubnetNodeNotExist)
        } else {
            None
        }
    }

    /// Removes the node of `account` on `subnet_id`; unstaking is separate.
    pub fn do_remove_subnet_node(&mut self, account: AccountId, subnet_id: u32) -> (r: Result<(), Error>)
        requires
            old(self).wf(),
        ensures
            nodes_shrunk(*old(self), *final(self)),
            final(self).wf(),
            r == match old(self).remove_subnet_node_error(account, subnet_id) {
                Some(e) => Err(e),
                None => Ok(()),
            },
            r is Err ==> *final(self) == *old(self),
            r is Ok ==> node_removed(*old(self), *final(self), old(self).block, subnet_id, account),
    {
        if !self.registry.subnets.contains_key(&subnet_id) {
            return Err(Error::SubnetNotExist);
        }
        if !self.registry.nodes.contains_key(&SubnetAccount { subnet_id, account }) {
            return Err(Error::SubnetNodeNotExist);
        }
        let block = self.block;
        self.perform_remove_subnet_node(block, subnet_id, account);
        Ok(())
    }

    /// A node's own call to leave a subnet.
    pub fn remove_subnet_node(&mut self, account: AccountId, subnet_id: u32) -> (r: Result<(), Error>)
        requires
            old(self).wf(),
        ensures
            nodes_shrunk(*old(self), *final(self)),
            final(self).wf(),
            r == match old(self).remove_subnet_node_error(account, subnet_id) {
                Some(e) => Err(e),
                None => Ok(()),
            },
            r is Err ==> *final(self) == *old(self),
            r is Ok ==> node_removed(*old(self), *final(self), old(self).block, subnet_id, account),
    {
        self.do_remove_subnet_node(account, subnet_id)
    }

    /// A node adds stake on its subnet.
    pub fn add_to_stake(&mut self, account: AccountId, subnet_id: u32, stake_to_be_added: u128) -> (r: Result<(), Error>)
        requires
            old(self).wf(),
        ensures
            nodes_shrunk(*old(self), *final(self)),
            final(self).wf(),
            !old(self).registry.subnets@.contains_key(subnet_id) ==> r == Err::<(), Error>(Error::SubnetNotExist),
            old(self).registry.subnets@.contains_key(subnet_id) && !old(self).registry.has_node(subnet_id, account)
                ==> r == Err::<(), Error>(Error::SubnetNodeNotExist),
            old(self).registry.subnets@.contains_key(subnet_id) && old(self).registry.has_node(subnet_id, account)
                ==> r == match old(self).add_stake_error(account, subnet_id, account, stake_to_be_added) {
                    Some(e) => Err(e),
                    None => Ok(()),
                },
            r is Err ==> *final(self) == *old(self),
            r is Ok ==> add_stake_effect(*old(self), *final(self), account, subnet_id, account, stake_to_be_added)
                && final(self).registry == old(self).registry,
    {
        if !self.registry.subnets.contains_key(&subnet_id) {
            return Err(Error::SubnetNotExist);
        }
        if !self.registry.nodes.contains_key(&SubnetAccount { subnet_id, account }) {
            return Err(Error::SubnetNodeNotExist);
        }
        self.do_add_stake(account, subnet_id, account, stake_to_be_added)
    }

    /// Removes stake of `account` on `subnet_id`; a node keeps the minimum stake.
    pub fn remove_stake(&mut self, account: AccountId, subnet_id: u32, stake_to_be_removed: u128) -> (r: Result<(), Error>)
        requires
            old(self).wf(),
        ensures
            nodes_shrunk(*old(self), *final(self)),
            final(self).wf(),
            r == match old(self).remove_stake_error(
                account,
                subnet_id,
                account,
                old(self).registry.has_node(subnet_id, account),
                stake_to_be_removed,
            ) {
                Some(e) => Err(e),
                None => Ok(()),
            },
            r is Err ==> *final(self) == *old(self),
            r is Ok ==> final(self).staking.stake(account, subnet_id) == old(self).staking.stake(account, subnet_id)
                - stake_to_be_removed,
            r is Ok ==> final(self).staking.ledger(account, subnet_id) == old(self).ledger_after_unbonding(
                account,
                subnet_id,
                stake_to_be_removed,
            ),
            final(self).registry == old(self).registry,
    {
        let is_subnet_node = self.registry.nodes.contains_key(&SubnetAccount { subnet_id, account });
        self.do_remove_stake(account, subnet_id, account, is_subnet_node, stake_to_be_removed)
    }

    /// The error `increase_delegate_stake` answers with.
    pub open spec fn increase_delegate_stake_error(&self, account: AccountId, subnet_id: u32, amount: u128) -> Option<Error> {
        if !self.registry.subnets@.contains_key(subnet_id) {
            Some(Error::SubnetNotExist)
        } else if amount > self.balances.free(account) {
            Some(Error::NotEnoughBalance)
        } else if !self.balances.spec_withdraw_ok(account, amount) {
            Some(Error::BalanceWithdrawalError)
        } else {
            None
        }
    }

    /// Anyone may add funds to a subnet's delegate stake pool.
    pub fn increase_delegate_stake(&mut self, account: AccountId, subnet_id: u32, amount: u128) -> (r: Result<(), Error>)
        requires
            old(self).wf(),
        ensures
            nodes_shrunk(*old(self), *final(self)),
            final(self).wf(),
            r == match old(self).increase_delegate_stake_error(account, subnet_id, amount) {
                Some(e) => Err(e),
                None => Ok(()),
            },
            r is Err ==> *final(self) == *old(self),
            r is Ok ==> {
                &&& final(self).balances@ == Network::balances_after_withdraw(old(self).balances, account, amount)
                &&& final(self).registry.delegate_stake_balance@ == old(self).registry.delegate_stake_balance@.insert(
                    subnet_id,
                    sat_add(old(self).registry.delegate_stake(subnet_id), amount),
                )
                &&& final(self).staking == old(self).staking
                &&& final(self).consensus == old(self).consensus
                &&& final(self).registry.subnets == old(self).registry.subnets
                &&& final(self).registry.nodes == old(self).registry.nodes
            },
    {
        if !self.registry.subnets.contains_key(&subnet_id) {
            return Err(Error::SubnetNotExist);
        }
        if amount > self.balances.free_balance(account) {
            return Err(Error::NotEnoughBalance);
        }
        if !self.balances.withdraw_keep_alive(account, amount) {
            return Err(Error::BalanceWithdrawalError);
        }
        let b = read_u128(&self.registry.delegate_stake_balance, &subnet_id);
        self.registry.delegate_stake_balance.insert(subnet_id, b.saturating_add(amount));
        Ok(())
    }
}

} // verus!
