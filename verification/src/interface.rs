//! What the democracy and the council call on the network, and its queries.

use vstd::prelude::*;
use crate::network::{claims_kept, nodes_shrunk, Error, Network, read_u32, u32_at};
use crate::registry::{node_removed, subnet_activated_effect, subnet_dropped, Registry};
use crate::subnet_params::{min_subnet_nodes_inputs_ok, spec_target_subnet_nodes};
use crate::types::AccountId;
use crate::types::{PreliminarySubnetData, SubnetData, SubnetDemocracySubnetData, SubnetRemovalReason};
use crate::utils::bytes_eq;

verus! {

impl PreliminarySubnetData {
    pub fn copy(&self) -> (c: Self)
        ensures
            c.path@ == self.path@,
            c.memory_mb == self.memory_mb,
    {
        PreliminarySubnetData { path: self.path.clone(), memory_mb: self.memory_mb }
    }
}

impl SubnetData {
    pub fn copy(&self) -> (c: Self)
        ensures
            c.path@ == self.path@,
            c.id == self.id,
            c.min_nodes == self.min_nodes,
            c.target_nodes == self.target_nodes,
            c.memory_mb == self.memory_mb,
            c.initialized == self.initialized,
            c.activated == self.activated,
            c.registration_blocks == self.registration_blocks,
    {
        SubnetData {
            id: self.id,
            path: self.path.clone(),
            min_nodes: self.min_nodes,
            target_nodes: self.target_nodes,
            memory_mb: self.memory_mb,
            initialized: self.initialized,
            activated: self.activated,
            registration_blocks: self.registration_blocks,
        }
    }
}

impl Registry {
    /// Records the democracy data of `path`, replacing what it held.
    pub fn set_subnet_activated(&mut self, path: Vec<u8>, data: SubnetDemocracySubnetData)
        requires
            old(self).wf(),
        ensures
            final(self).wf(),
            final(self).activated() == old(self).activated().insert(path@, data),
            final(self).total_subnets == old(self).total_subnets,
            final(self).subnets == old(self).subnets,
            final(self).nodes == old(self).nodes,
            final(self).total_subnet_nodes == old(self).total_subnet_nodes,
            final(self).subnet_accounts == old(self).subnet_accounts,
            final(self).node_classes == old(self).node_classes,
            final(self).account_subnets == old(self).account_subnets,
            final(self).delegate_stake_balance == old(self).delegate_stake_balance,
    {
        let ghost o = self.subnet_activated@;
        let ghost pv = path@;
        let mut i: usize = 0;
        while i < self.subnet_activated.len()
            invariant
                self == old(self),
                self.wf(),
                o == self.subnet_activated@,
                pv == path@,
                i <= o.len(),
                forall|j: int| 0 <= j < i ==> #[trigger] o[j].0@ != pv,
            decreases o.len() - i,
        {
            if bytes_eq(&self.subnet_activated[i].0, &path) {
                let mut entries: Vec<(Vec<u8>, SubnetDemocracySubnetData)> = Vec::new();
                std::mem::swap(&mut entries, &mut self.subnet_activated);
                entries.set(i, (path, data));
                std::mem::swap(&mut entries, &mut self.subnet_activated);
                proof {
                    let n = self.subnet_activated@;
                    assert(n == o.update(i as int, (n[i as int].0, data)));
                    assert forall|a: int, b: int| 0 <= a < b < n.len() implies #[trigger] n[a].0@ != #[trigger] n[b].0@ by {
                        if a != i && b != i {
                            assert(o[a].0@ != o[b].0@);
                        } else if a == i {
                            assert(o[a].0@ == pv);
                            assert(o[a].0@ != o[b].0@);
                        } else {
                            assert(o[b].0@ == pv);
                            assert(o[a].0@ != o[b].0@);
                        }
                    }
                    assert forall|p: Seq<u8>| #[trigger] self.activated().contains_key(p) <==> old(self).activated().insert(pv, data).contains_key(p) by {
                        if self.activated().contains_key(p) {
                            let j = choose|j: int| 0 <= j < n.len() && #[trigger] n[j].0@ == p;
                            if j != i {
                                assert(o[j].0@ == p);
                            }
                        }
                        if old(self).activated().contains_key(p) {
                            let j = choose|j: int| 0 <= j < o.len() && #[trigger] o[j].0@ == p;
                            if j != i {
                                assert(n[j].0@ == p);
                            } else {
                                assert(n[i as int].0@ == p);
                            }
                        }
                        if p == pv {
                            assert(n[i as int].0@ == p);
                        }
                    }
                    assert forall|p: Seq<u8>| #[trigger] self.activated().contains_key(p) implies self.activated()[p]
                        == old(self).activated().insert(pv, data)[p] by {
                        let j = choose|j: int| 0 <= j < n.len() && #[trigger] n[j].0@ == p;
                        if p == pv {
                            assert(n[i as int].0@ == pv);
                        } else {
                            let k = choose|k: int| 0 <= k < o.len() && #[trigger] o[k].0@ == p;
                            assert(k != i);
                            assert(n[k].0@ == p);
                        }
                    }
                    assert(self.activated() =~= old(self).activated().insert(pv, data));
                }
                return;
            }
            i = i + 1;
        }
        self.subnet_activated.push((path, data));
        proof {
            let n = self.subnet_activated@;
            assert forall|a: int, b: int| 0 <= a < b < n.len() implies #[trigger] n[a].0@ != #[trigger] n[b].0@ by {
                if b < o.len() {
                    assert(o[a].0@ != o[b].0@);
                }
            }
            assert forall|p: Seq<u8>| #[trigger] self.activated().contains_key(p) <==> old(self).activated().insert(pv, data).contains_key(p) by {
                if self.activated().contains_key(p) {
                    let j = choose|j: int| 0 <= j < n.len() && #[trigger] n[j].0@ == p;
                    if j < o.len() {
                        assert(o[j].0@ == p);
                    }
                }
                if old(self).activated().contains_key(p) {
                    let j = choose|j: int| 0 <= j < o.len() && #[trigger] o[j].0@ == p;
                    assert(n[j].0@ == p);
                }
                if p == pv {
                    assert(n[o.len() as int].0@ == p);
                }
            }
            assert forall|p: Seq<u8>| #[trigger] self.activated().contains_key(p) implies self.activated()[p]
                == old(self).activated().insert(pv, data)[p] by {
                if p == pv {
                    let j = choose|j: int| 0 <= j < n.len() && #[trigger] n[j].0@ == p;
                    assert(n[o.len() as int].0@ == pv);
                } else {
                    let k = choose|k: int| 0 <= k < o.len() && #[trigger] o[k].0@ == p;
                    assert(n[k].0@ == p);
                }
            }
            assert(self.activated() =~= old(self).activated().insert(pv, data));
        }
    }
}


/// `new` is `old` with the democracy data `data` recorded for `path`.
pub open spec fn democracy_recorded(old: Network, new: Network, path: Seq<u8>, data: SubnetDemocracySubnetData) -> bool {
    &&& new.registry.activated() == old.registry.activated().insert(path, data)
    &&& new.registry.total_subnets == old.registry.total_subnets
    &&& new.registry.subnets == old.registry.subnets
    &&& new.registry.nodes == old.registry.nodes
    &&& new.registry.total_subnet_nodes == old.registry.total_subnet_nodes
    &&& new.registry.subnet_accounts == old.registry.subnet_accounts
    &&& new.registry.node_classes == old.registry.node_classes
    &&& new.registry.account_subnets == old.registry.account_subnets
    &&& new.registry.delegate_stake_balance == old.registry.delegate_stake_balance
    &&& new.staking == old.staking
    &&& new.balances == old.balances
    &&& new.consensus == old.consensus
    &&& new.config == old.config
    &&& new.block == old.block
}

impl Network {
    /// The democracy voted a subnet in: its data is recorded under its path.
    pub fn vote_subnet_in(&mut self, vote_subnet_data: SubnetDemocracySubnetData) -> (r: Result<(), Error>)
        requires
            old(self).wf(),
        ensures
            nodes_shrunk(*old(self), *final(self)),
            final(self).wf(),
            r is Ok,
            democracy_recorded(*old(self), *final(self), vote_subnet_data.data.path@, vote_subnet_data),
    {
        let path = vote_subnet_data.data.path.clone();
        self.registry.set_subnet_activated(path, vote_subnet_data);
        Ok(())
    }

    /// The democracy voted a subnet out: its data is recorded under its path.
    pub fn vote_subnet_out(&mut self, vote_subnet_data: SubnetDemocracySubnetData) -> (r: Result<(), Error>)
        requires
            old(self).wf(),
        ensures
            nodes_shrunk(*old(self), *final(self)),
            final(self).wf(),
            r is Ok,
            democracy_recorded(*old(self), *final(self), vote_subnet_data.data.path@, vote_subnet_data),
    {
        let path = vote_subnet_data.data.path.clone();
        self.registry.set_subnet_activated(path, vote_subnet_data);
        Ok(())
    }

    /// The democracy activated the subnet of `vote_subnet_data`: the subnet is
    /// activated and its data recorded under `path`; a failed activation leaves
    /// everything as it was, the call that made it being undone.
    pub fn vote_activated(&mut self, activator: AccountId, path: Vec<u8>, proposer: AccountId, vote_subnet_data: SubnetDemocracySubnetData) -> (r: Result<(), Error>)
        requires
            old(self).wf(),
            old(self).registry.total_subnets < u32::MAX,
            old(self).staking.stake_vault_balance + old(self).config.subnet_initialization_cost <= u128::MAX,
            vote_subnet_data.data.memory_mb <= old(self).config.max_subnet_memory_mb ==> min_subnet_nodes_inputs_ok(
                old(self).config.base_subnet_node_memory_mb,
                vote_subnet_data.data.memory_mb,
                old(self).config.min_nodes_curve,
                old(self).config.max_subnet_memory_mb,
            ),
            vote_subnet_data.data.memory_mb <= old(self).config.max_subnet_memory_mb ==> spec_target_subnet_nodes(
                old(self).min_nodes_for(vote_subnet_data.data.memory_mb),
                old(self).config.target_subnet_nodes_multiplier,
            ) <= u32::MAX,
        ensures
            nodes_shrunk(*old(self), *final(self)),
            final(self).wf(),
            r == match old(self).activate_subnet_error(proposer, vote_subnet_data.data.path@, vote_subnet_data.data.memory_mb) {
                Some(e) => Err(e),
                None => Ok(()),
            },
            r is Err ==> *final(self) == *old(self),
            r is Ok ==> exists|mid: Network|
                #[trigger] subnet_activated_effect(*old(self), mid, proposer, vote_subnet_data.data.path@, vote_subnet_data.data.memory_mb)
                    && democracy_recorded(mid, *final(self), path@, vote_subnet_data),
    {
        let data = vote_subnet_data.data.copy();
        let r = self.activate_subnet(activator, proposer, data);
        match r {
            Ok(()) => {
                let ghost mid = *self;
                self.registry.set_subnet_activated(path, vote_subnet_data);
                proof {
                    assert(democracy_recorded(mid, *self, path@, vote_subnet_data));
                }
                Ok(())
            },
            Err(e) => Err(e),
        }
    }

    /// The democracy deactivated the subnet of `vote_subnet_data`: the subnet
    /// is taken off and its data recorded under `path`; when no subnet has its
    /// path, everything stays as it was, the call that made it being undone.
    pub fn vote_deactivated(&mut self, deactivator: AccountId, path: Vec<u8>, proposer: AccountId, vote_subnet_data: SubnetDemocracySubnetData) -> (r: Result<(), Error>)
        requires
            old(self).wf(),
        ensures
            nodes_shrunk(*old(self), *final(self)),
            final(self).wf(),
            r is Err <==> old(self).registry.path_subnet(vote_subnet_data.data.path@) is None,
            r is Err ==> r == Err::<(), Error>(Error::SubnetNotExist) && *final(self) == *old(self),
            r is Ok ==> exists|mid: Network|
                #[trigger] subnet_dropped(*old(self), mid, old(self).registry.path_subnet(vote_subnet_data.data.path@)->0)
                    && democracy_recorded(mid, *final(self), path@, vote_subnet_data),
    {
        let _ = deactivator;
        let _ = proposer;
        let subnet_path = vote_subnet_data.data.path.clone();
        let r = self.deactivate_subnet(&subnet_path, SubnetRemovalReason::SubnetDemocracy);
        match r {
            Ok(()) => {
                let ghost mid = *self;
                self.registry.set_subnet_activated(path, vote_subnet_data);
                proof {
                    assert(democracy_recorded(mid, *self, path@, vote_subnet_data));
                }
                Ok(())
            },
            Err(e) => Err(e),
        }
    }

    /// The council takes the subnet with path `path` off the network.
    pub fn council_remove_subnet(&mut self, path: Vec<u8>) -> (r: Result<(), Error>)
        requires
            old(self).wf(),
        ensures
            nodes_shrunk(*old(self), *final(self)),
            final(self).wf(),
            r is Err <==> old(self).registry.path_subnet(path@) is None,
            r is Err ==> r == Err::<(), Error>(Error::SubnetNotExist) && *final(self) == *old(self),
            r is Ok ==> subnet_dropped(*old(self), *final(self), old(self).registry.path_subnet(path@)->0),
    {
        self.deactivate_subnet(&path, SubnetRemovalReason::Council)
    }

    /// The council removes the node of `account_id` on `subnet_id`.
    pub fn council_remove_subnet_node(&mut self, account_id: AccountId, subnet_id: u32) -> (r: Result<(), Error>)
        requires
            old(self).wf(),
        ensures
            nodes_shrunk(*old(self), *final(self)),
            final(self).wf(),
            r == match old(self).remove_subnet_node_error(account_id, subnet_id) {
                Some(e) => Err(e),
                None => Ok(()),
            },
            r is Err ==> *final(self) == *old(self),
            r is Ok ==> node_removed(*old(self), *final(self), old(self).block, subnet_id, account_id),
    {
        self.do_remove_subnet_node(account_id, subnet_id)
    }

    /// Adds `amount` to the stake vault.
    pub fn increase_stake_vault(&mut self, amount: u128) -> (r: Result<(), Error>)
        requires
            old(self).wf(),
            old(self).staking.stake_vault_balance + amount <= u128::MAX,
        ensures
            nodes_shrunk(*old(self), *final(self)),
            final(self).wf(),
            r is Ok,
            final(self).staking.stake_vault_balance == old(self).staking.stake_vault_balance + amount,
            final(self).staking.account_subnet_stake == old(self).staking.account_subnet_stake,
            final(self).staking.total_subnet_stake == old(self).staking.total_subnet_stake,
            final(self).staking.total_stake == old(self).staking.total_stake,
            final(self).staking.unbondings == old(self).staking.unbondings,
            final(self).staking.last_tx_block == old(self).staking.last_tx_block,
            final(self).registry == old(self).registry,
            final(self).consensus == old(self).consensus,
            final(self).balances == old(self).balances,
            final(self).config == old(self).config,
            final(self).block == old(self).block,
    {
        self.staking.stake_vault_balance = self.staking.stake_vault_balance + amount;
        Ok(())
    }
}

} // verus!
