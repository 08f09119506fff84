//! The preliminaries of each epoch: subnets that missed their obligations are
//! taken off the network and a validator is chosen for each of the others.

use vstd::prelude::*;
use crate::network::{claims_kept, nodes_shrunk, Network, read_u128, read_u32, u32_at};
use crate::registry::{subnet_dropped, NODE_CLASSES};
use crate::rewards::subnet_penalized;
use crate::subnet_params::get_min_subnet_delegate_stake_balance;
use crate::table::{SubnetAccount, SubnetEpoch};
use crate::types::{AccountId, SubnetNodeClass, SubnetRemovalReason};
use crate::validation::validator_chosen;

verus! {

/// Last block of the registration phase of subnet `id`, enactment period included.
pub open spec fn registration_end(s: Network, id: u32) -> int {
    s.registry.subnets@[id].initialized + s.registry.subnets@[id].registration_blocks
        + s.config.subnet_activation_enactment_period
}

/// Accounts that may become the validator of `id` at `epoch`: the nodes of the
/// Submittable class.
pub open spec fn validator_candidates(s: Network, epoch: u32, id: u32) -> Seq<AccountId> {
    s.registry.classified_accounts(id, 3, epoch as u64, s.config.epoch_length)
}

/// Subnet `id` has fewer candidates than its minimum node count.
pub open spec fn short_of_nodes(s: Network, epoch: u32, id: u32) -> bool {
    (validator_candidates(s, epoch, id).len() as u32) < s.registry.subnets@[id].min_nodes
}

/// Subnet `id` keeps its place at `epoch` and takes part in the choice of
/// validators: it is activated, holds its minimum delegate stake, and its
/// penalty count, with the one it may count now, stays within the maximum.
pub open spec fn subnet_survives(s: Network, epoch: u32, id: u32) -> bool {
    let data = s.registry.subnets@[id];
    &&& data.activated != 0
    &&& s.registry.delegate_stake(id) >= s.min_delegate_stake_for(data.min_nodes)
    &&& u32_at(s.consensus.subnet_penalty_count@, id) + (if short_of_nodes(s, epoch, id) {
        1int
    } else {
        0int
    }) <= s.config.max_subnet_penalty_count
}

/// Past the maximum penalty count the subnet is taken off; otherwise its
/// validator is chosen among `candidates`.
pub open spec fn validator_or_drop(old: Network, new: Network, epoch: u32, random: u32, id: u32, candidates: Seq<AccountId>) -> bool {
    if u32_at(old.consensus.subnet_penalty_count@, id) > old.config.max_subnet_penalty_count {
        subnet_dropped(old, new, id)
    } else {
        validator_chosen(old, new, id, candidates, old.registry.subnets@[id].min_nodes, epoch, random)
    }
}

/// The preliminaries of subnet `id` for `epoch` at `block`: a subnet still
/// registering is left alone and one past its registration is taken off; an
/// active subnet short of delegate stake is taken off; one short of nodes counts
/// a penalty; past the maximum penalty count it is taken off, otherwise its
/// validator is chosen with `random`.
pub open spec fn subnet_prepared(old: Network, new: Network, block: u64, epoch: u32, random: u32, id: u32) -> bool {
    let data = old.registry.subnets@[id];
    let candidates = validator_candidates(old, epoch, id);
    if data.activated == 0 {
        if block <= registration_end(old, id) {
            new == old
        } else {
            subnet_dropped(old, new, id)
        }
    } else if old.registry.delegate_stake(id) < old.min_delegate_stake_for(data.min_nodes) {
        subnet_dropped(old, new, id)
    } else if short_of_nodes(old, epoch, id) {
        exists|mid: Network| #[trigger] subnet_penalized(old, mid, id) && validator_or_drop(mid, new, epoch, random, id, candidates)
    } else {
        validator_or_drop(old, new, epoch, random, id, candidates)
    }
}

/// What the preliminaries of `id` leave of every other subnet: its data, penalty
/// count, nodes and node classes, and whether it has a validator for `epoch`.
pub open spec fn prepare_frame(old: Network, new: Network, epoch: u32, id: u32) -> bool {
    &&& new.config == old.config
    &&& new.block == old.block
    &&& new.registry.delegate_stake_balance == old.registry.delegate_stake_balance
    &&& new.registry.node_classes@.len() == old.registry.node_classes@.len()
    &&& forall|other: u32| other != id ==> (#[trigger] new.registry.subnets@.contains_key(other) <==> old.registry.subnets@.contains_key(other))
    &&& forall|other: u32| other != id && old.registry.subnets@.contains_key(other) ==> #[trigger] new.registry.subnets@[other] == old.registry.subnets@[other]
    &&& forall|other: u32| other != id ==> #[trigger] u32_at(new.consensus.subnet_penalty_count@, other) == u32_at(old.consensus.subnet_penalty_count@, other)
    &&& forall|other: u32| other != id ==> #[trigger] new.registry.nodes.subnet_entries(other) == old.registry.nodes.subnet_entries(other)
    &&& forall|c: int, k: SubnetAccount| 0 <= c < NODE_CLASSES && k.subnet_id != id ==> (#[trigger] new.registry.node_classes@[c]@.contains_key(k)
        == old.registry.node_classes@[c]@.contains_key(k))
    &&& forall|c: int, k: SubnetAccount| 0 <= c < NODE_CLASSES && k.subnet_id != id && old.registry.node_classes@[c]@.contains_key(k)
        ==> #[trigger] new.registry.node_classes@[c]@[k] == old.registry.node_classes@[c]@[k]
    &&& forall|other: u32| other != id ==> (#[trigger] new.consensus.rewards_validator@.contains_key(SubnetEpoch { subnet_id: other, epoch })
        == old.consensus.rewards_validator@.contains_key(SubnetEpoch { subnet_id: other, epoch }))
}

impl Network {
    /// Takes subnet `id` off the network for `reason`.
    fn drop_subnet(&mut self, id: u32, reason: SubnetRemovalReason)
        requires
            old(self).wf(),
            old(self).registry.subnets@.contains_key(id),
        ensures
            nodes_shrunk(*old(self), *final(self)),
            final(self).wf(),
            subnet_dropped(*old(self), *final(self), id),
    {
        let path = match self.registry.subnets.get(&id) {
            Some(d) => d.path.clone(),
            None => {
                return;
            },
        };
        proof {
            self.registry.lemma_path_subnet(id);
        }
        let _ = self.deactivate_subnet(&path, reason);
    }

    /// The preliminaries of subnet `id` for `epoch` at `block`, choosing its
    /// validator with `random`; answers whether the subnet took part in the choice.
    pub fn prepare_subnet(&mut self, block: u64, epoch: u32, random: u32, id: u32) -> (survived: bool)
        requires
            old(self).wf(),
            old(self).registry.subnets@.contains_key(id),
            registration_end(*old(self), id) <= u64::MAX,
            u32_at(old(self).consensus.subnet_penalty_count@, id) < u32::MAX,
            old(self).registry.subnets@[id].activated != 0 ==> old(self).delegate_floor_fits(id),
            subnet_survives(*old(self), epoch, id) && old(self).registry.subnets@[id].min_nodes == 0 ==> validator_candidates(
                *old(self),
                epoch,
                id,
            ).len() > 0 || old(self).consensus.rewards_validator@.contains_key(SubnetEpoch { subnet_id: id, epoch }),
        ensures
            nodes_shrunk(*old(self), *final(self)),
            final(self).wf(),
            subnet_prepared(*old(self), *final(self), block, epoch, random, id),
            survived == subnet_survives(*old(self), epoch, id),
            survived ==> final(self).registry.subnets@.contains_key(id) && final(self).registry.subnets@[id]
                == old(self).registry.subnets@[id],
            prepare_frame(*old(self), *final(self), epoch, id),
    {
        let (activated, initialized, registration_blocks, min_nodes) = match self.registry.subnets.get(&id) {
            Some(d) => (d.activated, d.initialized, d.registration_blocks, d.min_nodes),
            None => {
                return false;
            },
        };
        if activated == 0 {
            let end = initialized + registration_blocks + self.config.subnet_activation_enactment_period;
            if block <= end {
                return false;
            }
            self.drop_subnet(id, SubnetRemovalReason::EnactmentPeriod);
            return false;
        }
        let stake = read_u128(&self.registry.delegate_stake_balance, &id);
        let min_stake = get_min_subnet_delegate_stake_balance(
            min_nodes,
            self.config.min_stake_balance,
            self.config.min_subnet_delegate_stake_percentage,
            self.config.min_subnet_delegate_stake,
        );
        if stake < min_stake {
            self.drop_subnet(id, SubnetRemovalReason::MinSubnetDelegateStake);
            return false;
        }
        let candidates = self.registry.get_classified_subnet_node_ids(
            id,
            SubnetNodeClass::Submittable,
            epoch as u64,
            self.config.epoch_length,
        );
        let ghost s0 = *self;
        if (#[verifier::truncate] (candidates.len() as u32)) < min_nodes {
            self.penalize_subnet(id);
        }
        let penalties = read_u32(&self.consensus.subnet_penalty_count, &id);
        if penalties > self.config.max_subnet_penalty_count {
            self.drop_subnet(id, SubnetRemovalReason::MaxPenalties);
            return false;
        }
        let ghost s1 = *self;
        self.choose_validator(block, id, &candidates, min_nodes, epoch, random);
        proof {
            assert(validator_chosen(s1, *self, id, candidates@, min_nodes, epoch, random));
        }
        true
    }
}


/// Step `i` of `trace` prepares the `i`-th of the subnets `ids`.
pub open spec fn prepare_step(trace: Seq<Network>, i: int, block: u64, epoch: u32, random: u32, ids: Seq<u32>) -> bool {
    subnet_prepared(trace[i], trace[i + 1], block, epoch, random, ids[i])
}

/// `trace` is a run of the preliminaries of the subnets `ids`, one state per step.
pub open spec fn is_prepare_trace(trace: Seq<Network>, block: u64, epoch: u32, random: u32, ids: Seq<u32>) -> bool {
    &&& trace.len() == ids.len() + 1
    &&& forall|i: int| 0 <= i < ids.len() ==> #[trigger] prepare_step(trace, i, block, epoch, random, ids)
}

/// The subnets of `ids` that take part in the choice of validators, in order.
pub open spec fn survivors(s: Network, epoch: u32, ids: Seq<u32>) -> Seq<u32> {
    ids.filter(|id: u32| subnet_survives(s, epoch, id))
}

/// The first subnet of `ids` holding the least delegate stake.
pub open spec fn lowest_stake(s: Network, ids: Seq<u32>) -> u32
    decreases ids.len(),
{
    if ids.len() <= 1 {
        ids[0]
    } else {
        let l = lowest_stake(s, ids.drop_last());
        if s.registry.delegate_stake(ids.last()) < s.registry.delegate_stake(l) {
            ids.last()
        } else {
            l
        }
    }
}

/// More subnets are live than the maximum allows.
pub open spec fn excess_subnets(s: Network) -> bool {
    (s.registry.subnets@.dom().len() as u32) > s.config.max_subnets
}

/// The preliminaries of `epoch` at `block`: each subnet, in stored order, as
/// `subnet_prepared` says; then, with more subnets than the maximum, the first
/// subnet with the least delegate stake among those that took part in the
/// choice of validators is taken off.
pub open spec fn epoch_prepared(old: Network, new: Network, block: u64, epoch: u32, random: u32) -> bool {
    let ids = old.registry.subnets.key_seq();
    exists|trace: Seq<Network>|
        #[trigger] is_prepare_trace(trace, block, epoch, random, ids) && trace[0] == old && if excess_subnets(old) {
            subnet_dropped(trace.last(), new, lowest_stake(old, survivors(old, epoch, ids)))
        } else {
            new == trace.last()
        }
}

/// The inputs on which the preliminaries run to their end: registration ends
/// fit in a block number, penalty counts have room for one more, a subnet with
/// no minimum node count that takes part in the choice has a candidate or a
/// validator already, and with too many subnets one of them takes part.
pub open spec fn preliminaries_ok(s: Network, epoch: u32) -> bool {
    &&& forall|id: u32| #[trigger] s.registry.subnets@.contains_key(id) ==> registration_end(s, id) <= u64::MAX
    &&& forall|id: u32| #[trigger] u32_at(s.consensus.subnet_penalty_count@, id) < u32::MAX
    &&& forall|id: u32| #[trigger] s.registry.subnets@.contains_key(id) && s.registry.subnets@[id].activated != 0
        ==> s.delegate_floor_fits(id)
    &&& forall|id: u32|
        #[trigger] s.registry.subnets@.contains_key(id) && subnet_survives(s, epoch, id) && s.registry.subnets@[id].min_nodes == 0
            ==> validator_candidates(s, epoch, id).len() > 0 || s.consensus.rewards_validator@.contains_key(
            SubnetEpoch { subnet_id: id, epoch },
        )
    &&& excess_subnets(s) ==> exists|id: u32| #[trigger] s.registry.subnets@.contains_key(id) && subnet_survives(s, epoch, id)
}

impl Network {
    /// The preliminaries of `epoch` at `block`, with `random` the chain's random
    /// number for the block.
    pub fn do_epoch_preliminaries(&mut self, block: u64, epoch: u32, epoch_length: u64, random: u32)
        requires
            old(self).wf(),
            preliminaries_ok(*old(self), epoch),
        ensures
            nodes_shrunk(*old(self), *final(self)),
            final(self).wf(),
            epoch_prepared(*old(self), *final(self), block, epoch, random),
    {
        let _ = epoch_length;
        let ids = self.registry.subnets.keys();
        let excess = (#[verifier::truncate] (ids.len() as u32)) > self.config.max_subnets;
        let ghost orig = *self;
        let ghost n = ids@.len();
        let ghost mut trace: Seq<Network> = seq![*self];
        let mut stakes: Vec<(u128, u32)> = Vec::new();
        proof {
            self.registry.subnets.lemma_keys();
            assert(ids@.take(0) =~= Seq::<u32>::empty());
            reveal(Seq::filter);
            assert(ids@.take(0).filter(|id: u32| subnet_survives(orig, epoch, id)) =~= Seq::<u32>::empty());
            assert forall|j: int| 0 <= j < ids@.len() implies #[trigger] self.registry.subnets@.contains_key(ids@[j]) by {
                assert(self.registry.subnets.key_seq().to_set().contains(ids@[j]));
            }
        }
        let mut i: usize = 0;
        while i < ids.len()
            invariant
                self.wf(),
                orig == *old(self),
                orig.wf(),
                preliminaries_ok(orig, epoch),
                ids@ == orig.registry.subnets.key_seq(),
                ids@.no_duplicates(),
                n == ids@.len(),
                i <= n,
                is_prepare_trace(trace, block, epoch, random, ids@.take(i as int)),
                trace[0] == orig,
                trace.last() == *self,
                nodes_shrunk(orig, *self),
                self.config == orig.config,
                self.registry.delegate_stake_balance == orig.registry.delegate_stake_balance,
                self.registry.node_classes@.len() == orig.registry.node_classes@.len(),
                forall|j: int| i <= j < n ==> #[trigger] self.registry.subnets@.contains_key(ids@[j]),
                forall|j: int| i <= j < n ==> #[trigger] self.registry.subnets@[ids@[j]] == orig.registry.subnets@[ids@[j]],
                forall|j: int| i <= j < n ==> #[trigger] u32_at(self.consensus.subnet_penalty_count@, ids@[j]) == u32_at(
                    orig.consensus.subnet_penalty_count@,
                    ids@[j],
                ),
                forall|j: int| i <= j < n ==> #[trigger] self.registry.nodes.subnet_entries(ids@[j]) == orig.registry.nodes.subnet_entries(ids@[j]),
                forall|j: int, c: int, a: AccountId|
                    i <= j < n && 0 <= c < NODE_CLASSES ==> (#[trigger] self.registry.node_classes@[c]@.contains_key(
                        SubnetAccount { subnet_id: ids@[j], account: a },
                    ) == orig.registry.node_classes@[c]@.contains_key(SubnetAccount { subnet_id: ids@[j], account: a })),
                forall|j: int, c: int, a: AccountId|
                    i <= j < n && 0 <= c < NODE_CLASSES && orig.registry.node_classes@[c]@.contains_key(
                        SubnetAccount { subnet_id: ids@[j], account: a },
                    ) ==> #[trigger] self.registry.node_classes@[c]@[SubnetAccount { subnet_id: ids@[j], account: a }]
                        == orig.registry.node_classes@[c]@[SubnetAccount { subnet_id: ids@[j], account: a }],
                forall|j: int|
                    i <= j < n ==> (#[trigger] self.consensus.rewards_validator@.contains_key(SubnetEpoch { subnet_id: ids@[j], epoch })
                        == orig.consensus.rewards_validator@.contains_key(SubnetEpoch { subnet_id: ids@[j], epoch })),
                stakes@.map_values(|e: (u128, u32)| e.1) == survivors(orig, epoch, ids@.take(i as int)),
                forall|m: int| 0 <= m < stakes@.len() ==> #[trigger] stakes@[m].0 == orig.registry.delegate_stake(stakes@[m].1),
                forall|m: int| 0 <= m < stakes@.len() ==> #[trigger] self.registry.subnets@.contains_key(stakes@[m].1),
            decreases n - i,
        {
            let id = ids[i];
            let ghost mid = *self;
            proof {
                assert(self.registry.subnets@.contains_key(ids@[i as int]));
                assert(self.registry.subnets@[ids@[i as int]] == orig.registry.subnets@[ids@[i as int]]);
                assert(u32_at(self.consensus.subnet_penalty_count@, ids@[i as int]) == u32_at(orig.consensus.subnet_penalty_count@, ids@[i as int]));
                orig.registry.lemma_classified_stable(self.registry, id, 3, epoch as u64, orig.config.epoch_length);
                assert(validator_candidates(*self, epoch, id) == validator_candidates(orig, epoch, id));
                assert(subnet_survives(*self, epoch, id) == subnet_survives(orig, epoch, id));
                assert(orig.registry.subnets@.contains_key(id));
                assert(self.consensus.rewards_validator@.contains_key(SubnetEpoch { subnet_id: ids@[i as int], epoch })
                    == orig.consensus.rewards_validator@.contains_key(SubnetEpoch { subnet_id: ids@[i as int], epoch }));
            }
            let survived = self.prepare_subnet(block, epoch, random, id);
            let ghost prev = stakes@;
            if survived {
                let stake = read_u128(&self.registry.delegate_stake_balance, &id);
                stakes.push((stake, id));
            }
            proof {
                let pred = |x: u32| subnet_survives(orig, epoch, x);
                let f = |e: (u128, u32)| e.1;
                assert(ids@.take(i + 1) =~= ids@.take(i as int).push(id));
                ids@.take(i as int).lemma_filter_push(id, pred);
                if survived {
                    assert(stakes@ == prev.push((orig.registry.delegate_stake(id), id)));
                    assert(stakes@.map_values(f) =~= prev.map_values(f).push(id));
                } else {
                    assert(stakes@.map_values(f) =~= prev.map_values(f));
                }
                let t = ids@.take(i + 1);
                let old_trace = trace;
                trace = trace.push(*self);
                assert forall|j: int| 0 <= j < t.len() implies #[trigger] prepare_step(trace, j, block, epoch, random, t) by {
                    if j < i {
                        assert(prepare_step(old_trace, j, block, epoch, random, ids@.take(i as int)));
                        assert(trace[j] == old_trace[j]);
                        assert(trace[j + 1] == old_trace[j + 1]);
                        assert(t[j] == ids@.take(i as int)[j]);
                    } else {
                        assert(trace[j] == mid);
                        assert(t[j] == id);
                    }
                }
                assert(is_prepare_trace(trace, block, epoch, random, t));
                assert forall|j: int| i + 1 <= j < n implies #[trigger] self.registry.subnets@.contains_key(ids@[j]) by {
                    assert(ids@[j] != id);
                    assert(mid.registry.subnets@.contains_key(ids@[j]));
                }
                assert forall|j: int| i + 1 <= j < n implies #[trigger] self.registry.subnets@[ids@[j]] == orig.registry.subnets@[ids@[j]] by {
                    assert(ids@[j] != id);
                    assert(mid.registry.subnets@.contains_key(ids@[j]));
                    assert(mid.registry.subnets@[ids@[j]] == orig.registry.subnets@[ids@[j]]);
                }
                assert forall|j: int| i + 1 <= j < n implies #[trigger] u32_at(self.consensus.subnet_penalty_count@, ids@[j])
                    == u32_at(orig.consensus.subnet_penalty_count@, ids@[j]) by {
                    assert(ids@[j] != id);
                    assert(u32_at(mid.consensus.subnet_penalty_count@, ids@[j]) == u32_at(orig.consensus.subnet_penalty_count@, ids@[j]));
                }
                assert forall|j: int| i + 1 <= j < n implies #[trigger] self.registry.nodes.subnet_entries(ids@[j])
                    == orig.registry.nodes.subnet_entries(ids@[j]) by {
                    assert(ids@[j] != id);
                    assert(mid.registry.nodes.subnet_entries(ids@[j]) == orig.registry.nodes.subnet_entries(ids@[j]));
                }
                assert forall|j: int, c: int, a: AccountId|
                    i + 1 <= j < n && 0 <= c < NODE_CLASSES implies (#[trigger] self.registry.node_classes@[c]@.contains_key(
                        SubnetAccount { subnet_id: ids@[j], account: a },
                    ) == orig.registry.node_classes@[c]@.contains_key(SubnetAccount { subnet_id: ids@[j], account: a })) by {
                    assert(ids@[j] != id);
                    assert(mid.registry.node_classes@[c]@.contains_key(SubnetAccount { subnet_id: ids@[j], account: a })
                        == orig.registry.node_classes@[c]@.contains_key(SubnetAccount { subnet_id: ids@[j], account: a }));
                }
                assert forall|j: int, c: int, a: AccountId|
                    i + 1 <= j < n && 0 <= c < NODE_CLASSES && orig.registry.node_classes@[c]@.contains_key(
                        SubnetAccount { subnet_id: ids@[j], account: a },
                    ) implies #[trigger] self.registry.node_classes@[c]@[SubnetAccount { subnet_id: ids@[j], account: a }]
                        == orig.registry.node_classes@[c]@[SubnetAccount { subnet_id: ids@[j], account: a }] by {
                    assert(ids@[j] != id);
                    assert(mid.registry.node_classes@[c]@.contains_key(SubnetAccount { subnet_id: ids@[j], account: a }));
                    assert(mid.registry.node_classes@[c]@[SubnetAccount { subnet_id: ids@[j], account: a }]
                        == orig.registry.node_classes@[c]@[SubnetAccount { subnet_id: ids@[j], account: a }]);
                }
                assert forall|j: int| i + 1 <= j < n implies (#[trigger] self.consensus.rewards_validator@.contains_key(
                    SubnetEpoch { subnet_id: ids@[j], epoch },
                ) == orig.consensus.rewards_validator@.contains_key(SubnetEpoch { subnet_id: ids@[j], epoch })) by {
                    assert(ids@[j] != id);
                    assert(mid.consensus.rewards_validator@.contains_key(SubnetEpoch { subnet_id: ids@[j], epoch })
                        == orig.consensus.rewards_validator@.contains_key(SubnetEpoch { subnet_id: ids@[j], epoch }));
                }
                assert forall|m: int| 0 <= m < stakes@.len() implies #[trigger] self.registry.subnets@.contains_key(stakes@[m].1) by {
                    if m < prev.len() {
                        assert(stakes@[m] == prev[m]);
                        assert(mid.registry.subnets@.contains_key(prev[m].1));
                        if prev[m].1 == id {
                            assert(prev.map_values(f)[m] == id);
                            assert(prev.map_values(f) == ids@.take(i as int).filter(pred));
                            ids@.take(i as int).lemma_filter_contains_rev(pred, id);
                            let jj = choose|jj: int| 0 <= jj < ids@.take(i as int).len() && ids@.take(i as int)[jj] == id;
                            assert(ids@[jj] == ids@[i as int]);
                        }
                    }
                }
                assert forall|m: int| 0 <= m < stakes@.len() implies #[trigger] stakes@[m].0 == orig.registry.delegate_stake(stakes@[m].1) by {
                    if m < prev.len() {
                        assert(stakes@[m] == prev[m]);
                    }
                }
            }
            i = i + 1;
        }
        proof {
            assert(ids@.take(n as int) =~= ids@);
            assert(is_prepare_trace(trace, block, epoch, random, ids@));
        }
        if excess {
            let ghost f = |e: (u128, u32)| e.1;
            let ghost sv = survivors(orig, epoch, ids@);
            proof {
                assert(stakes@.map_values(f) == sv);
                let w = choose|w: u32| #[trigger] orig.registry.subnets@.contains_key(w) && subnet_survives(orig, epoch, w);
                assert(orig.registry.subnets.key_seq().to_set().contains(w));
                let jw = choose|jw: int| 0 <= jw < ids@.len() && ids@[jw] == w;
                ids@.lemma_filter_contains(|id: u32| subnet_survives(orig, epoch, id), jw);
                assert(sv.len() > 0);
            }
            let mut best: usize = 0;
            let mut j: usize = 1;
            proof {
                assert(sv.take(1) =~= seq![sv[0]]);
                assert(stakes@[0].1 == sv[0]);
            }
            while j < stakes.len()
                invariant
                    1 <= j <= stakes@.len(),
                    best < j,
                    stakes@.map_values(f) == sv,
                    f == (|e: (u128, u32)| e.1),
                    forall|m: int| 0 <= m < stakes@.len() ==> #[trigger] stakes@[m].0 == orig.registry.delegate_stake(stakes@[m].1),
                    stakes@[best as int].1 == lowest_stake(orig, sv.take(j as int)),
                decreases stakes@.len() - j,
            {
                proof {
                    assert(sv.take(j + 1).drop_last() =~= sv.take(j as int));
                    assert(sv.take(j + 1).last() == sv[j as int]);
                    assert(stakes@[j as int].1 == sv[j as int]);
                }
                if stakes[j].0 < stakes[best].0 {
                    best = j;
                }
                j = j + 1;
            }
            proof {
                assert(sv.take(j as int) =~= sv);
            }
            let id = stakes[best].1;
            self.drop_subnet(id, SubnetRemovalReason::MaxSubnets);
        }
    }
}

} // verus!
