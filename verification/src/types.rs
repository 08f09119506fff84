//! Records held in the network's storage.

use vstd::prelude::*;

verus! {

/// Accounts are numbered.
pub type AccountId = u64;

/// A node registered on a subnet.
#[derive(Debug)]
pub struct SubnetNode {
    pub account_id: AccountId,
    pub peer_id: Vec<u8>,
    pub initialized: u64,
}

/// A score submitted for a peer by the epoch's validator.
#[derive(Debug)]
pub struct SubnetNodeData {
    pub peer_id: Vec<u8>,
    pub score: u128,
}

impl SubnetNodeData {
    pub fn copy(&self) -> (c: Self)
        ensures
            c.peer_id@ == self.peer_id@,
            c.score == self.score,
    {
        SubnetNodeData { peer_id: self.peer_id.clone(), score: self.score }
    }
}

/// Why a subnet was taken off the network.
#[derive(Clone, Copy, PartialEq, Eq, Structural, Debug)]
pub enum SubnetRemovalReason {
    SubnetDemocracy,
    MaxPenalties,
    MinSubnetDelegateStake,
    Council,
    EnactmentPeriod,
    MaxSubnets,
}

/// Parameters of the curve that lowers the minimum node count of large subnets.
/// Percentages are in the `PERCENTAGE_FACTOR` format.
#[derive(Clone, Copy, Debug)]
pub struct MinNodesCurveParametersSet {
    /// Memory position (share of the maximum subnet memory) where the curve starts.
    pub x_curve_start: u128,
    /// End point of the descending curve.
    pub y_end: u128,
    /// Start point of the descending curve.
    pub y_start: u128,
    /// Rise from zero.
    pub x_rise: u128,
    /// Memory position past which the minimum rises again.
    pub max_x: u128,
}

/// Vote of a council member.
#[derive(Clone, Copy, PartialEq, Eq, Structural, Debug)]
pub enum VoteType {
    Yay,
    Nay,
}

/// Subnet data used before activation.
#[derive(Debug)]
pub struct PreliminarySubnetData {
    pub path: Vec<u8>,
    pub memory_mb: u128,
}

/// Subnet data coming from the democracy vote.
#[derive(Debug)]
pub struct SubnetDemocracySubnetData {
    pub data: PreliminarySubnetData,
    pub active: bool,
}

/// A live subnet.
#[derive(Debug)]
pub struct SubnetData {
    pub id: u32,
    pub path: Vec<u8>,
    pub min_nodes: u32,
    pub target_nodes: u32,
    pub memory_mb: u128,
    pub initialized: u64,
    /// Block the subnet was activated in; zero while registering.
    pub activated: u64,
    /// Blocks the registration phase lasts.
    pub registration_blocks: u64,
}

/// Classes a subnet node moves through.
#[derive(Clone, Copy, PartialEq, Eq, Structural, Debug)]
pub enum SubnetNodeClass {
    Idle,
    Included,
    Processing,
    Submittable,
    Accountant,
}

pub open spec fn spec_class_index(c: SubnetNodeClass) -> u32 {
    match c {
        SubnetNodeClass::Idle => 0,
        SubnetNodeClass::Included => 1,
        SubnetNodeClass::Processing => 2,
        SubnetNodeClass::Submittable => 3,
        SubnetNodeClass::Accountant => 4,
    }
}

impl SubnetNodeClass {
    /// Position of the class in the declaration order.
    pub fn index(&self) -> (i: usize)
        ensures
            i == spec_class_index(*self),
    {
        match self {
            SubnetNodeClass::Idle => 0,
            SubnetNodeClass::Included => 1,
            SubnetNodeClass::Processing => 2,
            SubnetNodeClass::Submittable => 3,
            SubnetNodeClass::Accountant => 4,
        }
    }
}

} // verus!

verus! {

/// What the validator of an epoch submitted, and who attested it.
#[derive(Debug)]
pub struct RewardsData {
    /// Validator chosen for the epoch.
    pub validator: AccountId,
    /// Number of nodes expected to attest.
    pub nodes_count: u32,
    /// Sum of the submitted scores.
    pub sum: u128,
    /// Accounts that attested, with the block they did.
    pub attests: crate::table::Table<AccountId, u64>,
    /// Scores submitted by the validator.
    pub data: Vec<SubnetNodeData>,
    pub complete: bool,
}

/// The scores of `s` whose peer is not `peer`, in order.
pub open spec fn other_peers(s: Seq<SubnetNodeData>, peer: Seq<u8>) -> Seq<SubnetNodeData> {
    s.filter(|d: SubnetNodeData| d.peer_id@ != peer)
}

/// Keeps the scores whose peer is not `peer`, in order.
pub fn retain_other_peers(data: &mut Vec<SubnetNodeData>, peer: &Vec<u8>)
    ensures
        final(data)@ == other_peers(old(data)@, peer@),
{
    let ghost o = data@;
    let ghost pred = |d: SubnetNodeData| d.peer_id@ != peer@;
    let mut kept: Vec<SubnetNodeData> = Vec::new();
    let ghost mut i: int = 0;
    proof {
        assert(o.take(0) =~= Seq::<SubnetNodeData>::empty());
        reveal(Seq::filter);
        assert(o.take(0).filter(pred) =~= Seq::<SubnetNodeData>::empty());
        assert(data@ =~= o.subrange(0, o.len() as int));
    }
    while data.len() > 0
        invariant
            0 <= i <= o.len(),
            data@ == o.subrange(i, o.len() as int),
            kept@ == o.take(i).filter(pred),
            pred == (|d: SubnetNodeData| d.peer_id@ != peer@),
        decreases data@.len(),
    {
        let d = data.remove(0);
        proof {
            assert(d == o[i]);
            assert(o.take(i + 1) =~= o.take(i).push(o[i]));
            o.take(i).lemma_filter_push(o[i], pred);
        }
        let ghost prev = kept@;
        if !crate::utils::bytes_eq(&d.peer_id, peer) {
            kept.push(d);
            assert(pred(o[i]));
            assert(kept@ == prev.push(o[i]));
        } else {
            assert(!pred(o[i]));
        }
        assert(kept@ == o.take(i + 1).filter(pred));
        proof {
            i = i + 1;
            assert(data@ =~= o.subrange(i, o.len() as int));
        }
    }
    proof {
        assert(o.take(i) =~= o);
    }
    *data = kept;
}

} // verus!
