//! Properties that relate the network's operations to one another.

use vstd::prelude::*;
use crate::math::{spec_percent_div, spec_percent_mul, PERCENTAGE_FACTOR};
use crate::network::{claims_kept, sat_add, sat_sub, u128_at, Error, Network, Staking};
use crate::overwatch::{commitment_of, find_reveal, reveal_outcome, SubnetBenchmarkWeightCommitment, SubnetBenchmarkWeightReveal};
use crate::registry::{node_added, node_removed, subnet_activated_effect, Registry};
use crate::rewards::{node_reward, node_settled, subnet_rewards, RewardScheme, SettleParams};
use crate::staking::{add_stake_effect, stake_decreased, stake_increased};
use crate::table::{AccountSubnet, SubnetAccount};
use crate::subnet_params::{mem_position, spec_min_subnet_nodes};
use crate::tasks::xor_with_key;
use crate::types::MinNodesCurveParametersSet;
use crate::types::{AccountId, SubnetNodeData};
use crate::validation::{dedup_peers, has_peer, lemma_dedup_peers, spec_slash_amount, validator_slashed};
use crate::epoch::subnet_prepared;
use crate::network::{u32_at, NetworkConfig};
use crate::subnet_params::{spec_next_registration_epoch, spec_registration_cost};

verus! {

/// A node just added is found by its peer id on its subnet.
pub proof fn lemma_added_node_found(old: Registry, new: Registry, subnet_id: u32, account: AccountId, peer: Vec<u8>, block: u64)
    requires
        new.wf(),
        node_added(old, new, subnet_id, account, peer, block),
    ensures
        new.has_node(subnet_id, account),
        new.peer_account(subnet_id, peer@) == Some(account),
{
    let k = SubnetAccount { subnet_id, account };
    assert(new.nodes@.contains_key(k) && k.subnet_id == subnet_id && new.nodes@[k].peer_id@ == peer@);
    let c = choose|c: SubnetAccount| #[trigger] new.nodes@.contains_key(c) && c.subnet_id == subnet_id && new.nodes@[c].peer_id@ == peer@;
    if c != k {
        assert(new.nodes@[c].peer_id@ != new.nodes@[k].peer_id@);
    }
}

/// A node removed is no longer on its subnet, and nothing else changes when
/// there was none.
pub proof fn lemma_removed_node_gone(old: Network, new: Network, block: u64, subnet_id: u32, account: AccountId)
    requires
        node_removed(old, new, block, subnet_id, account),
    ensures
        !new.registry.has_node(subnet_id, account),
        !old.registry.has_node(subnet_id, account) ==> new == old,
{
}

/// Adding stake and taking the same amount back leaves every stake as it was,
/// when no sum reached `u128::MAX`.
pub proof fn lemma_stake_round_trip(s0: Staking, s1: Staking, s2: Staking, hotkey: AccountId, subnet_id: u32, amount: u128)
    requires
        stake_increased(s0, s1, hotkey, subnet_id, amount),
        stake_decreased(s1, s2, hotkey, subnet_id, amount),
        s0.stake(hotkey, subnet_id) + amount <= u128::MAX,
        s0.subnet_stake(subnet_id) + amount <= u128::MAX,
        s0.total_stake + amount <= u128::MAX,
    ensures
        forall|k: AccountSubnet| #[trigger] u128_at(s2.account_subnet_stake@, k) == u128_at(s0.account_subnet_stake@, k),
        forall|id: u32| #[trigger] u128_at(s2.total_subnet_stake@, id) == u128_at(s0.total_subnet_stake@, id),
        s2.total_stake == s0.total_stake,
{
}

/// Staking moves tokens from the coldkey's free balance to the stake: the
/// balance falls by the amount the stake rises by, when neither saturates.
pub proof fn lemma_add_stake_conserves(old: Network, new: Network, coldkey: AccountId, subnet_id: u32, hotkey: AccountId, amount: u128)
    requires
        add_stake_effect(old, new, coldkey, subnet_id, hotkey, amount),
        amount <= old.balances.free(coldkey),
        old.staking.stake(hotkey, subnet_id) + amount <= u128::MAX,
    ensures
        new.balances.free(coldkey) + new.staking.stake(hotkey, subnet_id) == old.balances.free(coldkey)
            + old.staking.stake(hotkey, subnet_id),
{
}

/// A scored node that did not attest receives nothing.
pub proof fn lemma_unattested_not_rewarded(
    old: Network,
    new: Network,
    p: SettleParams,
    scores: Seq<(Seq<u8>, u128)>,
    attested: Set<AccountId>,
    account: AccountId,
)
    requires
        node_settled(old, new, p, scores, attested, account),
        !attested.contains(account),
    ensures
        new.staking == old.staking,
{
}

/// A node's reward is at most the subnet's reward plus, for the validator, the
/// validator's reward, when its score is within the sum of scores.
pub proof fn lemma_node_reward_bounded(p: SettleParams, account: AccountId, score: u128)
    requires
        score <= p.sum,
    ensures
        node_reward(p, account, score) <= p.subnet_reward + p.validator_reward,
{
    let share = spec_percent_div(score, p.sum);
    if score != 0 && p.sum != 0 && score * PERCENTAGE_FACTOR <= u128::MAX {
        assert((score as int * PERCENTAGE_FACTOR as int) / (p.sum as int) <= PERCENTAGE_FACTOR) by (nonlinear_arith)
            requires
                score <= p.sum,
                p.sum > 0,
        ;
    }
    if score != 0 && p.sum != 0 && score * PERCENTAGE_FACTOR > u128::MAX {
        assert(score as int * PERCENTAGE_FACTOR as int <= p.sum as int * PERCENTAGE_FACTOR as int) by (nonlinear_arith)
            requires
                score <= p.sum,
        ;
        assert((u128::MAX as int) / (p.sum as int) <= PERCENTAGE_FACTOR) by (nonlinear_arith)
            requires
                u128::MAX < p.sum as int * PERCENTAGE_FACTOR as int,
                p.sum > 0,
        ;
    }
    assert(share <= PERCENTAGE_FACTOR);
    let r = spec_percent_mul(share, p.subnet_reward);
    if share != 0 && p.subnet_reward != 0 && !(share as int > (u128::MAX - crate::math::HALF_PERCENT) as int / p.subnet_reward as int) {
        assert((share as int * p.subnet_reward as int) / PERCENTAGE_FACTOR as int <= p.subnet_reward) by (nonlinear_arith)
            requires
                share <= PERCENTAGE_FACTOR,
        ;
    }
    assert(r <= p.subnet_reward);
}

/// A slash takes at most the maximum slash.
pub proof fn lemma_slash_capped(config: crate::network::NetworkConfig, stake: u128, attestation_percentage: u128)
    ensures
        spec_slash_amount(config, stake, attestation_percentage) <= config.max_slash_amount,
{
}

/// XORing twice with the same key gives back the bytes.
pub proof fn lemma_xor_round_trip(text: Seq<u8>, key: Seq<u8>)
    requires
        key.len() == 32,
    ensures
        xor_with_key(xor_with_key(text, key), key) == text,
{
    let once = xor_with_key(text, key);
    assert forall|i: int| 0 <= i < text.len() implies #[trigger] xor_with_key(once, key)[i] == text[i] by {
        let a = text[i];
        let b = key[i % 32];
        assert(a ^ b ^ b == a) by (bit_vector);
    }
    assert(xor_with_key(once, key) =~= text);
}

/// A weight revealed with the seed it was committed under, within 100%, is
/// accepted.
pub proof fn lemma_commitment_accepted(
    commit: SubnetBenchmarkWeightCommitment,
    revealed: Seq<SubnetBenchmarkWeightReveal>,
    seed: Seq<u8>,
    weight: u128,
)
    requires
        find_reveal(revealed, commit.subnet_id) == Some(weight),
        weight <= PERCENTAGE_FACTOR,
        commit.weight@ == commitment_of(weight, seed),
    ensures
        reveal_outcome(commit, revealed, seed) == Some(Ok::<u128, crate::network::Error>(weight)),
{
}

/// Dropping repeated peers leaves every peer once and keeps every peer that
/// occurs.
pub proof fn lemma_dedup_each_peer_once(s: Seq<SubnetNodeData>)
    ensures
        forall|i: int, j: int|
            0 <= i < j < dedup_peers(s).len() ==> #[trigger] dedup_peers(s)[i].peer_id@ != #[trigger] dedup_peers(s)[j].peer_id@,
        forall|p: Seq<u8>| #[trigger] has_peer(dedup_peers(s), p) == has_peer(s, p),
        dedup_peers(s).len() <= s.len(),
{
    lemma_dedup_peers(s);
}

/// On the flat part of the curve, the minimum node count is the larger of the
/// configured minimum and the memory over the memory of one node.
pub proof fn lemma_min_nodes_flat(
    base_node_memory: u128,
    memory_mb: u128,
    params: MinNodesCurveParametersSet,
    max_subnet_memory: u128,
    min_subnet_nodes: u32,
)
    requires
        base_node_memory > 0,
        memory_mb * PERCENTAGE_FACTOR * PERCENTAGE_FACTOR <= u128::MAX,
        base_node_memory * PERCENTAGE_FACTOR <= u128::MAX,
        mem_position(memory_mb, max_subnet_memory) <= params.x_curve_start,
        memory_mb / base_node_memory <= u32::MAX,
    ensures
        spec_min_subnet_nodes(base_node_memory, memory_mb, params, max_subnet_memory, min_subnet_nodes)
            == if memory_mb / base_node_memory > min_subnet_nodes as int {
                (memory_mb / base_node_memory) as u32
            } else {
                min_subnet_nodes
            },
{
    let f = PERCENTAGE_FACTOR as int;
    let m = memory_mb as int;
    let b = base_node_memory as int;
    let simple = spec_percent_div((memory_mb * PERCENTAGE_FACTOR) as u128, (base_node_memory * PERCENTAGE_FACTOR) as u128);
    assert(simple as int / f == m / b) by {
        if m == 0 {
            assert(simple == 0);
        } else {
            assert((m * f) * f <= u128::MAX);
            assert(simple as int == ((m * f) * f) / (b * f));
            assert(m * f > 0 && m * f * f > 0) by (nonlinear_arith)
                requires
                    m > 0,
                    f > 0,
            ;
            vstd::arithmetic::div_mod::lemma_div_multiples_vanish_quotient(f, m * f, b);
            assert((f * (m * f)) == (m * f) * f && f * b == b * f) by (nonlinear_arith);
            vstd::arithmetic::div_mod::lemma_div_denominator(m * f, b, f);
            vstd::arithmetic::div_mod::lemma_div_multiples_vanish_quotient(f, m, b);
            assert(f * m == m * f) by (nonlinear_arith);
        }
    }
    let floor = (min_subnet_nodes as int * f) as u128;
    vstd::arithmetic::div_mod::lemma_div_multiples_vanish(min_subnet_nodes as int, f);
    assert(f * min_subnet_nodes == min_subnet_nodes * f) by (nonlinear_arith);
    if simple > floor {
        vstd::arithmetic::div_mod::lemma_div_is_ordered(floor as int, simple as int, f);
    } else {
        vstd::arithmetic::div_mod::lemma_div_is_ordered(simple as int, floor as int, f);
    }
}

/// A node that stands in every state of a run of operations keeps its record.
pub proof fn lemma_claim_kept_along(states: Seq<Network>, k: SubnetAccount, i: int)
    requires
        0 <= i < states.len(),
        forall|j: int| 0 <= j < states.len() - 1 ==> #[trigger] claims_kept(states[j], states[j + 1]),
        forall|j: int| 0 <= j < states.len() ==> (#[trigger] states[j]).registry.nodes@.contains_key(k),
    ensures
        states[i].registry.nodes@[k] == states[0].registry.nodes@[k],
    decreases i,
{
    if i > 0 {
        lemma_claim_kept_along(states, k, i - 1);
        let j = i - 1;
        assert(claims_kept(states[j], states[j + 1]));
        assert(states[i - 1].registry.nodes@.contains_key(k));
        assert(states[i].registry.nodes@.contains_key(k));
    }
}

/// Along a run of operations the subnet counter never goes down.
pub proof fn lemma_counter_kept_along(states: Seq<Network>, i: int)
    requires
        0 <= i < states.len(),
        forall|j: int| 0 <= j < states.len() - 1 ==> #[trigger] claims_kept(states[j], states[j + 1]),
    ensures
        states[0].registry.total_subnets <= states[i].registry.total_subnets,
    decreases i,
{
    if i > 0 {
        lemma_counter_kept_along(states, i - 1);
        let j = i - 1;
        assert(claims_kept(states[j], states[j + 1]));
    }
}

/// Once the node of `account` on `subnet_id` holds the peer id `peer`, it keeps
/// it through any run of operations in which the node stands, and every other
/// account that asks to join the subnet with that peer id, where the subnet
/// exists, has room and the account has no node there yet, is refused with
/// `PeerIdExist`.
pub proof fn lemma_peer_claim_stands(
    states: Seq<Network>,
    subnet_id: u32,
    account: AccountId,
    peer: Seq<u8>,
    other: AccountId,
    stake: u128,
)
    requires
        states.len() > 0,
        forall|i: int| 0 <= i < states.len() - 1 ==> #[trigger] claims_kept(states[i], states[i + 1]),
        forall|i: int| 0 <= i < states.len() ==> (#[trigger] states[i]).registry.nodes@.contains_key(
            SubnetAccount { subnet_id, account },
        ),
        states[0].registry.nodes@[SubnetAccount { subnet_id, account }].peer_id@ == peer,
        states.last().wf(),
        other != account,
        states.last().registry.subnets@.contains_key(subnet_id),
        states.last().registry.node_count(subnet_id) < states.last().config.max_subnet_nodes,
        !states.last().registry.has_node(subnet_id, other),
    ensures
        states.last().registry.nodes@[SubnetAccount { subnet_id, account }].peer_id@ == peer,
        states.last().add_subnet_node_error(other, subnet_id, peer, stake) == Some(Error::PeerIdExist),
{
    let k = SubnetAccount { subnet_id, account };
    let last = states.last();
    lemma_claim_kept_along(states, k, states.len() - 1);
    assert(last.registry.nodes@.contains_key(k));
    assert(last.registry.peer_account(subnet_id, peer) is Some);
}

/// Subnet ids are never given twice: after any run of operations from a
/// network on which the subnet `id` exists, a successful activation gives the
/// new subnet a greater id.
pub proof fn lemma_subnet_ids_not_reused(
    states: Seq<Network>,
    id: u32,
    after: Network,
    proposer: AccountId,
    path: Seq<u8>,
    memory_mb: u128,
)
    requires
        states.len() > 0,
        forall|i: int| 0 <= i < states.len() - 1 ==> #[trigger] claims_kept(states[i], states[i + 1]),
        states[0].wf(),
        states[0].registry.subnets@.contains_key(id),
        subnet_activated_effect(states.last(), after, proposer, path, memory_mb),
    ensures
        after.registry.total_subnets > id,
        after.registry.subnets@.contains_key(after.registry.total_subnets),
{
    lemma_counter_kept_along(states, states.len() - 1);
    assert(id <= states[0].registry.total_subnets);
}

/// A percentage of at most 100% of `x` is at most `x`.
pub proof fn lemma_percent_mul_at_most(x: u128, y: u128)
    requires
        y <= PERCENTAGE_FACTOR,
    ensures
        spec_percent_mul(x, y) <= x,
{
    if x != 0 && y != 0 && !(x as int > (u128::MAX - crate::math::HALF_PERCENT) as int / y as int) {
        assert((x as int * y as int) / PERCENTAGE_FACTOR as int <= x) by (nonlinear_arith)
            requires
                0 < y <= PERCENTAGE_FACTOR,
                x >= 0,
        ;
    }
}

/// A subnet's reward splits without loss or excess: under `ByMemory` the
/// subnet earns the base reward per MB over its memory, the delegators take
/// their percentage of that and the nodes the rest; under the flat schemes the
/// same split applies to the base subnet reward. The nodes never get more than
/// the whole, and with a delegators' percentage of at most 100% the two parts
/// add up to exactly the whole.
pub proof fn lemma_subnet_reward_split(scheme: RewardScheme, config: NetworkConfig, memory_mb: u128)
    ensures
        ({
            let whole = if scheme == RewardScheme::ByMemory {
                spec_percent_mul(config.base_reward_per_mb, memory_mb)
            } else {
                config.base_subnet_reward
            };
            let (nodes, delegators) = subnet_rewards(scheme, config, memory_mb);
            &&& delegators == spec_percent_mul(whole, config.delegate_stake_rewards_percentage)
            &&& nodes <= whole
            &&& config.delegate_stake_rewards_percentage <= PERCENTAGE_FACTOR ==> nodes + delegators == whole
        }),
{
    let whole = if scheme == RewardScheme::ByMemory {
        spec_percent_mul(config.base_reward_per_mb, memory_mb)
    } else {
        config.base_subnet_reward
    };
    if config.delegate_stake_rewards_percentage <= PERCENTAGE_FACTOR {
        lemma_percent_mul_at_most(whole, config.delegate_stake_rewards_percentage);
    }
}

/// A slash that brings the validator's penalty count past the maximum takes its
/// node off the subnet; any other slash leaves every node where it was and
/// counts one more penalty.
pub proof fn lemma_slash_removes_node(old: Network, new: Network, subnet_id: u32, validator: AccountId, attestation_percentage: u128, block: u64)
    requires
        validator_slashed(old, new, subnet_id, validator, attestation_percentage, block),
    ensures
        ({
            let k = SubnetAccount { subnet_id, account: validator };
            let before = u32_at(old.consensus.node_penalties@, k);
            &&& before + 1 > old.config.max_subnet_node_penalties && old.registry.nodes@.contains_key(k)
                ==> !new.registry.nodes@.contains_key(k)
            &&& !(before + 1 > old.config.max_subnet_node_penalties && old.registry.nodes@.contains_key(k))
                ==> new.registry.nodes@ == old.registry.nodes@ && u32_at(new.consensus.node_penalties@, k) == (before + 1) as u32
        }),
{
}

/// An activated subnet that holds its minimum delegate stake but has fewer
/// Submittable nodes than its minimum node count counts one more penalty at the
/// preliminaries of the epoch, or is taken off the network.
pub proof fn lemma_short_subnet_penalized(old: Network, new: Network, block: u64, epoch: u32, random: u32, id: u32)
    requires
        old.registry.subnets@.contains_key(id),
        old.registry.subnets@[id].activated != 0,
        old.registry.delegate_stake(id) >= old.min_delegate_stake_for(old.registry.subnets@[id].min_nodes),
        (old.registry.classified_accounts(id, 3, epoch as u64, old.config.epoch_length).len() as u32)
            < old.registry.subnets@[id].min_nodes,
        u32_at(old.consensus.subnet_penalty_count@, id) < u32::MAX,
        subnet_prepared(old, new, block, epoch, random, id),
    ensures
        !new.registry.subnets@.contains_key(id)
            || u32_at(new.consensus.subnet_penalty_count@, id) == u32_at(old.consensus.subnet_penalty_count@, id) + 1,
{
    let mid = choose|mid: Network| #[trigger] crate::rewards::subnet_penalized(old, mid, id)
        && crate::epoch::validator_or_drop(mid, new, epoch, random, id, crate::epoch::validator_candidates(old, epoch, id));
    assert(mid.registry == old.registry);
}

/// The registration fee of a period starts at its maximum at the period's first
/// epoch (and before it), never rises from one epoch to a later one, and is at
/// its minimum from the period's end on.
pub proof fn lemma_registration_cost_falls(
    e1: u32,
    e2: u32,
    last_registration_epoch: u32,
    fee_min: u128,
    fee_max: u128,
    period: u32,
)
    requires
        period > 0,
        fee_min <= fee_max,
        e1 <= e2,
    ensures
        ({
            let lower = spec_next_registration_epoch(last_registration_epoch, period);
            &&& e1 <= lower ==> spec_registration_cost(e1, last_registration_epoch, fee_min, fee_max, period) == fee_max
            &&& spec_registration_cost(e2, last_registration_epoch, fee_min, fee_max, period)
                <= spec_registration_cost(e1, last_registration_epoch, fee_min, fee_max, period)
            &&& e2 >= lower + period ==> spec_registration_cost(e2, last_registration_epoch, fee_min, fee_max, period) == fee_min
        }),
{
    let lower = spec_next_registration_epoch(last_registration_epoch, period);
    let spread: int = fee_max - fee_min;
    let d: int = spread / period as int;
    assert(0 <= d * (period as int) <= spread) by (nonlinear_arith)
        requires
            d == spread / period as int,
            spread >= 0,
            period > 0,
    ;
    if e2 < lower + period {
        let c1: int = if e1 >= lower { e1 - lower } else { 0 };
        let c2: int = if e2 >= lower { e2 - lower } else { 0 };
        assert(0 <= d * c1 <= d * c2 <= d * (period as int)) by (nonlinear_arith)
            requires
                0 <= c1 <= c2 <= period,
                d >= 0,
        ;
    }
}

/// Within a registration period the fee falls by the same step each epoch:
/// the spread between the maximum and minimum fee over the period's length.
pub proof fn lemma_registration_cost_step(
    e: u32,
    last_registration_epoch: u32,
    fee_min: u128,
    fee_max: u128,
    period: u32,
)
    requires
        period > 0,
        fee_min <= fee_max,
        spec_next_registration_epoch(last_registration_epoch, period) <= e,
        e + 1 < spec_next_registration_epoch(last_registration_epoch, period) + period,
        e + 1 <= u32::MAX,
    ensures
        spec_registration_cost(e, last_registration_epoch, fee_min, fee_max, period)
            - spec_registration_cost((e + 1) as u32, last_registration_epoch, fee_min, fee_max, period)
            == (fee_max - fee_min) / period as int,
{
    let lower = spec_next_registration_epoch(last_registration_epoch, period);
    let spread: int = fee_max - fee_min;
    let d: int = spread / period as int;
    let c: int = e - lower;
    assert(0 <= d * c && d * (c + 1) <= spread && d * (c + 1) == d * c + d) by (nonlinear_arith)
        requires
            d == spread / period as int,
            spread >= 0,
            period > 0,
            0 <= c,
            c + 1 < period,
    ;
}

/// Height of the minimum-node curve at memory position `pos`, between
/// `y_start` where the curve starts and `y_end` at 100% memory.
pub open spec fn curve_height(params: MinNodesCurveParametersSet, pos: u128) -> int {
    let f = PERCENTAGE_FACTOR as int;
    let x = (pos - params.x_curve_start) * f / (f - params.x_curve_start);
    params.y_end + (params.y_start - params.y_end) * (f - x) / f
}

/// Past the start of the curve (and up to `max_x`), the minimum node count is
/// the plain count (memory over node memory) lowered along the curve: above the
/// configured minimum it is at most the plain count scaled by the curve's
/// height over its start, and so never above the plain count.
pub proof fn lemma_min_nodes_on_curve(
    base_node_memory: u128,
    memory_mb: u128,
    params: MinNodesCurveParametersSet,
    max_subnet_memory: u128,
    min_subnet_nodes: u32,
)
    requires
        crate::subnet_params::min_subnet_nodes_inputs_ok(base_node_memory, memory_mb, params, max_subnet_memory),
        mem_position(memory_mb, max_subnet_memory) > params.x_curve_start,
        mem_position(memory_mb, max_subnet_memory) <= params.max_x,
        spec_percent_div((memory_mb * PERCENTAGE_FACTOR) as u128, (base_node_memory * PERCENTAGE_FACTOR) as u128)
            / PERCENTAGE_FACTOR <= u32::MAX,
    ensures
        ({
            let simple = spec_percent_div((memory_mb * PERCENTAGE_FACTOR) as u128, (base_node_memory * PERCENTAGE_FACTOR) as u128);
            let r = spec_min_subnet_nodes(base_node_memory, memory_mb, params, max_subnet_memory, min_subnet_nodes);
            let y = curve_height(params, mem_position(memory_mb, max_subnet_memory));
            &&& r >= min_subnet_nodes
            &&& r > min_subnet_nodes ==> r * PERCENTAGE_FACTOR <= simple
            &&& r > min_subnet_nodes ==> r * PERCENTAGE_FACTOR * params.y_start <= simple * y
        }),
{
    let f: int = PERCENTAGE_FACTOR as int;
    let simple = spec_percent_div((memory_mb * PERCENTAGE_FACTOR) as u128, (base_node_memory * PERCENTAGE_FACTOR) as u128);
    let pos = mem_position(memory_mb, max_subnet_memory);
    let xs: int = params.x_curve_start as int;
    let ys: int = params.y_start as int;
    let ye: int = params.y_end as int;
    assert(pos <= f) by {
        if memory_mb < max_subnet_memory {
            assert(memory_mb * f / max_subnet_memory as int <= f) by (nonlinear_arith)
                requires
                    memory_mb < max_subnet_memory,
                    memory_mb >= 0,
                    f > 0,
            ;
        }
    }
    let x: int = (pos - xs) * f / (f - xs);
    assert(0 <= x <= f) by (nonlinear_arith)
        requires
            x == (pos - xs) * f / (f - xs),
            xs < pos <= f,
            xs >= 0,
    ;
    let h: int = (ys - ye) * (f - x) / f;
    assert(0 <= h <= ys - ye) by (nonlinear_arith)
        requires
            h == (ys - ye) * (f - x) / f,
            ye <= ys,
            0 <= x <= f,
            f > 0,
    ;
    let y: int = ye + h;
    assert(y == curve_height(params, pos));
    let yy: u128 = y as u128;
    assert(0 <= y <= ys);
    let ratio = spec_percent_div(yy, params.y_start);
    assert(ratio * ys <= y * f && ratio <= f) by {
        if yy != 0 && params.y_start != 0 {
            assert(y * f <= u128::MAX) by (nonlinear_arith)
                requires
                    0 <= y <= ys,
                    ys <= u128::MAX / PERCENTAGE_FACTOR,
                    f == PERCENTAGE_FACTOR,
            ;
            assert((y * f) / ys * ys <= y * f && (y * f) / ys <= f) by (nonlinear_arith)
                requires
                    0 <= y <= ys,
                    ys > 0,
                    f > 0,
            ;
        }
    }
    let on_curve = spec_percent_mul(simple, ratio);
    lemma_percent_mul_at_most(simple, ratio);
    assert(on_curve * f <= simple * ratio) by {
        if simple != 0 && ratio != 0 && !(simple as int > (u128::MAX - crate::math::HALF_PERCENT) as int / ratio as int) {
            assert((simple as int * ratio as int) / f * f <= simple as int * ratio as int) by (nonlinear_arith)
                requires
                    f > 0,
                    simple >= 0,
                    ratio >= 0,
            ;
        }
    }
    assert(on_curve * ys <= simple * y) by (nonlinear_arith)
        requires
            on_curve * f <= simple * ratio,
            ratio * ys <= y * f,
            simple >= 0,
            on_curve >= 0,
            ys >= 0,
            f > 0,
    ;
    let floor: int = min_subnet_nodes as int * f;
    assert(floor / f == min_subnet_nodes) by (nonlinear_arith)
        requires
            floor == min_subnet_nodes as int * f,
            f > 0,
    ;
    assert(on_curve as int / f <= simple as int / f) by (nonlinear_arith)
        requires
            on_curve <= simple,
            f > 0,
    ;
    if on_curve > floor {
        let r: int = on_curve as int / f;
        assert(r * f <= on_curve) by (nonlinear_arith)
            requires
                r == on_curve as int / f,
                f > 0,
                on_curve >= 0,
        ;
        assert(r >= min_subnet_nodes) by (nonlinear_arith)
            requires
                r == on_curve as int / f,
                on_curve > min_subnet_nodes as int * f,
                f > 0,
        ;
        assert(r * f * ys <= simple * y) by (nonlinear_arith)
            requires
                r * f <= on_curve,
                on_curve * ys <= simple * y,
                ys >= 0,
                r >= 0,
        ;
    }
}

} // verus!
