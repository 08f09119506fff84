//! The integer part of the benchmark weights of subnets: each subnet's share of
//! all revealed weight, before the square root that flattens the shares.

use vstd::prelude::*;
use crate::math::{percent_div, percent_mul, spec_percent_div, spec_percent_mul};
use crate::network::{sat_add, Network};
use crate::overwatch::{Overwatch, RevealKey};
use crate::table::Table;

verus! {

/// The total overwatch stake that each reveal's stake is weighed against. The
/// network holds it at zero, so every stake weight, and with it every revealed
/// weight, counts for nothing.
pub const TOTAL_OVERWATCH_STAKE: u128 = 0;

/// The reveals of `subnet_id` at `epoch` among `es`, as stake and weight, in
/// stored order.
pub open spec fn reveals_in(es: Seq<(RevealKey, u128)>, epoch: u32, subnet_id: u32) -> Seq<(u128, u128)>
    decreases es.len(),
{
    if es.len() == 0 {
        Seq::empty()
    } else {
        let r = reveals_in(es.drop_last(), epoch, subnet_id);
        let e = es.last();
        if e.0.epoch == epoch && e.0.subnet_id == subnet_id {
            r.push((e.0.stake, e.1))
        } else {
            r
        }
    }
}

/// The weight a reveal adds: its weight scaled by its stake's share of the
/// total overwatch stake.
pub open spec fn reveal_node_weight(stake: u128, weight: u128) -> u128 {
    spec_percent_mul(weight, spec_percent_div(stake, TOTAL_OVERWATCH_STAKE))
}

/// The running total of the weights of `rs`, stopping at `u128::MAX`.
pub open spec fn running_total(rs: Seq<(u128, u128)>) -> u128
    decreases rs.len(),
{
    if rs.len() == 0 {
        0
    } else {
        sat_add(running_total(rs.drop_last()), reveal_node_weight(rs.last().0, rs.last().1))
    }
}

/// The sum of the running totals after each reveal of `rs`.
pub open spec fn running_sum(rs: Seq<(u128, u128)>) -> int
    decreases rs.len(),
{
    if rs.len() == 0 {
        0
    } else {
        running_sum(rs.drop_last()) + running_total(rs)
    }
}

/// For each subnet of `ids` with reveals at `epoch`, in order, the subnet and
/// the sum of its running totals.
pub open spec fn subnet_weight_sums(o: Overwatch, epoch: u32, ids: Seq<u32>) -> Seq<(u32, int)>
    decreases ids.len(),
{
    if ids.len() == 0 {
        Seq::empty()
    } else {
        let p = subnet_weight_sums(o, epoch, ids.drop_last());
        let rs = reveals_in(o.reveals.entries(), epoch, ids.last());
        if rs.len() == 0 {
            p
        } else {
            p.push((ids.last(), running_sum(rs)))
        }
    }
}

/// The sum of the weights of `s`.
pub open spec fn sums_total(s: Seq<(u32, int)>) -> int
    decreases s.len(),
{
    if s.len() == 0 {
        0
    } else {
        sums_total(s.drop_last()) + s.last().1
    }
}

/// Each subnet with reveals at `epoch`, in stored order, with its share of the
/// summed weight of all of them.
pub open spec fn spec_subnet_benchmark_shares(network: Network, o: Overwatch, epoch: u32) -> Seq<(u32, u128)> {
    let sums = subnet_weight_sums(o, epoch, network.registry.subnets.key_seq());
    let total = sums_total(sums);
    sums.map_values(|p: (u32, int)| (p.0, spec_percent_div(p.1 as u128, total as u128)))
}

/// Every reveal weighs nothing, so every running total and sum is zero.
pub proof fn lemma_running_zero(rs: Seq<(u128, u128)>)
    ensures
        running_total(rs) == 0,
        running_sum(rs) == 0,
    decreases rs.len(),
{
    if rs.len() > 0 {
        lemma_running_zero(rs.drop_last());
    }
}

/// Every subnet's summed weight is zero, and so is their total.
pub proof fn lemma_sums_zero(o: Overwatch, epoch: u32, ids: Seq<u32>)
    ensures
        forall|j: int| 0 <= j < subnet_weight_sums(o, epoch, ids).len() ==> #[trigger] subnet_weight_sums(o, epoch, ids)[j].1 == 0,
        sums_total(subnet_weight_sums(o, epoch, ids)) == 0,
    decreases ids.len(),
{
    if ids.len() > 0 {
        lemma_sums_zero(o, epoch, ids.drop_last());
        lemma_running_zero(reveals_in(o.reveals.entries(), epoch, ids.last()));
        let p = subnet_weight_sums(o, epoch, ids.drop_last());
        let s = subnet_weight_sums(o, epoch, ids);
        assert forall|j: int| 0 <= j < s.len() implies #[trigger] s[j].1 == 0 by {
            if j < p.len() {
                assert(s[j] == p[j]);
            }
        }
        if s.len() > p.len() {
            assert(s.drop_last() =~= p);
        }
    }
}

/// The reveals of `subnet_id` at `epoch`, as stake and weight, in stored order.
fn collect_reveals(reveals: &Table<RevealKey, u128>, epoch: u32, subnet_id: u32) -> (r: Vec<(u128, u128)>)
    ensures
        r@ == reveals_in(reveals.entries(), epoch, subnet_id),
{
    proof {
        use_type_invariant(reveals);
    }
    let n = reveals.len();
    let mut r: Vec<(u128, u128)> = Vec::new();
    let mut i: usize = 0;
    proof {
        assert(reveals.entries().take(0) =~= Seq::<(RevealKey, u128)>::empty());
    }
    while i < n
        invariant
            reveals.wf(),
            n == reveals.entries().len(),
            i <= n,
            r@ == reveals_in(reveals.entries().take(i as int), epoch, subnet_id),
        decreases n - i,
    {
        let k = reveals.key_at(i);
        let w = *reveals.value_at(i);
        proof {
            assert(reveals.entries().take(i + 1).drop_last() =~= reveals.entries().take(i as int));
            assert(reveals.entries().take(i + 1).last() == reveals.entries()[i as int]);
        }
        if k.epoch == epoch && k.subnet_id == subnet_id {
            r.push((k.stake, w));
        }
        i = i + 1;
    }
    proof {
        assert(reveals.entries().take(n as int) =~= reveals.entries());
    }
    r
}

/// The sum of the running totals of the weights of `rs`.
fn running_weight_sum(rs: &Vec<(u128, u128)>) -> (w: u128)
    ensures
        w == running_sum(rs@),
{
    let mut total: u128 = 0;
    let mut sum: u128 = 0;
    let mut i: usize = 0;
    proof {
        assert(rs@.take(0) =~= Seq::<(u128, u128)>::empty());
    }
    while i < rs.len()
        invariant
            i <= rs.len(),
            total == running_total(rs@.take(i as int)),
            sum == running_sum(rs@.take(i as int)),
        decreases rs.len() - i,
    {
        let (stake, weight) = rs[i];
        let stake_weight = percent_div(stake, TOTAL_OVERWATCH_STAKE);
        let node_weight = percent_mul(weight, stake_weight);
        total = total.saturating_add(node_weight);
        proof {
            let t = rs@.take(i + 1);
            assert(t.drop_last() =~= rs@.take(i as int));
            assert(t.last() == rs@[i as int]);
            lemma_running_zero(t);
        }
        sum = sum + total;
        i = i + 1;
    }
    proof {
        assert(rs@.take(i as int) =~= rs@);
    }
    sum
}

/// Each subnet with reveals at `epoch`, in stored order, with its share of the
/// summed revealed weight of all of them.
pub fn subnet_benchmark_shares(network: &Network, overwatch: &Overwatch, epoch: u32) -> (r: Vec<(u32, u128)>)
    ensures
        r@ == spec_subnet_benchmark_shares(*network, *overwatch, epoch),
{
    proof {
        use_type_invariant(&network.registry.subnets);
    }
    let ids = network.registry.subnets.keys();
    let ghost o = *overwatch;
    let mut sums: Vec<(u32, u128)> = Vec::new();
    let mut i: usize = 0;
    proof {
        assert(ids@.take(0) =~= Seq::<u32>::empty());
    }
    while i < ids.len()
        invariant
            o == *overwatch,
            i <= ids@.len(),
            sums@.len() == subnet_weight_sums(o, epoch, ids@.take(i as int)).len(),
            forall|j: int| 0 <= j < sums@.len() ==> #[trigger] sums@[j].0 == subnet_weight_sums(o, epoch, ids@.take(i as int))[j].0
                && sums@[j].1 == subnet_weight_sums(o, epoch, ids@.take(i as int))[j].1,
        decreases ids@.len() - i,
    {
        let id = ids[i];
        let rs = collect_reveals(&overwatch.reveals, epoch, id);
        let ghost prev = sums@;
        proof {
            let t = ids@.take(i + 1);
            assert(t.drop_last() =~= ids@.take(i as int));
            assert(t.last() == id);
        }
        if rs.len() > 0 {
            let w = running_weight_sum(&rs);
            sums.push((id, w));
        }
        proof {
            let t = ids@.take(i + 1);
            let p = subnet_weight_sums(o, epoch, ids@.take(i as int));
            let s = subnet_weight_sums(o, epoch, t);
            assert forall|j: int| 0 <= j < sums@.len() implies #[trigger] sums@[j].0 == s[j].0 && sums@[j].1 == s[j].1 by {
                if j < prev.len() {
                    assert(sums@[j] == prev[j]);
                    assert(s[j] == p[j]);
                }
            }
        }
        i = i + 1;
    }
    let ghost sums_s = subnet_weight_sums(o, epoch, ids@);
    proof {
        assert(ids@.take(i as int) =~= ids@);
        network.registry.subnets.lemma_keys();
        lemma_sums_zero(o, epoch, ids@);
    }
    let mut total: u128 = 0;
    let mut j: usize = 0;
    proof {
        assert(sums_s.take(0) =~= Seq::<(u32, int)>::empty());
    }
    while j < sums.len()
        invariant
            j <= sums@.len(),
            sums@.len() == sums_s.len(),
            forall|m: int| 0 <= m < sums@.len() ==> #[trigger] sums@[m].0 == sums_s[m].0 && sums@[m].1 == sums_s[m].1,
            forall|m: int| 0 <= m < sums_s.len() ==> #[trigger] sums_s[m].1 == 0,
            total == sums_total(sums_s.take(j as int)),
            total == 0,
        decreases sums@.len() - j,
    {
        proof {
            let t = sums_s.take(j + 1);
            assert(t.drop_last() =~= sums_s.take(j as int));
            assert(t.last() == sums_s[j as int]);
            assert(sums@[j as int].0 == sums_s[j as int].0);
            assert(sums_s[j as int].1 == 0);
        }
        total = total + sums[j].1;
        j = j + 1;
    }
    proof {
        assert(sums_s.take(j as int) =~= sums_s);
    }
    let ghost f = |p: (u32, int)| (p.0, spec_percent_div(p.1 as u128, total as u128));
    let mut r: Vec<(u32, u128)> = Vec::new();
    let mut k: usize = 0;
    while k < sums.len()
        invariant
            k <= sums@.len(),
            sums@.len() == sums_s.len(),
            forall|m: int| 0 <= m < sums@.len() ==> #[trigger] sums@[m].0 == sums_s[m].0 && sums@[m].1 == sums_s[m].1,
            total == sums_total(sums_s),
            f == (|p: (u32, int)| (p.0, spec_percent_div(p.1 as u128, total as u128))),
            r@ == sums_s.take(k as int).map_values(f),
        decreases sums@.len() - k,
    {
        let (id, w) = sums[k];
        let share = percent_div(w, total);
        r.push((id, share));
        proof {
            assert(sums_s.take(k + 1).map_values(f) =~= sums_s.take(k as int).map_values(f).push(f(sums_s[k as int])));
        }
        k = k + 1;
    }
    proof {
        assert(sums_s.take(k as int) =~= sums_s);
    }
    r
}

} // verus!
