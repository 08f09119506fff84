//! Subnet sizing and registration pricing.

use vstd::prelude::*;
use crate::math::{PERCENTAGE_FACTOR, spec_percent_div, spec_percent_mul, percent_div, percent_mul};
use crate::types::MinNodesCurveParametersSet;

verus! {

/// Minimum node count of a subnet with `memory_mb` of memory: the plain count
/// `memory_mb / base_node_memory`, lowered along the curve for large subnets and
/// never below `min_subnet_nodes`.
pub open spec fn spec_min_subnet_nodes(
    base_node_memory: u128,
    memory_mb: u128,
    params: MinNodesCurveParametersSet,
    max_subnet_memory: u128,
    min_subnet_nodes: u32,
) -> u32 {
    let f = PERCENTAGE_FACTOR;
    let simple = spec_percent_div((memory_mb * f) as u128, (base_node_memory * f) as u128);
    let pos = mem_position(memory_mb, max_subnet_memory);
    let floor: u128 = (min_subnet_nodes * f) as u128;
    if pos <= params.x_curve_start {
        ((if simple > floor { simple } else { floor }) / f) as u32
    } else {
        let x: u128 = if pos <= f {
            ((pos - params.x_curve_start) * f / (f - params.x_curve_start) as int) as u128
        } else {
            f
        };
        let y: u128 = ((params.y_start - params.y_end) * (f - x) / f as int + params.y_end) as u128;
        let on_curve = spec_percent_mul(simple, spec_percent_div(y, params.y_start));
        let raised: u128 = if pos > params.max_x {
            (spec_percent_mul(simple, (f - spec_percent_div(params.max_x, pos)) as u128)
                + on_curve) as u128
        } else {
            on_curve
        };
        ((if raised > floor { raised } else { floor }) / f) as u32
    }
}

/// Position of `memory_mb` between no memory and `max_subnet_memory`, as a
/// percentage, at most 100% once the maximum is reached.
pub open spec fn mem_position(memory_mb: u128, max_subnet_memory: u128) -> u128 {
    if memory_mb < max_subnet_memory {
        (memory_mb * PERCENTAGE_FACTOR / max_subnet_memory as int) as u128
    } else {
        PERCENTAGE_FACTOR
    }
}

/// The inputs on which the computation of the minimum node count does not
/// overflow: the memory values always, the curve only where its position is
/// past the start of the curve and the curve is read.
pub open spec fn min_subnet_nodes_inputs_ok(
    base_node_memory: u128,
    memory_mb: u128,
    params: MinNodesCurveParametersSet,
    max_subnet_memory: u128,
) -> bool {
    &&& base_node_memory <= u128::MAX / PERCENTAGE_FACTOR
    &&& memory_mb <= u128::MAX / PERCENTAGE_FACTOR
    &&& mem_position(memory_mb, max_subnet_memory) > params.x_curve_start ==> {
        &&& params.y_end <= params.y_start
        &&& params.y_start <= u128::MAX / PERCENTAGE_FACTOR
    }
}

pub fn get_min_subnet_nodes(
    base_node_memory: u128,
    memory_mb: u128,
    params: MinNodesCurveParametersSet,
    max_subnet_memory: u128,
    min_subnet_nodes: u32,
) -> (n: u32)
    requires
        min_subnet_nodes_inputs_ok(base_node_memory, memory_mb, params, max_subnet_memory),
    ensures
        n == spec_min_subnet_nodes(
            base_node_memory,
            memory_mb,
            params,
            max_subnet_memory,
            min_subnet_nodes,
        ),
{
    let f = PERCENTAGE_FACTOR;
    let simple_min_subnet_nodes: u128 = percent_div(memory_mb * f, base_node_memory * f);
    assert(simple_min_subnet_nodes <= u128::MAX / PERCENTAGE_FACTOR) by {
        let b = (base_node_memory * f) as u128;
        if b != 0 && memory_mb != 0 {
            assert(b >= f) by (nonlinear_arith)
                requires
                    b == base_node_memory * f,
                    b != 0,
                    f == PERCENTAGE_FACTOR,
            ;
            let p: int = if memory_mb * f * f > u128::MAX {
                u128::MAX as int
            } else {
                memory_mb * f * f
            };
            assert(p / (b as int) <= u128::MAX / PERCENTAGE_FACTOR) by (nonlinear_arith)
                requires
                    b >= f,
                    p <= u128::MAX,
                    f == PERCENTAGE_FACTOR,
            ;
        }
    }
    let x_curve_start = params.x_curve_start;
    let y_end = params.y_end;
    let y_start = params.y_start;
    let max_x = params.max_x;

    let mut subnet_mem_position = f;
    if memory_mb < max_subnet_memory {
        subnet_mem_position = memory_mb * f / max_subnet_memory;
        assert(subnet_mem_position <= f) by (nonlinear_arith)
            requires
                subnet_mem_position == memory_mb * f / max_subnet_memory as int,
                memory_mb < max_subnet_memory,
                f == PERCENTAGE_FACTOR,
        ;
    }
    let mut min_nodes: u128 = min_subnet_nodes as u128 * f;

    if subnet_mem_position <= x_curve_start {
        if simple_min_subnet_nodes > min_nodes {
            min_nodes = simple_min_subnet_nodes;
        }
        return (min_nodes / f) as u32;
    }

    let mut x: u128 = 0;
    if subnet_mem_position >= x_curve_start && subnet_mem_position <= f {
        x = (subnet_mem_position - x_curve_start) * f / (f - x_curve_start);
        assert(x <= f) by (nonlinear_arith)
            requires
                x == (subnet_mem_position - x_curve_start) * f / (f - x_curve_start) as int,
                x_curve_start < subnet_mem_position <= f,
        ;
    } else if subnet_mem_position > f {
        x = f;
    }
    assert((y_start - y_end) * (f - x) <= u128::MAX) by (nonlinear_arith)
        requires
            y_start - y_end <= u128::MAX / PERCENTAGE_FACTOR,
            f - x <= f,
            0 <= f - x,
            f == PERCENTAGE_FACTOR,
    ;
    let y = (y_start - y_end) * (f - x) / f + y_end;
    assert(y <= y_start) by (nonlinear_arith)
        requires
            y == (y_start - y_end) * (f - x) / f as int + y_end,
            y_end <= y_start,
            0 <= f - x <= f,
            f == PERCENTAGE_FACTOR,
    ;
    let y_ratio = percent_div(y, y_start);
    assert(y_ratio <= f) by {
        if y != 0 && y_start != 0 {
            assert(y * f <= u128::MAX) by (nonlinear_arith)
                requires
                    y <= y_start,
                    y_start <= u128::MAX / PERCENTAGE_FACTOR,
                    f == PERCENTAGE_FACTOR,
            ;
            assert((y * f) / (y_start as int) <= f) by (nonlinear_arith)
                requires
                    y <= y_start,
                    y_start > 0,
                    f > 0,
            ;
        }
    }
    let mut min_subnet_nodes_on_curve = percent_mul(simple_min_subnet_nodes, y_ratio);

    if subnet_mem_position > max_x {
        let x_max_x_ratio = percent_div(max_x, subnet_mem_position);
        assert(x_max_x_ratio <= f) by {
            if max_x != 0 {
                assert(max_x * f <= u128::MAX) by (nonlinear_arith)
                    requires
                        max_x < subnet_mem_position <= f,
                        f == PERCENTAGE_FACTOR,
                ;
                assert((max_x * f) / (subnet_mem_position as int) <= f) by (nonlinear_arith)
                    requires
                        max_x < subnet_mem_position,
                        f > 0,
                ;
            }
        }
        let comp_fraction = f - x_max_x_ratio;
        min_subnet_nodes_on_curve = percent_mul(simple_min_subnet_nodes, comp_fraction)
            + min_subnet_nodes_on_curve;
    }
    if min_subnet_nodes_on_curve > min_nodes {
        min_nodes = min_subnet_nodes_on_curve;
    }
    (min_nodes / f) as u32
}

/// Target node count: the minimum plus `multiplier` percent of it.
pub open spec fn spec_target_subnet_nodes(min_subnet_nodes: u32, multiplier: u128) -> int {
    spec_percent_mul(min_subnet_nodes as u128, multiplier) as u32 + min_subnet_nodes
}

pub fn get_target_subnet_nodes(min_subnet_nodes: u32, multiplier: u128) -> (n: u32)
    requires
        spec_target_subnet_nodes(min_subnet_nodes, multiplier) <= u32::MAX,
    ensures
        n == spec_target_subnet_nodes(min_subnet_nodes, multiplier),
{
    (percent_mul(min_subnet_nodes as u128, multiplier) as u32) + min_subnet_nodes
}

/// Delegate stake a subnet must hold to stay live: a percentage of the stake
/// its minimum nodes hold, and never below the absolute minimum.
pub open spec fn spec_min_subnet_delegate_stake_balance(
    min_subnet_nodes: u32,
    min_stake_balance: u128,
    min_subnet_delegate_stake_percentage: u128,
    min_subnet_delegate_stake: u128,
) -> u128 {
    let required = spec_percent_mul(
        (min_stake_balance * min_subnet_nodes) as u128,
        min_subnet_delegate_stake_percentage,
    );
    if min_subnet_delegate_stake > required {
        min_subnet_delegate_stake
    } else {
        required
    }
}

pub fn get_min_subnet_delegate_stake_balance(
    min_subnet_nodes: u32,
    min_stake_balance: u128,
    min_subnet_delegate_stake_percentage: u128,
    min_subnet_delegate_stake: u128,
) -> (b: u128)
    requires
        min_stake_balance * min_subnet_nodes <= u128::MAX,
    ensures
        b == spec_min_subnet_delegate_stake_balance(
            min_subnet_nodes,
            min_stake_balance,
            min_subnet_delegate_stake_percentage,
            min_subnet_delegate_stake,
        ),
        b >= min_subnet_delegate_stake,
{
    let min_subnet_stake_balance = min_stake_balance * min_subnet_nodes as u128;
    let min_subnet_delegate_stake_balance = percent_mul(
        min_subnet_stake_balance,
        min_subnet_delegate_stake_percentage,
    );
    if min_subnet_delegate_stake > min_subnet_delegate_stake_balance {
        return min_subnet_delegate_stake;
    }
    min_subnet_delegate_stake_balance
}

/// First epoch of the registration period that follows the last registration;
/// zero before any registration.
pub open spec fn spec_next_registration_epoch(last_registration_epoch: u32, period: u32) -> u32 {
    if last_registration_epoch == 0 {
        0
    } else {
        let rest = if period >= last_registration_epoch % period {
            period - last_registration_epoch % period
        } else {
            0
        };
        if last_registration_epoch + rest > u32::MAX {
            u32::MAX
        } else {
            (last_registration_epoch + rest) as u32
        }
    }
}

pub fn get_next_registration_epoch(last_registration_epoch: u32, period: u32) -> (e: u32)
    requires
        period > 0,
    ensures
        e == spec_next_registration_epoch(last_registration_epoch, period),
{
    if last_registration_epoch == 0 {
        return 0;
    }
    last_registration_epoch.saturating_add(period.saturating_sub(last_registration_epoch % period))
}

/// Whether a subnet may register in `current_epoch`.
pub fn can_subnet_register(current_epoch: u32, last_registration_epoch: u32, period: u32) -> (b: bool)
    requires
        period > 0,
    ensures
        b == (current_epoch >= spec_next_registration_epoch(last_registration_epoch, period)),
{
    current_epoch >= get_next_registration_epoch(last_registration_epoch, period)
}

/// Registration fee: `fee_max` at the start of the next registration period,
/// falling by `(fee_max - fee_min) / period` per epoch and never below
/// `fee_min`; `fee_min` once that period is over.
pub open spec fn spec_registration_cost(
    epoch: u32,
    last_registration_epoch: u32,
    fee_min: u128,
    fee_max: u128,
    period: u32,
) -> u128 {
    let lower = spec_next_registration_epoch(last_registration_epoch, period);
    if epoch >= lower + period {
        fee_min
    } else {
        let cycle_epoch: u32 = if epoch >= lower { (epoch - lower) as u32 } else { 0 };
        let spread: u128 = if fee_max >= fee_min { (fee_max - fee_min) as u128 } else { 0 };
        let decrease_per_epoch: u128 = (spread as int / period as int) as u128;
        let decrease: u128 = if decrease_per_epoch * cycle_epoch > u128::MAX {
            u128::MAX
        } else {
            (decrease_per_epoch * cycle_epoch) as u128
        };
        let cost: u128 = if fee_max >= decrease { (fee_max - decrease) as u128 } else { 0 };
        if cost >= fee_min { cost } else { fee_min }
    }
}

pub fn registration_cost(
    epoch: u32,
    last_registration_epoch: u32,
    fee_min: u128,
    fee_max: u128,
    period: u32,
) -> (cost: u128)
    requires
        period > 0,
        spec_next_registration_epoch(last_registration_epoch, period) + period <= u32::MAX,
    ensures
        cost == spec_registration_cost(epoch, last_registration_epoch, fee_min, fee_max, period),
        cost >= fee_min,
        fee_min <= fee_max ==> cost <= fee_max,
{
    let next_registration_lower_bound_epoch = get_next_registration_epoch(
        last_registration_epoch,
        period,
    );
    let next_registration_upper_bound_epoch = next_registration_lower_bound_epoch + period;
    if epoch >= next_registration_upper_bound_epoch {
        return fee_min;
    }
    let cycle_epoch = epoch.saturating_sub(next_registration_lower_bound_epoch);
    let decrease_per_epoch = fee_max.saturating_sub(fee_min) / (period as u128);
    let decrease = match decrease_per_epoch.checked_mul(cycle_epoch as u128) {
        Some(d) => d,
        None => u128::MAX,
    };
    let cost = fee_max.saturating_sub(decrease);
    if cost >= fee_min {
        cost
    } else {
        fee_min
    }
}

} // verus!
