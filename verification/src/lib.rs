//! Subnet registry, staking ledger, validation and reward accounting of the
//! network pallet, written as a verified state machine.

pub mod math;
pub mod filters;
pub mod table;
pub mod utils;
pub mod types;
pub mod subnet_params;
pub mod runtime;
pub mod network;
pub mod registry;
pub mod validation;
pub mod staking;
pub mod rewards;
pub mod epoch;
pub mod tasks;
pub mod overwatch;
pub mod benchmark;
pub mod interface;
pub mod info;
pub mod laws;


use vstd::prelude::*;

verus! {

} // verus!
