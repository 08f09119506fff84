//! Runtime-level rules: deposits, proxy filters, weights and constants.

use vstd::prelude::*;
use crate::network::NetworkConfig;

verus! {

/// Balance of an account.
pub type Balance = u128;

/// Milliseconds per block.
pub const MILLISECS_PER_BLOCK: u64 = 6000;

/// Blocks per minute, hour, day and year.
pub const MINUTES: u32 = 10;

pub const HOURS: u32 = 600;

pub const DAYS: u32 = 14400;

pub const YEAR: u32 = 5256000;

/// Blocks per reward halving (two years).
pub const BLOCKS_PER_HALVING: u32 = 10512000;

pub const TARGET_MAX_TOTAL_SUPPLY: u128 = 2_800_000_000_000_000_000_000_000;

/// Half the target supply spread over one halving period.
pub const INITIAL_REWARD_PER_BLOCK: u128 = 133_181_126_331_811_263_318;

/// Blocks per epoch.
pub const BLOCKS_PER_EPOCH: u32 = 10;

pub const EPOCHS_PER_YEAR: u32 = 525600;

/// Existential deposit of the balances pallet.
pub const EXISTENTIAL_DEPOSIT: u128 = 500;

/// Fee per storage item.
pub const ITEMS_FEE: Balance = 20_000_000;

/// Fee per storage byte.
pub const BYTES_FEE: Balance = 1_000_000;

/// Deposit for `items` storage items holding `bytes` bytes.
pub open spec fn spec_deposit(items: u32, bytes: u32) -> int {
    items * ITEMS_FEE + bytes * BYTES_FEE
}

pub fn deposit(items: u32, bytes: u32) -> (d: Balance)
    ensures
        d == spec_deposit(items, bytes),
{
    assert(items * ITEMS_FEE <= u32::MAX * ITEMS_FEE) by (nonlinear_arith);
    assert(bytes * BYTES_FEE <= u32::MAX * BYTES_FEE) by (nonlinear_arith);
    let a = (items as u128) * ITEMS_FEE;
    let b = (bytes as u128) * BYTES_FEE;
    a.saturating_add(b)
}

/// The calls a proxy filter tells apart.
#[derive(Clone, Copy, PartialEq, Eq, Structural, Debug)]
pub enum RuntimeCall {
    /// Any call of the balances pallet.
    Balances,
    /// `Network::add_to_delegate_stake`.
    NetworkAddToDelegateStake,
    /// `Network::transfer_delegate_stake`.
    NetworkTransferDelegateStake,
    /// `Network::remove_delegate_stake`.
    NetworkRemoveDelegateStake,
    /// Any other network call.
    NetworkOther,
    /// A call of any other pallet.
    Other,
}

/// The kinds of proxying allowed.
#[derive(Clone, Copy, PartialEq, Eq, Structural, PartialOrd, Ord, Debug)]
pub enum ProxyType {
    Any,
    DelegateStaking,
    NonTransfer,
}

impl Default for ProxyType {
    fn default() -> (p: Self)
        ensures
            p == ProxyType::Any,
    {
        ProxyType::Any
    }
}

pub open spec fn spec_proxy_filter(p: ProxyType, c: RuntimeCall) -> bool {
    match p {
        ProxyType::Any => true,
        ProxyType::NonTransfer => c != RuntimeCall::Balances,
        ProxyType::DelegateStaking => {
            ||| c == RuntimeCall::NetworkAddToDelegateStake
            ||| c == RuntimeCall::NetworkTransferDelegateStake
            ||| c == RuntimeCall::NetworkRemoveDelegateStake
        },
    }
}

pub open spec fn spec_proxy_is_superset(p: ProxyType, o: ProxyType) -> bool {
    p == o || p == ProxyType::Any
}

impl ProxyType {
    /// Whether a proxy of this type may make the call `c`.
    pub fn filter(&self, c: &RuntimeCall) -> (allowed: bool)
        ensures
            allowed == spec_proxy_filter(*self, *c),
    {
        match self {
            ProxyType::Any => true,
            ProxyType::NonTransfer => !(*c == RuntimeCall::Balances),
            ProxyType::DelegateStaking => {
                *c == RuntimeCall::NetworkAddToDelegateStake || *c
                    == RuntimeCall::NetworkTransferDelegateStake || *c
                    == RuntimeCall::NetworkRemoveDelegateStake
            },
        }
    }

    /// Whether this proxy type allows everything `o` allows.
    pub fn is_superset(&self, o: &Self) -> (b: bool)
        ensures
            b == spec_proxy_is_superset(*self, *o),
    {
        if *self == *o {
            return true;
        }
        match (self, o) {
            (ProxyType::Any, _) => true,
            (_, ProxyType::Any) => false,
            _ => false,
        }
    }
}

/// A law of the proxy types: a proxy type that is a superset of another allows
/// every call the other allows.
pub proof fn lemma_superset_allows_more(p: ProxyType, o: ProxyType, c: RuntimeCall)
    requires
        spec_proxy_is_superset(p, o),
        spec_proxy_filter(o, c),
    ensures
        spec_proxy_filter(p, c),
{
}

/// `a + b`, at most `u64::MAX`.
pub open spec fn sat_add_u64(a: u64, b: u64) -> u64 {
    if a + b > u64::MAX {
        u64::MAX
    } else {
        (a + b) as u64
    }
}

/// `a * b`, at most `u64::MAX`.
pub open spec fn sat_mul_u64(a: u64, b: u64) -> u64 {
    if a * b > u64::MAX {
        u64::MAX
    } else {
        (a * b) as u64
    }
}

fn saturating_mul_u64(a: u64, b: u64) -> (r: u64)
    ensures
        r == sat_mul_u64(a, b),
{
    match a.checked_mul(b) {
        Some(p) => p,
        None => u64::MAX,
    }
}

/// Execution weight: time and proof size.
#[derive(Clone, Copy, PartialEq, Eq, Structural, Debug)]
pub struct Weight {
    pub ref_time: u64,
    pub proof_size: u64,
}

impl Weight {
    pub fn from_parts(ref_time: u64, proof_size: u64) -> (w: Weight)
        ensures
            w == (Weight { ref_time, proof_size }),
    {
        Weight { ref_time, proof_size }
    }

    pub fn saturating_add(self, other: Weight) -> (w: Weight)
        ensures
            w.ref_time == sat_add_u64(self.ref_time, other.ref_time),
            w.proof_size == sat_add_u64(self.proof_size, other.proof_size),
    {
        Weight {
            ref_time: self.ref_time.saturating_add(other.ref_time),
            proof_size: self.proof_size.saturating_add(other.proof_size),
        }
    }

    pub fn saturating_mul(self, b: u64) -> (w: Weight)
        ensures
            w.ref_time == sat_mul_u64(self.ref_time, b),
            w.proof_size == sat_mul_u64(self.proof_size, b),
    {
        Weight {
            ref_time: saturating_mul_u64(self.ref_time, b),
            proof_size: saturating_mul_u64(self.proof_size, b),
        }
    }
}

/// Weight of one database read and one write.
#[derive(Clone, Copy, PartialEq, Eq, Structural, Debug)]
pub struct RuntimeDbWeight {
    pub read: u64,
    pub write: u64,
}

impl RuntimeDbWeight {
    pub fn reads(&self, r: u64) -> (w: Weight)
        ensures
            w == (Weight { ref_time: sat_mul_u64(self.read, r), proof_size: 0 }),
    {
        Weight::from_parts(saturating_mul_u64(self.read, r), 0)
    }

    pub fn writes(&self, w: u64) -> (r: Weight)
        ensures
            r == (Weight { ref_time: sat_mul_u64(self.write, w), proof_size: 0 }),
    {
        Weight::from_parts(saturating_mul_u64(self.write, w), 0)
    }
}

/// Read and write weights of the RocksDB backend: 25 and 100 microseconds.
pub fn rocks_db_weight() -> (w: RuntimeDbWeight)
    ensures
        w == (RuntimeDbWeight { read: 25_000_000, write: 100_000_000 }),
{
    RuntimeDbWeight { read: 25_000_000, write: 100_000_000 }
}

/// Benchmarked weight of the deactivation ledger for `x` subnets and `d`
/// deactivations, over the database weights `db`.
pub open spec fn spec_deactivation_ledger_weight(db: RuntimeDbWeight, x: u32, d: u32) -> Weight {
    let x = x as u64;
    let d = d as u64;
    let steps = seq![
        Weight { ref_time: sat_mul_u64(17_994_109, x), proof_size: 0 },
        Weight { ref_time: sat_mul_u64(5_478_598, d), proof_size: 0 },
        Weight { ref_time: sat_mul_u64(db.read, 4), proof_size: 0 },
        Weight { ref_time: sat_mul_u64(db.read, sat_mul_u64(2, x)), proof_size: 0 },
        Weight { ref_time: sat_mul_u64(db.read, sat_mul_u64(1, d)), proof_size: 0 },
        Weight { ref_time: sat_mul_u64(db.write, 1), proof_size: 0 },
        Weight { ref_time: sat_mul_u64(db.write, sat_mul_u64(1, x)), proof_size: 0 },
        Weight { ref_time: sat_mul_u64(db.write, sat_mul_u64(1, d)), proof_size: 0 },
        Weight { ref_time: 0, proof_size: sat_mul_u64(198, d) },
        Weight { ref_time: 0, proof_size: sat_mul_u64(3112, x) },
    ];
    sum_weights(Weight { ref_time: 7_722_000, proof_size: 391960 }, steps)
}

/// Saturating sum of `start` and the weights of `steps`, added left to right.
pub open spec fn sum_weights(start: Weight, steps: Seq<Weight>) -> Weight
    decreases steps.len(),
{
    if steps.len() == 0 {
        start
    } else {
        let prev = sum_weights(start, steps.drop_last());
        Weight {
            ref_time: sat_add_u64(prev.ref_time, steps.last().ref_time),
            proof_size: sat_add_u64(prev.proof_size, steps.last().proof_size),
        }
    }
}

/// Weights of the network pallet computed over the runtime's database weights.
pub struct SubstrateWeight;

impl SubstrateWeight {
    pub fn do_deactivation_ledger(db: RuntimeDbWeight, x: u32, d: u32) -> (w: Weight)
        ensures
            w == spec_deactivation_ledger_weight(db, x, d),
    {
        let xs = x as u64;
        let ds = d as u64;
        let w0 = Weight::from_parts(7_722_000, 391960);
        let w1 = w0.saturating_add(Weight::from_parts(17_994_109, 0).saturating_mul(xs));
        let w2 = w1.saturating_add(Weight::from_parts(5_478_598, 0).saturating_mul(ds));
        let w3 = w2.saturating_add(db.reads(4));
        let w4 = w3.saturating_add(db.reads(saturating_mul_u64(2, xs)));
        let w5 = w4.saturating_add(db.reads(saturating_mul_u64(1, ds)));
        let w6 = w5.saturating_add(db.writes(1));
        let w7 = w6.saturating_add(db.writes(saturating_mul_u64(1, xs)));
        let w8 = w7.saturating_add(db.writes(saturating_mul_u64(1, ds)));
        let w9 = w8.saturating_add(Weight::from_parts(0, 198).saturating_mul(ds));
        let w10 = w9.saturating_add(Weight::from_parts(0, 3112).saturating_mul(xs));
        proof {
            let ghost spec_w = spec_deactivation_ledger_weight(db, x, d);
            reveal_with_fuel(sum_weights, 11);
            assert(w10 == spec_w);
        }
        w10
    }
}

/// The same weight over the RocksDB weights, for runtimes that give none.
pub fn do_deactivation_ledger(x: u32, d: u32) -> (w: Weight)
    ensures
        w == spec_deactivation_ledger_weight(
            RuntimeDbWeight { read: 25_000_000, write: 100_000_000 },
            x,
            d,
        ),
{
    SubstrateWeight::do_deactivation_ledger(rocks_db_weight(), x, d)
}

/// Maps the block author's authority key to an account id.
pub struct AuraAccountAdapter;

impl AuraAccountAdapter {
    /// The author's account is its 32-byte authority key; any other key gives none.
    pub fn find_author(author_key: Option<Vec<u8>>) -> (account: Option<Vec<u8>>)
        ensures
            account is Some <==> (author_key matches Some(k) && k@.len() == 32),
            account matches Some(a) ==> author_key matches Some(k) && a@ == k@,
    {
        match author_key {
            Some(k) => {
                if k.len() == 32 {
                    Some(k)
                } else {
                    None
                }
            },
            None => None,
        }
    }
}

/// The runtime that composes the pallets.
pub struct Runtime;

/// Epochs a stake unbonding waits.
pub const STAKE_COOLDOWN_EPOCHS: u64 = 100;

/// Unbondings an account may hold at once on a subnet.
pub const MAX_STAKE_UNLOCKINGS: u32 = 32;

/// Blocks between two rate-limited calls of an account.
pub const INITIAL_TX_RATE_LIMIT: u64 = 0;

impl Runtime {
    /// The network's configuration in this runtime.
    pub fn network_config() -> (c: NetworkConfig)
        ensures
            c.wf(),
            c.epoch_length == BLOCKS_PER_EPOCH,
            c.stake_cooldown_epochs == STAKE_COOLDOWN_EPOCHS,
            c.max_stake_unlockings == MAX_STAKE_UNLOCKINGS,
            c.tx_rate_limit == INITIAL_TX_RATE_LIMIT,
            c.subnet_initialization_cost == 0,
    {
        NetworkConfig::default_params(BLOCKS_PER_EPOCH as u64, STAKE_COOLDOWN_EPOCHS, MAX_STAKE_UNLOCKINGS, 0, INITIAL_TX_RATE_LIMIT)
    }
}

} // verus!
