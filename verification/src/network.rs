//! The network's state: configuration, account balances and storage.

use vstd::prelude::*;
use crate::math::PERCENTAGE_FACTOR;
use crate::table::{Table, TableKey, AccountSubnet, SubnetAccount};
use crate::types::{AccountId, MinNodesCurveParametersSet, SubnetData};
use crate::registry::Registry;
use crate::validation::Consensus;

verus! {

/// Errors of the network's calls.
#[derive(Clone, Copy, PartialEq, Eq, Structural, Debug)]
pub enum Error {
    MaxSubnets,
    SubnetNodeExist,
    PeerIdExist,
    SubnetNodeNotExist,
    SubnetExist,
    MaxSubnetMemory,
    SubnetMinDelegateStakeBalanceMet,
    SubnetNotExist,
    SubnetNodesMax,
    InvalidPeerId,
    CouldNotConvertToBalance,
    NotEnoughBalanceToStake,
    NotEnoughBalance,
    RequiredUnstakeEpochsNotMet,
    BalanceWithdrawalError,
    NotEnoughStakeToWithdraw,
    MaxStakeReached,
    MinStakeNotReached,
    TxRateLimitExceeded,
    MaxUnlockingsPerEpochReached,
    MaxUnlockingsReached,
    NoStakeUnbondingsOrCooldownNotMet,
    SubnetInitializing,
    InvalidSubnetRewardsSubmission,
    SubnetRewardsAlreadySubmitted,
    InvalidValidator,
    AlreadyAttested,
    NodeConsensusSubmitEpochNotReached,
    InvalidRewardsDataLength,
    AccountEligible,
    TaskNotFound,
    DecryptionFailed,
    AccountIneligible,
    InvalidOverwatchCommitments,
    CommitNotExist,
    InvalidWeight,
    WeightRevealMismatch,
}

/// Constants of the pallet and the values of its parameter storage.
#[derive(Clone, Copy, Debug)]
pub struct NetworkConfig {
    pub epoch_length: u64,
    pub stake_cooldown_epochs: u64,
    pub max_stake_unlockings: u32,
    pub subnet_initialization_cost: u128,
    pub tx_rate_limit: u64,
    pub max_subnets: u32,
    pub max_subnet_nodes: u32,
    pub min_subnet_nodes: u32,
    pub max_subnet_memory_mb: u128,
    pub base_subnet_node_memory_mb: u128,
    pub min_nodes_curve: MinNodesCurveParametersSet,
    pub target_subnet_nodes_multiplier: u128,
    pub min_stake_balance: u128,
    pub max_stake_balance: u128,
    pub min_subnet_delegate_stake_percentage: u128,
    pub min_subnet_delegate_stake: u128,
    pub min_required_subnet_consensus_submit_epochs: u64,
    pub min_required_unstake_epochs: u64,
    pub base_reward_per_mb: u128,
    pub base_subnet_reward: u128,
    pub base_validator_reward: u128,
    pub delegate_stake_rewards_percentage: u128,
    pub min_attestation_percentage: u128,
    pub node_removal_threshold: u128,
    pub max_sequential_absent_subnet_node: u32,
    pub max_subnet_penalty_count: u32,
    pub max_subnet_node_penalties: u32,
    pub slash_percentage: u128,
    pub max_slash_amount: u128,
    /// Blocks after registration within which a subnet must be activated.
    pub subnet_activation_enactment_period: u64,
}

impl NetworkConfig {
    /// The configuration is usable: epochs have a length, at least one unbonding
    /// fits the ledger, and the minimum attestation is a percentage.
    pub open spec fn wf(&self) -> bool {
        &&& self.epoch_length > 0
        &&& self.max_stake_unlockings > 0
        &&& self.min_attestation_percentage <= PERCENTAGE_FACTOR
    }

    /// The defaults of the pallet's parameter storage.
    pub fn default_params(epoch_length: u64, stake_cooldown_epochs: u64, max_stake_unlockings: u32, subnet_initialization_cost: u128, tx_rate_limit: u64) -> (c: NetworkConfig)
        ensures
            c.epoch_length == epoch_length,
            c.stake_cooldown_epochs == stake_cooldown_epochs,
            c.max_stake_unlockings == max_stake_unlockings,
            c.subnet_initialization_cost == subnet_initialization_cost,
            c.tx_rate_limit == tx_rate_limit,
            c.max_subnets == 64,
            c.min_subnet_nodes == 5,
            c.max_subnet_nodes == 254,
            c.min_stake_balance == 1_000_000_000_000_000_000_000,
            c.max_stake_balance == 280_000_000_000_000_000_000_000,
            epoch_length > 0 && max_stake_unlockings > 0 ==> c.wf(),
    {
        NetworkConfig {
            epoch_length,
            stake_cooldown_epochs,
            max_stake_unlockings,
            subnet_initialization_cost,
            tx_rate_limit,
            max_subnets: 64,
            max_subnet_nodes: 254,
            min_subnet_nodes: 5,
            max_subnet_memory_mb: 1_000_000,
            base_subnet_node_memory_mb: 16_000,
            min_nodes_curve: MinNodesCurveParametersSet {
                x_curve_start: 150_000_000,
                y_end: 100_000_000,
                y_start: 750_000_000,
                x_rise: 10_000_000,
                max_x: 1_000_000_000,
            },
            target_subnet_nodes_multiplier: 333_333_333,
            min_stake_balance: 1_000_000_000_000_000_000_000,
            max_stake_balance: 280_000_000_000_000_000_000_000,
            min_subnet_delegate_stake_percentage: 1_000_000_000,
            min_subnet_delegate_stake: 1_000_000_000_000_000_000_000,
            min_required_subnet_consensus_submit_epochs: 16,
            min_required_unstake_epochs: 12,
            base_reward_per_mb: 1_000_000_000_000_000_000,
            base_subnet_reward: 9_000_000_000_000_000_000,
            base_validator_reward: 1_000_000_000_000_000_000,
            delegate_stake_rewards_percentage: 110_000_000,
            min_attestation_percentage: 660_000_000,
            node_removal_threshold: 850_000_000,
            max_sequential_absent_subnet_node: 3,
            max_subnet_penalty_count: 16,
            max_subnet_node_penalties: 3,
            slash_percentage: 31_250_000,
            max_slash_amount: 1_000_000_000_000_000_000,
            subnet_activation_enactment_period: 0,
        }
    }
}

/// The value a `u128` table holds for `k`, zero when absent.
pub open spec fn u128_at<K>(m: Map<K, u128>, k: K) -> u128 {
    if m.contains_key(k) {
        m[k]
    } else {
        0
    }
}

/// The value a `u64` table holds for `k`, zero when absent.
pub open spec fn u64_at<K>(m: Map<K, u64>, k: K) -> u64 {
    if m.contains_key(k) {
        m[k]
    } else {
        0
    }
}

/// The value a `u32` table holds for `k`, zero when absent.
pub open spec fn u32_at<K>(m: Map<K, u32>, k: K) -> u32 {
    if m.contains_key(k) {
        m[k]
    } else {
        0
    }
}

pub fn read_u128<K: TableKey>(t: &Table<K, u128>, k: &K) -> (v: u128)
    requires
        t.wf(),
    ensures
        v == u128_at(t@, *k),
{
    match t.get(k) {
        Some(v) => *v,
        None => 0,
    }
}

pub fn read_u64<K: TableKey>(t: &Table<K, u64>, k: &K) -> (v: u64)
    requires
        t.wf(),
    ensures
        v == u64_at(t@, *k),
{
    match t.get(k) {
        Some(v) => *v,
        None => 0,
    }
}

pub fn read_u32<K: TableKey>(t: &Table<K, u32>, k: &K) -> (v: u32)
    requires
        t.wf(),
    ensures
        v == u32_at(t@, *k),
{
    match t.get(k) {
        Some(v) => *v,
        None => 0,
    }
}

/// Whether every value of `t` is at most `bound`.
pub fn all_at_most<K: TableKey>(t: &Table<K, u32>, bound: u32) -> (b: bool)
    requires
        t.wf(),
    ensures
        b == forall|k: K| #[trigger] u32_at(t@, k) <= bound,
{
    let n = t.len();
    let mut i: usize = 0;
    while i < n
        invariant
            t.wf(),
            n == t.entries().len(),
            i <= n,
            forall|j: int| 0 <= j < i ==> #[trigger] t.entries()[j].1 <= bound,
        decreases n - i,
    {
        if *t.value_at(i) > bound {
            proof {
                t.lemma_index(i as int);
                assert(u32_at(t@, t.entries()[i as int].0) > bound);
            }
            return false;
        }
        i = i + 1;
    }
    proof {
        assert forall|k: K| #[trigger] u32_at(t@, k) <= bound by {
            if t@.contains_key(k) {
                let j = t.index_of(k);
                t.lemma_index(j);
            }
        }
    }
    true
}

/// `a + b`, at most `u128::MAX`.
pub open spec fn sat_add(a: u128, b: u128) -> u128 {
    if a + b > u128::MAX {
        u128::MAX
    } else {
        (a + b) as u128
    }
}

/// `a - b`, at least zero.
pub open spec fn sat_sub(a: u128, b: u128) -> u128 {
    if a >= b {
        (a - b) as u128
    } else {
        0
    }
}

/// Balances `m` after crediting `amount` to `a`: nothing happens for a zero
/// amount, for an absent account credited less than the existential deposit
/// `ed`, or when the sum would overflow.
pub open spec fn deposit_map(m: Map<AccountId, u128>, ed: u128, a: AccountId, amount: u128) -> Map<AccountId, u128> {
    if amount == 0 || (!m.contains_key(a) && amount < ed) || u128_at(m, a) + amount > u128::MAX {
        m
    } else {
        m.insert(a, (u128_at(m, a) + amount) as u128)
    }
}

/// Balances `m` after crediting each of `amounts` to `a`, in order.
pub open spec fn deposit_all(m: Map<AccountId, u128>, ed: u128, a: AccountId, amounts: Seq<u128>) -> Map<AccountId, u128>
    decreases amounts.len(),
{
    if amounts.len() == 0 {
        m
    } else {
        deposit_map(deposit_all(m, ed, a, amounts.drop_last()), ed, a, amounts.last())
    }
}

/// Free balances of accounts. An account exists while it holds at least the
/// existential deposit.
pub struct Balances {
    pub accounts: Table<AccountId, u128>,
    pub existential_deposit: u128,
}

impl Balances {
    pub open spec fn view(&self) -> Map<AccountId, u128> {
        self.accounts@
    }

    pub open spec fn wf(&self) -> bool {
        &&& self.accounts.wf()
        &&& forall|a: AccountId| #[trigger] self.accounts@.contains_key(a) ==> self.accounts@[a]
            >= self.existential_deposit
    }

    /// Free balance of `a`.
    pub open spec fn free(&self, a: AccountId) -> u128 {
        u128_at(self@, a)
    }

    /// A keep-alive withdrawal succeeds when the amount is zero, or when it is
    /// covered and leaves at least the existential deposit.
    pub open spec fn spec_withdraw_ok(&self, a: AccountId, amount: u128) -> bool {
        amount == 0 || (amount <= self.free(a) && self.free(a) - amount
            >= self.existential_deposit)
    }

    /// Balances after crediting `amount` to `a`.
    pub open spec fn spec_deposit(&self, a: AccountId, amount: u128) -> Map<AccountId, u128> {
        deposit_map(self@, self.existential_deposit, a, amount)
    }

    pub fn new(existential_deposit: u128) -> (b: Balances)
        ensures
            b.wf(),
            b@ == Map::<AccountId, u128>::empty(),
            b.existential_deposit == existential_deposit,
    {
        Balances { accounts: Table::new(), existential_deposit }
    }

    pub fn free_balance(&self, a: AccountId) -> (b: u128)
        requires
            self.wf(),
        ensures
            b == self.free(a),
    {
        read_u128(&self.accounts, &a)
    }

    /// Whether a keep-alive withdrawal of `amount` from `a` would succeed.
    pub fn can_withdraw_keep_alive(&self, a: AccountId, amount: u128) -> (ok: bool)
        requires
            self.wf(),
        ensures
            ok == self.spec_withdraw_ok(a, amount),
    {
        if amount == 0 {
            return true;
        }
        let free = read_u128(&self.accounts, &a);
        !(amount > free || free - amount < self.existential_deposit)
    }

    /// Withdraws `amount` from `a`, keeping the account alive.
    pub fn withdraw_keep_alive(&mut self, a: AccountId, amount: u128) -> (ok: bool)
        requires
            old(self).wf(),
        ensures
            final(self).wf(),
            final(self).existential_deposit == old(self).existential_deposit,
            ok == old(self).spec_withdraw_ok(a, amount),
            ok && amount > 0 ==> final(self)@ == old(self)@.insert(a, (old(self).free(a) - amount) as u128),
            !ok || amount == 0 ==> *final(self) == *old(self),
    {
        if amount == 0 {
            return true;
        }
        let free = read_u128(&self.accounts, &a);
        if amount > free || free - amount < self.existential_deposit {
            return false;
        }
        self.accounts.insert(a, free - amount);
        true
    }

    /// Credits `amount` to `a`, creating the account when the amount reaches the
    /// existential deposit.
    pub fn deposit_creating(&mut self, a: AccountId, amount: u128)
        requires
            old(self).wf(),
        ensures
            final(self).wf(),
            final(self).existential_deposit == old(self).existential_deposit,
            final(self)@ == old(self).spec_deposit(a, amount),
    {
        if amount == 0 {
            return;
        }
        let exists = self.accounts.contains_key(&a);
        if !exists && amount < self.existential_deposit {
            return;
        }
        let free = read_u128(&self.accounts, &a);
        match free.checked_add(amount) {
            Some(n) => {
                self.accounts.insert(a, n);
            },
            None => {},
        }
    }
}

/// An entry of the unbonding ledger: stake released at an epoch.
pub type UnbondingLedger = Table<u64, u128>;

/// Stake of accounts on subnets, its totals and the unbonding ledger.
pub struct Staking {
    pub account_subnet_stake: Table<AccountSubnet, u128>,
    pub total_subnet_stake: Table<u32, u128>,
    pub total_stake: u128,
    pub unbondings: Table<AccountSubnet, UnbondingLedger>,
    pub last_tx_block: Table<AccountId, u64>,
    pub stake_vault_balance: u128,
}

impl Staking {
    pub open spec fn wf(&self) -> bool {
        &&& self.account_subnet_stake.wf()
        &&& self.total_subnet_stake.wf()
        &&& self.unbondings.wf()
        &&& self.last_tx_block.wf()
        &&& forall|k: AccountSubnet| #[trigger] self.unbondings@.contains_key(k)
            ==> self.unbondings@[k].wf()
    }

    /// Stake of `account` on `subnet_id`.
    pub open spec fn stake(&self, account: AccountId, subnet_id: u32) -> u128 {
        u128_at(self.account_subnet_stake@, AccountSubnet { account, subnet_id })
    }

    /// Total stake on `subnet_id`.
    pub open spec fn subnet_stake(&self, subnet_id: u32) -> u128 {
        u128_at(self.total_subnet_stake@, subnet_id)
    }

    /// Unbondings of `account` on `subnet_id` in their stored order.
    pub open spec fn ledger_entries(&self, account: AccountId, subnet_id: u32) -> Seq<(u64, u128)> {
        let k = AccountSubnet { account, subnet_id };
        if self.unbondings@.contains_key(k) {
            self.unbondings@[k].entries()
        } else {
            Seq::empty()
        }
    }

    /// Unbondings of `account` on `subnet_id`, by the epoch they started.
    pub open spec fn ledger(&self, account: AccountId, subnet_id: u32) -> Map<u64, u128> {
        let k = AccountSubnet { account, subnet_id };
        if self.unbondings@.contains_key(k) {
            self.unbondings@[k]@
        } else {
            Map::empty()
        }
    }

    pub fn new() -> (s: Staking)
        ensures
            s.wf(),
            s.account_subnet_stake@ == Map::<AccountSubnet, u128>::empty(),
            s.total_subnet_stake@ == Map::<u32, u128>::empty(),
            s.unbondings@ == Map::<AccountSubnet, UnbondingLedger>::empty(),
            s.last_tx_block@ == Map::<AccountId, u64>::empty(),
            s.total_stake == 0,
            s.stake_vault_balance == 0,
    {
        Staking {
            account_subnet_stake: Table::new(),
            total_subnet_stake: Table::new(),
            total_stake: 0,
            unbondings: Table::new(),
            last_tx_block: Table::new(),
            stake_vault_balance: 0,
        }
    }
}

/// The whole state of the network.
pub struct Network {
    pub config: NetworkConfig,
    /// The current block.
    pub block: u64,
    pub balances: Balances,
    pub staking: Staking,
    pub registry: Registry,
    pub consensus: Consensus,
}

/// What every operation on the network keeps: the subnet counter never goes
/// down, and a node that stands before and after keeps its record, its peer
/// among it.
pub open spec fn claims_kept(old: Network, new: Network) -> bool {
    &&& old.registry.total_subnets <= new.registry.total_subnets
    &&& forall|k: SubnetAccount| #[trigger] new.registry.nodes@.contains_key(k) && old.registry.nodes@.contains_key(k)
        ==> new.registry.nodes@[k] == old.registry.nodes@[k]
}

/// Nodes only leave: every node after stands before, with the same record, and
/// the subnet counter does not go down.
pub open spec fn nodes_shrunk(old: Network, new: Network) -> bool {
    &&& old.registry.total_subnets <= new.registry.total_subnets
    &&& forall|k: SubnetAccount| #[trigger] new.registry.nodes@.contains_key(k)
        ==> old.registry.nodes@.contains_key(k) && new.registry.nodes@[k] == old.registry.nodes@[k]
}

impl Network {
    /// The current block can still be divided into epochs with room for every
    /// cooldown, and no rate-limited call lies in the future.
    pub open spec fn wf(&self) -> bool {
        &&& self.config.wf()
        &&& self.balances.wf()
        &&& self.staking.wf()
        &&& self.registry.wf()
        &&& self.consensus.wf()
        &&& forall|a: AccountId| #[trigger] self.staking.last_tx_block@.contains_key(a)
            ==> self.staking.last_tx_block@[a] <= self.block
        &&& forall|k: AccountSubnet, e: u64| #[trigger] self.staking.unbondings@.contains_key(k)
            && #[trigger] self.staking.unbondings@[k]@.contains_key(e) ==> e <= self.block
            / self.config.epoch_length
        &&& forall|k: AccountSubnet| #[trigger] self.staking.unbondings@.contains_key(k)
            ==> self.staking.unbondings@[k]@.dom().len() <= self.config.max_stake_unlockings
        &&& self.block_bounds_ok(self.block)
        &&& forall|id: u32| #[trigger] self.registry.subnets@.contains_key(id)
            ==> self.registry.subnets@[id].initialized <= self.block
        &&& forall|k: SubnetAccount| #[trigger] self.registry.subnet_accounts@.contains_key(k)
            ==> self.registry.subnet_accounts@[k] <= self.block
    }

    /// Every epoch count the network waits for, counted from `block`, stays
    /// within the block number range.
    pub open spec fn block_bounds_ok(&self, block: u64) -> bool {
        &&& block / self.config.epoch_length + self.config.stake_cooldown_epochs <= u64::MAX
        &&& block + self.config.epoch_length * self.config.min_required_unstake_epochs <= u64::MAX
        &&& block + self.config.epoch_length * self.config.min_required_subnet_consensus_submit_epochs
            <= u64::MAX
    }

    /// The current epoch.
    pub open spec fn epoch(&self) -> u64 {
        self.block / self.config.epoch_length
    }

    /// An empty network at block `block`.
    pub fn new(config: NetworkConfig, existential_deposit: u128, block: u64) -> (n: Network)
        requires
            config.wf(),
            block / config.epoch_length + config.stake_cooldown_epochs <= u64::MAX,
            block + config.epoch_length * config.min_required_unstake_epochs <= u64::MAX,
            block + config.epoch_length * config.min_required_subnet_consensus_submit_epochs <= u64::MAX,
        ensures
            n.wf(),
            n.config == config,
            n.block == block,
            n.balances@ == Map::<AccountId, u128>::empty(),
            n.balances.existential_deposit == existential_deposit,
            n.staking.total_stake == 0,
            n.registry.total_subnets == 0,
            n.registry.subnets@ == Map::<u32, SubnetData>::empty(),
    {
        Network {
            config,
            block,
            balances: Balances::new(existential_deposit),
            staking: Staking::new(),
            registry: Registry::new(),
            consensus: Consensus::new(),
        }
    }

    /// Moves the chain forward to `block`.
    pub fn set_block(&mut self, block: u64)
        requires
            old(self).wf(),
            old(self).block <= block,
            old(self).block_bounds_ok(block),
        ensures
            nodes_shrunk(*old(self), *final(self)),
            final(self).wf(),
            final(self).block == block,
            final(self).config == old(self).config,
            final(self).balances == old(self).balances,
            final(self).staking == old(self).staking,
            final(self).registry == old(self).registry,
            final(self).consensus == old(self).consensus,
    {
        let ghost b0 = self.block;
        let ghost len = self.config.epoch_length;
        proof {
            assert(b0 / len <= block / len) by (nonlinear_arith)
                requires
                    b0 <= block,
                    len > 0,
            ;
        }
        self.block = block;
    }

    /// Funds `account`, as a genesis or a transfer into the network would.
    pub fn deposit_creating(&mut self, account: AccountId, amount: u128)
        requires
            old(self).wf(),
        ensures
            nodes_shrunk(*old(self), *final(self)),
            final(self).wf(),
            final(self).balances@ == old(self).balances.spec_deposit(account, amount),
            final(self).balances.existential_deposit == old(self).balances.existential_deposit,
            final(self).config == old(self).config,
            final(self).block == old(self).block,
            final(self).staking == old(self).staking,
            final(self).registry == old(self).registry,
            final(self).consensus == old(self).consensus,
    {
        self.balances.deposit_creating(account, amount);
    }
}

} // verus!
