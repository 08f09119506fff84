//! Staking on subnets: adding stake, removing it into the unbonding ledger and
//! claiming it back after the cooldown.

use vstd::prelude::*;
use crate::network::{claims_kept, nodes_shrunk, 
    Error, Network, Staking, Balances, UnbondingLedger, read_u128, read_u64, sat_add, sat_sub, u128_at,
    u64_at, deposit_all,
};
use crate::table::{Table, AccountSubnet};
use crate::types::AccountId;
use crate::utils::{exceeds_tx_rate_limit, spec_exceeds_tx_rate_limit};

verus! {

/// `new` is `old` with `amount` added to the stake of `hotkey` on `subnet_id`,
/// to the subnet's total and to the overall total, each saturating.
pub open spec fn stake_increased(old: Staking, new: Staking, hotkey: AccountId, subnet_id: u32, amount: u128) -> bool {
    &&& new.account_subnet_stake@ == old.account_subnet_stake@.insert(
        AccountSubnet { account: hotkey, subnet_id },
        sat_add(old.stake(hotkey, subnet_id), amount),
    )
    &&& new.total_subnet_stake@ == old.total_subnet_stake@.insert(
        subnet_id,
        sat_add(old.subnet_stake(subnet_id), amount),
    )
    &&& new.total_stake == sat_add(old.total_stake, amount)
    &&& new.unbondings == old.unbondings
    &&& new.last_tx_block == old.last_tx_block
    &&& new.stake_vault_balance == old.stake_vault_balance
}

/// `new` is `old` with `amount` taken from the stake of `hotkey` on `subnet_id`,
/// from the subnet's total and from the overall total, each stopping at zero.
pub open spec fn stake_decreased(old: Staking, new: Staking, hotkey: AccountId, subnet_id: u32, amount: u128) -> bool {
    &&& new.account_subnet_stake@ == old.account_subnet_stake@.insert(
        AccountSubnet { account: hotkey, subnet_id },
        sat_sub(old.stake(hotkey, subnet_id), amount),
    )
    &&& new.total_subnet_stake@ == old.total_subnet_stake@.insert(
        subnet_id,
        sat_sub(old.subnet_stake(subnet_id), amount),
    )
    &&& new.total_stake == sat_sub(old.total_stake, amount)
    &&& new.unbondings == old.unbondings
    &&& new.last_tx_block == old.last_tx_block
    &&& new.stake_vault_balance == old.stake_vault_balance
}

impl Staking {
    pub fn get_stake(&self, hotkey: AccountId, subnet_id: u32) -> (s: u128)
        requires
            self.wf(),
        ensures
            s == self.stake(hotkey, subnet_id),
    {
        read_u128(&self.account_subnet_stake, &AccountSubnet { account: hotkey, subnet_id })
    }

    pub fn get_subnet_stake(&self, subnet_id: u32) -> (s: u128)
        requires
            self.wf(),
        ensures
            s == self.subnet_stake(subnet_id),
    {
        read_u128(&self.total_subnet_stake, &subnet_id)
    }

    /// Adds `amount` to the stake of `hotkey` on `subnet_id` and to the totals.
    pub fn increase_account_stake(&mut self, hotkey: AccountId, subnet_id: u32, amount: u128)
        requires
            old(self).wf(),
        ensures
            final(self).wf(),
            stake_increased(*old(self), *final(self), hotkey, subnet_id, amount),
    {
        let k = AccountSubnet { account: hotkey, subnet_id };
        let s = read_u128(&self.account_subnet_stake, &k);
        self.account_subnet_stake.insert(k, s.saturating_add(amount));
        let t = read_u128(&self.total_subnet_stake, &subnet_id);
        self.total_subnet_stake.insert(subnet_id, t.saturating_add(amount));
        self.total_stake = self.total_stake.saturating_add(amount);
    }

    /// Takes `amount` from the stake of `hotkey` on `subnet_id` and from the totals.
    pub fn decrease_account_stake(&mut self, hotkey: AccountId, subnet_id: u32, amount: u128)
        requires
            old(self).wf(),
        ensures
            final(self).wf(),
            stake_decreased(*old(self), *final(self), hotkey, subnet_id, amount),
    {
        let k = AccountSubnet { account: hotkey, subnet_id };
        let s = read_u128(&self.account_subnet_stake, &k);
        self.account_subnet_stake.insert(k, s.saturating_sub(amount));
        let t = read_u128(&self.total_subnet_stake, &subnet_id);
        self.total_subnet_stake.insert(subnet_id, t.saturating_sub(amount));
        self.total_stake = self.total_stake.saturating_sub(amount);
    }

    /// Moves the stake of `old_hotkey` on `subnet_id` to `new_hotkey`, adding
    /// it to what `new_hotkey` held.
    pub fn swap_account_stake(&mut self, old_hotkey: AccountId, new_hotkey: AccountId, subnet_id: u32)
        requires
            old(self).wf(),
        ensures
            final(self).wf(),
            old_hotkey != new_hotkey ==> final(self).account_subnet_stake@ == old(
                self,
            ).account_subnet_stake@.remove(AccountSubnet { account: old_hotkey, subnet_id }).insert(
                AccountSubnet { account: new_hotkey, subnet_id },
                sat_add(old(self).stake(old_hotkey, subnet_id), old(self).stake(new_hotkey, subnet_id)),
            ),
            old_hotkey == new_hotkey ==> final(self).account_subnet_stake@ == old(
                self,
            ).account_subnet_stake@.insert(
                AccountSubnet { account: new_hotkey, subnet_id },
                old(self).stake(old_hotkey, subnet_id),
            ),
            final(self).total_subnet_stake == old(self).total_subnet_stake,
            final(self).total_stake == old(self).total_stake,
            final(self).unbondings == old(self).unbondings,
            final(self).last_tx_block == old(self).last_tx_block,
            final(self).stake_vault_balance == old(self).stake_vault_balance,
    {
        let ko = AccountSubnet { account: old_hotkey, subnet_id };
        let kn = AccountSubnet { account: new_hotkey, subnet_id };
        let old_balance = match self.account_subnet_stake.remove(&ko) {
            Some(v) => v,
            None => 0,
        };
        let new_balance = match self.account_subnet_stake.remove(&kn) {
            Some(v) => v,
            None => 0,
        };
        self.account_subnet_stake.insert(kn, old_balance.saturating_add(new_balance));
        proof {
            if old_hotkey == new_hotkey {
                assert(final(self).account_subnet_stake@ =~= old(self).account_subnet_stake@.insert(
                    kn,
                    old(self).stake(old_hotkey, subnet_id),
                ));
            } else {
                assert(final(self).account_subnet_stake@ =~= old(self).account_subnet_stake@.remove(
                    ko,
                ).insert(
                    kn,
                    sat_add(old(self).stake(old_hotkey, subnet_id), old(self).stake(new_hotkey, subnet_id)),
                ));
            }
        }
    }
}

/// The effect of a successful `do_add_stake`: the amount leaves the coldkey's
/// free balance and joins the hotkey's stake; the coldkey's call is recorded for
/// rate limiting; nothing else changes but the stake totals.
pub open spec fn add_stake_effect(old: Network, new: Network, coldkey: AccountId, subnet_id: u32, hotkey: AccountId, amount: u128) -> bool {
    &&& new.balances@ == Network::balances_after_withdraw(old.balances, coldkey, amount)
    &&& new.balances.existential_deposit == old.balances.existential_deposit
    &&& new.staking.account_subnet_stake@ == old.staking.account_subnet_stake@.insert(
        AccountSubnet { account: hotkey, subnet_id },
        sat_add(old.staking.stake(hotkey, subnet_id), amount),
    )
    &&& new.staking.total_subnet_stake@ == old.staking.total_subnet_stake@.insert(
        subnet_id,
        sat_add(old.staking.subnet_stake(subnet_id), amount),
    )
    &&& new.staking.total_stake == sat_add(old.staking.total_stake, amount)
    &&& new.staking.last_tx_block@ == old.staking.last_tx_block@.insert(coldkey, old.block)
    &&& new.staking.unbondings == old.staking.unbondings
    &&& new.staking.stake_vault_balance == old.staking.stake_vault_balance
    &&& new.config == old.config
    &&& new.block == old.block
    &&& new.consensus == old.consensus
}

impl Network {
    /// The error `do_add_stake` answers with, if any: the stake after the call
    /// must lie within the minimum and maximum stake, the coldkey must hold the
    /// amount, the coldkey must not be rate limited, and the withdrawal must keep
    /// the coldkey's account alive.
    pub open spec fn add_stake_error(&self, coldkey: AccountId, subnet_id: u32, hotkey: AccountId, amount: u128) -> Option<Error> {
        let new_stake = sat_add(self.staking.stake(hotkey, subnet_id), amount);
        if new_stake < self.config.min_stake_balance {
            Some(Error::MinStakeNotReached)
        } else if new_stake > self.config.max_stake_balance {
            Some(Error::MaxStakeReached)
        } else if amount > self.balances.free(coldkey) {
            Some(Error::NotEnoughBalanceToStake)
        } else if spec_exceeds_tx_rate_limit(
            self.config.tx_rate_limit,
            u64_at(self.staking.last_tx_block@, coldkey),
            self.block,
        ) {
            Some(Error::TxRateLimitExceeded)
        } else if !self.balances.spec_withdraw_ok(coldkey, amount) {
            Some(Error::BalanceWithdrawalError)
        } else {
            None
        }
    }

    /// Balances after a successful keep-alive withdrawal of `amount` from `a`.
    pub open spec fn balances_after_withdraw(b: Balances, a: AccountId, amount: u128) -> Map<AccountId, u128> {
        if amount > 0 {
            b@.insert(a, (b.free(a) - amount) as u128)
        } else {
            b@
        }
    }

    /// The error `do_add_stake` would answer with, found without changing anything.
    pub fn check_add_stake(&self, coldkey: AccountId, subnet_id: u32, hotkey: AccountId, stake_to_be_added: u128) -> (r: Option<Error>)
        requires
            self.wf(),
        ensures
            r == self.add_stake_error(coldkey, subnet_id, hotkey, stake_to_be_added),
    {
        let account_stake_balance = self.staking.get_stake(hotkey, subnet_id);
        let new_stake = account_stake_balance.saturating_add(stake_to_be_added);
        if new_stake < self.config.min_stake_balance {
            return Some(Error::MinStakeNotReached);
        }
        if new_stake > self.config.max_stake_balance {
            return Some(Error::MaxStakeReached);
        }
        if stake_to_be_added > self.balances.free_balance(coldkey) {
            return Some(Error::NotEnoughBalanceToStake);
        }
        let last = read_u64(&self.staking.last_tx_block, &coldkey);
        if exceeds_tx_rate_limit(self.config.tx_rate_limit, last, self.block) {
            return Some(Error::TxRateLimitExceeded);
        }
        if !self.balances.can_withdraw_keep_alive(coldkey, stake_to_be_added) {
            return Some(Error::BalanceWithdrawalError);
        }
        None
    }

    /// Stakes `stake_to_be_added` from `coldkey`'s free balance onto `hotkey` on
    /// `subnet_id`.
    pub fn do_add_stake(&mut self, coldkey: AccountId, subnet_id: u32, hotkey: AccountId, stake_to_be_added: u128) -> (r: Result<(), Error>)
        requires
            old(self).wf(),
        ensures
            nodes_shrunk(*old(self), *final(self)),
            final(self).wf(),
            r == match old(self).add_stake_error(coldkey, subnet_id, hotkey, stake_to_be_added) {
                Some(e) => Err(e),
                None => Ok(()),
            },
            r is Err ==> *final(self) == *old(self),
            r is Ok ==> add_stake_effect(*old(self), *final(self), coldkey, subnet_id, hotkey, stake_to_be_added)
                && final(self).registry == old(self).registry,
    {
        let account_stake_balance = self.staking.get_stake(hotkey, subnet_id);
        let new_stake = account_stake_balance.saturating_add(stake_to_be_added);
        if new_stake < self.config.min_stake_balance {
            return Err(Error::MinStakeNotReached);
        }
        if new_stake > self.config.max_stake_balance {
            return Err(Error::MaxStakeReached);
        }
        if stake_to_be_added > self.balances.free_balance(coldkey) {
            return Err(Error::NotEnoughBalanceToStake);
        }
        let block = self.block;
        let last = read_u64(&self.staking.last_tx_block, &coldkey);
        if exceeds_tx_rate_limit(self.config.tx_rate_limit, last, block) {
            return Err(Error::TxRateLimitExceeded);
        }
        if !self.balances.withdraw_keep_alive(coldkey, stake_to_be_added) {
            return Err(Error::BalanceWithdrawalError);
        }
        self.staking.increase_account_stake(hotkey, subnet_id, stake_to_be_added);
        self.staking.last_tx_block.insert(coldkey, block);
        Ok(())
    }
}

/// An unbonding that started at epoch `e` can be claimed in `epoch` once the
/// cooldown has fully passed.
pub open spec fn matured(epoch: u64, cooldown: u64, e: u64) -> bool {
    epoch > e + cooldown
}

/// Amounts of the matured unbondings among `entries`, in order.
pub open spec fn matured_amounts(entries: Seq<(u64, u128)>, epoch: u64, cooldown: u64) -> Seq<u128>
    decreases entries.len(),
{
    if entries.len() == 0 {
        Seq::empty()
    } else {
        let prev = matured_amounts(entries.drop_last(), epoch, cooldown);
        if matured(epoch, cooldown, entries.last().0) {
            prev.push(entries.last().1)
        } else {
            prev
        }
    }
}

/// The unbondings of `m` that have not matured.
pub open spec fn kept_ledger(m: Map<u64, u128>, epoch: u64, cooldown: u64) -> Map<u64, u128> {
    Map::new(|e: u64| m.contains_key(e) && !matured(epoch, cooldown, e), |e: u64| m[e])
}

proof fn lemma_matured_len(entries: Seq<(u64, u128)>, epoch: u64, cooldown: u64)
    ensures
        matured_amounts(entries, epoch, cooldown).len() <= entries.len(),
    decreases entries.len(),
{
    if entries.len() > 0 {
        lemma_matured_len(entries.drop_last(), epoch, cooldown);
    }
}

proof fn lemma_matured_exists(entries: Seq<(u64, u128)>, epoch: u64, cooldown: u64)
    requires
        matured_amounts(entries, epoch, cooldown).len() > 0,
    ensures
        exists|j: int| 0 <= j < entries.len() && matured(epoch, cooldown, #[trigger] entries[j].0),
    decreases entries.len(),
{
    if !matured(epoch, cooldown, entries.last().0) {
        lemma_matured_exists(entries.drop_last(), epoch, cooldown);
        let j = choose|j: int| 0 <= j < entries.drop_last().len() && matured(epoch, cooldown, #[trigger] entries.drop_last()[j].0);
        assert(entries[j] == entries.drop_last()[j]);
    } else {
        assert(matured(epoch, cooldown, entries[entries.len() - 1].0));
    }
}

/// A ledger with a matured unbonding shrinks when it is claimed.
proof fn lemma_claim_shrinks(ledger: Table<u64, u128>, epoch: u64, cooldown: u64)
    requires
        ledger.wf(),
        matured_amounts(ledger.entries(), epoch, cooldown).len() > 0,
    ensures
        kept_ledger(ledger@, epoch, cooldown).dom().len() < ledger@.dom().len(),
{
    lemma_matured_exists(ledger.entries(), epoch, cooldown);
    let j = choose|j: int| 0 <= j < ledger.entries().len() && matured(epoch, cooldown, #[trigger] ledger.entries()[j].0);
    ledger.lemma_index(j);
    ledger.lemma_keys();
    let x = ledger.entries()[j].0;
    let kept = kept_ledger(ledger@, epoch, cooldown);
    assert(kept.dom().subset_of(ledger@.dom().remove(x)));
    vstd::set_lib::lemma_len_subset(kept.dom(), ledger@.dom().remove(x));
}

impl Network {
    /// Number of unbondings of `coldkey` on `subnet_id` that can be claimed now.
    pub open spec fn claimable_count(&self, coldkey: AccountId, subnet_id: u32) -> nat {
        matured_amounts(
            self.staking.ledger_entries(coldkey, subnet_id),
            self.epoch(),
            self.config.stake_cooldown_epochs,
        ).len()
    }

    /// Balances after the matured unbondings of `coldkey` on `subnet_id` are paid out.
    pub open spec fn balances_after_claim(&self, coldkey: AccountId, subnet_id: u32) -> Map<AccountId, u128> {
        deposit_all(
            self.balances@,
            self.balances.existential_deposit,
            coldkey,
            matured_amounts(
                self.staking.ledger_entries(coldkey, subnet_id),
                self.epoch(),
                self.config.stake_cooldown_epochs,
            ),
        )
    }

    /// Pays out every unbonding of `coldkey` on `subnet_id` whose cooldown has
    /// passed, and answers how many were paid.
    pub fn do_claim_stake_unbondings(&mut self, coldkey: AccountId, subnet_id: u32) -> (n: u32)
        requires
            old(self).wf(),
        ensures
            nodes_shrunk(*old(self), *final(self)),
            final(self).wf(),
            n == old(self).claimable_count(coldkey, subnet_id),
            final(self).balances@ == old(self).balances_after_claim(coldkey, subnet_id),
            final(self).balances.existential_deposit == old(self).balances.existential_deposit,
            n > 0 ==> final(self).staking.unbondings@.contains_key(AccountSubnet { account: coldkey, subnet_id }),
            n > 0 ==> final(self).staking.ledger(coldkey, subnet_id) == kept_ledger(
                old(self).staking.ledger(coldkey, subnet_id),
                old(self).epoch(),
                old(self).config.stake_cooldown_epochs,
            ),
            n > 0 ==> final(self).staking.unbondings@.remove(AccountSubnet { account: coldkey, subnet_id })
                == old(self).staking.unbondings@.remove(AccountSubnet { account: coldkey, subnet_id }),
            n == 0 ==> final(self).staking.unbondings == old(self).staking.unbondings,
            n == 0 ==> final(self).balances == old(self).balances,
            final(self).staking.account_subnet_stake == old(self).staking.account_subnet_stake,
            final(self).staking.total_subnet_stake == old(self).staking.total_subnet_stake,
            final(self).staking.total_stake == old(self).staking.total_stake,
            final(self).staking.last_tx_block == old(self).staking.last_tx_block,
            final(self).staking.stake_vault_balance == old(self).staking.stake_vault_balance,
            final(self).config == old(self).config,
            final(self).block == old(self).block,
            final(self).registry == old(self).registry,
            final(self).consensus == old(self).consensus,
    {
        let k = AccountSubnet { account: coldkey, subnet_id };
        let epoch = self.block / self.config.epoch_length;
        let cooldown = self.config.stake_cooldown_epochs;
        let ghost entries = old(self).staking.ledger_entries(coldkey, subnet_id);
        let ghost b0 = self.balances@;
        let ghost ed = self.balances.existential_deposit;
        let ledger = match self.staking.unbondings.get(&k) {
            Some(l) => l,
            None => {
                assert(matured_amounts(entries, epoch, cooldown) =~= Seq::<u128>::empty());
                return 0;
            },
        };
        proof {
            ledger.lemma_keys();
        }
        let ghost keys = ledger.key_seq();
        let mut kept: UnbondingLedger = Table::new();
        let mut count: u32 = 0;
        let mut i: usize = 0;
        let len = ledger.len();
        while i < len
            invariant
                ledger.wf(),
                len == ledger.entries().len(),
                entries == ledger.entries(),
                keys == ledger.key_seq(),
                keys.len() == len,
                forall|j: int| 0 <= j < len ==> #[trigger] keys[j] == entries[j].0,
                self.staking == old(self).staking,
                self.config == old(self).config,
                self.block == old(self).block,
                self.registry == old(self).registry,
                self.consensus == old(self).consensus,
                epoch == old(self).epoch(),
                cooldown == old(self).config.stake_cooldown_epochs,
                count == 0 ==> self.balances == old(self).balances,
                ledger@.dom().len() <= self.config.max_stake_unlockings,
                ledger@.dom().len() == len,
                forall|e: u64| #[trigger] ledger@.contains_key(e) ==> e <= epoch,
                epoch + cooldown <= u64::MAX,
                i <= len,
                kept.wf(),
                self.balances.wf(),
                self.balances.existential_deposit == ed,
                count as nat == matured_amounts(entries.take(i as int), epoch, cooldown).len(),
                count <= i,
                self.balances@ == deposit_all(b0, ed, coldkey, matured_amounts(entries.take(i as int), epoch, cooldown)),
                kept@ == Map::new(
                    |e: u64| ledger@.contains_key(e) && !matured(epoch, cooldown, e) && keys.take(i as int).contains(e),
                    |e: u64| ledger@[e],
                ),
            decreases len - i,
        {
            let e = ledger.key_at(i);
            let amount = *ledger.value_at(i);
            let ghost prev_kept = kept@;
            proof {
                assert(entries.take(i + 1).drop_last() =~= entries.take(i as int));
                assert(entries.take(i + 1).last() == entries[i as int]);
                assert(keys.take(i + 1) =~= keys.take(i as int).push(e));
            }
            let ghost m_prev = matured_amounts(entries.take(i as int), epoch, cooldown);
            if epoch <= e + cooldown {
                assert(matured_amounts(entries.take(i + 1), epoch, cooldown) == m_prev);
                kept.insert(e, amount);
                proof {
                    assert(kept@ =~= Map::new(
                        |e2: u64| ledger@.contains_key(e2) && !matured(epoch, cooldown, e2) && keys.take(i + 1).contains(e2),
                        |e2: u64| ledger@[e2],
                    )) by {
                        assert forall|e2: u64| #[trigger] keys.take(i + 1).contains(e2)
                            <==> (keys.take(i as int).contains(e2) || e2 == e) by {
                            let s0 = keys.take(i as int);
                            if e2 == e {
                                assert(s0.push(e)[i as int] == e);
                            }
                            if s0.contains(e2) {
                                let j = choose|j: int| 0 <= j < s0.len() && s0[j] == e2;
                                assert(s0.push(e)[j] == e2);
                            }
                        }
                    }
                }
            } else {
                assert(matured_amounts(entries.take(i + 1), epoch, cooldown) == m_prev.push(amount));
                assert(m_prev.push(amount).drop_last() =~= m_prev);
                self.balances.deposit_creating(coldkey, amount);
                count = count + 1;
                proof {
                    assert(kept@ =~= Map::new(
                        |e2: u64| ledger@.contains_key(e2) && !matured(epoch, cooldown, e2) && keys.take(i + 1).contains(e2),
                        |e2: u64| ledger@[e2],
                    )) by {
                        assert forall|e2: u64| #[trigger] keys.take(i + 1).contains(e2)
                            <==> (keys.take(i as int).contains(e2) || e2 == e) by {
                            let s0 = keys.take(i as int);
                            if e2 == e {
                                assert(s0.push(e)[i as int] == e);
                            }
                            if s0.contains(e2) {
                                let j = choose|j: int| 0 <= j < s0.len() && s0[j] == e2;
                                assert(s0.push(e)[j] == e2);
                            }
                        }
                    }
                }
            }
            i = i + 1;
        }
        proof {
            assert(entries.take(len as int) =~= entries);
            assert(kept@ =~= kept_ledger(ledger@, epoch, cooldown)) by {
                assert(keys.take(len as int) =~= keys);
                assert forall|e2: u64| ledger@.contains_key(e2) implies keys.contains(e2) by {
                    assert(ledger.key_seq().to_set().contains(e2));
                }
            }
        }
        if count > 0 {
            proof {
                vstd::set_lib::lemma_len_subset(kept@.dom(), ledger@.dom());
            }
            self.staking.unbondings.insert(k, kept);
            proof {
                assert(self.staking.unbondings@.remove(k) =~= old(self).staking.unbondings@.remove(k));
            }
        }
        count
    }
}

impl Network {
    /// The error adding an unbonding of `coldkey` on `subnet_id` answers with:
    /// one unbonding per epoch, and a full ledger must have something to claim.
    pub open spec fn unbonding_ledger_error(&self, coldkey: AccountId, subnet_id: u32) -> Option<Error> {
        let ledger = self.staking.ledger(coldkey, subnet_id);
        if ledger.contains_key(self.epoch()) {
            Some(Error::MaxUnlockingsPerEpochReached)
        } else if ledger.dom().len() >= self.config.max_stake_unlockings && self.claimable_count(
            coldkey,
            subnet_id,
        ) == 0 {
            Some(Error::MaxUnlockingsReached)
        } else {
            None
        }
    }

    /// The ledger of `coldkey` on `subnet_id` after `amount` is added to it in
    /// the current epoch, a full ledger being claimed first.
    pub open spec fn ledger_after_unbonding(&self, coldkey: AccountId, subnet_id: u32, amount: u128) -> Map<u64, u128> {
        let ledger = self.staking.ledger(coldkey, subnet_id);
        let base = if ledger.dom().len() == self.config.max_stake_unlockings {
            kept_ledger(ledger, self.epoch(), self.config.stake_cooldown_epochs)
        } else {
            ledger
        };
        base.insert(self.epoch(), amount)
    }

    /// Balances after `amount` is added to the ledger of `coldkey` on `subnet_id`.
    pub open spec fn balances_after_unbonding(&self, coldkey: AccountId, subnet_id: u32) -> Map<AccountId, u128> {
        if self.staking.ledger(coldkey, subnet_id).dom().len() == self.config.max_stake_unlockings {
            self.balances_after_claim(coldkey, subnet_id)
        } else {
            self.balances@
        }
    }

    /// Records `amount` as unbonding for `coldkey` on `subnet_id` from the
    /// current epoch.
    pub fn add_balance_to_stake_unbonding_ledger(&mut self, coldkey: AccountId, subnet_id: u32, amount: u128) -> (r: Result<(), Error>)
        requires
            old(self).wf(),
        ensures
            nodes_shrunk(*old(self), *final(self)),
            final(self).wf(),
            r == match old(self).unbonding_ledger_error(coldkey, subnet_id) {
                Some(e) => Err(e),
                None => Ok(()),
            },
            r is Err ==> *final(self) == *old(self),
            r is Ok ==> {
                &&& final(self).staking.ledger(coldkey, subnet_id) == old(self).ledger_after_unbonding(coldkey, subnet_id, amount)
                &&& final(self).staking.unbondings@.contains_key(AccountSubnet { account: coldkey, subnet_id })
                &&& final(self).staking.unbondings@.remove(AccountSubnet { account: coldkey, subnet_id })
                    == old(self).staking.unbondings@.remove(AccountSubnet { account: coldkey, subnet_id })
                &&& final(self).balances@ == old(self).balances_after_unbonding(coldkey, subnet_id)
                &&& final(self).balances.existential_deposit == old(self).balances.existential_deposit
                &&& final(self).staking.account_subnet_stake == old(self).staking.account_subnet_stake
                &&& final(self).staking.total_subnet_stake == old(self).staking.total_subnet_stake
                &&& final(self).staking.total_stake == old(self).staking.total_stake
                &&& final(self).staking.last_tx_block == old(self).staking.last_tx_block
                &&& final(self).staking.stake_vault_balance == old(self).staking.stake_vault_balance
                &&& final(self).config == old(self).config
                &&& final(self).block == old(self).block
                &&& final(self).registry == old(self).registry
                &&& final(self).consensus == old(self).consensus
            },
    {
        let k = AccountSubnet { account: coldkey, subnet_id };
        let epoch = self.block / self.config.epoch_length;
        let max = self.config.max_stake_unlockings;
        let (has_epoch, len) = match self.staking.unbondings.get(&k) {
            Some(l) => (l.contains_key(&epoch), l.len()),
            None => (false, 0),
        };
        if has_epoch {
            return Err(Error::MaxUnlockingsPerEpochReached);
        }
        if len == max as usize {
            let claimed = self.do_claim_stake_unbondings(coldkey, subnet_id);
            proof {
                if claimed > 0 {
                    let l = old(self).staking.unbondings@[k];
                    lemma_claim_shrinks(l, epoch, old(self).config.stake_cooldown_epochs);
                }
            }
        }
        let len_after = match self.staking.unbondings.get(&k) {
            Some(l) => l.len(),
            None => 0,
        };
        if len_after >= max as usize {
            return Err(Error::MaxUnlockingsReached);
        }
        let mut ledger = match self.staking.unbondings.remove(&k) {
            Some(l) => l,
            None => Table::new(),
        };
        proof {
            ledger.lemma_keys();
        }
        let ghost dom0 = ledger@.dom();
        ledger.insert(epoch, amount);
        proof {
            assert(!dom0.contains(epoch));
            assert(ledger@.dom() =~= dom0.insert(epoch));
            assert(ledger@.dom().len() == dom0.len() + 1);
        }
        self.staking.unbondings.insert(k, ledger);
        proof {
            assert(self.staking.unbondings@.remove(k) =~= old(self).staking.unbondings@.remove(k));
        }
        Ok(())
    }

    /// The error `do_remove_stake` answers with: the amount must be positive and
    /// staked, a node must keep the minimum stake, the coldkey must not be rate
    /// limited, and the unbonding must fit the ledger.
    pub open spec fn remove_stake_error(&self, coldkey: AccountId, subnet_id: u32, hotkey: AccountId, is_subnet_node: bool, amount: u128) -> Option<Error> {
        let stake = self.staking.stake(hotkey, subnet_id);
        if amount == 0 || stake < amount {
            Some(Error::NotEnoughStakeToWithdraw)
        } else if is_subnet_node && stake - amount < self.config.min_stake_balance {
            Some(Error::MinStakeNotReached)
        } else if spec_exceeds_tx_rate_limit(
            self.config.tx_rate_limit,
            u64_at(self.staking.last_tx_block@, coldkey),
            self.block,
        ) {
            Some(Error::TxRateLimitExceeded)
        } else {
            self.unbonding_ledger_error(coldkey, subnet_id)
        }
    }

    /// Removes `amount` of `hotkey`'s stake on `subnet_id` into the unbonding
    /// ledger of `coldkey`; a node keeps at least the minimum stake.
    pub fn do_remove_stake(&mut self, coldkey: AccountId, subnet_id: u32, hotkey: AccountId, is_subnet_node: bool, stake_to_be_removed: u128) -> (r: Result<(), Error>)
        requires
            old(self).wf(),
        ensures
            nodes_shrunk(*old(self), *final(self)),
            final(self).wf(),
            r == match old(self).remove_stake_error(coldkey, subnet_id, hotkey, is_subnet_node, stake_to_be_removed) {
                Some(e) => Err(e),
                None => Ok(()),
            },
            r is Err ==> *final(self) == *old(self),
            r is Ok ==> {
                &&& final(self).staking.account_subnet_stake@ == old(self).staking.account_subnet_stake@.insert(
                    AccountSubnet { account: hotkey, subnet_id },
                    (old(self).staking.stake(hotkey, subnet_id) - stake_to_be_removed) as u128,
                )
                &&& final(self).staking.total_subnet_stake@ == old(self).staking.total_subnet_stake@.insert(
                    subnet_id,
                    sat_sub(old(self).staking.subnet_stake(subnet_id), stake_to_be_removed),
                )
                &&& final(self).staking.total_stake == sat_sub(old(self).staking.total_stake, stake_to_be_removed)
                &&& final(self).staking.ledger(coldkey, subnet_id) == old(self).ledger_after_unbonding(coldkey, subnet_id, stake_to_be_removed)
                &&& final(self).staking.unbondings@.contains_key(AccountSubnet { account: coldkey, subnet_id })
                &&& final(self).staking.unbondings@.remove(AccountSubnet { account: coldkey, subnet_id })
                    == old(self).staking.unbondings@.remove(AccountSubnet { account: coldkey, subnet_id })
                &&& final(self).balances@ == old(self).balances_after_unbonding(coldkey, subnet_id)
                &&& final(self).balances.existential_deposit == old(self).balances.existential_deposit
                &&& final(self).staking.last_tx_block@ == old(self).staking.last_tx_block@.insert(coldkey, old(self).block)
                &&& final(self).staking.stake_vault_balance == old(self).staking.stake_vault_balance
                &&& final(self).config == old(self).config
                &&& final(self).block == old(self).block
                &&& final(self).registry == old(self).registry
                &&& final(self).consensus == old(self).consensus
            },
    {
        if stake_to_be_removed == 0 {
            return Err(Error::NotEnoughStakeToWithdraw);
        }
        let account_stake_balance = self.staking.get_stake(hotkey, subnet_id);
        if account_stake_balance < stake_to_be_removed {
            return Err(Error::NotEnoughStakeToWithdraw);
        }
        if is_subnet_node && account_stake_balance - stake_to_be_removed < self.config.min_stake_balance {
            return Err(Error::MinStakeNotReached);
        }
        let block = self.block;
        let last = read_u64(&self.staking.last_tx_block, &coldkey);
        if exceeds_tx_rate_limit(self.config.tx_rate_limit, last, block) {
            return Err(Error::TxRateLimitExceeded);
        }
        let ghost mid = *self;
        match self.add_balance_to_stake_unbonding_ledger(coldkey, subnet_id, stake_to_be_removed) {
            Ok(()) => {},
            Err(e) => {
                return Err(e);
            },
        }
        self.staking.decrease_account_stake(hotkey, subnet_id, stake_to_be_removed);
        self.staking.last_tx_block.insert(coldkey, block);
        Ok(())
    }

    /// Claims the matured unbondings of `coldkey` on `subnet_id`; fails when
    /// there were none.
    pub fn claim_stake_unbondings(&mut self, coldkey: AccountId, subnet_id: u32) -> (r: Result<(), Error>)
        requires
            old(self).wf(),
        ensures
            nodes_shrunk(*old(self), *final(self)),
            final(self).wf(),
            r is Err <==> old(self).claimable_count(coldkey, subnet_id) == 0,
            r is Err ==> r == Err::<(), Error>(Error::NoStakeUnbondingsOrCooldownNotMet) && *final(self) == *old(self),
            final(self).balances@ == old(self).balances_after_claim(coldkey, subnet_id),
            r is Ok ==> final(self).staking.ledger(coldkey, subnet_id) == kept_ledger(
                old(self).staking.ledger(coldkey, subnet_id),
                old(self).epoch(),
                old(self).config.stake_cooldown_epochs,
            ),
    {
        let successful_unbondings = self.do_claim_stake_unbondings(coldkey, subnet_id);
        if successful_unbondings == 0 {
            return Err(Error::NoStakeUnbondingsOrCooldownNotMet);
        }
        Ok(())
    }
}

} // verus!
