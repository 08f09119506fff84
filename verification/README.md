# pallet_network

A verified model of the Hypertensor network pallet: subnets, their nodes and
stake, the validator's score submission and its attestation, the per-epoch
rewards and penalties, delegate stake, encrypted tasks and the overwatch
commit-and-reveal of subnet weights.

The library in `src/` is written in Verus. Storage maps are `Table`s (entries
in insertion order, unique keys, viewed as a `Map`); the pallet's state is a
`Network`. Every operation states in its `ensures` the error it answers with,
if any, and the whole new state on success. Laws that relate operations stand
in `src/laws.rs`.

Layout:

- `src/math.rs`, `src/subnet_params.rs`: fixed-point percentages, minimum and
  target node counts, registration cost.
- `src/table.rs`, `src/network.rs`, `src/types.rs`: storage tables, balances,
  configuration and the network state.
- `src/registry.rs`, `src/staking.rs`: subnets, nodes and stake.
- `src/validation.rs`, `src/rewards.rs`, `src/epoch.rs`: consensus submission,
  rewards and the work at the start of an epoch.
- `src/tasks.rs`, `src/overwatch.rs`: x25519 task decryption and blake2
  commitments (the only calls into outside crates).
- `src/benchmark.rs`: each subnet's share of the revealed benchmark weight.
- `src/interface.rs`, `src/info.rs`, `src/runtime.rs`: calls of other pallets,
  getters and runtime pieces.
- `app/`: the parts that compute in floating point (the square root of the
  benchmark shares, the inflation curve).
- `tests/`: tests on concrete values.

## What the library leaves out

Some operations of the pallet have no counterpart here:

- Operations resting on code the pallet names but does not define: the
  fixed-point helpers `percent_mul` and `percent_div` (defined here by their
  use), the random number source (the operations that need one take it as an
  argument), the account eligibility
  check (taken as an argument), the delegate-stake operations behind
  `add_to_delegate_stake`, `transfer_delegate_stake`, `remove_delegate_stake`
  and `claim_delegate_stake_unbondings`, the proposal module behind `propose`,
  `cancel_proposal`, `challenge_proposal`, `vote` and `finalize_proposal`, the
  admin setters, the per-subnet reward behind `reward_subnet`, and the code
  that moves nodes between classes.
- Operations written against a different node record (node ids, hotkeys and
  unique parameters): the stake transfers between a node and a subnet, the owner
  calls `do_owner_remove_subnet_node` and `do_update_entry_interval`, and the
  getters `get_subnet_node_info`, `get_subnet_node_by_params`,
  `is_subnet_node_by_a`, `get_classified_subnet_node_info`,
  `get_classified_hotkeys`, `is_subnet_node_owner`, `get_hotkey_coldkey`,
  `is_keys_owner` and `is_subnet_node_coldkey`. The library keeps the node
  record of the pallet's main module.
- Operations that change nothing: `update_subnet_node`,
  `vote_add_subnet_node`, `get_subnet_rewards_v2`,
  `get_rewards_pool_inflation` and `get_overall_subnet_reward`; and
  `remove_account_subnet_nodes`, whose removal code the pallet does not define.
