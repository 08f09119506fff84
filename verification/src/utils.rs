//! Stateless rules: peer id shape, rate limiting, epoch arithmetic.

use vstd::prelude::*;

verus! {

/// A peer id is 32 to 128 bytes long and starts like a base58 multihash
/// (`1...`, `Qm...`) or a CID (`f`, `b`, `z`, `m`).
pub open spec fn spec_valid_peer_id(p: Seq<u8>) -> bool {
    &&& 32 <= p.len() <= 128
    &&& {
        ||| p[0] == 49
        ||| (p[0] == 81 && p[1] == 109)
        ||| p[0] == 102
        ||| p[0] == 98
        ||| p[0] == 122
        ||| p[0] == 109
    }
}

/// Loosely validates a peer id.
pub fn validate_peer_id(peer_id: &Vec<u8>) -> (valid: bool)
    ensures
        valid == spec_valid_peer_id(peer_id@),
{
    let len = peer_id.len();
    if len < 32 || len > 128 {
        return false;
    }
    let first_char = peer_id[0];
    let second_char = peer_id[1];
    if first_char == 49 {
        return len <= 128;
    } else if first_char == 81 && second_char == 109 {
        return len <= 128;
    } else if first_char == 102 || first_char == 98 || first_char == 122 || first_char == 109 {
        return len <= 128;
    }
    false
}

/// A rate-limited call is refused when the previous one is at most `rate_limit`
/// blocks old; a zero limit or no previous call never limits.
pub open spec fn spec_exceeds_tx_rate_limit(rate_limit: u64, prev_tx_block: u64, current_block: u64) -> bool {
    rate_limit != 0 && prev_tx_block != 0 && current_block - prev_tx_block <= rate_limit
}

pub fn exceeds_tx_rate_limit(rate_limit: u64, prev_tx_block: u64, current_block: u64) -> (r: bool)
    requires
        rate_limit == 0 || prev_tx_block == 0 || prev_tx_block <= current_block,
    ensures
        r == spec_exceeds_tx_rate_limit(rate_limit, prev_tx_block, current_block),
{
    if rate_limit == 0 || prev_tx_block == 0 {
        return false;
    }
    current_block - prev_tx_block <= rate_limit
}

/// First block of the epoch that lies `epochs` epochs after the epoch of `initialized`.
pub open spec fn spec_eligible_epoch_block(epoch_length: u64, initialized: u64, epochs: u64) -> int {
    initialized - initialized % epoch_length + epoch_length * epochs
}

pub fn get_eligible_epoch_block(epoch_length: u64, initialized: u64, epochs: u64) -> (b: u64)
    requires
        epoch_length > 0,
        spec_eligible_epoch_block(epoch_length, initialized, epochs) <= u64::MAX,
    ensures
        b == spec_eligible_epoch_block(epoch_length, initialized, epochs),
{
    assert(initialized % epoch_length <= initialized) by (nonlinear_arith)
        requires
            epoch_length > 0,
    ;
    let start = initialized - initialized % epoch_length;
    assert(epoch_length * epochs <= u64::MAX) by (nonlinear_arith)
        requires
            initialized - initialized % epoch_length + epoch_length * epochs <= u64::MAX,
            initialized % epoch_length <= initialized,
    ;
    start + epoch_length * epochs
}

/// Byte-wise equality.
pub fn bytes_eq(a: &Vec<u8>, b: &Vec<u8>) -> (r: bool)
    ensures
        r == (a@ == b@),
{
    if a.len() != b.len() {
        return false;
    }
    let mut i: usize = 0;
    while i < a.len()
        invariant
            a@.len() == b@.len(),
            i <= a@.len(),
            forall|j: int| 0 <= j < i ==> a@[j] == b@[j],
        decreases a@.len() - i,
    {
        if a[i] != b[i] {
            return false;
        }
        i = i + 1;
    }
    assert(a@ =~= b@);
    true
}

/// The epoch that `block` falls in.
pub fn epoch_of(block: u64, epoch_length: u64) -> (e: u64)
    requires
        epoch_length > 0,
    ensures
        e == block / epoch_length,
{
    block / epoch_length
}

} // verus!
