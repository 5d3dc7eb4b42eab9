//! The proof-of-work search: draw random nonces until the derived digest
//! satisfies the difficulty predicate. The search is bounded so a host can
//! enforce timeouts; running out of attempts is reported as
//! `MiningCancelled`, never by blocking forever.

use vstd::prelude::*;
use vstd::string::StringExecFns;

use crate::block::{derive_hash, Block, Header};
use crate::digits::i64_to_string;
use crate::errors::ChainError;
use crate::hashing::{difficulty_ok, is_hex_digest, meets_difficulty};
use crate::host::{now_unix_seconds, random_u128};
use crate::transaction::Transaction;

verus! {

/// How many nonces a default mint draws before giving up. The acceptance
/// probability per draw is large (about one digest in five has six `'1'`
/// characters), so this bound is hit only with negligible probability.
pub const MINE_ATTEMPT_LIMIT: u64 = 100000;

/// Seals `tx` into a block on top of `prev_hash`: draws up to `max_attempts`
/// random nonces, derives each candidate digest, and accepts the first digest
/// that satisfies the difficulty predicate. The timestamp is stamped only on
/// acceptance.
pub fn mine(prev_hash: &str, tx: Transaction, max_attempts: u64) -> (r: Result<
    Block,
    ChainError,
>)
    ensures
        r matches Ok(b) ==> b.sealed() && difficulty_ok(b.hash@) && is_hex_digest(b.hash@)
            && b.prev_hash@ == prev_hash@ && b.tr_data == tx,
        r matches Err(e) ==> e == ChainError::MiningCancelled,
{
    let mut i: u64 = 0;
    while i < max_attempts
        decreases max_attempts - i,
    {
        let nonce = random_u128();
        let h = derive_hash(prev_hash, &tx, nonce);
        if meets_difficulty(h.as_str()) {
            let ts = i64_to_string(now_unix_seconds());
            let b = Block {
                header: Header { timestamp: ts, nonce },
                tr_data: tx,
                hash: h,
                prev_hash: prev_hash.to_owned(),
            };
            return Ok(b);
        }
        i = i + 1;
    }
    Err(ChainError::MiningCancelled)
}

} // verus!
