//! What the core takes from its host environment: entropy for the nonce
//! search and a wall clock for timestamps. Nothing deterministic can be
//! promised of either, so the contracts state only ranges.

use rand::Rng;
use vstd::prelude::*;

verus! {

/// Relies on rand::Rng::gen::<u128> via rand::thread_rng: a fresh random
/// value; nothing is promised of it.
#[verifier::external_body]
pub(crate) fn random_u128() -> u128 {
    rand::thread_rng().gen::<u128>()
}

/// Relies on rand::Rng::gen_range(0..bound) via rand::thread_rng: a value
/// within the half-open range. It panics only on an empty range, which the
/// precondition rules out.
#[verifier::external_body]
pub(crate) fn random_below(bound: u64) -> (r: u64)
    requires
        bound > 0,
    ensures
        r < bound,
{
    rand::thread_rng().gen_range(0..bound)
}

/// Picks a random index below `len`.
pub(crate) fn random_index(len: usize) -> (r: usize)
    requires
        len > 0,
    ensures
        r < len,
{
    let r = random_below(len as u64);
    r as usize
}

/// Relies on chrono::Utc::now and DateTime::timestamp: the wall clock as
/// whole seconds since the Unix epoch; nothing further is promised.
#[verifier::external_body]
pub(crate) fn now_unix_seconds() -> i64 {
    chrono::Utc::now().timestamp()
}

} // verus!
