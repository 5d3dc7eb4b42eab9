//! Typed failures. Every failure is a value the host can inspect; no error
//! may spin, panic or poison other state.

use vstd::prelude::*;

verus! {

#[derive(Clone, Copy, Debug, PartialEq, Eq, Structural)]
pub enum ChainError {
    /// A mint was attempted with no pending transaction.
    EmptyMempool,
    /// An external block does not chain onto the expected tip.
    HashMismatch,
    /// An external block's parent matches no known branch history.
    OrphanBlock,
    /// The bounded nonce search gave up before finding an acceptable digest.
    MiningCancelled,
}

/// Corrupt persisted state: truncated or otherwise malformed input.
#[derive(Clone, Copy, Debug, PartialEq, Eq, Structural)]
pub struct DecodeError;

impl ChainError {
    /// A short description of the error.
    pub fn describe(&self) -> (r: &'static str)
        ensures
            r@ == match *self {
                ChainError::EmptyMempool => "no transactions queued"@,
                ChainError::HashMismatch => "block does not extend the tip"@,
                ChainError::OrphanBlock => "block parent not found"@,
                ChainError::MiningCancelled => "nonce search gave up"@,
            },
    {
        match self {
            ChainError::EmptyMempool => "no transactions queued",
            ChainError::HashMismatch => "block does not extend the tip",
            ChainError::OrphanBlock => "block parent not found",
            ChainError::MiningCancelled => "nonce search gave up",
        }
    }
}

} // verus!
