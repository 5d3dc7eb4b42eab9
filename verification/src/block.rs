//! A block: a header (timestamp and nonce), one transaction, the content
//! hash and the parent hash. A sealed block's hash is the hex SHA-256 digest
//! of the concatenation of parent hash, sender, recipient, decimal amount and
//! decimal nonce, in that order.

use vstd::prelude::*;
use vstd::string::StringExecFns;

use crate::digits::{dec_str, push_dec};
use crate::hashing::{is_hex_digest, meets_difficulty, sha256_hex, sha256_hex_digest};
use crate::transaction::{Transaction, TransactionView};

verus! {

#[derive(Debug)]
pub struct Header {
    pub timestamp: String,
    pub nonce: u128,
}

/// The mathematical value of a header.
#[verifier::ext_equal]
pub struct HeaderView {
    pub timestamp: Seq<char>,
    pub nonce: u128,
}

impl View for Header {
    type V = HeaderView;

    open spec fn view(&self) -> HeaderView {
        HeaderView { timestamp: self.timestamp@, nonce: self.nonce }
    }
}

impl Clone for Header {
    fn clone(&self) -> (r: Self)
        ensures
            r == *self,
    {
        Header { timestamp: self.timestamp.clone(), nonce: self.nonce }
    }
}

impl PartialEq for Header {
    fn eq(&self, other: &Self) -> (r: bool) {
        self.timestamp == other.timestamp && self.nonce == other.nonce
    }
}

impl vstd::std_specs::cmp::PartialEqSpecImpl for Header {
    open spec fn obeys_eq_spec() -> bool {
        true
    }

    open spec fn eq_spec(&self, other: &Self) -> bool {
        self@ == other@
    }
}

#[derive(Debug)]
pub struct Block {
    pub header: Header,
    pub tr_data: Transaction,
    pub hash: String,
    pub prev_hash: String,
}

/// The mathematical value of a block.
#[verifier::ext_equal]
pub struct BlockView {
    pub header: HeaderView,
    pub tr_data: TransactionView,
    pub hash: Seq<char>,
    pub prev_hash: Seq<char>,
}

impl View for Block {
    type V = BlockView;

    open spec fn view(&self) -> BlockView {
        BlockView { header: self.header@, tr_data: self.tr_data@, hash: self.hash@, prev_hash: self.prev_hash@ }
    }
}

/// The characters whose digest seals a block: parent hash, sender, recipient,
/// decimal amount and decimal nonce, concatenated without separators.
pub open spec fn hash_input(prev_hash: Seq<char>, tx: TransactionView, nonce: u128) -> Seq<char> {
    prev_hash + tx.from + tx.to + dec_str(tx.amount as nat) + dec_str(nonce as nat)
}

impl Block {
    /// A sealed block: the stored hash is the digest re-derived from the
    /// block's own fields.
    pub open spec fn sealed(self) -> bool {
        self.hash@ == sha256_hex(hash_input(self.prev_hash@, self.tr_data@, self.header.nonce))
    }

    /// Recomputes the content hash from the block's fields and stores it.
    pub fn generate_hash(&mut self)
        ensures
            final(self).hash@ == sha256_hex(
                hash_input(old(self).prev_hash@, old(self).tr_data@, old(self).header.nonce),
            ),
            final(self).sealed(),
            is_hex_digest(final(self).hash@),
            final(self).header == old(self).header,
            final(self).tr_data == old(self).tr_data,
            final(self).prev_hash == old(self).prev_hash,
    {
        let h = derive_hash(self.prev_hash.as_str(), &self.tr_data, self.header.nonce);
        self.hash = h;
    }

    /// Re-derives the digest from the block's fields and compares it with the
    /// stored hash.
    pub fn verify_hash(&self) -> (r: bool)
        ensures
            r == self.sealed(),
    {
        let h = derive_hash(self.prev_hash.as_str(), &self.tr_data, self.header.nonce);
        h == self.hash
    }

    /// Whether the stored hash satisfies the difficulty predicate.
    pub fn meets_difficulty(&self) -> (r: bool)
        ensures
            r == crate::hashing::difficulty_ok(self.hash@),
    {
        meets_difficulty(self.hash.as_str())
    }
}

/// Computes the hex SHA-256 digest of the hash input built from the given
/// parent hash, transaction and nonce.
pub fn derive_hash(prev_hash: &str, tx: &Transaction, nonce: u128) -> (r: String)
    ensures
        r@ == sha256_hex(hash_input(prev_hash@, tx@, nonce)),
        is_hex_digest(r@),
{
    let mut s = prev_hash.to_owned();
    s.append(tx.from.as_str());
    s.append(tx.to.as_str());
    push_dec(&mut s, tx.amount as u128);
    push_dec(&mut s, nonce);
    proof {
        assert(s@ =~= hash_input(prev_hash@, tx@, nonce));
    }
    sha256_hex_digest(s.as_str())
}

impl Clone for Block {
    fn clone(&self) -> (r: Self)
        ensures
            r == *self,
    {
        Block {
            header: self.header.clone(),
            tr_data: self.tr_data.clone(),
            hash: self.hash.clone(),
            prev_hash: self.prev_hash.clone(),
        }
    }
}

impl PartialEq for Block {
    fn eq(&self, other: &Self) -> (r: bool) {
        self.header == other.header && self.tr_data == other.tr_data && self.hash == other.hash
            && self.prev_hash == other.prev_hash
    }
}

impl vstd::std_specs::cmp::PartialEqSpecImpl for Block {
    open spec fn obeys_eq_spec() -> bool {
        true
    }

    open spec fn eq_spec(&self, other: &Self) -> bool {
        self@ == other@
    }
}

} // verus!
