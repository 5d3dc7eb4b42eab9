//! The chain itself: an append-only sequence of blocks rooted at a fixed
//! genesis block, together with the mempool of pending transactions.
//!
//! Chain linkage is the central invariant: every block's `prev_hash` equals
//! the hash of the block before it. Genesis carries `prev_hash == "0"`, a
//! fixed synthetic transaction, and — deliberately, as the one undocumented
//! quirk of the format — a hash that is the chain-creation timestamp rather
//! than a SHA-256 digest.

use std::collections::VecDeque;
use vstd::prelude::*;
use vstd::string::StringExecFns;

use crate::block::{Block, BlockView, Header};
use crate::errors::ChainError;
use crate::host::now_unix_seconds;
use crate::digits::i64_to_string;
use crate::miner::{mine, MINE_ATTEMPT_LIMIT};
use crate::transaction::{Transaction, TransactionView};

verus! {

#[derive(Debug)]
pub struct Blockchain {
    pub chain: Vec<Block>,
    pub tr_queue: VecDeque<Transaction>,
}

/// The mathematical value of a blockchain: the block sequence and the
/// pending-transaction queue.
#[verifier::ext_equal]
pub struct BlockchainView {
    pub chain: Seq<BlockView>,
    pub mempool: Seq<TransactionView>,
}

impl View for Blockchain {
    type V = BlockchainView;

    open spec fn view(&self) -> BlockchainView {
        BlockchainView {
            chain: self.chain@.map_values(|b: Block| b@),
            mempool: self.tr_queue@.map_values(|t: Transaction| t@),
        }
    }
}

/// Chain linkage over a block sequence: every block's `prev_hash` equals the
/// hash of the block before it.
pub open spec fn chain_linked(s: Seq<Block>) -> bool {
    forall|i: int| 1 <= i < s.len() ==> #[trigger] s[i].prev_hash@ == s[i - 1].hash@
}

impl Blockchain {
    /// Chain linkage: nonempty, and every block's `prev_hash` equals the hash
    /// of the block before it.
    pub open spec fn wf(self) -> bool {
        &&& self.chain@.len() >= 1
        &&& chain_linked(self.chain@)
    }

    /// The current tip of the chain.
    pub open spec fn spec_tip(self) -> Block {
        self.chain@.last()
    }

    /// Creates a chain holding only the genesis block and an empty mempool.
    /// The genesis hash is the creation timestamp, not a digest.
    pub fn new() -> (r: Blockchain)
        ensures
            r.wf(),
            r.chain@.len() == 1,
            r.tr_queue@.len() == 0,
            r.chain@[0].header.timestamp@ == "0"@,
            r.chain@[0].header.nonce == 0,
            r.chain@[0].tr_data.from@ == "Satoshi"@,
            r.chain@[0].tr_data.to@ == "GENESIS"@,
            r.chain@[0].tr_data.amount == 100_000_000,
            r.chain@[0].prev_hash@ == "0"@,
            exists|t: i64| r.chain@[0].hash@ == crate::digits::int_dec_str(t as int),
    {
        let ts = now_unix_seconds();
        let genesis = Block {
            header: Header { timestamp: "0".to_owned(), nonce: 0 },
            tr_data: Transaction {
                from: "Satoshi".to_owned(),
                to: "GENESIS".to_owned(),
                amount: 100_000_000,
            },
            hash: i64_to_string(ts),
            prev_hash: "0".to_owned(),
        };
        let mut chain: Vec<Block> = Vec::new();
        chain.push(genesis);
        let r = Blockchain { chain, tr_queue: VecDeque::new() };
        proof {
            assert(r.chain@[0].hash@ == crate::digits::int_dec_str(ts as int));
        }
        r
    }

    /// Enqueues a transfer into the mempool. Nothing is validated; any
    /// sender, recipient and amount are accepted.
    pub fn new_transaction(&mut self, from: String, to: String, amount: u64)
        ensures
            final(self).chain == old(self).chain,
            final(self).tr_queue@ == old(self).tr_queue@.push(
                (Transaction { from: from, to: to, amount: amount }),
            ),
            old(self).wf() ==> final(self).wf(),
    {
        self.tr_queue.push_back(Transaction { from, to, amount });
    }

    /// Pops the mempool head, runs the bounded nonce search on top of the
    /// current tip, and appends the sealed block. With an empty mempool it
    /// fails with `EmptyMempool` and mutates nothing; if the nonce search
    /// gives up it fails with `MiningCancelled` and mutates nothing.
    pub fn mint(&mut self) -> (r: Result<Block, ChainError>)
        requires
            old(self).wf(),
        ensures
            final(self).wf(),
            r matches Ok(b) ==> {
                &&& old(self).tr_queue@.len() > 0
                &&& b.sealed()
                &&& crate::hashing::difficulty_ok(b.hash@)
                &&& crate::hashing::is_hex_digest(b.hash@)
                &&& b.prev_hash@ == old(self).spec_tip().hash@
                &&& b.tr_data == old(self).tr_queue@[0]
                &&& final(self).chain@ == old(self).chain@.push(b)
                &&& final(self).tr_queue@ == old(self).tr_queue@.subrange(
                    1,
                    old(self).tr_queue@.len() as int,
                )
            },
            r matches Err(e) ==> {
                &&& *final(self) == *old(self)
                &&& (e == ChainError::EmptyMempool <==> old(self).tr_queue@.len() == 0)
                &&& (e == ChainError::EmptyMempool || e == ChainError::MiningCancelled)
            },
    {
        if self.tr_queue.len() == 0 {
            return Err(ChainError::EmptyMempool);
        }
        let tx = self.tr_queue[0].clone();
        let tip_index = self.chain.len() - 1;
        match mine(self.chain[tip_index].hash.as_str(), tx, MINE_ATTEMPT_LIMIT) {
            Ok(b) => {
                let ret = b.clone();
                self.chain.push(b);
                self.tr_queue.pop_front();
                proof {
                    assert forall|i: int| 1 <= i < self.chain@.len() implies #[trigger] self
                        .chain@[i].prev_hash@ == self.chain@[i - 1].hash@ by {
                        if i < self.chain@.len() - 1 {
                            assert(old(self).chain@[i].prev_hash@ == old(self).chain@[i - 1].hash@);
                        }
                    }
                }
                Ok(ret)
            },
            Err(e) => Err(e),
        }
    }

    /// Validates that an externally received block chains onto the current
    /// tip, and appends it; fails with `HashMismatch` (mutating nothing)
    /// otherwise.
    pub fn append_external(&mut self, block: Block) -> (r: Result<(), ChainError>)
        requires
            old(self).wf(),
        ensures
            final(self).wf(),
            block.prev_hash@ == old(self).spec_tip().hash@ ==> r == Ok::<(), ChainError>(())
                && final(self).chain@ == old(self).chain@.push(block) && final(self).tr_queue
                == old(self).tr_queue,
            block.prev_hash@ != old(self).spec_tip().hash@ ==> r == Err::<(), ChainError>(
                ChainError::HashMismatch,
            ) && *final(self) == *old(self),
    {
        let tip_index = self.chain.len() - 1;
        if block.prev_hash == self.chain[tip_index].hash {
            self.chain.push(block);
            proof {
                assert forall|i: int| 1 <= i < self.chain@.len() implies #[trigger] self
                    .chain@[i].prev_hash@ == self.chain@[i - 1].hash@ by {
                    if i < self.chain@.len() - 1 {
                        assert(old(self).chain@[i].prev_hash@ == old(self).chain@[i - 1].hash@);
                    }
                }
            }
            Ok(())
        } else {
            Err(ChainError::HashMismatch)
        }
    }

    /// The pending transaction at `index`, if there is one.
    pub fn get_transaction_by_index(&self, index: usize) -> (r: Option<&Transaction>)
        ensures
            match r {
                Some(t) => index < self.tr_queue@.len() && *t == self.tr_queue@[index as int],
                None => index >= self.tr_queue@.len(),
            },
    {
        if index < self.tr_queue.len() {
            Some(&self.tr_queue[index])
        } else {
            None
        }
    }

    /// The block at `index`, if there is one.
    pub fn get_block_by_index(&self, index: usize) -> (r: Option<&Block>)
        ensures
            match r {
                Some(b) => index < self.chain@.len() && *b == self.chain@[index as int],
                None => index >= self.chain@.len(),
            },
    {
        if index < self.chain.len() {
            Some(&self.chain[index])
        } else {
            None
        }
    }

    /// The block at the head of the chain, if the chain is nonempty.
    pub fn get_head_block(&self) -> (r: Option<&Block>)
        ensures
            match r {
                Some(b) => self.chain@.len() > 0 && *b == self.chain@.last(),
                None => self.chain@.len() == 0,
            },
    {
        if self.chain.len() > 0 {
            Some(&self.chain[self.chain.len() - 1])
        } else {
            None
        }
    }
}

/// Chain linkage, stated pointwise: in any well-formed chain, each block's
/// `prev_hash` is the hash of the block before it.
pub proof fn lemma_chain_linkage(c: Blockchain, i: int)
    requires
        c.wf(),
        1 <= i < c.chain@.len(),
    ensures
        c.chain@[i].prev_hash@ == c.chain@[i - 1].hash@,
{
}

/// A block whose `prev_hash` differs from the tip's hash cannot extend a
/// well-formed chain: appending it would break the linkage invariant. This
/// is why `append_external` owes `HashMismatch`, and an unchanged chain, on
/// exactly those blocks (see its `ensures`).
pub proof fn lemma_mismatched_block_breaks_linkage(c: Blockchain, block: Block)
    requires
        c.wf(),
        block.prev_hash@ != c.spec_tip().hash@,
    ensures
        !chain_linked(c.chain@.push(block)),
{
    let s = c.chain@.push(block);
    assert(s[s.len() - 1].prev_hash@ != s[s.len() - 2].hash@);
}

impl Clone for Blockchain {
    fn clone(&self) -> (r: Self)
        ensures
            r.chain@ == self.chain@,
            r.tr_queue@ == self.tr_queue@,
    {
        let r = Blockchain { chain: self.chain.clone(), tr_queue: self.tr_queue.clone() };
        proof {
            assert(r.chain@ =~= self.chain@);
            assert(r.tr_queue@ =~= self.tr_queue@);
        }
        r
    }
}

impl PartialEq for Blockchain {
    fn eq(&self, other: &Self) -> (r: bool) {
        if self.chain.len() != other.chain.len() {
            proof {
                assert(self@.chain.len() != other@.chain.len());
            }
            return false;
        }
        if self.tr_queue.len() != other.tr_queue.len() {
            proof {
                assert(self@.mempool.len() != other@.mempool.len());
            }
            return false;
        }
        let n = self.chain.len();
        let mut i: usize = 0;
        while i < n
            invariant
                i <= n,
                n == self.chain@.len(),
                n == other.chain@.len(),
                forall|j: int| 0 <= j < i ==> #[trigger] self.chain@[j]@ == other.chain@[j]@,
            decreases n - i,
        {
            if !(self.chain[i] == other.chain[i]) {
                proof {
                    assert(self@.chain[i as int] != other@.chain[i as int]);
                }
                return false;
            }
            i = i + 1;
        }
        let m = self.tr_queue.len();
        let mut k: usize = 0;
        while k < m
            invariant
                k <= m,
                m == self.tr_queue@.len(),
                m == other.tr_queue@.len(),
                forall|j: int| 0 <= j < k ==> #[trigger] self.tr_queue@[j]@ == other.tr_queue@[j]@,
            decreases m - k,
        {
            if !(self.tr_queue[k] == other.tr_queue[k]) {
                proof {
                    assert(self@.mempool[k as int] != other@.mempool[k as int]);
                }
                return false;
            }
            k = k + 1;
        }
        proof {
            assert(self@.chain =~= other@.chain);
            assert(self@.mempool =~= other@.mempool);
            assert(self@ =~= other@);
        }
        true
    }
}

impl vstd::std_specs::cmp::PartialEqSpecImpl for Blockchain {
    open spec fn obeys_eq_spec() -> bool {
        true
    }

    open spec fn eq_spec(&self, other: &Self) -> bool {
        self@ == other@
    }
}

} // verus!
