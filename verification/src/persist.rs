//! Executable persistence: `save` renders a chain as the byte format of
//! `codec`, `load` is its exact inverse and never panics on malformed input.

use std::collections::VecDeque;
use vstd::prelude::*;
use vstd::slice::slice_subrange;
use vstd::string::{StrSliceExecFns, StringExecFns};
use vstd::utf8::{decode_utf8, valid_utf8};

use crate::block::{Block, BlockView, Header};
use crate::blockchain::{Blockchain, BlockchainView};
use crate::codec::{
    block_encodable, chain_encodable, enc_block, enc_block_seq, enc_chain, enc_str, enc_tx,
    enc_tx_seq, le_bytes, le_val, lemma_pow256_u64, parse_block,
    parse_block_seq, parse_chain, parse_str, parse_tx, parse_tx_seq, parse_uint, pow256,
    str_encodable, tx_encodable, view_wf,
};
use crate::errors::DecodeError;
use crate::transaction::{Transaction, TransactionView};

verus! {

// ---------------------------------------------------------------------------
// Encoding
// ---------------------------------------------------------------------------

/// Appends the `k` little-endian bytes of `n`.
fn push_le_bytes(out: &mut Vec<u8>, n: u128, k: usize)
    ensures
        final(out)@ == old(out)@ + le_bytes(n as nat, k as nat),
    decreases k,
{
    if k == 0 {
        proof {
            assert(final(out)@ =~= old(out)@ + le_bytes(n as nat, 0));
        }
    } else {
        out.push((n % 256) as u8);
        push_le_bytes(out, n / 256, k - 1);
        proof {
            assert(final(out)@ =~= old(out)@ + le_bytes(n as nat, k as nat));
        }
    }
}

/// Appends the encoding of a string: 8-byte length, then UTF-8 bytes.
fn push_str_enc(out: &mut Vec<u8>, s: &str)
    ensures
        final(out)@ == old(out)@ + enc_str(s@),
        str_encodable(s@),
{
    let mut bytes = s.as_bytes_vec();
    proof {
        lemma_pow256_u64();
    }
    push_le_bytes(out, bytes.len() as u128, 8);
    out.append(&mut bytes);
    proof {
        assert(final(out)@ =~= old(out)@ + enc_str(s@));
    }
}

/// Appends the encoding of a transaction.
fn push_tx_enc(out: &mut Vec<u8>, t: &Transaction)
    ensures
        final(out)@ == old(out)@ + enc_tx(t@),
        tx_encodable(t@),
{
    push_str_enc(out, t.from.as_str());
    push_str_enc(out, t.to.as_str());
    push_le_bytes(out, t.amount as u128, 8);
    proof {
        assert(final(out)@ =~= old(out)@ + enc_tx(t@));
    }
}

/// Appends the encoding of a block.
fn push_block_enc(out: &mut Vec<u8>, b: &Block)
    ensures
        final(out)@ == old(out)@ + enc_block(b@),
        block_encodable(b@),
{
    push_str_enc(out, b.header.timestamp.as_str());
    push_le_bytes(out, b.header.nonce, 16);
    push_tx_enc(out, &b.tr_data);
    push_str_enc(out, b.hash.as_str());
    push_str_enc(out, b.prev_hash.as_str());
    proof {
        assert(final(out)@ =~= old(out)@ + enc_block(b@));
    }
}

proof fn lemma_enc_block_seq_snoc(s: Seq<BlockView>, b: BlockView)
    ensures
        enc_block_seq(s.push(b)) == enc_block_seq(s) + enc_block(b),
    decreases s.len(),
{
    if s.len() == 0 {
        assert(s.push(b)[0] == b);
        assert(s.push(b).drop_first() =~= Seq::<BlockView>::empty());
        assert(enc_block_seq(s.push(b)) == enc_block(b) + enc_block_seq(Seq::<BlockView>::empty()));
        assert(enc_block(b) + Seq::<u8>::empty() =~= Seq::<u8>::empty() + enc_block(b));
    } else {
        let tail = s.drop_first();
        assert(s.push(b)[0] == s[0]);
        assert(s.push(b).drop_first() =~= tail.push(b));
        lemma_enc_block_seq_snoc(tail, b);
        assert(enc_block_seq(s.push(b)) == enc_block(s[0]) + enc_block_seq(tail.push(b)));
        assert(enc_block(s[0]) + (enc_block_seq(tail) + enc_block(b)) =~= (enc_block(s[0])
            + enc_block_seq(tail)) + enc_block(b));
    }
}

proof fn lemma_enc_tx_seq_snoc(s: Seq<TransactionView>, t: TransactionView)
    ensures
        enc_tx_seq(s.push(t)) == enc_tx_seq(s) + enc_tx(t),
    decreases s.len(),
{
    if s.len() == 0 {
        assert(s.push(t)[0] == t);
        assert(s.push(t).drop_first() =~= Seq::<TransactionView>::empty());
        assert(enc_tx_seq(s.push(t)) == enc_tx(t) + enc_tx_seq(Seq::<TransactionView>::empty()));
        assert(enc_tx(t) + Seq::<u8>::empty() =~= Seq::<u8>::empty() + enc_tx(t));
    } else {
        let tail = s.drop_first();
        assert(s.push(t)[0] == s[0]);
        assert(s.push(t).drop_first() =~= tail.push(t));
        lemma_enc_tx_seq_snoc(tail, t);
        assert(enc_tx_seq(s.push(t)) == enc_tx(s[0]) + enc_tx_seq(tail.push(t)));
        assert(enc_tx(s[0]) + (enc_tx_seq(tail) + enc_tx(t)) =~= (enc_tx(s[0]) + enc_tx_seq(tail))
            + enc_tx(t));
    }
}

impl Blockchain {
    /// The deterministic binary encoding of the full block sequence and the
    /// mempool. The same chain always yields the same bytes.
    pub fn save(&self) -> (r: Vec<u8>)
        ensures
            r@ == enc_chain(self@),
            chain_encodable(self@),
    {
        proof {
            lemma_pow256_u64();
        }
        let mut out: Vec<u8> = Vec::new();
        let n = self.chain.len();
        push_le_bytes(&mut out, n as u128, 8);
        let ghost header = out@;
        let mut i: usize = 0;
        while i < n
            invariant
                i <= n,
                n == self.chain@.len(),
                out@ == header + enc_block_seq(
                    self.chain@.take(i as int).map_values(|b: Block| b@),
                ),
                forall|j: int| 0 <= j < i ==> block_encodable((#[trigger] self.chain@[j])@),
            decreases n - i,
        {
            let ghost prefix = self.chain@.take(i as int).map_values(|b: Block| b@);
            push_block_enc(&mut out, &self.chain[i]);
            proof {
                assert(self.chain@.take(i + 1).map_values(|b: Block| b@) =~= prefix.push(
                    self.chain@[i as int]@,
                ));
                lemma_enc_block_seq_snoc(prefix, self.chain@[i as int]@);
                assert(out@ =~= header + enc_block_seq(
                    self.chain@.take(i + 1).map_values(|b: Block| b@),
                ));
            }
            i = i + 1;
        }
        proof {
            assert(self.chain@.take(n as int) =~= self.chain@);
        }
        let m = self.tr_queue.len();
        push_le_bytes(&mut out, m as u128, 8);
        let ghost mid = out@;
        let mut k: usize = 0;
        while k < m
            invariant
                k <= m,
                m == self.tr_queue@.len(),
                out@ == mid + enc_tx_seq(
                    self.tr_queue@.take(k as int).map_values(|t: Transaction| t@),
                ),
                forall|j: int| 0 <= j < k ==> tx_encodable((#[trigger] self.tr_queue@[j])@),
            decreases m - k,
        {
            let ghost prefix = self.tr_queue@.take(k as int).map_values(|t: Transaction| t@);
            push_tx_enc(&mut out, &self.tr_queue[k]);
            proof {
                assert(self.tr_queue@.take(k + 1).map_values(|t: Transaction| t@) =~= prefix.push(
                    self.tr_queue@[k as int]@,
                ));
                lemma_enc_tx_seq_snoc(prefix, self.tr_queue@[k as int]@);
                assert(out@ =~= mid + enc_tx_seq(
                    self.tr_queue@.take(k + 1).map_values(|t: Transaction| t@),
                ));
            }
            k = k + 1;
        }
        proof {
            assert(self.tr_queue@.take(m as int) =~= self.tr_queue@);
            assert(out@ =~= enc_chain(self@));
            assert forall|j: int| 0 <= j < self@.chain.len() implies block_encodable(
                #[trigger] self@.chain[j],
            ) by {
                assert(self@.chain[j] == self.chain@[j]@);
            }
            assert forall|j: int| 0 <= j < self@.mempool.len() implies tx_encodable(
                #[trigger] self@.mempool[j],
            ) by {
                assert(self@.mempool[j] == self.tr_queue@[j]@);
            }
        }
        out
    }
}

// ---------------------------------------------------------------------------
// Decoding
// ---------------------------------------------------------------------------

/// Relies on std::str::from_utf8: it succeeds exactly on valid UTF-8 and
/// gives the string whose byte encoding is the input.
#[verifier::external_body]
fn bytes_to_str(b: &[u8]) -> (r: Option<&str>)
    ensures
        r matches Some(s) ==> valid_utf8(b@) && s@ == decode_utf8(b@),
        r is None ==> !valid_utf8(b@),
{
    match std::str::from_utf8(b) {
        Ok(s) => Some(s),
        Err(_) => None,
    }
}

/// Reads a `k`-byte little-endian value starting at `pos`.
fn read_le(bytes: &Vec<u8>, pos: usize, k: usize) -> (r: u128)
    requires
        pos + k <= bytes@.len(),
        bytes@.len() <= usize::MAX,
        k <= 16,
    ensures
        r as nat == le_val(bytes@.subrange(pos as int, pos + k)),
        (r as nat) < pow256(k as nat),
    decreases k,
{
    proof {
        lemma_pow256_u64();
    }
    if k == 0 {
        proof {
            assert(bytes@.subrange(pos as int, pos as int) =~= Seq::<u8>::empty());
        }
        0
    } else {
        let rest = read_le(bytes, pos + 1, k - 1);
        let b0 = bytes[pos];
        proof {
            let sub = bytes@.subrange(pos as int, pos + k);
            assert(sub.drop_first() =~= bytes@.subrange(pos + 1, pos + 1 + (k - 1)));
            assert(sub[0] == bytes@[pos as int]);
            assert(256 * (rest as nat) <= 256 * (pow256((k - 1) as nat) - 1))
                by (nonlinear_arith)
                requires
                    (rest as nat) < pow256((k - 1) as nat),
            ;
            assert(pow256(k as nat) == 256 * pow256((k - 1) as nat));
            assert(pow256(k as nat) <= pow256(16)) by {
                crate::codec::lemma_pow256_monotone(k as nat, 16);
            }
        }
        (b0 as u128) + 256 * rest
    }
}

/// Reads an 8-byte little-endian integer; yields the value and the next
/// position.
fn read_u64(bytes: &Vec<u8>, pos: usize) -> (r: Option<(u64, usize)>)
    requires
        pos <= bytes@.len(),
    ensures
        match r {
            Some(p) => pos + 8 <= bytes@.len() && p.1 == pos + 8 && parse_uint(
                bytes@.skip(pos as int),
                8,
            ) == Some(((p.0 as nat), bytes@.skip(p.1 as int))),
            None => parse_uint(bytes@.skip(pos as int), 8) is None,
        },
{
    if bytes.len() - pos < 8 {
        return None;
    }
    let v = read_le(bytes, pos, 8);
    proof {
        lemma_pow256_u64();
        assert(bytes@.skip(pos as int).take(8) =~= bytes@.subrange(pos as int, pos + 8));
        assert(bytes@.skip(pos as int).skip(8) =~= bytes@.skip(pos + 8));
    }
    Some((v as u64, pos + 8))
}

/// Reads a 16-byte little-endian integer; yields the value and the next
/// position.
fn read_u128(bytes: &Vec<u8>, pos: usize) -> (r: Option<(u128, usize)>)
    requires
        pos <= bytes@.len(),
    ensures
        match r {
            Some(p) => pos + 16 <= bytes@.len() && p.1 == pos + 16 && parse_uint(
                bytes@.skip(pos as int),
                16,
            ) == Some(((p.0 as nat), bytes@.skip(p.1 as int))),
            None => parse_uint(bytes@.skip(pos as int), 16) is None,
        },
{
    if bytes.len() - pos < 16 {
        return None;
    }
    let v = read_le(bytes, pos, 16);
    proof {
        lemma_pow256_u64();
        assert(bytes@.skip(pos as int).take(16) =~= bytes@.subrange(pos as int, pos + 16));
        assert(bytes@.skip(pos as int).skip(16) =~= bytes@.skip(pos + 16));
    }
    Some((v as u128, pos + 16))
}

/// Reads a length-prefixed UTF-8 string; yields it and the next position.
fn read_string(bytes: &Vec<u8>, pos: usize) -> (r: Option<(String, usize)>)
    requires
        pos <= bytes@.len(),
    ensures
        match r {
            Some(p) => p.1 <= bytes@.len() && parse_str(bytes@.skip(pos as int)) == Some(
                ((p.0)@, bytes@.skip(p.1 as int)),
            ),
            None => parse_str(bytes@.skip(pos as int)) is None,
        },
{
    let (n64, pos1) = match read_u64(bytes, pos) {
        Some(p) => p,
        None => {
            return None;
        },
    };
    if n64 > (bytes.len() - pos1) as u64 {
        proof {
            assert(bytes@.skip(pos1 as int).len() < n64 as nat);
        }
        return None;
    }
    let n = n64 as usize;
    let slice = slice_subrange(bytes.as_slice(), pos1, pos1 + n);
    proof {
        assert(bytes@.skip(pos1 as int).take(n64 as int) =~= bytes@.subrange(
            pos1 as int,
            pos1 + n,
        ));
        assert(bytes@.skip(pos1 as int).skip(n64 as int) =~= bytes@.skip(pos1 + n));
    }
    match bytes_to_str(slice) {
        Some(s) => Some((s.to_owned(), pos1 + n)),
        None => None,
    }
}

/// Reads a transaction; yields it and the next position.
fn read_tx(bytes: &Vec<u8>, pos: usize) -> (r: Option<(Transaction, usize)>)
    requires
        pos <= bytes@.len(),
    ensures
        match r {
            Some(p) => p.1 <= bytes@.len() && parse_tx(bytes@.skip(pos as int)) == Some(
                ((p.0)@, bytes@.skip(p.1 as int)),
            ),
            None => parse_tx(bytes@.skip(pos as int)) is None,
        },
{
    let (from, pos1) = match read_string(bytes, pos) {
        Some(p) => p,
        None => {
            return None;
        },
    };
    let (to, pos2) = match read_string(bytes, pos1) {
        Some(p) => p,
        None => {
            return None;
        },
    };
    let (amount, pos3) = match read_u64(bytes, pos2) {
        Some(p) => p,
        None => {
            return None;
        },
    };
    Some((Transaction { from, to, amount }, pos3))
}

/// Reads a block; yields it and the next position.
fn read_block(bytes: &Vec<u8>, pos: usize) -> (r: Option<(Block, usize)>)
    requires
        pos <= bytes@.len(),
    ensures
        match r {
            Some(p) => p.1 <= bytes@.len() && parse_block(bytes@.skip(pos as int)) == Some(
                ((p.0)@, bytes@.skip(p.1 as int)),
            ),
            None => parse_block(bytes@.skip(pos as int)) is None,
        },
{
    let (timestamp, pos1) = match read_string(bytes, pos) {
        Some(p) => p,
        None => {
            return None;
        },
    };
    let (nonce, pos2) = match read_u128(bytes, pos1) {
        Some(p) => p,
        None => {
            return None;
        },
    };
    let (tr_data, pos3) = match read_tx(bytes, pos2) {
        Some(p) => p,
        None => {
            return None;
        },
    };
    let (hash, pos4) = match read_string(bytes, pos3) {
        Some(p) => p,
        None => {
            return None;
        },
    };
    let (prev_hash, pos5) = match read_string(bytes, pos4) {
        Some(p) => p,
        None => {
            return None;
        },
    };
    Some((Block { header: Header { timestamp, nonce }, tr_data, hash, prev_hash }, pos5))
}

impl Blockchain {
    /// Decodes a chain from its binary encoding: the exact inverse of
    /// `save`. Fails with `DecodeError` — and never panics — on truncated or
    /// malformed input, on bytes left over, and on a decoded chain that
    /// breaks the linkage invariant.
    #[verifier::loop_isolation(false)]
    #[verifier::rlimit(60)]
    pub fn load(bytes: &Vec<u8>) -> (r: Result<Blockchain, DecodeError>)
        ensures
            r matches Ok(c) ==> parse_chain(bytes@) == Some(c@) && c.wf(),
            r is Err ==> parse_chain(bytes@) is None,
    {
        proof {
            assert(bytes@.skip(0) =~= bytes@);
        }
        let (n64, pos0) = match read_u64(bytes, 0) {
            Some(p) => p,
            None => {
                return Err(DecodeError);
            },
        };
        let ghost n = n64 as nat;
        let ghost rem0 = bytes@.skip(pos0 as int);
        let mut pos: usize = pos0;
        let mut blocks: Vec<Block> = Vec::new();
        let mut i: u64 = 0;
        while i < n64
            invariant
                i <= n64,
                pos <= bytes@.len(),
                blocks@.len() == i,
                parse_block_seq(rem0, n) == (match parse_block_seq(
                    bytes@.skip(pos as int),
                    (n64 - i) as nat,
                ) {
                    Some(q) => Some(((blocks@.map_values(|b: Block| b@) + q.0), q.1)),
                    None => None::<(Seq<BlockView>, Seq<u8>)>,
                }),
            decreases n64 - i,
        {
            let (blk, newpos) = match read_block(bytes, pos) {
                Some(p) => p,
                None => {
                    proof {
                        assert(parse_block_seq(bytes@.skip(pos as int), (n64 - i) as nat)
                            is None);
                        assert(parse_block_seq(rem0, n) is None);
                        assert(parse_chain(bytes@) is None);
                    }
                    return Err(DecodeError);
                },
            };
            let ghost old_blocks = blocks@;
            blocks.push(blk);
            proof {
                let rem_next = bytes@.skip(newpos as int);
                assert(parse_block_seq(bytes@.skip(pos as int), (n64 - i) as nat) == (
                match parse_block_seq(rem_next, (n64 - i - 1) as nat) {
                    Some(q2) => Some(((seq![blk@] + q2.0), q2.1)),
                    None => None::<(Seq<BlockView>, Seq<u8>)>,
                }));
                match parse_block_seq(rem_next, (n64 - i - 1) as nat) {
                    Some(q2) => {
                        assert(blocks@.map_values(|b: Block| b@) =~= old_blocks.map_values(
                            |b: Block| b@,
                        ).push(blk@));
                        assert(old_blocks.map_values(|b: Block| b@) + (seq![blk@] + q2.0)
                            =~= blocks@.map_values(|b: Block| b@) + q2.0);
                    },
                    None => {},
                }
            }
            pos = newpos;
            i = i + 1;
        }
        let ghost bviews = blocks@.map_values(|b: Block| b@);
        proof {
            assert(parse_block_seq(bytes@.skip(pos as int), 0) == Some(
                (Seq::<BlockView>::empty(), bytes@.skip(pos as int)),
            ));
            assert(bviews + Seq::<BlockView>::empty() =~= bviews);
            assert(parse_block_seq(rem0, n) == Some((bviews, bytes@.skip(pos as int))));
        }
        let (m64, pos_m) = match read_u64(bytes, pos) {
            Some(p) => p,
            None => {
                proof {
                    assert(parse_chain(bytes@) is None);
                }
                return Err(DecodeError);
            },
        };
        let ghost m = m64 as nat;
        let ghost rem_m = bytes@.skip(pos_m as int);
        let mut txs: VecDeque<Transaction> = VecDeque::new();
        let mut pos2: usize = pos_m;
        let mut k: u64 = 0;
        while k < m64
            invariant
                k <= m64,
                pos2 <= bytes@.len(),
                txs@.len() == k,
                parse_tx_seq(rem_m, m) == (match parse_tx_seq(
                    bytes@.skip(pos2 as int),
                    (m64 - k) as nat,
                ) {
                    Some(q) => Some(((txs@.map_values(|t: Transaction| t@) + q.0), q.1)),
                    None => None::<(Seq<TransactionView>, Seq<u8>)>,
                }),
            decreases m64 - k,
        {
            let (t, newpos) = match read_tx(bytes, pos2) {
                Some(p) => p,
                None => {
                    proof {
                        assert(parse_tx_seq(bytes@.skip(pos2 as int), (m64 - k) as nat)
                            is None);
                        assert(parse_tx_seq(rem_m, m) is None);
                        assert(parse_chain(bytes@) is None);
                    }
                    return Err(DecodeError);
                },
            };
            let ghost old_txs = txs@;
            txs.push_back(t);
            proof {
                let rem_next = bytes@.skip(newpos as int);
                assert(parse_tx_seq(bytes@.skip(pos2 as int), (m64 - k) as nat) == (
                match parse_tx_seq(rem_next, (m64 - k - 1) as nat) {
                    Some(q2) => Some(((seq![t@] + q2.0), q2.1)),
                    None => None::<(Seq<TransactionView>, Seq<u8>)>,
                }));
                match parse_tx_seq(rem_next, (m64 - k - 1) as nat) {
                    Some(q2) => {
                        assert(txs@.map_values(|t: Transaction| t@) =~= old_txs.map_values(
                            |t: Transaction| t@,
                        ).push(t@));
                        assert(old_txs.map_values(|t: Transaction| t@) + (seq![t@] + q2.0)
                            =~= txs@.map_values(|t: Transaction| t@) + q2.0);
                    },
                    None => {},
                }
            }
            pos2 = newpos;
            k = k + 1;
        }
        let ghost tviews = txs@.map_values(|t: Transaction| t@);
        let ghost cv = BlockchainView { chain: bviews, mempool: tviews };
        proof {
            assert(parse_tx_seq(bytes@.skip(pos2 as int), 0) == Some(
                (Seq::<TransactionView>::empty(), bytes@.skip(pos2 as int)),
            ));
            assert(tviews + Seq::<TransactionView>::empty() =~= tviews);
            assert(parse_tx_seq(rem_m, m) == Some((tviews, bytes@.skip(pos2 as int))));
        }
        if pos2 != bytes.len() {
            proof {
                assert(bytes@.skip(pos2 as int).len() > 0);
                assert(parse_chain(bytes@) is None);
            }
            return Err(DecodeError);
        }
        proof {
            assert(bytes@.skip(pos2 as int).len() == 0);
        }
        // The linkage invariant is part of the format: reject a chain that
        // breaks it.
        if blocks.len() == 0 {
            proof {
                assert(!view_wf(cv));
                assert(parse_chain(bytes@) is None);
            }
            return Err(DecodeError);
        }
        let nb = blocks.len();
        let mut j: usize = 1;
        while j < nb
            invariant
                1 <= j <= nb,
                forall|x: int|
                    1 <= x < j ==> #[trigger] blocks@[x].prev_hash@ == blocks@[x - 1].hash@,
            decreases nb - j,
        {
            if !(blocks[j].prev_hash == blocks[j - 1].hash) {
                proof {
                    assert(cv.chain[j as int].prev_hash != cv.chain[j as int - 1].hash);
                    assert(!view_wf(cv));
                    assert(parse_chain(bytes@) is None);
                }
                return Err(DecodeError);
            }
            j = j + 1;
        }
        let c = Blockchain { chain: blocks, tr_queue: txs };
        proof {
            assert forall|x: int| 1 <= x < cv.chain.len() implies #[trigger] cv.chain[x].prev_hash
                == cv.chain[x - 1].hash by {
                assert(c.chain@[x].prev_hash@ == c.chain@[x - 1].hash@);
            }
            assert(view_wf(cv));
            assert(c@ =~= cv);
            assert(parse_chain(bytes@) == Some(c@));
            assert(c.wf());
        }
        Ok(c)
    }
}

} // verus!
