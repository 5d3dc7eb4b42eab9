//! The persisted format of a chain, at the level of byte sequences: every
//! integer is little-endian with a fixed width, every string is its UTF-8
//! bytes behind an 8-byte length, and the chain is the block sequence behind
//! an 8-byte count followed by the mempool behind an 8-byte count. The
//! decoder is the exact inverse of the encoder; the round trip is proved
//! here, layer by layer.

use vstd::arithmetic::div_mod::{lemma_fundamental_div_mod, lemma_mod_division_less_than_divisor};
use vstd::arithmetic::mul::lemma_mul_inequality;
use vstd::prelude::*;
use vstd::utf8::{decode_utf8, encode_utf8, encode_utf8_decode_utf8, encode_utf8_valid_utf8, valid_utf8};

use crate::block::BlockView;
use crate::blockchain::BlockchainView;
use crate::transaction::TransactionView;

verus! {

/// 256 to the power `k`: how many values `k` bytes can hold.
pub open spec fn pow256(k: nat) -> nat
    decreases k,
{
    if k == 0 {
        1
    } else {
        256 * pow256((k - 1) as nat)
    }
}

/// The `k` little-endian bytes of `n`, least significant first.
pub open spec fn le_bytes(n: nat, k: nat) -> Seq<u8>
    decreases k,
{
    if k == 0 {
        Seq::empty()
    } else {
        seq![(n % 256) as u8] + le_bytes(n / 256, (k - 1) as nat)
    }
}

/// The value of a little-endian byte sequence.
pub open spec fn le_val(b: Seq<u8>) -> nat
    decreases b.len(),
{
    if b.len() == 0 {
        0
    } else {
        (b[0] + 256 * le_val(b.drop_first())) as nat
    }
}

/// A string's encoding: the UTF-8 byte count as 8 little-endian bytes, then
/// the UTF-8 bytes themselves.
pub open spec fn enc_str(s: Seq<char>) -> Seq<u8> {
    le_bytes(encode_utf8(s).len(), 8) + encode_utf8(s)
}

/// A transaction's encoding: sender, recipient, then the amount in 8 bytes.
pub open spec fn enc_tx(t: TransactionView) -> Seq<u8> {
    enc_str(t.from) + enc_str(t.to) + le_bytes(t.amount as nat, 8)
}

/// A block's encoding: timestamp, nonce in 16 bytes, transaction, hash,
/// parent hash.
pub open spec fn enc_block(b: BlockView) -> Seq<u8> {
    enc_str(b.header.timestamp) + le_bytes(b.header.nonce as nat, 16) + enc_tx(b.tr_data)
        + enc_str(b.hash) + enc_str(b.prev_hash)
}

/// A block sequence's encoding, first block first, without the count.
pub open spec fn enc_block_seq(s: Seq<BlockView>) -> Seq<u8>
    decreases s.len(),
{
    if s.len() == 0 {
        Seq::empty()
    } else {
        enc_block(s[0]) + enc_block_seq(s.drop_first())
    }
}

/// A transaction sequence's encoding, first transaction first, without the
/// count.
pub open spec fn enc_tx_seq(s: Seq<TransactionView>) -> Seq<u8>
    decreases s.len(),
{
    if s.len() == 0 {
        Seq::empty()
    } else {
        enc_tx(s[0]) + enc_tx_seq(s.drop_first())
    }
}

/// A chain's encoding: block count, blocks, mempool count, mempool.
pub open spec fn enc_chain(c: BlockchainView) -> Seq<u8> {
    le_bytes(c.chain.len(), 8) + enc_block_seq(c.chain) + le_bytes(c.mempool.len(), 8)
        + enc_tx_seq(c.mempool)
}

/// Whether a string fits the format: its UTF-8 byte count fits 8 bytes.
pub open spec fn str_encodable(s: Seq<char>) -> bool {
    encode_utf8(s).len() < pow256(8)
}

pub open spec fn tx_encodable(t: TransactionView) -> bool {
    str_encodable(t.from) && str_encodable(t.to)
}

pub open spec fn block_encodable(b: BlockView) -> bool {
    str_encodable(b.header.timestamp) && tx_encodable(b.tr_data) && str_encodable(b.hash)
        && str_encodable(b.prev_hash)
}

/// Whether a chain fits the format: all counts and string lengths fit their
/// 8-byte prefixes. Every chain a machine actually holds does.
pub open spec fn chain_encodable(c: BlockchainView) -> bool {
    &&& c.chain.len() < pow256(8)
    &&& c.mempool.len() < pow256(8)
    &&& forall|i: int| 0 <= i < c.chain.len() ==> block_encodable(#[trigger] c.chain[i])
    &&& forall|i: int| 0 <= i < c.mempool.len() ==> tx_encodable(#[trigger] c.mempool[i])
}

// ---------------------------------------------------------------------------
// Decoding. Each parser takes the remaining input and yields the parsed value
// together with what it did not consume, or nothing on truncated or malformed
// input.
// ---------------------------------------------------------------------------

/// Reads a `k`-byte little-endian unsigned integer.
pub open spec fn parse_uint(b: Seq<u8>, k: nat) -> Option<(nat, Seq<u8>)> {
    if b.len() >= k {
        Some((le_val(b.take(k as int)), b.skip(k as int)))
    } else {
        None
    }
}

/// Reads a length-prefixed UTF-8 string.
pub open spec fn parse_str(b: Seq<u8>) -> Option<(Seq<char>, Seq<u8>)> {
    match parse_uint(b, 8) {
        Some((n, r)) => {
            if r.len() >= n && valid_utf8(r.take(n as int)) {
                Some((decode_utf8(r.take(n as int)), r.skip(n as int)))
            } else {
                None
            }
        },
        None => None,
    }
}

/// Reads a transaction.
pub open spec fn parse_tx(b: Seq<u8>) -> Option<(TransactionView, Seq<u8>)> {
    match parse_str(b) {
        Some((from, r1)) => match parse_str(r1) {
            Some((to, r2)) => match parse_uint(r2, 8) {
                Some((amount, r3)) => Some(
                    (TransactionView { from, to, amount: amount as u64 }, r3),
                ),
                None => None,
            },
            None => None,
        },
        None => None,
    }
}

/// Reads a block.
pub open spec fn parse_block(b: Seq<u8>) -> Option<(BlockView, Seq<u8>)> {
    match parse_str(b) {
        Some((timestamp, r1)) => match parse_uint(r1, 16) {
            Some((nonce, r2)) => match parse_tx(r2) {
                Some((tr_data, r3)) => match parse_str(r3) {
                    Some((hash, r4)) => match parse_str(r4) {
                        Some((prev_hash, r5)) => Some(
                            (
                                BlockView {
                                    header: crate::block::HeaderView {
                                        timestamp,
                                        nonce: nonce as u128,
                                    },
                                    tr_data,
                                    hash,
                                    prev_hash,
                                },
                                r5,
                            ),
                        ),
                        None => None,
                    },
                    None => None,
                },
                None => None,
            },
            None => None,
        },
        None => None,
    }
}

/// Reads exactly `n` blocks.
pub open spec fn parse_block_seq(b: Seq<u8>, n: nat) -> Option<(Seq<BlockView>, Seq<u8>)>
    decreases n,
{
    if n == 0 {
        Some((Seq::empty(), b))
    } else {
        match parse_block(b) {
            Some((blk, r)) => match parse_block_seq(r, (n - 1) as nat) {
                Some((s, r2)) => Some((seq![blk] + s, r2)),
                None => None,
            },
            None => None,
        }
    }
}

/// Reads exactly `n` transactions.
pub open spec fn parse_tx_seq(b: Seq<u8>, n: nat) -> Option<(Seq<TransactionView>, Seq<u8>)>
    decreases n,
{
    if n == 0 {
        Some((Seq::empty(), b))
    } else {
        match parse_tx(b) {
            Some((t, r)) => match parse_tx_seq(r, (n - 1) as nat) {
                Some((s, r2)) => Some((seq![t] + s, r2)),
                None => None,
            },
            None => None,
        }
    }
}

/// Chain linkage at the level of views: nonempty, every block's parent hash
/// is the hash of the block before it.
pub open spec fn view_wf(c: BlockchainView) -> bool {
    &&& c.chain.len() >= 1
    &&& forall|i: int|
        1 <= i < c.chain.len() ==> #[trigger] c.chain[i].prev_hash == c.chain[i - 1].hash
}

/// Reads a whole chain: block count, blocks, mempool count, mempool. Fails
/// on truncated input, on bytes left over, and on a chain that breaks the
/// linkage invariant.
pub open spec fn parse_chain(b: Seq<u8>) -> Option<BlockchainView> {
    match parse_uint(b, 8) {
        Some((n, r1)) => match parse_block_seq(r1, n) {
            Some((blocks, r2)) => match parse_uint(r2, 8) {
                Some((m, r3)) => match parse_tx_seq(r3, m) {
                    Some((txs, r4)) => {
                        let c = BlockchainView { chain: blocks, mempool: txs };
                        if r4.len() == 0 && view_wf(c) {
                            Some(c)
                        } else {
                            None
                        }
                    },
                    None => None,
                },
                None => None,
            },
            None => None,
        },
        None => None,
    }
}

// ---------------------------------------------------------------------------
// Round-trip lemmas, one per layer.
// ---------------------------------------------------------------------------

pub proof fn lemma_le_bytes_len(n: nat, k: nat)
    ensures
        le_bytes(n, k).len() == k,
    decreases k,
{
    if k > 0 {
        lemma_le_bytes_len(n / 256, (k - 1) as nat);
    }
}

pub proof fn lemma_le_val_le_bytes(n: nat, k: nat)
    requires
        n < pow256(k),
    ensures
        le_val(le_bytes(n, k)) == n,
    decreases k,
{
    if k == 0 {
        assert(le_bytes(n, 0) =~= Seq::<u8>::empty());
    } else {
        let q = n / 256;
        let r = n % 256;
        lemma_fundamental_div_mod(n as int, 256);
        // q < pow256(k - 1), else n = 256 q + r >= 256 * pow256(k - 1) = pow256(k)
        if q >= pow256((k - 1) as nat) {
            lemma_mul_inequality(pow256((k - 1) as nat) as int, q as int, 256);
            assert(false);
        }
        lemma_le_val_le_bytes(q, (k - 1) as nat);
        assert(le_bytes(n, k).drop_first() =~= le_bytes(q, (k - 1) as nat));
        assert(le_bytes(n, k)[0] == r as u8);
        assert(le_val(le_bytes(n, k)) == r + 256 * q);
    }
}

pub proof fn lemma_parse_uint_round(n: nat, k: nat, rest: Seq<u8>)
    requires
        n < pow256(k),
    ensures
        parse_uint(le_bytes(n, k) + rest, k) == Some((n, rest)),
{
    lemma_le_bytes_len(n, k);
    let b = le_bytes(n, k) + rest;
    assert(b.take(k as int) =~= le_bytes(n, k));
    assert(b.skip(k as int) =~= rest);
    lemma_le_val_le_bytes(n, k);
}

pub proof fn lemma_parse_str_round(s: Seq<char>, rest: Seq<u8>)
    requires
        str_encodable(s),
    ensures
        parse_str(enc_str(s) + rest) == Some((s, rest)),
{
    let bytes = encode_utf8(s);
    let n = bytes.len();
    assert(enc_str(s) + rest =~= le_bytes(n, 8) + (bytes + rest));
    lemma_parse_uint_round(n, 8, bytes + rest);
    let r = (bytes + rest);
    assert(r.take(n as int) =~= bytes);
    assert(r.skip(n as int) =~= rest);
    encode_utf8_valid_utf8(s);
    encode_utf8_decode_utf8(s);
}

pub proof fn lemma_parse_tx_round(t: TransactionView, rest: Seq<u8>)
    requires
        tx_encodable(t),
    ensures
        parse_tx(enc_tx(t) + rest) == Some((t, rest)),
{
    let amt = le_bytes(t.amount as nat, 8);
    assert(enc_tx(t) + rest =~= enc_str(t.from) + (enc_str(t.to) + (amt + rest)));
    lemma_parse_str_round(t.from, enc_str(t.to) + (amt + rest));
    lemma_parse_str_round(t.to, amt + rest);
    lemma_pow256_u64();
    lemma_parse_uint_round(t.amount as nat, 8, rest);
}

pub proof fn lemma_pow256_monotone(a: nat, b: nat)
    requires
        a <= b,
    ensures
        pow256(a) <= pow256(b),
    decreases b,
{
    if a < b {
        lemma_pow256_monotone(a, (b - 1) as nat);
        assert(pow256(b) == 256 * pow256((b - 1) as nat));
        lemma_mul_inequality(1, 256, pow256((b - 1) as nat) as int);
    }
}

/// `pow256(8)` is one past `u64::MAX`, and `pow256(16)` one past `u128::MAX`.
pub proof fn lemma_pow256_u64()
    ensures
        pow256(8) == 0x1_0000_0000_0000_0000,
        pow256(16) == 0x1_0000_0000_0000_0000_0000_0000_0000_0000,
{
    assert(pow256(16) == 0x1_0000_0000_0000_0000_0000_0000_0000_0000) by {
        reveal_with_fuel(pow256, 17);
    }
    assert(pow256(8) == 0x1_0000_0000_0000_0000) by {
        reveal_with_fuel(pow256, 9);
    }
}

pub proof fn lemma_parse_block_round(b: BlockView, rest: Seq<u8>)
    requires
        block_encodable(b),
    ensures
        parse_block(enc_block(b) + rest) == Some((b, rest)),
{
    let nonce = le_bytes(b.header.nonce as nat, 16);
    let tail1 = nonce + (enc_tx(b.tr_data) + (enc_str(b.hash) + (enc_str(b.prev_hash) + rest)));
    assert(enc_block(b) + rest =~= enc_str(b.header.timestamp) + tail1);
    lemma_parse_str_round(b.header.timestamp, tail1);
    lemma_pow256_u64();
    lemma_parse_uint_round(
        b.header.nonce as nat,
        16,
        enc_tx(b.tr_data) + (enc_str(b.hash) + (enc_str(b.prev_hash) + rest)),
    );
    lemma_parse_tx_round(b.tr_data, enc_str(b.hash) + (enc_str(b.prev_hash) + rest));
    lemma_parse_str_round(b.hash, enc_str(b.prev_hash) + rest);
    lemma_parse_str_round(b.prev_hash, rest);
}

pub proof fn lemma_parse_block_seq_round(s: Seq<BlockView>, rest: Seq<u8>)
    requires
        forall|i: int| 0 <= i < s.len() ==> block_encodable(#[trigger] s[i]),
    ensures
        parse_block_seq(enc_block_seq(s) + rest, s.len()) == Some((s, rest)),
    decreases s.len(),
{
    if s.len() == 0 {
        assert(enc_block_seq(s) + rest =~= rest);
        assert(parse_block_seq(rest, 0) == Some((Seq::<BlockView>::empty(), rest)));
        assert(s =~= Seq::<BlockView>::empty());
    } else {
        let tail = s.drop_first();
        assert(enc_block_seq(s) + rest =~= enc_block(s[0]) + (enc_block_seq(tail) + rest));
        lemma_parse_block_round(s[0], enc_block_seq(tail) + rest);
        assert(forall|i: int| 0 <= i < tail.len() ==> block_encodable(#[trigger] tail[i]));
        lemma_parse_block_seq_round(tail, rest);
        assert(seq![s[0]] + tail =~= s);
    }
}

pub proof fn lemma_parse_tx_seq_round(s: Seq<TransactionView>, rest: Seq<u8>)
    requires
        forall|i: int| 0 <= i < s.len() ==> tx_encodable(#[trigger] s[i]),
    ensures
        parse_tx_seq(enc_tx_seq(s) + rest, s.len()) == Some((s, rest)),
    decreases s.len(),
{
    if s.len() == 0 {
        assert(enc_tx_seq(s) + rest =~= rest);
        assert(s =~= Seq::<TransactionView>::empty());
    } else {
        let tail = s.drop_first();
        assert(enc_tx_seq(s) + rest =~= enc_tx(s[0]) + (enc_tx_seq(tail) + rest));
        lemma_parse_tx_round(s[0], enc_tx_seq(tail) + rest);
        assert(forall|i: int| 0 <= i < tail.len() ==> tx_encodable(#[trigger] tail[i]));
        lemma_parse_tx_seq_round(tail, rest);
        assert(seq![s[0]] + tail =~= s);
    }
}

/// The round trip: decoding what was encoded gives back exactly the chain
/// that was encoded, for every well-formed chain that fits the format.
pub proof fn lemma_parse_chain_round(c: BlockchainView)
    requires
        chain_encodable(c),
        view_wf(c),
    ensures
        parse_chain(enc_chain(c)) == Some(c),
{
    let empty = Seq::<u8>::empty();
    let blocks = enc_block_seq(c.chain);
    let txs = enc_tx_seq(c.mempool);
    let m = le_bytes(c.mempool.len(), 8);
    assert(enc_chain(c) =~= le_bytes(c.chain.len(), 8) + (blocks + (m + (txs + empty))));
    lemma_parse_uint_round(c.chain.len(), 8, blocks + (m + (txs + empty)));
    lemma_parse_block_seq_round(c.chain, m + (txs + empty));
    lemma_parse_uint_round(c.mempool.len(), 8, txs + empty);
    lemma_parse_tx_seq_round(c.mempool, empty);
    assert(BlockchainView { chain: c.chain, mempool: c.mempool } =~= c);
}

} // verus!
