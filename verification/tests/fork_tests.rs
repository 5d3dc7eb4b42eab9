use std::collections::VecDeque;

use powchain::block::{Block, Header};
use powchain::blockchain::Blockchain;
use powchain::errors::ChainError;
use powchain::forkset::ForkSet;
use powchain::transaction::Transaction;

/// A block with fabricated hashes, for building branch shapes directly.
fn dummy_block(hash: &str, prev_hash: &str) -> Block {
    Block {
        header: Header {
            timestamp: "0".to_string(),
            nonce: 0,
        },
        tr_data: Transaction {
            from: "a".to_string(),
            to: "b".to_string(),
            amount: 1,
        },
        hash: hash.to_string(),
        prev_hash: prev_hash.to_string(),
    }
}

/// A linked branch of `len` blocks growing out of `seed`, with hashes
/// derived from `tag`.
fn dummy_branch(seed: &Block, tag: &str, len: usize) -> Blockchain {
    let mut chain = vec![seed.clone()];
    let mut prev = seed.hash.clone();
    for i in 1..len {
        let h = format!("{}-{}", tag, i);
        chain.push(dummy_block(&h, &prev));
        prev = h;
    }
    Blockchain {
        chain,
        tr_queue: VecDeque::new(),
    }
}

#[test]
fn resolve_discards_shorter_branches() {
    let canonical_seed = Blockchain::new();
    let seed = canonical_seed.chain[0].clone();
    let mut canonical = canonical_seed;
    let mut forks = ForkSet {
        branches: vec![
            dummy_branch(&seed, "x", 3),
            dummy_branch(&seed, "y", 3),
            dummy_branch(&seed, "z", 5),
        ],
    };
    let canonical_len_before = canonical.chain.len();
    let merged = forks.resolve(&mut canonical);
    // Only the length-5 branch survives, so it merges into the canonical
    // chain: its four post-seed blocks are spliced on.
    assert!(merged);
    assert_eq!(canonical.chain.len(), canonical_len_before + 4);
    assert_eq!(canonical.chain.last().unwrap().hash, "z-4");
    // The fork set reseeds with a single one-block branch at the new tip.
    assert_eq!(forks.branches.len(), 1);
    assert_eq!(forks.branches[0].chain.len(), 1);
    assert_eq!(forks.branches[0].chain[0].hash, "z-4");
}

#[test]
fn resolve_keeps_ties() {
    let canonical_seed = Blockchain::new();
    let seed = canonical_seed.chain[0].clone();
    let mut canonical = canonical_seed;
    let mut forks = ForkSet {
        branches: vec![dummy_branch(&seed, "x", 4), dummy_branch(&seed, "y", 4)],
    };
    let canonical_len_before = canonical.chain.len();
    let merged = forks.resolve(&mut canonical);
    // Both length-4 branches survive the tie; nothing merges.
    assert!(!merged);
    assert_eq!(forks.branches.len(), 2);
    assert_eq!(canonical.chain.len(), canonical_len_before);
}

#[test]
fn receive_block_extends_matching_tip() {
    let canonical = Blockchain::new();
    let seed = canonical.chain[0].clone();
    let mut forks = ForkSet::new(&seed);
    let incoming = dummy_block("incoming", &seed.hash);
    assert_eq!(forks.receive_block(incoming), Ok(()));
    assert_eq!(forks.branches.len(), 1);
    assert_eq!(forks.branches[0].chain.len(), 2);
    assert_eq!(forks.branches[0].chain[1].hash, "incoming");
}

#[test]
fn receive_block_forks_at_interior_match() {
    let canonical = Blockchain::new();
    let seed = canonical.chain[0].clone();
    let branch = dummy_branch(&seed, "x", 3);
    let mut forks = ForkSet {
        branches: vec![branch],
    };
    // The parent is "x-1", one block below the tip: the branch is copied up
    // to it and the incoming block goes on top of the copy.
    let incoming = dummy_block("incoming", "x-1");
    assert_eq!(forks.receive_block(incoming), Ok(()));
    assert_eq!(forks.branches.len(), 2);
    assert_eq!(forks.branches[1].chain.len(), 3);
    assert_eq!(forks.branches[1].chain[2].hash, "incoming");
    assert_eq!(forks.branches[1].chain[1].hash, "x-1");
}

#[test]
fn receive_block_rejects_orphan() {
    let canonical = Blockchain::new();
    let seed = canonical.chain[0].clone();
    let mut forks = ForkSet::new(&seed);
    let incoming = dummy_block("incoming", "no-such-parent");
    assert_eq!(
        forks.receive_block(incoming),
        Err(ChainError::OrphanBlock)
    );
    assert_eq!(forks.branches.len(), 1);
    assert_eq!(forks.branches[0].chain.len(), 1);
}

#[test]
fn mint_on_empty_mempool_fails_without_mutation() {
    let mut blnch = Blockchain::new();
    let len_before = blnch.chain.len();
    let result = blnch.mint();
    assert_eq!(result, Err(ChainError::EmptyMempool));
    assert_eq!(blnch.chain.len(), len_before);
}

#[test]
fn mint_scenario_alice_pays_bob() {
    let mut blnch = Blockchain::new();
    let genesis_hash = blnch.chain[0].hash.clone();
    blnch.new_transaction("Alice".to_string(), "Bob".to_string(), 100_000);
    let block = blnch.mint().expect("mining must succeed");
    assert_eq!(block.prev_hash, genesis_hash);
    assert_eq!(block.tr_data.from, "Alice");
    assert_eq!(block.tr_data.to, "Bob");
    assert_eq!(block.tr_data.amount, 100_000);
    assert_eq!(blnch.chain.len(), 2);
    assert_eq!(blnch.tr_queue.len(), 0);
}

#[test]
fn append_external_rejects_hash_mismatch() {
    let mut blnch = Blockchain::new();
    let len_before = blnch.chain.len();
    let stranger = dummy_block("stranger", "does-not-match-the-tip");
    assert_eq!(
        blnch.append_external(stranger),
        Err(ChainError::HashMismatch)
    );
    assert_eq!(blnch.chain.len(), len_before);
}

#[test]
fn append_external_accepts_matching_block() {
    let mut blnch = Blockchain::new();
    let tip_hash = blnch.chain.last().unwrap().hash.clone();
    let fits = dummy_block("fits", &tip_hash);
    assert_eq!(blnch.append_external(fits), Ok(()));
    assert_eq!(blnch.chain.len(), 2);
    assert_eq!(blnch.chain[1].hash, "fits");
}

#[test]
fn inspection_by_index_and_head() {
    let mut blnch = Blockchain::new();
    blnch.new_transaction("m".to_string(), "n".to_string(), 3);
    assert!(blnch.get_block_by_index(0).is_some());
    assert!(blnch.get_block_by_index(1).is_none());
    assert_eq!(blnch.get_transaction_by_index(0).unwrap().amount, 3);
    assert!(blnch.get_transaction_by_index(1).is_none());
    let head = blnch.get_head_block().unwrap();
    assert_eq!(head.prev_hash, "0");
}

#[test]
fn chain_linkage_holds_after_minting() {
    let mut blnch = Blockchain::new();
    blnch.new_transaction("Alice".to_string(), "Bob".to_string(), 1);
    blnch.new_transaction("Bob".to_string(), "Carol".to_string(), 2);
    blnch.mint().unwrap();
    blnch.mint().unwrap();
    for i in 1..blnch.chain.len() {
        assert_eq!(blnch.chain[i].prev_hash, blnch.chain[i - 1].hash);
    }
}

#[test]
fn diverge_forks_longer_branch_and_skips_seed() {
    let canonical = Blockchain::new();
    let seed = canonical.chain[0].clone();
    let mut forks = ForkSet {
        branches: vec![dummy_branch(&seed, "x", 3)],
    };
    let forked = forks.diverge(0, "s".to_string(), "r".to_string(), 5);
    assert_eq!(forked, Ok(true));
    assert_eq!(forks.branches.len(), 2);
    // The clone kept the branch up to (not including) its tip, then one
    // freshly mined block went on top.
    assert_eq!(forks.branches[1].chain.len(), 3);
    assert_eq!(forks.branches[1].chain[2].prev_hash, "x-1");
    assert!(forks.branches[1].chain[2].verify_hash());
    // A seed-only branch is left alone.
    let mut single = ForkSet::new(&seed);
    assert_eq!(single.diverge(0, "s".to_string(), "r".to_string(), 5), Ok(false));
    assert_eq!(single.branches.len(), 1);
    assert_eq!(single.branches[0].chain.len(), 1);
}

#[test]
fn extend_mints_onto_chosen_branch() {
    let canonical = Blockchain::new();
    let seed = canonical.chain[0].clone();
    let mut forks = ForkSet::new(&seed);
    assert_eq!(forks.extend(0, "s".to_string(), "r".to_string(), 7), Ok(()));
    assert_eq!(forks.branches.len(), 1);
    assert_eq!(forks.branches[0].chain.len(), 2);
    let mined = &forks.branches[0].chain[1];
    assert_eq!(mined.prev_hash, seed.hash);
    assert_eq!(mined.tr_data.amount, 7);
    assert!(mined.hash.chars().filter(|&c| c == '1').count() >= 6);
}
