use powchain::block::derive_hash;
use powchain::blockchain::Blockchain;
use powchain::digits::{i64_to_string, u128_to_string, u64_to_string};
use powchain::errors::ChainError;
use powchain::hashing::{count_char_occurrences, meets_difficulty};
use powchain::miner::mine;
use powchain::transaction::Transaction;
use sha2::{Digest, Sha256};

#[test]
fn derive_hash_matches_reference_digest() {
    let tx = Transaction {
        from: "Alice".to_string(),
        to: "Bob".to_string(),
        amount: 100_000,
    };
    let derived = derive_hash("prevhash", &tx, 1234567890123456789012345678901u128);
    let input = format!(
        "{}{}{}{}{}",
        "prevhash", "Alice", "Bob", 100_000u64, 1234567890123456789012345678901u128
    );
    let expected = format!("{:x}", Sha256::digest(input.as_bytes()));
    assert_eq!(derived, expected);
    assert_eq!(derived.len(), 64);
}

#[test]
fn verify_hash_detects_tampering() {
    let mut blnch = Blockchain::new();
    blnch.new_transaction("Alice".to_string(), "Bob".to_string(), 42);
    blnch.mint().unwrap();
    let mut sealed = blnch.chain[1].clone();
    assert!(sealed.verify_hash());
    sealed.tr_data.amount = 43;
    assert!(!sealed.verify_hash());
}

#[test]
fn generate_hash_reseals_a_block() {
    let mut blnch = Blockchain::new();
    blnch.new_transaction("Alice".to_string(), "Bob".to_string(), 42);
    blnch.mint().unwrap();
    let mut block = blnch.chain[1].clone();
    block.hash = String::new();
    block.generate_hash();
    assert_eq!(block.hash, blnch.chain[1].hash);
}

#[test]
fn mined_block_meets_difficulty() {
    let tx = Transaction {
        from: "x".to_string(),
        to: "y".to_string(),
        amount: 9,
    };
    let block = mine("someparent", tx, 1_000_000).expect("mining must succeed");
    assert_eq!(block.prev_hash, "someparent");
    assert!(block.hash.chars().filter(|&c| c == '1').count() >= 6);
    assert!(block.meets_difficulty());
    assert!(block.verify_hash());
    // The sealed hash has the digest form: 64 lowercase hex characters.
    assert_eq!(block.hash.len(), 64);
    assert!(block
        .hash
        .chars()
        .all(|c| ('0'..='9').contains(&c) || ('a'..='f').contains(&c)));
}

#[test]
fn difficulty_predicate_counts_ones() {
    assert!(meets_difficulty("111111"));
    assert!(!meets_difficulty("11111"));
    assert!(meets_difficulty("a1b1c1d1e1f1gg"));
    assert!(!meets_difficulty(""));
    assert_eq!(count_char_occurrences("banana", 'a'), 3);
    assert_eq!(count_char_occurrences("banana", 'z'), 0);
}

#[test]
fn transaction_into_concatenates_fields() {
    let tx = Transaction {
        from: "Alice".to_string(),
        to: "Bob".to_string(),
        amount: 100_000,
    };
    assert_eq!(Transaction::into(&tx), "AliceBob100000");
}

#[test]
fn decimal_rendering_is_exact() {
    assert_eq!(u64_to_string(0), "0");
    assert_eq!(u64_to_string(35), "35");
    assert_eq!(u64_to_string(u64::MAX), "18446744073709551615");
    assert_eq!(
        u128_to_string(u128::MAX),
        "340282366920938463463374607431768211455"
    );
    assert_eq!(i64_to_string(-5), "-5");
    assert_eq!(i64_to_string(i64::MIN), "-9223372036854775808");
    assert_eq!(i64_to_string(1700000000), "1700000000");
}

#[test]
fn error_descriptions() {
    assert_eq!(ChainError::EmptyMempool.describe(), "no transactions queued");
    assert_eq!(
        ChainError::HashMismatch.describe(),
        "block does not extend the tip"
    );
    assert_eq!(ChainError::OrphanBlock.describe(), "block parent not found");
    assert_eq!(
        ChainError::MiningCancelled.describe(),
        "nonce search gave up"
    );
}
