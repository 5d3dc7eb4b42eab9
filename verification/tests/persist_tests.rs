use powchain::blockchain::Blockchain;
use powchain::transaction::Transaction;

#[test]
fn save_load_roundtrip_empty_mempool() {
    let blnch = Blockchain::new();
    let bytes = blnch.save();
    let loaded = Blockchain::load(&bytes).expect("round trip must decode");
    assert_eq!(blnch, loaded);
}

#[test]
fn save_load_roundtrip_with_pending_transactions() {
    let mut blnch = Blockchain::new();
    blnch.new_transaction("Alice".to_string(), "Bob".to_string(), 100_000);
    blnch.new_transaction("Bob".to_string(), "Charlie".to_string(), 60_000);
    blnch.mint().unwrap();
    blnch.new_transaction("Charlie".to_string(), "Alice".to_string(), 30_000);
    let bytes = blnch.save();
    let loaded = Blockchain::load(&bytes).expect("round trip must decode");
    assert_eq!(blnch, loaded);
    assert_eq!(loaded.chain.len(), 2);
    assert_eq!(loaded.tr_queue.len(), 2);
}

#[test]
fn save_is_deterministic() {
    let mut blnch = Blockchain::new();
    blnch.new_transaction("a".to_string(), "b".to_string(), 7);
    let first = blnch.save();
    let second = blnch.save();
    assert_eq!(first, second);
}

#[test]
fn load_rejects_empty_input() {
    let bytes: Vec<u8> = Vec::new();
    assert!(Blockchain::load(&bytes).is_err());
}

#[test]
fn load_rejects_truncated_input() {
    let blnch = Blockchain::new();
    let mut bytes = blnch.save();
    bytes.truncate(bytes.len() - 1);
    assert!(Blockchain::load(&bytes).is_err());
}

#[test]
fn load_rejects_trailing_garbage() {
    let blnch = Blockchain::new();
    let mut bytes = blnch.save();
    bytes.push(0);
    assert!(Blockchain::load(&bytes).is_err());
}

#[test]
fn load_rejects_arbitrary_bytes() {
    let bytes: Vec<u8> = vec![42, 1, 2, 3, 4, 5, 6, 7, 8, 9, 10];
    assert!(Blockchain::load(&bytes).is_err());
}

#[test]
fn load_rejects_broken_linkage() {
    let mut blnch = Blockchain::new();
    blnch.new_transaction("x".to_string(), "y".to_string(), 1);
    blnch.mint().unwrap();
    // Corrupt the linkage: the second block no longer points at the genesis
    // hash. The encoding itself stays structurally valid.
    blnch.chain[1].prev_hash = "not-the-genesis-hash".to_string();
    let bytes = blnch.save();
    assert!(Blockchain::load(&bytes).is_err());
}

#[test]
fn load_preserves_all_fields() {
    let mut blnch = Blockchain::new();
    blnch.new_transaction("Alice".to_string(), "Bob".to_string(), 100_000);
    blnch.mint().unwrap();
    let bytes = blnch.save();
    let loaded = Blockchain::load(&bytes).unwrap();
    let saved_tip = blnch.chain.last().unwrap();
    let loaded_tip = loaded.chain.last().unwrap();
    assert_eq!(saved_tip.header.timestamp, loaded_tip.header.timestamp);
    assert_eq!(saved_tip.header.nonce, loaded_tip.header.nonce);
    assert_eq!(saved_tip.tr_data, loaded_tip.tr_data);
    assert_eq!(saved_tip.hash, loaded_tip.hash);
    assert_eq!(saved_tip.prev_hash, loaded_tip.prev_hash);
}

#[test]
fn save_format_starts_with_block_count() {
    let blnch = Blockchain::new();
    let bytes = blnch.save();
    // One block (the genesis), as an 8-byte little-endian count.
    assert_eq!(&bytes[0..8], &[1, 0, 0, 0, 0, 0, 0, 0]);
}

#[test]
fn transaction_equality_is_structural() {
    let a = Transaction {
        from: "p".to_string(),
        to: "q".to_string(),
        amount: 5,
    };
    let b = Transaction {
        from: "p".to_string(),
        to: "q".to_string(),
        amount: 5,
    };
    let c = Transaction {
        from: "p".to_string(),
        to: "q".to_string(),
        amount: 6,
    };
    assert_eq!(a, b);
    assert_ne!(a, c);
}

#[test]
fn load_rejects_invalid_utf8_in_string_field() {
    let blnch = Blockchain::new();
    let mut bytes = blnch.save();
    // The first string is the genesis timestamp "0": 8 bytes of block count,
    // 8 bytes of string length, then its single UTF-8 byte. 0xff can start
    // no UTF-8 sequence.
    bytes[16] = 0xff;
    assert!(Blockchain::load(&bytes).is_err());
}
