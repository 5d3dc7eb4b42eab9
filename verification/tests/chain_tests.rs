use powchain::block::{Block, Header};
use powchain::blockchain::Blockchain;
use powchain::transaction::Transaction;
use rand::Rng;

#[test]
fn main_new_blockchain_test() {
    let blnch: Blockchain = Blockchain::new();
    let genesis = Block {
        header: Header {
            timestamp: String::from("0"),
            nonce: 0u128,
        },
        tr_data: Transaction {
            from: String::from("Satoshi"),
            to: String::from("GENESIS"),
            amount: 100_000_000,
        },
        hash: chrono::Utc::now().timestamp().to_string(),
        prev_hash: String::from("0"),
    };
    assert_eq!(blnch.chain.first().unwrap(), &genesis);
}

#[test]
fn new_blockchain_test() {
    let blnch: Blockchain = Blockchain::new();
    let genesis = Block {
        header: Header {
            timestamp: "0".to_string(),
            nonce: 0u128,
        },
        tr_data: Transaction {
            from: "Satoshi".to_string(),
            to: "GENESIS".to_string(),
            amount: 100_000_000,
        },
        hash: chrono::Utc::now().timestamp().to_string(),
        prev_hash: "0".to_string(),
    };
    assert_eq!(blnch.chain.first().unwrap(), &genesis);
}

#[test]
fn blockchain_new_blockchain_test() {
    let blnch: Blockchain = Blockchain::new();
    let genesis = Block {
        header: Header {
            timestamp: String::from("0"),
            nonce: 0u128,
        },
        tr_data: Transaction {
            from: String::from("Satoshi"),
            to: String::from("GENESIS"),
            amount: 100_000_000,
        },
        hash: chrono::Utc::now().timestamp().to_string(),
        prev_hash: String::from("0"),
    };
    assert_eq!(blnch.chain.first().unwrap(), &genesis);
}

#[test]
fn main_new_transaction_test() {
    let mut blnch: Blockchain = Blockchain::new();
    for _index in 0..3 {
        blnch.new_transaction(
            "Sender".to_string(),
            "Receiver".to_string(),
            rand::thread_rng().gen_range(0..100_000_000 as u64),
        );
    }
    assert_eq!(blnch.tr_queue.len(), 3);
}

#[test]
fn new_transaction_test() {
    let mut blnch: Blockchain = Blockchain::new();
    for _index in 0..3 {
        blnch.new_transaction(
            "Sender".to_string(),
            "Receiver".to_string(),
            rand::thread_rng().gen_range(0..100_000_000 as u64),
        );
    }
    assert_eq!(blnch.tr_queue.len(), 3);
}

#[test]
fn blockchain_new_transaction_test() {
    let mut blnch: Blockchain = Blockchain::new();
    blnch.new_transaction(
        String::from("sender"),
        String::from("receiver"),
        rand::thread_rng().gen_range(0..100_000_000 as u64),
    );
    assert_eq!(blnch.tr_queue.len(), 1);
}

#[test]
fn new_block_test() {
    let mut blnch: Blockchain = Blockchain::new();
    let tr_data = Transaction {
        from: "Sender".to_string(),
        to: "Reciever".to_string(),
        amount: rand::thread_rng().gen_range(0..100_000_000 as u64),
    };
    blnch.tr_queue.push_back(tr_data);
    blnch.mint().unwrap();
    assert_eq!(blnch.chain.len(), 2);
    assert_eq!(blnch.tr_queue.len(), 0);
}

#[test]
fn mint_test() {
    let mut blnch: Blockchain = Blockchain::new();
    blnch.tr_queue.push_back(Transaction {
        from: "Sender".to_string(),
        to: "Receiver".to_string(),
        amount: rand::thread_rng().gen_range(0..100_000_000 as u64),
    });
    blnch.mint().unwrap();
    assert_eq!(blnch.chain.len(), 2);
    assert!(
        blnch
            .chain
            .last()
            .unwrap()
            .clone()
            .hash
            .chars()
            .filter(|&c| c == '1')
            .count()
            >= 6
    );
}

#[test]
fn blockchain_mint_test() {
    let mut blnch: Blockchain = Blockchain::new();
    blnch.tr_queue.push_back(Transaction {
        from: String::from("Sender"),
        to: String::from("Receiver"),
        amount: 21u64,
    });
    blnch.mint().unwrap();
    assert_eq!(blnch.chain.len(), 2);
    assert!(
        blnch
            .chain
            .last()
            .unwrap()
            .clone()
            .hash
            .chars()
            .filter(|&c| c == '1')
            .count()
            >= 6
    );
}

#[test]
fn fork_test() {
    let mut blnch: Blockchain = Blockchain::new();
    let blocks = blnch.chain.len();
    let duration_sec: u64 = 1000;
    blnch.fork(duration_sec); // will stop if the largest chain is found or time is out
    assert_ne!(blocks, blnch.chain.len());
}
