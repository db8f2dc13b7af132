use minichain::block::{check_difficulty, Block, Difficulty};
use minichain::bytes::u64_be_bytes;
use minichain::ledger::{BlockChainError, Blockchain};
use minichain::transaction::{Transaction, TxOutput};

#[test]
fn u64_be_bytes_is_big_endian() {
    assert_eq!(
        vec![1u8, 2, 3, 4, 5, 6, 7, 8],
        u64_be_bytes(0x0102_0304_0506_0708)
    );
    assert_eq!(vec![0u8; 8], u64_be_bytes(0));
}

#[test]
fn output_hash_is_value_then_address_bytes() {
    let output = TxOutput { address: String::from("A"), value: 1 };
    assert_eq!(vec![0u8, 0, 0, 0, 0, 0, 0, 1, 65], output.hash());
    // The same content hashes identically.
    let again = TxOutput { address: String::from("A"), value: 1 };
    assert_eq!(output.hash(), again.hash());
    let other = TxOutput { address: String::from("A"), value: 2 };
    assert_ne!(output.hash(), other.hash());
}

#[test]
fn check_difficulty_compares_big_endian_values() {
    assert!(check_difficulty(&vec![1], &Difficulty::from_bytes(vec![2])));
    assert!(check_difficulty(&vec![2], &Difficulty::from_bytes(vec![2])));
    assert!(!check_difficulty(&vec![3], &Difficulty::from_bytes(vec![2])));
    // Leading zeroes do not change a value; lengths need not match.
    assert!(check_difficulty(&vec![0, 0, 5], &Difficulty::from_bytes(vec![5])));
    assert!(!check_difficulty(&vec![1, 0], &Difficulty::from_bytes(vec![255])));
    assert!(check_difficulty(&vec![1, 0], &Difficulty::from_bytes(vec![1, 0])));
}

#[test]
fn block_hash_is_deterministic() {
    let make = || {
        Block::new(
            1,
            7,
            Vec::new(),
            vec![Transaction { inputs: vec![], outputs: vec![], timestamp: 7 }],
            Difficulty::max_value(),
        )
    };
    let a = make();
    let b = make();
    assert_eq!(a.hash, b.hash);
    assert_eq!(32, a.hash.len());
}

#[test]
fn block_without_coinbase_is_rejected_unchanged() {
    let mut blockchain: Blockchain = Blockchain::new();
    let coin = TxOutput { address: String::from("Alice"), value: 10_000 };
    blockchain.add_unspent_output(coin.hash());
    let not_coinbase = Transaction {
        inputs: vec![TxOutput { address: String::from("Alice"), value: 10_000 }],
        outputs: vec![TxOutput { address: String::from("Bob"), value: 5_000 }],
        timestamp: 3,
    };
    let block = Block::new(1, 4, Vec::new(), vec![not_coinbase], Difficulty::max_value());
    let result = blockchain.aggregate_mined_block(block);
    assert!(matches!(result, Err(BlockChainError::NotACoinBaseError(_))));
    assert_eq!(0, blockchain.len());
    assert_eq!(1, blockchain.unspent_output_len());
    assert!(blockchain.unspent_contains(&coin.hash()));
}

#[test]
fn block_with_no_transactions_is_rejected() {
    let mut blockchain: Blockchain = Blockchain::new();
    let block = Block::new(1, 5, Vec::new(), Vec::new(), Difficulty::max_value());
    let result = blockchain.aggregate_mined_block(block);
    assert!(matches!(result, Err(BlockChainError::NotACoinBaseError(_))));
    assert_eq!(0, blockchain.len());
}

#[test]
fn block_failing_proof_of_work_is_rejected_unchanged() {
    let mut blockchain: Blockchain = Blockchain::new();
    let coin = TxOutput { address: String::from("Alice"), value: 10_000 };
    blockchain.add_unspent_output(coin.hash());
    let coinbase = Transaction {
        inputs: vec![],
        outputs: vec![TxOutput { address: String::from("Miner"), value: 50_000 }],
        timestamp: 6,
    };
    // An all-zero target: only an all-zero hash would meet it.
    let block = Block::new(1, 7, Vec::new(), vec![coinbase], Difficulty::from_bytes(vec![0; 32]));
    assert!(block.hash.iter().any(|b| *b != 0));
    let result = blockchain.aggregate_mined_block(block);
    assert!(matches!(result, Err(BlockChainError::ProofOfWorkError(_))));
    assert_eq!(0, blockchain.len());
    assert_eq!(1, blockchain.unspent_output_len());
    assert!(blockchain.unspent_contains(&coin.hash()));
}

#[test]
fn chained_candidate_links_to_previous_block() {
    let mut blockchain: Blockchain = Blockchain::new();
    let first = blockchain.create_candidate_block(
        5,
        String::from("Miner"),
        Difficulty::max_value(),
        8,
    );
    let first_hash = first.hash.clone();
    blockchain.aggregate_mined_block(first).unwrap();
    let second = blockchain.create_candidate_block(
        5,
        String::from("Miner"),
        Difficulty::max_value(),
        9,
    );
    assert_eq!(2, second.index);
    assert_eq!(first_hash, second.previous_hash);
}
