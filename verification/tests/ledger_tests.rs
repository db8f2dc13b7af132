use minichain::block::Difficulty;
use minichain::ledger::{BlockChainError, Blockchain};
use minichain::transaction::{Transaction, TxOutput, BLOCK_REWARD};

fn alice_outputs() -> Vec<TxOutput> {
    vec![
        TxOutput { address: String::from("Alice"), value: 10_000 },
        TxOutput { address: String::from("Alice"), value: 20_000 },
    ]
}

fn seed(blockchain: &mut Blockchain, outputs: &[TxOutput]) {
    for output in outputs {
        blockchain.add_unspent_output(output.hash());
    }
}

#[test]
fn add_transaction_to_pool() {
    // Given
    let mut blockchain: Blockchain = Blockchain::new();
    let unspent_outputs = alice_outputs();
    seed(&mut blockchain, &unspent_outputs);
    let transaction = Transaction {
        inputs: unspent_outputs,
        outputs: vec![
            TxOutput { address: String::from("Bob"), value: 25_000 },
            TxOutput { address: String::from("Bob"), value: 4_995 },
        ],
        timestamp: 11,
    };

    blockchain.add_transaction_to_pool(transaction).unwrap();
    assert_eq!(1, blockchain.pool_len());
    assert_eq!(2, blockchain.unspent_output_len());
}

#[test]
fn should_create_candidate_block() {
    let mut blockchain: Blockchain = Blockchain::new();
    let block = blockchain.create_candidate_block(
        5,
        String::from("Alice"),
        Difficulty::max_value(),
        22,
    );
    assert_eq!(1, block.index);
}

#[test]
fn candidate_block_on_empty_chain_is_coinbase_only() {
    let mut blockchain: Blockchain = Blockchain::new();
    let block = blockchain.create_candidate_block(
        5,
        String::from("Alice"),
        Difficulty::max_value(),
        33,
    );
    assert_eq!(1, block.index);
    assert!(block.previous_hash.is_empty());
    assert_eq!(1, block.transactions.len());
    assert!(block.transactions[0].is_coinbase());
    assert_eq!(1, block.transactions[0].outputs.len());
    assert_eq!("Alice", block.transactions[0].outputs[0].address);
    assert_eq!(BLOCK_REWARD, block.transactions[0].outputs[0].value);
}

#[test]
fn accepted_block_updates_unspent_outputs() {
    let mut blockchain: Blockchain = Blockchain::new();
    let unspent_outputs = alice_outputs();
    seed(&mut blockchain, &unspent_outputs);
    let bob_a = TxOutput { address: String::from("Bob"), value: 25_000 };
    let bob_b = TxOutput { address: String::from("Bob"), value: 4_995 };
    let transaction = Transaction {
        inputs: unspent_outputs,
        outputs: vec![bob_a, bob_b],
        timestamp: 44,
    };
    blockchain.add_transaction_to_pool(transaction).unwrap();

    let block = blockchain.create_candidate_block(
        5,
        String::from("Miner"),
        Difficulty::max_value(),
        55,
    );
    assert_eq!(0, blockchain.pool_len());
    assert_eq!(2, block.transactions.len());

    blockchain.aggregate_mined_block(block).unwrap();
    assert_eq!(1, blockchain.len());
    // The two consumed hashes left; the coinbase and two new outputs entered.
    assert_eq!(3, blockchain.unspent_output_len());
    let spent = alice_outputs();
    assert!(!blockchain.unspent_contains(&spent[0].hash()));
    assert!(!blockchain.unspent_contains(&spent[1].hash()));
    let miner = TxOutput { address: String::from("Miner"), value: BLOCK_REWARD };
    assert!(blockchain.unspent_contains(&miner.hash()));
    assert!(blockchain.unspent_contains(
        &TxOutput { address: String::from("Bob"), value: 25_000 }.hash()
    ));
    assert!(blockchain.unspent_contains(
        &TxOutput { address: String::from("Bob"), value: 4_995 }.hash()
    ));
}

#[test]
fn seeding_the_same_hash_twice_keeps_one_entry() {
    let mut blockchain: Blockchain = Blockchain::new();
    let coin = TxOutput { address: String::from("Alice"), value: 10_000 };
    blockchain.add_unspent_output(coin.hash());
    blockchain.add_unspent_output(coin.hash());
    assert_eq!(1, blockchain.unspent_output_len());
    assert!(blockchain.unspent_contains(&coin.hash()));
}

#[test]
fn second_claim_on_same_input_is_double_spending() {
    let mut blockchain: Blockchain = Blockchain::new();
    let coin = TxOutput { address: String::from("Alice"), value: 10_000 };
    blockchain.add_unspent_output(coin.hash());
    let first = Transaction {
        inputs: vec![TxOutput { address: String::from("Alice"), value: 10_000 }],
        outputs: vec![TxOutput { address: String::from("Bob"), value: 5_000 }],
        timestamp: 66,
    };
    blockchain.add_transaction_to_pool(first).unwrap();

    let second = Transaction {
        inputs: vec![TxOutput { address: String::from("Alice"), value: 10_000 }],
        outputs: vec![TxOutput { address: String::from("Carol"), value: 1_000 }],
        timestamp: 77,
    };
    let result = blockchain.add_transaction_to_pool(second);
    assert!(matches!(result, Err(BlockChainError::DoubleSpendingError(_))));
    assert_eq!(1, blockchain.pool_len());
}

#[test]
fn overspending_transaction_has_insufficient_funds() {
    let mut blockchain: Blockchain = Blockchain::new();
    // The inputs are not even spendable; the value check still comes first.
    let transaction = Transaction {
        inputs: vec![TxOutput { address: String::from("Alice"), value: 10_000 }],
        outputs: vec![TxOutput { address: String::from("Bob"), value: 30_000 }],
        timestamp: 88,
    };
    let result = blockchain.add_transaction_to_pool(transaction);
    assert!(matches!(result, Err(BlockChainError::InsufficientFundsError(_))));
    assert_eq!(0, blockchain.pool_len());
}

#[test]
fn unknown_input_is_not_spendable() {
    let mut blockchain: Blockchain = Blockchain::new();
    let transaction = Transaction {
        inputs: vec![TxOutput { address: String::from("Alice"), value: 10_000 }],
        outputs: vec![TxOutput { address: String::from("Bob"), value: 5_000 }],
        timestamp: 99,
    };
    let result = blockchain.add_transaction_to_pool(transaction);
    assert!(matches!(result, Err(BlockChainError::InputNotSpendableError(_))));
    assert_eq!(0, blockchain.pool_len());
}
