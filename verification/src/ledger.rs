//! The ledger: a chain of accepted blocks, a FIFO pool of pending
//! transactions, and the set of currently spendable output hashes. The three
//! state transitions — admitting a transaction to the pool, assembling a
//! candidate block, and accepting a mined block — are specified here in full:
//! each verdict is characterised exactly, and acceptance updates the spendable
//! set atomically.

use vstd::prelude::*;
use vstd::slice::slice_to_vec;
use crate::transaction::{Transaction, sum_values, tx_references, tx_creates, output_hash};
use crate::block::{Block, check_difficulty, spec_check_difficulty};

verus! {

/// Why an operation was refused, each case with a human-readable message.
#[derive(Debug)]
pub enum BlockChainError {
    ProofOfWorkError(String),
    NotACoinBaseError(String),
    InvalidTransactionError(String),
    InsufficientFundsError(String),
    InputNotSpendableError(String),
    DoubleSpendingError(String),
}

/// The outcome of a validation, with the message stripped: what the
/// contracts speak of.
pub enum Verdict {
    Accept,
    ProofOfWork,
    NotACoinBase,
    InvalidTransaction,
    InsufficientFunds,
    InputNotSpendable,
    DoubleSpending,
}

/// The verdict that a result carries.
pub open spec fn verdict_of(r: Result<(), BlockChainError>) -> Verdict {
    match r {
        Ok(_) => Verdict::Accept,
        Err(e) => match e {
            BlockChainError::ProofOfWorkError(_) => Verdict::ProofOfWork,
            BlockChainError::NotACoinBaseError(_) => Verdict::NotACoinBase,
            BlockChainError::InvalidTransactionError(_) => Verdict::InvalidTransaction,
            BlockChainError::InsufficientFundsError(_) => Verdict::InsufficientFunds,
            BlockChainError::InputNotSpendableError(_) => Verdict::InputNotSpendable,
            BlockChainError::DoubleSpendingError(_) => Verdict::DoubleSpending,
        },
    }
}

/// The views of a vector of hashes.
pub open spec fn views_of(hs: Seq<Vec<u8>>) -> Seq<Seq<u8>> {
    hs.map_values(|h: Vec<u8>| h@)
}

/// Whether some element of `hs` views as `h`.
pub open spec fn views_contain(hs: Seq<Vec<u8>>, h: Seq<u8>) -> bool {
    exists|j: int| 0 <= j < hs.len() && hs[j]@ == h
}

/// Whether some transaction in `pool` consumes the output hash `h`.
pub open spec fn pool_references(pool: Seq<Transaction>, h: Seq<u8>) -> bool {
    exists|i: int| 0 <= i < pool.len() && tx_references(pool[i], h)
}

/// The output hashes consumed by the non-coinbase transactions of a block's
/// transaction list.
pub open spec fn block_spent(txs: Seq<Transaction>) -> Set<Seq<u8>> {
    Set::new(|h: Seq<u8>| exists|i: int| 1 <= i < txs.len() && tx_references(txs[i], h))
}

/// The output hashes created by all transactions of a block's transaction
/// list, the coinbase included.
pub open spec fn block_created(txs: Seq<Transaction>) -> Set<Seq<u8>> {
    Set::new(|h: Seq<u8>| exists|i: int| 0 <= i < txs.len() && tx_creates(txs[i], h))
}

/// The ledger. It exclusively owns the chain, the pool, and the spendable
/// set; no other path mutates them.
pub struct Blockchain {
    blocks: Vec<Block>,
    transaction_pool: Vec<Transaction>,
    unspent_output: Vec<Vec<u8>>,
}

impl Blockchain {
    /// The accepted blocks, in order of acceptance.
    pub closed spec fn spec_blocks(self) -> Seq<Block> {
        self.blocks@
    }

    /// The pending transactions, first in first out.
    pub closed spec fn spec_pool(self) -> Seq<Transaction> {
        self.transaction_pool@
    }

    /// The spendable output hashes, as stored.
    pub closed spec fn unspent_views(self) -> Seq<Seq<u8>> {
        views_of(self.unspent_output@)
    }

    /// The set of currently spendable output hashes: the single source of
    /// truth for "is this output spendable".
    pub open spec fn spec_unspent(self) -> Set<Seq<u8>> {
        self.unspent_views().to_set()
    }

    /// The spendable set is stored without duplicates, so its stored length
    /// is its cardinality.
    pub closed spec fn wf(self) -> bool {
        self.unspent_views().no_duplicates()
    }

    /// Scans the inputs of `t` from position `i` on: the first input that is
    /// not currently spendable, or that a pooled transaction already claims,
    /// decides the verdict.
    pub open spec fn scan_inputs(self, t: Transaction, i: int) -> Verdict
        decreases t.inputs@.len() - i,
    {
        if i < 0 || i >= t.inputs@.len() {
            Verdict::Accept
        } else if !self.spec_unspent().contains(output_hash(t.inputs@[i])) {
            Verdict::InputNotSpendable
        } else if pool_references(self.spec_pool(), output_hash(t.inputs@[i])) {
            Verdict::DoubleSpending
        } else {
            self.scan_inputs(t, i + 1)
        }
    }

    /// The verdict on a transaction against the current state: insufficient
    /// funds when it creates more value than it consumes, otherwise the
    /// verdict of the input scan.
    pub open spec fn verify_spec(self, t: Transaction) -> Verdict {
        if sum_values(t.outputs@) > sum_values(t.inputs@) {
            Verdict::InsufficientFunds
        } else {
            self.scan_inputs(t, 0)
        }
    }

    /// Scans the non-coinbase transactions of a block from position `i` on:
    /// the first one that fails verification decides the verdict.
    pub open spec fn scan_txs(self, txs: Seq<Transaction>, i: int) -> Verdict
        decreases txs.len() - i,
    {
        if i < 1 || i >= txs.len() {
            Verdict::Accept
        } else if !(self.verify_spec(txs[i]) is Accept) {
            self.verify_spec(txs[i])
        } else {
            self.scan_txs(txs, i + 1)
        }
    }

    /// The verdict on a mined block: the proof-of-work gate first, then the
    /// coinbase requirement, then every other transaction in order against
    /// the current state.
    pub open spec fn aggregate_spec(self, block: Block) -> Verdict {
        if !spec_check_difficulty(block.hash@, block.difficulty@) {
            Verdict::ProofOfWork
        } else if block.transactions@.len() == 0 || block.transactions@[0].inputs@.len() != 0 {
            Verdict::NotACoinBase
        } else {
            self.scan_txs(block.transactions@, 1)
        }
    }

    /// The number of transactions a candidate block drains from the pool.
    pub open spec fn drain_count(self, transactions_count: usize) -> int {
        if self.spec_pool().len() < transactions_count {
            self.spec_pool().len() as int
        } else {
            transactions_count as int
        }
    }

    /// The index the next candidate block will carry.
    pub open spec fn candidate_index(self) -> int {
        if self.spec_blocks().len() == 0 {
            1
        } else {
            self.spec_blocks().last().index + 1
        }
    }

    /// The hash the next candidate block links back to: the last accepted
    /// block's, or the empty sentinel on an empty chain.
    pub open spec fn candidate_previous_hash(self) -> Seq<u8> {
        if self.spec_blocks().len() == 0 {
            Seq::empty()
        } else {
            self.spec_blocks().last().hash@
        }
    }

    proof fn lemma_unspent_membership(self)
        ensures
            forall|h: Seq<u8>|
                self.spec_unspent().contains(h) <==> views_contain(self.unspent_output@, h),
    {
        assert forall|h: Seq<u8>|
            self.spec_unspent().contains(h) <==> views_contain(self.unspent_output@, h) by {
            if self.spec_unspent().contains(h) {
                let j = choose|j: int|
                    0 <= j < self.unspent_views().len() && self.unspent_views()[j] == h;
                assert(self.unspent_output@[j]@ == h);
            }
            if views_contain(self.unspent_output@, h) {
                let j = choose|j: int|
                    0 <= j < self.unspent_output@.len() && self.unspent_output@[j]@ == h;
                assert(self.unspent_views()[j] == h);
                assert(self.unspent_views().contains(h));
            }
        }
    }

    /// An empty ledger: no blocks, no pending transactions, nothing
    /// spendable.
    pub fn new() -> (r: Blockchain)
        ensures
            r.wf(),
            r.spec_blocks() == Seq::<Block>::empty(),
            r.spec_pool() == Seq::<Transaction>::empty(),
            r.spec_unspent() == Set::<Seq<u8>>::empty(),
    {
        let r = Blockchain {
            blocks: Vec::new(),
            transaction_pool: Vec::new(),
            unspent_output: Vec::new(),
        };
        proof {
            assert(r.unspent_views() =~= Seq::<Seq<u8>>::empty());
            assert(r.spec_unspent() =~= Set::<Seq<u8>>::empty());
            assert(r.spec_blocks() =~= Seq::<Block>::empty());
            assert(r.spec_pool() =~= Seq::<Transaction>::empty());
        }
        r
    }

    /// The number of accepted blocks.
    pub fn len(&self) -> (r: usize)
        ensures
            r == self.spec_blocks().len(),
    {
        self.blocks.len()
    }

    /// The number of pending transactions in the pool.
    pub fn pool_len(&self) -> (r: usize)
        ensures
            r == self.spec_pool().len(),
    {
        self.transaction_pool.len()
    }

    /// The number of currently spendable output hashes.
    pub fn unspent_output_len(&self) -> (r: usize)
        requires
            self.wf(),
        ensures
            r == self.spec_unspent().len(),
    {
        proof {
            self.unspent_views().unique_seq_to_set();
        }
        self.unspent_output.len()
    }

    /// Whether the output hash `h` is currently spendable.
    pub fn unspent_contains(&self, h: &Vec<u8>) -> (r: bool)
        ensures
            r == self.spec_unspent().contains(h@),
    {
        proof {
            self.lemma_unspent_membership();
        }
        hash_in(&self.unspent_output, h)
    }

    /// Marks an output hash as spendable. Seeds the ledger with outputs that
    /// predate it; acceptance of a block does this itself.
    pub fn add_unspent_output(&mut self, hash: Vec<u8>)
        requires
            old(self).wf(),
        ensures
            final(self).wf(),
            final(self).spec_unspent() == old(self).spec_unspent().insert(hash@),
            final(self).spec_pool() == old(self).spec_pool(),
            final(self).spec_blocks() == old(self).spec_blocks(),
    {
        proof {
            old(self).lemma_unspent_membership();
        }
        let present = hash_in(&self.unspent_output, &hash);
        if !present {
            let ghost oldviews = self.unspent_views();
            self.unspent_output.push(hash);
            proof {
                assert(self.unspent_views() =~= oldviews.push(hash@));
                assert forall|i: int, j: int|
                    0 <= i < j < self.unspent_views().len() implies self.unspent_views()[i]
                    != self.unspent_views()[j] by {
                    if j == oldviews.len() {
                        assert(!views_contain(old(self).unspent_output@, hash@));
                        assert(old(self).unspent_output@[i]@ != hash@);
                    }
                }
                self.lemma_unspent_membership();
                assert forall|h2: Seq<u8>|
                    self.spec_unspent().contains(h2) <==> old(self).spec_unspent().insert(
                        hash@,
                    ).contains(h2) by {
                    lemma_views_contain_push(old(self).unspent_output@, hash, h2);
                }
                assert(self.spec_unspent() =~= old(self).spec_unspent().insert(hash@));
            }
        } else {
            proof {
                self.lemma_unspent_membership();
                assert(old(self).spec_unspent().contains(hash@));
                assert forall|h2: Seq<u8>|
                    self.spec_unspent().contains(h2) <==> old(self).spec_unspent().insert(
                        hash@,
                    ).contains(h2) by {}
                assert(self.spec_unspent() =~= old(self).spec_unspent().insert(hash@));
            }
        }
    }

    /// Validates a transaction against the current spendable set and pool:
    /// it must not create value, every input must be spendable, and no input
    /// may already be claimed by a pooled transaction.
    pub fn verify_transaction(&self, transaction: &Transaction) -> (r: Result<
        (),
        BlockChainError,
    >)
        ensures
            verdict_of(r) == self.verify_spec(*transaction),
    {
        if !transaction.is_spendable() {
            return Err(
                BlockChainError::InsufficientFundsError(
                    "Transaction output is grater than input.".to_owned(),
                ),
            );
        }
        let n = transaction.inputs.len();
        let mut i: usize = 0;
        while i < n
            invariant
                n == transaction.inputs@.len(),
                0 <= i <= n,
                sum_values(transaction.outputs@) <= sum_values(transaction.inputs@),
                self.scan_inputs(*transaction, 0) == self.scan_inputs(*transaction, i as int),
            decreases n - i,
        {
            let h = transaction.inputs[i].hash();
            if !self.unspent_contains(&h) {
                return Err(
                    BlockChainError::InputNotSpendableError("Input is not spendable.".to_owned()),
                );
            }
            if pool_has_input(&self.transaction_pool, &h) {
                return Err(
                    BlockChainError::DoubleSpendingError("Double spending attempt.".to_owned()),
                );
            }
            i += 1;
        }
        Ok(())
    }

    /// Validates a transaction and, on success, appends it to the pool. The
    /// spendable set is untouched: outputs count as spent only once a block
    /// consuming them is accepted.
    pub fn add_transaction_to_pool(&mut self, transaction: Transaction) -> (r: Result<
        (),
        BlockChainError,
    >)
        requires
            old(self).wf(),
        ensures
            final(self).wf(),
            verdict_of(r) == old(self).verify_spec(transaction),
            r is Err ==> *final(self) == *old(self),
            r is Ok ==> final(self).spec_pool() == old(self).spec_pool().push(transaction)
                && final(self).spec_blocks() == old(self).spec_blocks()
                && final(self).spec_unspent() == old(self).spec_unspent(),
    {
        match self.verify_transaction(&transaction) {
            Ok(_) => {},
            Err(e) => {
                return Err(e);
            },
        }
        self.transaction_pool.push(transaction);
        Ok(())
    }

    /// Assembles an unmined candidate block: a fresh coinbase paying the
    /// miner the fixed reward, followed by up to `transactions_count` pool
    /// transactions, drained first in first out. The drained transactions
    /// leave the pool now, whether or not the block is ever accepted.
    pub fn create_candidate_block(
        &mut self,
        transactions_count: usize,
        miner_address: String,
        difficulty: crate::block::Difficulty,
        timestamp: u64,
    ) -> (b: Block)
        requires
            old(self).wf(),
            old(self).spec_blocks().len() > 0 ==> old(self).spec_blocks().last().index
                < u32::MAX,
        ensures
            final(self).wf(),
            final(self).spec_blocks() == old(self).spec_blocks(),
            final(self).spec_unspent() == old(self).spec_unspent(),
            final(self).spec_pool() == old(self).spec_pool().skip(
                old(self).drain_count(transactions_count),
            ),
            b.index == old(self).candidate_index(),
            b.timestamp == timestamp,
            b.previous_hash@ == old(self).candidate_previous_hash(),
            b.difficulty == difficulty,
            b.transactions@.len() == 1 + old(self).drain_count(transactions_count),
            b.transactions@[0].inputs@.len() == 0,
            b.transactions@[0].outputs@.len() == 1,
            b.transactions@[0].outputs@[0].address@ == miner_address@,
            b.transactions@[0].outputs@[0].value == crate::transaction::BLOCK_REWARD,
            b.transactions@[0].timestamp == timestamp,
            forall|j: int|
                1 <= j < b.transactions@.len() ==> b.transactions@[j] == old(self).spec_pool()[j
                    - 1],
            b.hash@ == crate::block::block_hash(
                b.index,
                b.timestamp,
                b.previous_hash@,
                b.transactions@,
                b.difficulty@,
            ),
    {
        let nblocks = self.blocks.len();
        let mut candidate_index: u32 = 0;
        let mut previous_hash: Vec<u8> = Vec::new();
        if nblocks > 0 {
            candidate_index = self.blocks[nblocks - 1].index;
            previous_hash = slice_to_vec(self.blocks[nblocks - 1].hash.as_slice());
        }
        let pool_size = self.transaction_pool.len();
        let k = if pool_size < transactions_count {
            pool_size
        } else {
            transactions_count
        };
        let mut outputs: Vec<crate::transaction::TxOutput> = Vec::new();
        outputs.push(
            crate::transaction::TxOutput {
                address: miner_address,
                value: crate::transaction::BLOCK_REWARD,
            },
        );
        let coinbase = Transaction { inputs: Vec::new(), outputs, timestamp };
        let ghost cb = coinbase;
        let mut transactions: Vec<Transaction> = Vec::new();
        transactions.push(coinbase);
        let mut j: usize = 0;
        while j < k
            invariant
                0 <= j <= k <= old(self).transaction_pool@.len(),
                self.blocks == old(self).blocks,
                self.unspent_output == old(self).unspent_output,
                self.transaction_pool@ == old(self).transaction_pool@.skip(j as int),
                transactions@ =~= seq![cb] + old(self).transaction_pool@.take(j as int),
            decreases k - j,
        {
            let t = self.transaction_pool.remove(0);
            transactions.push(t);
            proof {
                assert(self.transaction_pool@ =~= old(self).transaction_pool@.skip(j + 1));
                assert(transactions@ =~= seq![cb] + old(self).transaction_pool@.take(j + 1));
            }
            j += 1;
        }
        Block::new(candidate_index + 1, timestamp, previous_hash, transactions, difficulty)
    }

    /// The sole path by which a block enters the chain: the proof-of-work
    /// gate, the coinbase requirement, and re-verification of every other
    /// transaction all pass, and only then — atomically — the consumed
    /// output hashes leave the spendable set, the created ones enter it, and
    /// the block is appended. On any failure the ledger is unchanged.
    pub fn aggregate_mined_block(&mut self, block: Block) -> (r: Result<(), BlockChainError>)
        requires
            old(self).wf(),
        ensures
            final(self).wf(),
            verdict_of(r) == old(self).aggregate_spec(block),
            r is Err ==> *final(self) == *old(self),
            r is Ok ==> final(self).spec_blocks() == old(self).spec_blocks().push(block)
                && final(self).spec_pool() == old(self).spec_pool()
                && final(self).spec_unspent() == old(self).spec_unspent().difference(
                block_spent(block.transactions@),
            ).union(block_created(block.transactions@)),
    {
        if !check_difficulty(&block.hash, &block.difficulty) {
            return Err(
                BlockChainError::ProofOfWorkError("Block is not correctly mined".to_owned()),
            );
        }
        let n = block.transactions.len();
        if n == 0 {
            return Err(
                BlockChainError::NotACoinBaseError(
                    "First transaction in block must be a coinbase.".to_owned(),
                ),
            );
        }
        if !block.transactions[0].is_coinbase() {
            return Err(
                BlockChainError::NotACoinBaseError(
                    "First transaction in block must be a coinbase.".to_owned(),
                ),
            );
        }
        let mut output_spent: Vec<Vec<u8>> = Vec::new();
        let mut output_created: Vec<Vec<u8>> = Vec::new();
        append_output_hashes(&mut output_created, &block.transactions[0]);
        proof {
            assert forall|h: Seq<u8>|
                views_contain(output_created@, h) <==> (exists|i2: int|
                    0 <= i2 < 1 && tx_creates(block.transactions@[i2], h)) by {
                if views_contain(output_created@, h) {
                    assert(tx_creates(block.transactions@[0], h));
                }
            }
        }
        let mut i: usize = 1;
        while i < n
            invariant
                n == block.transactions@.len(),
                1 <= i <= n,
                *self == *old(self),
                self.wf(),
                spec_check_difficulty(block.hash@, block.difficulty@),
                block.transactions@[0].inputs@.len() == 0,
                old(self).scan_txs(block.transactions@, 1) == old(self).scan_txs(
                    block.transactions@,
                    i as int,
                ),
                forall|h: Seq<u8>|
                    views_contain(output_spent@, h) <==> exists|i2: int|
                        1 <= i2 < i && tx_references(block.transactions@[i2], h),
                forall|h: Seq<u8>|
                    views_contain(output_created@, h) <==> exists|i2: int|
                        0 <= i2 < i && tx_creates(block.transactions@[i2], h),
            decreases n - i,
        {
            match self.verify_transaction(&block.transactions[i]) {
                Ok(_) => {},
                Err(e) => {
                    proof {
                        assert(!(old(self).verify_spec(block.transactions@[i as int]) is Accept));
                        assert(old(self).scan_txs(block.transactions@, i as int) == old(
                            self,
                        ).verify_spec(block.transactions@[i as int]));
                    }
                    return Err(e);
                },
            }
            let ghost spent_before = output_spent@;
            let ghost created_before = output_created@;
            append_input_hashes(&mut output_spent, &block.transactions[i]);
            append_output_hashes(&mut output_created, &block.transactions[i]);
            proof {
                assert forall|h: Seq<u8>|
                    views_contain(output_spent@, h) <==> (exists|i2: int|
                        1 <= i2 < i + 1 && tx_references(block.transactions@[i2], h)) by {
                    if views_contain(output_spent@, h) {
                        if views_contain(spent_before, h) {
                            let i2 = choose|i2: int|
                                1 <= i2 < i && tx_references(block.transactions@[i2], h);
                            assert(1 <= i2 < i + 1 && tx_references(block.transactions@[i2], h));
                        } else {
                            assert(tx_references(block.transactions@[i as int], h));
                        }
                    }
                    if exists|i2: int| 1 <= i2 < i + 1 && tx_references(block.transactions@[i2], h) {
                        let i2 = choose|i2: int|
                            1 <= i2 < i + 1 && tx_references(block.transactions@[i2], h);
                        if i2 < i {
                            assert(views_contain(spent_before, h));
                        }
                        assert(views_contain(output_spent@, h));
                    }
                }
                assert forall|h: Seq<u8>|
                    views_contain(output_created@, h) <==> (exists|i2: int|
                        0 <= i2 < i + 1 && tx_creates(block.transactions@[i2], h)) by {
                    if views_contain(output_created@, h) {
                        if views_contain(created_before, h) {
                            let i2 = choose|i2: int|
                                0 <= i2 < i && tx_creates(block.transactions@[i2], h);
                            assert(0 <= i2 < i + 1 && tx_creates(block.transactions@[i2], h));
                        } else {
                            assert(tx_creates(block.transactions@[i as int], h));
                        }
                    }
                    if exists|i2: int| 0 <= i2 < i + 1 && tx_creates(block.transactions@[i2], h) {
                        let i2 = choose|i2: int|
                            0 <= i2 < i + 1 && tx_creates(block.transactions@[i2], h);
                        if i2 < i {
                            assert(views_contain(created_before, h));
                        }
                        assert(views_contain(output_created@, h));
                    }
                }
            }
            i += 1;
        }
        proof {
            old(self).lemma_unspent_membership();
        }
        let ghost unspent_before = self.unspent_output@;
        retain_not_spent(&mut self.unspent_output, &output_spent);
        let ghost unspent_mid = self.unspent_output@;
        insert_created(&mut self.unspent_output, &output_created);
        self.blocks.push(block);
        proof {
            self.lemma_unspent_membership();
            let txs = block.transactions@;
            assert forall|h: Seq<u8>|
                self.spec_unspent().contains(h) <==> old(self).spec_unspent().difference(
                    block_spent(txs),
                ).union(block_created(txs)).contains(h) by {
                assert(views_contain(output_spent@, h) == block_spent(txs).contains(h));
                assert(views_contain(output_created@, h) == block_created(txs).contains(h));
                assert(views_contain(unspent_mid, h) <==> views_contain(unspent_before, h)
                    && !views_contain(output_spent@, h));
                assert(self.spec_unspent().contains(h) <==> views_contain(unspent_mid, h)
                    || views_contain(output_created@, h));
            }
            assert(self.spec_unspent() =~= old(self).spec_unspent().difference(
                block_spent(block.transactions@),
            ).union(block_created(block.transactions@)));
        }
        Ok(())
    }
}

/// Whether some element of `v` holds the same bytes as `h`.
fn hash_in(v: &Vec<Vec<u8>>, h: &Vec<u8>) -> (r: bool)
    ensures
        r == views_contain(v@, h@),
{
    let n = v.len();
    let mut i: usize = 0;
    while i < n
        invariant
            n == v@.len(),
            0 <= i <= n,
            forall|j: int| 0 <= j < i ==> v@[j]@ != h@,
        decreases n - i,
    {
        if crate::bytes::bytes_eq(&v[i], h) {
            return true;
        }
        i += 1;
    }
    false
}

/// Whether transaction `t` consumes the output hash `h`.
fn tx_has_input(t: &Transaction, h: &Vec<u8>) -> (r: bool)
    ensures
        r == tx_references(*t, h@),
{
    let n = t.inputs.len();
    let mut i: usize = 0;
    while i < n
        invariant
            n == t.inputs@.len(),
            0 <= i <= n,
            forall|k: int| 0 <= k < i ==> output_hash(t.inputs@[k]) != h@,
        decreases n - i,
    {
        let ih = t.inputs[i].hash();
        if crate::bytes::bytes_eq(&ih, h) {
            return true;
        }
        i += 1;
    }
    false
}

/// Whether some pooled transaction consumes the output hash `h`.
fn pool_has_input(pool: &Vec<Transaction>, h: &Vec<u8>) -> (r: bool)
    ensures
        r == pool_references(pool@, h@),
{
    let n = pool.len();
    let mut i: usize = 0;
    while i < n
        invariant
            n == pool@.len(),
            0 <= i <= n,
            forall|j: int| 0 <= j < i ==> !tx_references(pool@[j], h@),
        decreases n - i,
    {
        if tx_has_input(&pool[i], h) {
            return true;
        }
        i += 1;
    }
    false
}

proof fn lemma_views_contain_push(hs: Seq<Vec<u8>>, x: Vec<u8>, h: Seq<u8>)
    ensures
        views_contain(hs.push(x), h) <==> views_contain(hs, h) || x@ == h,
{
    if views_contain(hs.push(x), h) {
        let j = choose|j: int| 0 <= j < hs.push(x).len() && hs.push(x)[j]@ == h;
        if j < hs.len() {
            assert(hs.push(x)[j] == hs[j]);
            assert(hs[j]@ == h);
            assert(views_contain(hs, h));
        } else {
            assert(j == hs.len());
            assert(hs.push(x)[j] == x);
        }
    }
    if views_contain(hs, h) {
        let j = choose|j: int| 0 <= j < hs.len() && hs[j]@ == h;
        assert(hs.push(x)[j]@ == h);
        assert(views_contain(hs.push(x), h));
    }
    if x@ == h {
        assert(hs.push(x)[hs.len() as int]@ == h);
        assert(views_contain(hs.push(x), h));
    }
}

/// Appends the hashes of the outputs `t` consumes.
fn append_input_hashes(dst: &mut Vec<Vec<u8>>, t: &Transaction)
    ensures
        forall|h: Seq<u8>|
            #![trigger views_contain(final(dst)@, h)]
            views_contain(final(dst)@, h) <==> views_contain(old(dst)@, h) || tx_references(*t, h),
{
    let hs = t.input_hashes();
    let n = hs.len();
    let mut i: usize = 0;
    while i < n
        invariant
            n == hs@.len() == t.inputs@.len(),
            0 <= i <= n,
            forall|k: int| 0 <= k < n ==> hs@[k]@ == output_hash(t.inputs@[k]),
            forall|h: Seq<u8>|
                views_contain(dst@, h) <==> views_contain(old(dst)@, h) || exists|k: int|
                    0 <= k < i && output_hash(t.inputs@[k]) == h,
        decreases n - i,
    {
        let ghost dst_before = dst@;
        let y = slice_to_vec(hs[i].as_slice());
        dst.push(y);
        proof {
            assert forall|h: Seq<u8>|
                views_contain(dst@, h) <==> (views_contain(old(dst)@, h) || (exists|k: int|
                    0 <= k < i + 1 && output_hash(t.inputs@[k]) == h)) by {
                lemma_views_contain_push(dst_before, y, h);
                if views_contain(dst@, h) {
                    if views_contain(dst_before, h) && !views_contain(old(dst)@, h) {
                        let k = choose|k: int| 0 <= k < i && output_hash(t.inputs@[k]) == h;
                        assert(0 <= k < i + 1 && output_hash(t.inputs@[k]) == h);
                    }
                }
                if views_contain(old(dst)@, h) {
                    assert(views_contain(dst_before, h));
                    assert(views_contain(dst@, h));
                }
                if exists|k: int| 0 <= k < i + 1 && output_hash(t.inputs@[k]) == h {
                    let k = choose|k: int| 0 <= k < i + 1 && output_hash(t.inputs@[k]) == h;
                    if k < i {
                        assert(views_contain(dst_before, h));
                    } else {
                        assert(hs@[i as int]@ == output_hash(t.inputs@[i as int]));
                        assert(y@ == h);
                    }
                    assert(views_contain(dst@, h));
                }
            }
        }
        i += 1;
    }
}

/// Appends the hashes of the outputs `t` creates.
fn append_output_hashes(dst: &mut Vec<Vec<u8>>, t: &Transaction)
    ensures
        forall|h: Seq<u8>|
            #![trigger views_contain(final(dst)@, h)]
            views_contain(final(dst)@, h) <==> views_contain(old(dst)@, h) || tx_creates(*t, h),
{
    let hs = t.output_hashes();
    let n = hs.len();
    let mut i: usize = 0;
    while i < n
        invariant
            n == hs@.len() == t.outputs@.len(),
            0 <= i <= n,
            forall|k: int| 0 <= k < n ==> hs@[k]@ == output_hash(t.outputs@[k]),
            forall|h: Seq<u8>|
                views_contain(dst@, h) <==> views_contain(old(dst)@, h) || exists|k: int|
                    0 <= k < i && output_hash(t.outputs@[k]) == h,
        decreases n - i,
    {
        let ghost dst_before = dst@;
        let y = slice_to_vec(hs[i].as_slice());
        dst.push(y);
        proof {
            assert forall|h: Seq<u8>|
                views_contain(dst@, h) <==> (views_contain(old(dst)@, h) || (exists|k: int|
                    0 <= k < i + 1 && output_hash(t.outputs@[k]) == h)) by {
                lemma_views_contain_push(dst_before, y, h);
                if views_contain(dst@, h) {
                    if views_contain(dst_before, h) && !views_contain(old(dst)@, h) {
                        let k = choose|k: int| 0 <= k < i && output_hash(t.outputs@[k]) == h;
                        assert(0 <= k < i + 1 && output_hash(t.outputs@[k]) == h);
                    }
                }
                if views_contain(old(dst)@, h) {
                    assert(views_contain(dst_before, h));
                    assert(views_contain(dst@, h));
                }
                if exists|k: int| 0 <= k < i + 1 && output_hash(t.outputs@[k]) == h {
                    let k = choose|k: int| 0 <= k < i + 1 && output_hash(t.outputs@[k]) == h;
                    if k < i {
                        assert(views_contain(dst_before, h));
                    } else {
                        assert(hs@[i as int]@ == output_hash(t.outputs@[i as int]));
                        assert(y@ == h);
                    }
                    assert(views_contain(dst@, h));
                }
            }
        }
        i += 1;
    }
}

fn retain_not_spent(unspent: &mut Vec<Vec<u8>>, spent: &Vec<Vec<u8>>)
    requires
        views_of(old(unspent)@).no_duplicates(),
    ensures
        views_of(final(unspent)@).no_duplicates(),
        forall|h: Seq<u8>|
            views_contain(final(unspent)@, h) <==> views_contain(old(unspent)@, h)
                && !views_contain(spent@, h),
{
    let n = unspent.len();
    let mut kept: Vec<Vec<u8>> = Vec::new();
    let mut i: usize = 0;
    while i < n
        invariant
            n == unspent@.len(),
            0 <= i <= n,
            views_of(unspent@).no_duplicates(),
            views_of(kept@).no_duplicates(),
            forall|h: Seq<u8>|
                views_contain(kept@, h) <==> (exists|j: int| 0 <= j < i && unspent@[j]@ == h)
                    && !views_contain(spent@, h),
        decreases n - i,
    {
        let ghost kept_before = kept@;
        if !hash_in(spent, &unspent[i]) {
            proof {
                assert(!views_contain(kept_before, unspent@[i as int]@)) by {
                    if views_contain(kept_before, unspent@[i as int]@) {
                        let j = choose|j: int| 0 <= j < i && unspent@[j]@ == unspent@[i as int]@;
                        assert(views_of(unspent@)[j] == views_of(unspent@)[i as int]);
                    }
                }
            }
            let y = slice_to_vec(unspent[i].as_slice());
            kept.push(y);
            proof {
                assert(views_of(kept@) =~= views_of(kept_before).push(unspent@[i as int]@));
                assert forall|a: int, b: int|
                    0 <= a < b < views_of(kept@).len() implies views_of(kept@)[a] != views_of(
                    kept@,
                )[b] by {
                    if b == kept_before.len() {
                        assert(views_of(kept_before)[a] == kept_before[a]@);
                        assert(views_contain(kept_before, kept_before[a]@));
                    }
                }
            }
        }
        proof {
            assert forall|h: Seq<u8>|
                views_contain(kept@, h) <==> ((exists|j: int| 0 <= j < i + 1 && unspent@[j]@ == h)
                    && !views_contain(spent@, h)) by {
                if kept@ != kept_before {
                    lemma_views_contain_push(kept_before, kept@[kept_before.len() as int], h);
                    assert(kept@ =~= kept_before.push(kept@[kept_before.len() as int]));
                }
                if views_contain(kept@, h) {
                    if views_contain(kept_before, h) {
                        let j = choose|j: int| 0 <= j < i && unspent@[j]@ == h;
                        assert(0 <= j < i + 1 && unspent@[j]@ == h);
                    } else {
                        assert(unspent@[i as int]@ == h);
                    }
                }
                if (exists|j: int| 0 <= j < i + 1 && unspent@[j]@ == h) && !views_contain(
                    spent@,
                    h,
                ) {
                    let j = choose|j: int| 0 <= j < i + 1 && unspent@[j]@ == h;
                    if j < i {
                        assert(views_contain(kept_before, h));
                    } else {
                        assert(unspent@[i as int]@ == h);
                    }
                    assert(views_contain(kept@, h));
                }
            }
        }
        i += 1;
    }
    *unspent = kept;
}

/// Inserts each hash of `created` that is not already present.
fn insert_created(unspent: &mut Vec<Vec<u8>>, created: &Vec<Vec<u8>>)
    requires
        views_of(old(unspent)@).no_duplicates(),
    ensures
        views_of(final(unspent)@).no_duplicates(),
        forall|h: Seq<u8>|
            views_contain(final(unspent)@, h) <==> views_contain(old(unspent)@, h)
                || views_contain(created@, h),
{
    let n = created.len();
    let mut i: usize = 0;
    while i < n
        invariant
            n == created@.len(),
            0 <= i <= n,
            views_of(unspent@).no_duplicates(),
            forall|h: Seq<u8>|
                views_contain(unspent@, h) <==> views_contain(old(unspent)@, h) || (exists|k: int|
                    0 <= k < i && created@[k]@ == h),
        decreases n - i,
    {
        let ghost unspent_before = unspent@;
        if !hash_in(unspent, &created[i]) {
            let y = slice_to_vec(created[i].as_slice());
            unspent.push(y);
            proof {
                assert(views_of(unspent@) =~= views_of(unspent_before).push(
                    created@[i as int]@,
                ));
                assert forall|a: int, b: int|
                    0 <= a < b < views_of(unspent@).len() implies views_of(unspent@)[a]
                    != views_of(unspent@)[b] by {
                    if b == unspent_before.len() {
                        assert(views_of(unspent_before)[a] == unspent_before[a]@);
                        assert(views_contain(unspent_before, unspent_before[a]@));
                    }
                }
            }
        }
        proof {
            assert forall|h: Seq<u8>|
                views_contain(unspent@, h) <==> (views_contain(old(unspent)@, h) || (exists|k: int|
                    0 <= k < i + 1 && created@[k]@ == h)) by {
                if unspent@ != unspent_before {
                    lemma_views_contain_push(
                        unspent_before,
                        unspent@[unspent_before.len() as int],
                        h,
                    );
                    assert(unspent@ =~= unspent_before.push(
                        unspent@[unspent_before.len() as int],
                    ));
                }
                if views_contain(unspent@, h) {
                    if views_contain(unspent_before, h) {
                        if !views_contain(old(unspent)@, h) {
                            let k = choose|k: int| 0 <= k < i && created@[k]@ == h;
                            assert(0 <= k < i + 1 && created@[k]@ == h);
                        }
                    } else {
                        assert(created@[i as int]@ == h);
                    }
                }
                if views_contain(old(unspent)@, h) {
                    assert(views_contain(unspent_before, h));
                    assert(views_contain(unspent@, h));
                }
                if exists|k: int| 0 <= k < i + 1 && created@[k]@ == h {
                    let k = choose|k: int| 0 <= k < i + 1 && created@[k]@ == h;
                    if k < i {
                        assert(views_contain(unspent_before, h));
                        assert(views_contain(unspent@, h));
                    } else {
                        assert(created@[i as int]@ == h);
                        assert(views_contain(unspent@, h));
                    }
                }
            }
        }
        i += 1;
    }
}

} // verus!
