//! Blocks and the proof-of-work gate. A block carries an ordinal index, a
//! timestamp, the hash of the prior block, an ordered list of transactions,
//! its own content hash, and the difficulty target it claims to meet. The
//! constructor computes the content hash; the ledger only checks it.

use vstd::prelude::*;
use crate::bytes::{be64, be_val, be_le, u64_be_bytes};
use crate::transaction::{Transaction, TxOutput, output_hash};

verus! {

/// A proof-of-work target: a 256-bit threshold held as big-endian bytes. A
/// hash meets the target when its value, read as a big-endian integer, is at
/// most the target's.
pub struct Difficulty {
    bytes: Vec<u8>,
}

impl View for Difficulty {
    type V = Seq<u8>;

    closed spec fn view(&self) -> Seq<u8> {
        self.bytes@
    }
}

impl Difficulty {
    /// The largest target: every hash of up to 32 bytes meets it.
    pub fn max_value() -> (r: Difficulty)
        ensures
            r@ == Seq::new(32, |i: int| 0xffu8),
    {
        let mut bytes: Vec<u8> = Vec::new();
        let mut i: usize = 0;
        while i < 32
            invariant
                0 <= i <= 32,
                bytes@ =~= Seq::new(i as nat, |j: int| 0xffu8),
            decreases 32 - i,
        {
            bytes.push(0xffu8);
            i += 1;
        }
        Difficulty { bytes }
    }

    /// A target given directly by its big-endian bytes.
    pub fn from_bytes(bytes: Vec<u8>) -> (r: Difficulty)
        ensures
            r@ == bytes@,
    {
        Difficulty { bytes }
    }
}

/// Whether `hash`, read as a big-endian integer, meets the target: the
/// proof-of-work acceptance predicate.
pub open spec fn spec_check_difficulty(hash: Seq<u8>, difficulty: Seq<u8>) -> bool {
    be_val(hash) <= be_val(difficulty)
}

/// The proof-of-work acceptance predicate: the block hash, read as a large
/// big-endian integer, must not exceed the difficulty target.
pub fn check_difficulty(hash: &crate::transaction::Hash, difficulty: &Difficulty) -> (r: bool)
    ensures
        r == spec_check_difficulty(hash@, difficulty@),
{
    be_le(hash, &difficulty.bytes)
}

/// A 32-byte digest folded from a byte string: byte `i` of the input is
/// exclusive-or'd into position `i mod 32`.
pub open spec fn fold_digest(s: Seq<u8>) -> Seq<u8>
    decreases s.len(),
{
    if s.len() == 0 {
        Seq::new(32, |i: int| 0u8)
    } else {
        let d = fold_digest(s.drop_last());
        let j = (s.len() - 1) % 32;
        d.update(j, d[j] ^ s.last())
    }
}

fn compute_fold_digest(s: &Vec<u8>) -> (r: Vec<u8>)
    ensures
        r@ == fold_digest(s@),
{
    let mut d: Vec<u8> = Vec::new();
    let mut i: usize = 0;
    while i < 32
        invariant
            0 <= i <= 32,
            d@ =~= Seq::new(i as nat, |j: int| 0u8),
        decreases 32 - i,
    {
        d.push(0u8);
        i += 1;
    }
    let n = s.len();
    let mut k: usize = 0;
    while k < n
        invariant
            n == s@.len(),
            0 <= k <= n,
            d@.len() == 32,
            d@ == fold_digest(s@.take(k as int)),
        decreases n - k,
    {
        proof {
            assert(s@.take(k + 1).drop_last() =~= s@.take(k as int));
            assert(s@.take(k + 1).last() == s@[k as int]);
        }
        let j = k % 32;
        let b = d[j] ^ s[k];
        d.set(j, b);
        proof {
            assert(d@ =~= fold_digest(s@.take(k + 1)));
        }
        k += 1;
    }
    proof {
        assert(s@.take(n as int) =~= s@);
    }
    d
}

/// The concatenated content hashes of a sequence of outputs.
pub open spec fn outputs_encoding(s: Seq<TxOutput>) -> Seq<u8>
    decreases s.len(),
{
    if s.len() == 0 {
        Seq::empty()
    } else {
        outputs_encoding(s.drop_last()) + output_hash(s.last())
    }
}

/// The content bytes of a transaction: its timestamp, then its inputs and
/// outputs, each counted and listed by content hash.
pub open spec fn tx_encoding(t: Transaction) -> Seq<u8> {
    be64(t.timestamp) + be64(t.inputs@.len() as u64) + outputs_encoding(t.inputs@) + be64(
        t.outputs@.len() as u64,
    ) + outputs_encoding(t.outputs@)
}

/// The concatenated content bytes of a sequence of transactions.
pub open spec fn txs_encoding(s: Seq<Transaction>) -> Seq<u8>
    decreases s.len(),
{
    if s.len() == 0 {
        Seq::empty()
    } else {
        txs_encoding(s.drop_last()) + tx_encoding(s.last())
    }
}

/// The content bytes of a block: every field that identifies it, with each
/// variable-length part preceded by its length.
pub open spec fn block_content(
    index: u32,
    timestamp: u64,
    previous_hash: Seq<u8>,
    transactions: Seq<Transaction>,
    difficulty: Seq<u8>,
) -> Seq<u8> {
    be64(index as u64) + be64(timestamp) + be64(previous_hash.len() as u64) + previous_hash + be64(
        difficulty.len() as u64,
    ) + difficulty + be64(transactions.len() as u64) + txs_encoding(transactions)
}

/// The content hash of a block: the 32-byte fold of its content bytes.
pub open spec fn block_hash(
    index: u32,
    timestamp: u64,
    previous_hash: Seq<u8>,
    transactions: Seq<Transaction>,
    difficulty: Seq<u8>,
) -> Seq<u8> {
    fold_digest(block_content(index, timestamp, previous_hash, transactions, difficulty))
}

fn append_outputs_encoding(buf: &mut Vec<u8>, outputs: &Vec<TxOutput>)
    ensures
        final(buf)@ == old(buf)@ + outputs_encoding(outputs@),
{
    let n = outputs.len();
    let mut i: usize = 0;
    while i < n
        invariant
            n == outputs@.len(),
            0 <= i <= n,
            buf@ == old(buf)@ + outputs_encoding(outputs@.take(i as int)),
        decreases n - i,
    {
        proof {
            assert(outputs@.take(i + 1).drop_last() =~= outputs@.take(i as int));
            assert(outputs@.take(i + 1).last() == outputs@[i as int]);
        }
        let h = outputs[i].hash();
        buf.extend_from_slice(h.as_slice());
        proof {
            assert(buf@ =~= old(buf)@ + outputs_encoding(outputs@.take(i + 1)));
        }
        i += 1;
    }
    proof {
        assert(outputs@.take(n as int) =~= outputs@);
    }
}

fn append_tx_encoding(buf: &mut Vec<u8>, t: &Transaction)
    ensures
        final(buf)@ == old(buf)@ + tx_encoding(*t),
{
    let ts = u64_be_bytes(t.timestamp);
    buf.extend_from_slice(ts.as_slice());
    let ni = u64_be_bytes(t.inputs.len() as u64);
    buf.extend_from_slice(ni.as_slice());
    append_outputs_encoding(buf, &t.inputs);
    let no = u64_be_bytes(t.outputs.len() as u64);
    buf.extend_from_slice(no.as_slice());
    append_outputs_encoding(buf, &t.outputs);
    proof {
        assert(buf@ =~= old(buf)@ + tx_encoding(*t));
    }
}

fn append_txs_encoding(buf: &mut Vec<u8>, transactions: &Vec<Transaction>)
    ensures
        final(buf)@ == old(buf)@ + txs_encoding(transactions@),
{
    let n = transactions.len();
    let mut i: usize = 0;
    while i < n
        invariant
            n == transactions@.len(),
            0 <= i <= n,
            buf@ == old(buf)@ + txs_encoding(transactions@.take(i as int)),
        decreases n - i,
    {
        proof {
            assert(transactions@.take(i + 1).drop_last() =~= transactions@.take(i as int));
            assert(transactions@.take(i + 1).last() == transactions@[i as int]);
        }
        append_tx_encoding(buf, &transactions[i]);
        proof {
            assert(buf@ =~= old(buf)@ + txs_encoding(transactions@.take(i + 1)));
        }
        i += 1;
    }
    proof {
        assert(transactions@.take(n as int) =~= transactions@);
    }
}

/// An ordered container of transactions with chain-linkage metadata and a
/// proof-of-work hash.
pub struct Block {
    pub index: u32,
    pub timestamp: u64,
    pub previous_hash: crate::transaction::Hash,
    pub transactions: Vec<Transaction>,
    pub hash: crate::transaction::Hash,
    pub difficulty: Difficulty,
}

impl Block {
    /// Builds a block and computes its content hash from every other field.
    pub fn new(
        index: u32,
        timestamp: u64,
        previous_hash: crate::transaction::Hash,
        transactions: Vec<Transaction>,
        difficulty: Difficulty,
    ) -> (b: Block)
        ensures
            b.index == index,
            b.timestamp == timestamp,
            b.previous_hash == previous_hash,
            b.transactions == transactions,
            b.difficulty == difficulty,
            b.hash@ == block_hash(index, timestamp, previous_hash@, transactions@, difficulty@),
    {
        let mut content = u64_be_bytes(index as u64);
        let ts = u64_be_bytes(timestamp);
        content.extend_from_slice(ts.as_slice());
        let np = u64_be_bytes(previous_hash.len() as u64);
        content.extend_from_slice(np.as_slice());
        content.extend_from_slice(previous_hash.as_slice());
        let nd = u64_be_bytes(difficulty.bytes.len() as u64);
        content.extend_from_slice(nd.as_slice());
        content.extend_from_slice(difficulty.bytes.as_slice());
        let nt = u64_be_bytes(transactions.len() as u64);
        content.extend_from_slice(nt.as_slice());
        append_txs_encoding(&mut content, &transactions);
        proof {
            assert(content@ =~= block_content(
                index,
                timestamp,
                previous_hash@,
                transactions@,
                difficulty@,
            ));
        }
        let hash = compute_fold_digest(&content);
        Block { index, timestamp, previous_hash, transactions, hash, difficulty }
    }
}

} // verus!
