//! Transactions and their outputs. A transaction consumes a sequence of
//! previously created outputs and produces new ones; it is a coinbase when it
//! consumes nothing, and spendable when it creates no more value than it
//! consumes. Outputs are identified by a content hash of their fields.

use vstd::prelude::*;
use vstd::utf8::encode_utf8;
use vstd::arithmetic::mul::lemma_mul_inequality;
use crate::bytes::{be64, u64_be_bytes};

verus! {

/// A content hash: an opaque, comparable byte identifier.
pub type Hash = Vec<u8>;

/// The fixed reward paid by a coinbase transaction, in thousandths of a coin.
pub const BLOCK_REWARD: u64 = 50000;

/// A spendable amount assigned to an address. Values are counted in
/// thousandths of a coin.
pub struct TxOutput {
    pub address: String,
    pub value: u64,
}

/// The content hash of an output: its value in big-endian bytes followed by
/// the UTF-8 bytes of its address. Two outputs with identical content hash
/// identically.
pub open spec fn output_hash(o: TxOutput) -> Seq<u8> {
    be64(o.value) + encode_utf8(o.address@)
}

/// The total value of a sequence of outputs.
pub open spec fn sum_values(s: Seq<TxOutput>) -> int
    decreases s.len(),
{
    if s.len() == 0 {
        0
    } else {
        sum_values(s.drop_last()) + s.last().value
    }
}

pub proof fn lemma_sum_values_bound(s: Seq<TxOutput>)
    ensures
        0 <= sum_values(s) <= s.len() * (u64::MAX as int),
    decreases s.len(),
{
    if s.len() > 0 {
        lemma_sum_values_bound(s.drop_last());
        lemma_mul_inequality(s.len() - 1, s.len() as int, u64::MAX as int);
    }
}

impl TxOutput {
    /// The content hash of this output.
    pub fn hash(&self) -> (r: Hash)
        ensures
            r@ == output_hash(*self),
    {
        let mut r = u64_be_bytes(self.value);
        r.extend_from_slice(self.address.as_str().as_bytes());
        proof {
            assert(r@ =~= output_hash(*self));
        }
        r
    }
}

/// A value-transfer record: the outputs it consumes, the outputs it creates,
/// and the time it was made.
pub struct Transaction {
    pub inputs: Vec<TxOutput>,
    pub outputs: Vec<TxOutput>,
    pub timestamp: u64,
}

/// Whether `t` consumes an output whose content hash is `h`.
pub open spec fn tx_references(t: Transaction, h: Seq<u8>) -> bool {
    exists|k: int| 0 <= k < t.inputs@.len() && output_hash(t.inputs@[k]) == h
}

/// Whether `t` creates an output whose content hash is `h`.
pub open spec fn tx_creates(t: Transaction, h: Seq<u8>) -> bool {
    exists|k: int| 0 <= k < t.outputs@.len() && output_hash(t.outputs@[k]) == h
}

/// The total value of a vector of outputs. The sum of fewer than `usize::MAX`
/// 64-bit values fits in 128 bits.
fn sum_of(outputs: &Vec<TxOutput>) -> (r: u128)
    ensures
        r == sum_values(outputs@),
{
    let n = outputs.len();
    let mut acc: u128 = 0;
    let mut i: usize = 0;
    while i < n
        invariant
            n == outputs@.len(),
            0 <= i <= n,
            acc == sum_values(outputs@.take(i as int)),
        decreases n - i,
    {
        proof {
            lemma_sum_values_bound(outputs@.take(i + 1));
            lemma_mul_inequality(i + 1, u64::MAX as int, u64::MAX as int);
            assert(outputs@.take(i + 1).drop_last() =~= outputs@.take(i as int));
            assert(outputs@.take(i + 1).last() == outputs@[i as int]);
        }
        acc = acc + outputs[i].value as u128;
        i += 1;
    }
    proof {
        assert(outputs@.take(n as int) =~= outputs@);
    }
    acc
}

impl Transaction {
    /// A transaction is a coinbase exactly when it consumes no outputs.
    pub fn is_coinbase(&self) -> (r: bool)
        ensures
            r == (self.inputs@.len() == 0),
    {
        self.inputs.len() == 0
    }

    /// A transaction is spendable exactly when it creates no more value than
    /// it consumes.
    pub fn is_spendable(&self) -> (r: bool)
        ensures
            r == (sum_values(self.inputs@) >= sum_values(self.outputs@)),
    {
        sum_of(&self.inputs) >= sum_of(&self.outputs)
    }

    /// The content hashes of the outputs this transaction consumes, in order.
    pub fn input_hashes(&self) -> (r: Vec<Hash>)
        ensures
            r@.len() == self.inputs@.len(),
            forall|k: int| 0 <= k < r@.len() ==> r@[k]@ == output_hash(self.inputs@[k]),
    {
        hashes_of(&self.inputs)
    }

    /// The content hashes of the outputs this transaction creates, in order.
    pub fn output_hashes(&self) -> (r: Vec<Hash>)
        ensures
            r@.len() == self.outputs@.len(),
            forall|k: int| 0 <= k < r@.len() ==> r@[k]@ == output_hash(self.outputs@[k]),
    {
        hashes_of(&self.outputs)
    }
}

/// The content hashes of a vector of outputs, in order.
fn hashes_of(outputs: &Vec<TxOutput>) -> (r: Vec<Hash>)
    ensures
        r@.len() == outputs@.len(),
        forall|k: int| 0 <= k < r@.len() ==> r@[k]@ == output_hash(outputs@[k]),
{
    let n = outputs.len();
    let mut r: Vec<Hash> = Vec::new();
    let mut i: usize = 0;
    while i < n
        invariant
            n == outputs@.len(),
            0 <= i <= n,
            r@.len() == i,
            forall|k: int| 0 <= k < i ==> r@[k]@ == output_hash(outputs@[k]),
        decreases n - i,
    {
        r.push(outputs[i].hash());
        i += 1;
    }
    r
}

} // verus!
