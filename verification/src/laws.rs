//! The ledger's laws, stated once and proved over the same spec functions
//! that the operations' contracts use.

use vstd::prelude::*;
use crate::transaction::{Transaction, sum_values, output_hash};
use crate::ledger::{Blockchain, Verdict, pool_references};
use crate::block::{Block, spec_check_difficulty};

verus! {

/// UTXO conservation: for a block that spends no hash it also creates,
/// accepting it leaves the spendable set at (previous set with the created
/// hashes added) minus the spent hashes. `aggregate_mined_block`'s contract
/// states the update as (previous minus spent) plus created; the two forms
/// coincide whenever the spent and created hashes are disjoint.
pub proof fn lemma_utxo_conservation(prev: Set<Seq<u8>>, spent: Set<Seq<u8>>, created: Set<Seq<u8>>)
    requires
        spent.disjoint(created),
    ensures
        prev.difference(spent).union(created) == prev.union(created).difference(spent),
{
    assert(prev.difference(spent).union(created) =~= prev.union(created).difference(spent));
}

/// No double spend: a transaction that conserves value and whose inputs are
/// all currently spendable, but one of which is already claimed by a pooled
/// transaction, is judged a double spend. By `add_transaction_to_pool`'s
/// contract the call then returns `DoubleSpendingError` and the ledger is
/// unchanged.
pub proof fn lemma_double_spend_rejected(chain: Blockchain, t: Transaction)
    requires
        sum_values(t.outputs@) <= sum_values(t.inputs@),
        forall|k: int|
            0 <= k < t.inputs@.len() ==> chain.spec_unspent().contains(
                #[trigger] output_hash(t.inputs@[k]),
            ),
        exists|k: int|
            0 <= k < t.inputs@.len() && pool_references(
                chain.spec_pool(),
                #[trigger] output_hash(t.inputs@[k]),
            ),
    ensures
        chain.verify_spec(t) == Verdict::DoubleSpending,
{
    let k0 = choose|k: int|
        0 <= k < t.inputs@.len() && pool_references(
            chain.spec_pool(),
            #[trigger] output_hash(t.inputs@[k]),
        );
    lemma_scan_finds_double_spend(chain, t, 0, k0);
}

proof fn lemma_scan_finds_double_spend(chain: Blockchain, t: Transaction, i: int, k: int)
    requires
        0 <= i <= k < t.inputs@.len(),
        forall|k2: int|
            i <= k2 < t.inputs@.len() ==> chain.spec_unspent().contains(
                #[trigger] output_hash(t.inputs@[k2]),
            ),
        pool_references(chain.spec_pool(), output_hash(t.inputs@[k])),
    ensures
        chain.scan_inputs(t, i) == Verdict::DoubleSpending,
    decreases k - i,
{
    if !pool_references(chain.spec_pool(), output_hash(t.inputs@[i])) {
        lemma_scan_finds_double_spend(chain, t, i + 1, k);
    }
}

/// Spendability: a transaction that creates more value than it consumes is
/// refused for insufficient funds, whatever its inputs. By
/// `add_transaction_to_pool`'s contract the call then returns
/// `InsufficientFundsError` and the ledger is unchanged.
pub proof fn lemma_insufficient_funds_rejected(chain: Blockchain, t: Transaction)
    requires
        sum_values(t.outputs@) > sum_values(t.inputs@),
    ensures
        chain.verify_spec(t) == Verdict::InsufficientFunds,
{
}

/// Coinbase requirement: a block that passes the proof-of-work gate but whose
/// transaction list is empty or opens with a transaction that has inputs is
/// refused. By `aggregate_mined_block`'s contract the call then returns
/// `NotACoinBaseError` and the chain, the pool and the spendable set are
/// unchanged.
pub proof fn lemma_coinbase_required(chain: Blockchain, block: Block)
    requires
        spec_check_difficulty(block.hash@, block.difficulty@),
        block.transactions@.len() == 0 || block.transactions@[0].inputs@.len() > 0,
    ensures
        chain.aggregate_spec(block) == Verdict::NotACoinBase,
{
}

/// Proof-of-work gate: a block whose hash does not meet its stated difficulty
/// target is refused before anything else is examined. By
/// `aggregate_mined_block`'s contract the call then returns
/// `ProofOfWorkError` and the ledger is unchanged.
pub proof fn lemma_proof_of_work_gate(chain: Blockchain, block: Block)
    requires
        !spec_check_difficulty(block.hash@, block.difficulty@),
    ensures
        chain.aggregate_spec(block) == Verdict::ProofOfWork,
{
}

} // verus!
