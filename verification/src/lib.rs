//! A single-node ledger state machine: a chain of blocks, a pool of pending
//! transactions, and the set of currently spendable outputs, together with the
//! rules under which a candidate block is assembled and a mined block is
//! accepted into the chain.

pub mod bytes;
pub mod transaction;
pub mod block;
pub mod ledger;
pub mod laws;
