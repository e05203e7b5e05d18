//! A minimal ledger engine: signed value-transfer transactions over an
//! unspent-output ledger, batched into proof-of-work blocks on a linked chain.

pub mod block;
pub mod chain;
pub mod crypto;
pub mod encoding;
pub mod ledger;
pub mod transaction;
