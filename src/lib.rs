//! A proof-of-work ledger node: blocks, transactions, chain validation,
//! the peer-to-peer wire format and the peer-set policy.

pub mod crypto;
pub mod encoding;
pub mod transaction;
pub mod block;
pub mod blockchain;
pub mod network;
pub mod wallet;
pub mod node;
