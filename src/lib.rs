//! A proof-of-work block-tree with fork choice, orphan reconciliation,
//! gossip message handling and the decisions of a single-threaded miner.

pub mod block;
pub mod blockchain;
pub mod bytes;
pub mod hash;
pub mod mempool;
pub mod miner;
pub mod state;
pub mod transaction;
pub mod worker;
