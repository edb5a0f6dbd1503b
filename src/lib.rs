//! Deposit-contract Merkle accounting and a height-indexed cache of
//! deposit-contract snapshots.

pub mod block_cache;
pub mod deposit_log;
pub mod deposit_tree;
pub mod hashing;
