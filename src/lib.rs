//! Core of a blockchain node: a priority transaction pool with its admission
//! rules, the checks that a block header and a consensus proof must pass, and a
//! bounded write-through cache in front of the store that backs the state trie.
pub mod consensus;
pub mod cross_client;
pub mod mempool;
pub mod pool;
pub mod storage;
pub mod trie_db;
pub mod types;
