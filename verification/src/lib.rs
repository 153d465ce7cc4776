//! Core chain engine of a proof-of-work full node: block acceptance and fork
//! choice, difficulty retargeting, chain proofs, account proofs and the peer
//! connection pool.

pub mod account;
pub mod accounts;
pub mod accounts_laws;
pub mod accounts_proof;
pub mod accounts_tree_node;
pub mod address;
pub mod bigint;
pub mod block;
pub mod blockchain;
pub mod chain_info;
pub mod chain_proof;
pub mod chain_store;
pub mod connection_pool;
pub mod bytes;
pub mod hash;
pub mod hexadecimal;
pub mod locators;
pub mod merkle;
pub mod network;
pub mod nibbles;
pub mod pbkdf2;
pub mod policy;
pub mod push;
pub mod rebranch;
pub mod retarget;
pub mod sparse_vec;
pub mod super_chain;
pub mod target;
pub mod transaction;
pub mod transaction_cache;
