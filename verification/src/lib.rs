//! Replays a reward-only blockchain state model on a Merkle Patricia Trie and
//! archives per-block inclusion proofs with content-addressed deduplication.
//!
//! The engine keeps the set of known accounts, their states, and a
//! next-expected-block counter; every mutation is checked against the block's
//! declared state root before the counter advances.

pub mod account;
pub mod archive;
pub mod address;
pub mod balance;
pub mod block;
pub mod bytes;
pub mod codec;
pub mod config;
pub mod errors;
pub mod hashing;
pub mod state;
pub mod trie;
