//! Core of a per-level leaderboard service: decryption of submitted payloads,
//! the master key, and the append-only store with its ranked read.

pub mod cipher;
pub mod store;
pub mod key;
pub mod intake;
