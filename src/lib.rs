//! Ledger storage engine: an ordered key-value store split into five column
//! families, with per-height diffs for historical reads, atomic block
//! commits, single-step rollback and replay protection buckets.

pub mod block;
pub mod block_read;
pub mod codec;
pub mod config;
pub mod db;
pub mod dump;
pub mod error;
pub mod hex;
pub mod iter;
pub mod key;
pub mod kv;
pub mod laws;
pub mod pattern;
pub mod replay;
pub mod rollback;
pub mod subspace;
pub mod visitor;
