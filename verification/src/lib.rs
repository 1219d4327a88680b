//! Verified core of a Raft-style replicated key-value store.
//!
//! The crate covers the pieces of such a system whose correctness is purely
//! logical: per-follower replication progress (binary-search conflict
//! probing, log-reversion policy), the storage contract (log store, state
//! machine, hard state and snapshot metadata), and the byte codec in which
//! snapshots travel. Durable and networked realizations of the storage
//! contract live outside the verified library and hand it plain values.

pub mod codec;
pub mod engine;
pub mod progress;
pub mod sm;
pub mod store;
pub mod types;
