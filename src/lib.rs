//! An append-only ledger with proof-of-work sealing, fork truncation,
//! a transaction pool that is sealed in batches, and peer gossip.
//!
//! The logic is verified. Hashing, hex and JSON string escaping, calendar
//! formatting and the system clock are reached through a few trusted
//! wrappers in `codec`; network and file plumbing lives outside.
pub mod codec;
pub mod chain;
pub mod miner;
pub mod blockchain;
pub mod node;
