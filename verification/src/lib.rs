//! A distributed B+ tree whose nodes ("blocks") are spread across a
//! peer-to-peer overlay.  This crate holds the verified core: the in-memory
//! B+ tree with splits, sibling links and divider-key semantics, the wire
//! message types, and the per-peer coordinator state machine that routes
//! leases, tracks migrating blocks and queues requests that race a
//! migration.  The network transport itself lives outside the library.

pub mod block;
pub mod coordinator;
pub mod laws;
pub mod messages;
pub mod tree;
