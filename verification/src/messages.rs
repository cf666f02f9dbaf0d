//! The wire messages the peers exchange.  The library holds them as plain
//! values; the transport serialises them outside the library.

use vstd::prelude::*;
use crate::block::{Block, BlockId, Entry, Key};

verus! {

/// A request another peer may send: deposit an entry (a lease), take over a
/// block (a migration), or record a freshly split-off child under a parent
/// block held here.
#[derive(Clone, Debug)]
pub enum GeneralRequest {
    /// `(key, entry, block_id_hint)`: insert `entry` under `key`, entering
    /// the tree at the hinted block.
    LeaseRequest(Key, Entry, BlockId),
    /// The block itself travels; the receiver becomes its holder.
    MigrateRequest(Block),
    /// `(key, parent_id, child_id)`: a split produced `child_id`; the parent
    /// block lives on the receiving peer.
    InsertOnRemoteParent(Key, BlockId, BlockId),
}

/// The answers to the three requests.
#[derive(Clone, Copy, Debug)]
pub enum GeneralResponse {
    LeaseResponse,
    MigrateResponse,
    InsertOnRemoteParent,
}

/// A response body as it travels on the wire: the serialised text.
#[derive(Clone, Debug)]
pub struct GenericResponse(pub String);

} // verus!
