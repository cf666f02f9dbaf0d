//! The per-peer coordinator state and the decision steps of the three
//! protocol handlers.  The coordinator owns the set of blocks whose rights
//! are mid-hand-off, the requests queued against them, and the cheapest
//! known migration target; the functions here make every routing and
//! bookkeeping decision, while the network calls between the steps stay
//! outside the library.

use vstd::prelude::*;
use std::collections::{HashMap, HashSet};
use crate::block::{Block, BlockId, Entry, InsertResult, Key, SIZE};
use crate::block::{
    insert_pos, same_outside1, same_outside2, split_left_internal_ok, split_right_internal_ok,
};
use crate::messages::GeneralRequest;
use crate::tree::{child_added_ok, find_rec, internal_arity_ok, BPTree};

verus! {

/// The coordinator's shared bookkeeping: blocks being handed off, requests
/// queued while their target migrates, and the lightest peer heard of over
/// gossip (the peer itself before any gossip arrives).
pub struct Coordinator {
    pub migrating: HashSet<BlockId>,
    pub queued: HashMap<BlockId, Vec<GeneralRequest>>,
    pub migrate_peer: u64,
    pub cur_peer_size: usize,
}

/// The queues as mathematics: each block id with the sequence of requests
/// pending against it, in arrival order.
pub open spec fn queues_of(c: Coordinator) -> Map<u64, Seq<GeneralRequest>> {
    c.queued@.map_values(|v: Vec<GeneralRequest>| v@)
}

/// What one enqueue does to the queues: the request is appended to the
/// target's queue, which is created if it did not exist.
pub open spec fn queue_put(
    m: Map<u64, Seq<GeneralRequest>>,
    id: u64,
    r: GeneralRequest,
) -> Map<u64, Seq<GeneralRequest>> {
    if m.contains_key(id) {
        m.insert(id, m[id].push(r))
    } else {
        m.insert(id, seq![r])
    }
}

/// Where the lease handler sends an inbound lease: queued against a
/// migrating block, inserted into a local leaf, forwarded along the leaf
/// sibling link when the key is no longer in the leaf's range, forwarded to
/// the providers of the frontier block when the descent left the local
/// shard, or dropped when the hint names no local block.
#[derive(Clone, Copy, Debug)]
pub enum LeaseRoute {
    Queue(BlockId),
    InsertLocal(BlockId),
    ForwardSibling(BlockId),
    ForwardProvider(BlockId),
    Drop,
}

/// What the remote-parent handler decides: record the child under the local
/// parent block, relay the request to the parent's right sibling because the
/// parent has itself split since, or drop a request naming no local block.
#[derive(Clone, Copy, Debug)]
pub enum RemoteParentOutcome {
    Forwarded(BlockId),
    Complete(BlockId),
    Split { right: BlockId, divider: Key, respond: BlockId },
    Dropped,
}

impl Coordinator {
    pub fn new(self_peer: u64) -> (c: Coordinator)
        ensures
            c.migrating@ == Set::<u64>::empty(),
            queues_of(c) == Map::<u64, Seq<GeneralRequest>>::empty(),
            c.migrate_peer == self_peer,
            c.cur_peer_size == usize::MAX,
    {
        let c = Coordinator {
            migrating: HashSet::new(),
            queued: HashMap::new(),
            migrate_peer: self_peer,
            cur_peer_size: usize::MAX,
        };
        proof {
            assert(queues_of(c) =~= Map::<u64, Seq<GeneralRequest>>::empty());
        }
        c
    }

    /// A gossip sample arrived: if the sender reports fewer blocks than the
    /// smallest count seen so far, it becomes the migration target.
    pub fn update_gossip(&mut self, sender: u64, size: usize)
        ensures
            size < old(self).cur_peer_size ==> final(self).migrate_peer == sender
                && final(self).cur_peer_size == size,
            size >= old(self).cur_peer_size ==> final(self).migrate_peer == old(self).migrate_peer
                && final(self).cur_peer_size == old(self).cur_peer_size,
            final(self).migrating@ == old(self).migrating@,
            final(self).queued@ == old(self).queued@,
    {
        if size < self.cur_peer_size {
            self.cur_peer_size = size;
            self.migrate_peer = sender;
        }
    }

    /// Routes an inbound lease (§ the lease handler's first decision): the
    /// descent from the hinted block finds the target; a migrating target
    /// queues the request, a local leaf that owns the key takes the insert,
    /// a leaf that no longer owns it forwards along the sibling link, an
    /// internal frontier block forwards to its providers, and a hint naming
    /// no local block is dropped as a protocol violation.
    pub fn route_lease(&self, tree: &BPTree, key: Key, hint: BlockId) -> (d: LeaseRoute)
        requires
            internal_arity_ok(tree.block_map@),
        ensures
            ({
                let m = tree.block_map@;
                if !m.contains_key(hint) {
                    d == LeaseRoute::Drop
                } else {
                    let cur = find_rec(m, hint, key, m.len());
                    if self.migrating@.contains(cur) {
                        d == LeaseRoute::Queue(cur)
                    } else if m[cur].is_leaf && key < m[cur].divider_key {
                        d == LeaseRoute::InsertLocal(cur)
                    } else if m[cur].is_leaf {
                        d == LeaseRoute::ForwardSibling(m[cur].next_block)
                    } else {
                        d == LeaseRoute::ForwardProvider(cur)
                    }
                }
            }),
    {
        if !tree.contains_block(hint) {
            return LeaseRoute::Drop;
        }
        let current = tree.find(hint, key);
        if self.migrating.contains(&current) {
            return LeaseRoute::Queue(current);
        }
        let b = tree.get_block(current);
        if b.is_leaf() {
            if key < b.return_divider_key() {
                LeaseRoute::InsertLocal(current)
            } else {
                LeaseRoute::ForwardSibling(b.return_next_block())
            }
        } else {
            LeaseRoute::ForwardProvider(current)
        }
    }

    /// Queues a request that raced the migration of its target block; it
    /// will be replayed to the new owner, in arrival order, once the
    /// hand-off completes.
    pub fn queue_request(&mut self, id: BlockId, request: GeneralRequest)
        ensures
            queues_of(*final(self)) == queue_put(queues_of(*old(self)), id, request),
            final(self).migrating@ == old(self).migrating@,
            final(self).migrate_peer == old(self).migrate_peer,
            final(self).cur_peer_size == old(self).cur_peer_size,
    {
        if self.queued.contains_key(&id) {
            let mut v = self.queued.remove(&id).unwrap();
            v.push(request);
            self.queued.insert(id, v);
            proof {
                assert(queues_of(*self) =~= queue_put(queues_of(*old(self)), id, request));
            }
        } else {
            let mut v: Vec<GeneralRequest> = Vec::new();
            v.push(request);
            self.queued.insert(id, v);
            proof {
                assert(v@ =~= seq![request]);
                assert(queues_of(*self) =~= queue_put(queues_of(*old(self)), id, request));
            }
        }
    }

    /// Marks a block as mid-migration: requests addressed to it are queued
    /// from now on, until the destination acknowledges.
    pub fn begin_migration(&mut self, id: BlockId)
        ensures
            final(self).migrating@ == old(self).migrating@.insert(id),
            final(self).queued@ == old(self).queued@,
            final(self).migrate_peer == old(self).migrate_peer,
            final(self).cur_peer_size == old(self).cur_peer_size,
    {
        self.migrating.insert(id);
    }

    /// The destination acknowledged the hand-off: the block leaves the
    /// local shard, its migrating mark is cleared, and every request queued
    /// against it is returned, in arrival order, for replay to the new
    /// owner.
    pub fn end_migration(&mut self, tree: &mut BPTree, id: BlockId) -> (pending: Vec<
        GeneralRequest,
    >)
        ensures
            final(tree).block_map@ == old(tree).block_map@.remove(id),
            final(tree).top_id == old(tree).top_id,
            internal_arity_ok(old(tree).block_map@) ==> internal_arity_ok(final(tree).block_map@),
            final(self).migrating@ == old(self).migrating@.remove(id),
            queues_of(*final(self)) == queues_of(*old(self)).remove(id),
            final(self).migrate_peer == old(self).migrate_peer,
            final(self).cur_peer_size == old(self).cur_peer_size,
            pending@ == if queues_of(*old(self)).contains_key(id) {
                queues_of(*old(self))[id]
            } else {
                Seq::<GeneralRequest>::empty()
            },
    {
        tree.remove_block(id);
        self.migrating.remove(&id);
        let pending = match self.queued.remove(&id) {
            Some(v) => v,
            None => Vec::new(),
        };
        proof {
            assert(queues_of(*self) =~= queues_of(*old(self)).remove(id));
        }
        pending
    }
}

/// The migration destination's handler: the block joins the local shard
/// under its own id, which the caller then advertises in the DHT before
/// acknowledging the source.
pub fn handle_migrate(tree: &mut BPTree, block: Block) -> (id: BlockId)
    ensures
        id == block.block_id,
        final(tree).block_map@ == old(tree).block_map@.insert(block.block_id, block),
        final(tree).top_id == old(tree).top_id,
        crate::tree::blocks_small(old(tree).block_map@) && block.keys@.len() < SIZE
            ==> crate::tree::blocks_small(final(tree).block_map@),
{
    let id = block.return_id();
    tree.add_block(id, block);
    id
}

/// The remote-parent handler: a split elsewhere produced a new child that
/// belongs under the local block `parent`.  If the key now lies beyond the
/// parent's divider the parent has itself split since, and the request is
/// relayed to its right sibling's holder.  Otherwise the child is recorded;
/// if that overflows the parent, the parent splits in turn and the answer
/// names the half that now owns the key, while the new right half awaits
/// migration.  A request naming no local block, or a corrupted parent
/// block, is dropped.
pub fn insert_on_remote_parent(tree: &mut BPTree, key: Key, parent: BlockId, child: BlockId) -> (d:
    RemoteParentOutcome)
    ensures
        ({
            let m0 = old(tree).block_map@;
            let m1 = final(tree).block_map@;
            &&& final(tree).top_id == old(tree).top_id
            &&& if !m0.contains_key(parent) {
                d == RemoteParentOutcome::Dropped && m1 == m0
            } else if key >= m0[parent].divider_key {
                d == RemoteParentOutcome::Forwarded(m0[parent].next_block) && m1 == m0
            } else {
                let b = m0[parent];
                let p = insert_pos(b.keys@, key);
                let ak = b.keys@.insert(p, key);
                let ac = b.children@.insert(p + 1, child);
                if !(b.block_id == parent && !b.is_leaf && b.keys@.len() < SIZE
                    && b.children@.len() == b.keys@.len() + 1) {
                    d == RemoteParentOutcome::Dropped && m1 == m0
                } else if ak.len() < SIZE {
                    &&& d == RemoteParentOutcome::Complete(parent)
                    &&& m1.contains_key(parent)
                    &&& child_added_ok(m1[parent], b, key, child)
                    &&& same_outside1(m0, m1, parent)
                } else {
                    d matches RemoteParentOutcome::Split { right, divider, respond } && {
                        &&& divider == ak[(SIZE / 2) as int]
                        &&& 1 <= right < u64::MAX
                        &&& right != parent
                        &&& respond == if key < divider {
                            parent
                        } else {
                            right
                        }
                        &&& m1.contains_key(parent)
                        &&& m1.contains_key(right)
                        &&& split_left_internal_ok(m1[parent], parent, b.parent, ak, ac, b.values@, right)
                        &&& split_right_internal_ok(m1[right], right, b.parent, ak, ac, b.divider_key, b.next_block)
                        &&& same_outside2(m0, m1, parent, right)
                    }
                }
            }
        }),
{
    if !tree.contains_block(parent) {
        return RemoteParentOutcome::Dropped;
    }
    let pb = tree.get_block(parent);
    if key >= pb.return_divider_key() {
        return RemoteParentOutcome::Forwarded(pb.return_next_block());
    }
    if pb.return_id() != parent || pb.is_leaf() || pb.keys.len() >= SIZE || pb.children.len()
        != pb.keys.len() + 1 {
        return RemoteParentOutcome::Dropped;
    }
    match tree.insert_child(key, child, parent) {
        InsertResult::Complete => RemoteParentOutcome::Complete(parent),
        InsertResult::RightBlock(right, divider) => {
            let respond = if key < divider {
                parent
            } else {
                right
            };
            RemoteParentOutcome::Split { right, divider, respond }
        },
    }
}

} // verus!
