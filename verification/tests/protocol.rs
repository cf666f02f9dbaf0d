use bplus_dht::block::{Block, Entry};
use bplus_dht::coordinator::{
    handle_migrate, insert_on_remote_parent, Coordinator, LeaseRoute, RemoteParentOutcome,
};
use bplus_dht::messages::{GeneralRequest, GeneralResponse, GenericResponse};
use bplus_dht::tree::BPTree;

fn entry(owner: u64, key: u64) -> Entry {
    Entry::new(owner, key)
}

fn leaf(id: u64, parent: u64, divider: u64, next: u64) -> Block {
    let mut b = Block::new();
    b.block_id = id;
    b.parent = parent;
    b.divider_key = divider;
    b.next_block = next;
    b
}

#[test]
fn gossip_tracks_lightest_peer() {
    let mut c = Coordinator::new(7);
    assert_eq!(c.migrate_peer, 7);
    assert_eq!(c.cur_peer_size, usize::MAX);
    c.update_gossip(100, 10);
    assert_eq!(c.migrate_peer, 100);
    assert_eq!(c.cur_peer_size, 10);
    c.update_gossip(200, 20);
    assert_eq!(c.migrate_peer, 100);
    c.update_gossip(300, 10);
    assert_eq!(c.migrate_peer, 100);
    c.update_gossip(400, 3);
    assert_eq!(c.migrate_peer, 400);
    assert_eq!(c.cur_peer_size, 3);
}

#[test]
fn lease_for_local_leaf_inserts_locally() {
    let mut tree = BPTree::new();
    tree.add_block(10, leaf(10, 0, u64::MAX, 0));
    tree.set_top_id(10);
    let c = Coordinator::new(1);
    match c.route_lease(&tree, 42, 10) {
        LeaseRoute::InsertLocal(id) => assert_eq!(id, 10),
        _ => panic!("the only leaf owns every key"),
    }
}

/// A lease for key 40 reaches a leaf whose divider key is 35: the holder
/// forwards it along the sibling link.
#[test]
fn lease_beyond_divider_forwards_to_sibling() {
    let mut tree = BPTree::new();
    tree.add_block(10, leaf(10, 0, 35, 777));
    tree.set_top_id(10);
    let c = Coordinator::new(1);
    match c.route_lease(&tree, 40, 10) {
        LeaseRoute::ForwardSibling(next) => assert_eq!(next, 777),
        _ => panic!("a key at or past the divider leaves along the chain"),
    }
    match c.route_lease(&tree, 34, 10) {
        LeaseRoute::InsertLocal(id) => assert_eq!(id, 10),
        _ => panic!("a key below the divider stays"),
    }
}

#[test]
fn lease_at_frontier_forwards_to_providers() {
    let mut tree = BPTree::new();
    let mut internal = Block::new();
    internal.block_id = 50;
    internal.is_leaf = false;
    internal.keys = vec![40];
    internal.children = vec![111, 222];
    tree.add_block(50, internal);
    tree.set_top_id(50);
    let c = Coordinator::new(1);
    match c.route_lease(&tree, 10, 50) {
        LeaseRoute::ForwardProvider(id) => assert_eq!(id, 50),
        _ => panic!("the frontier block's holder must be asked"),
    }
}

#[test]
fn lease_for_unknown_hint_is_dropped() {
    let tree = BPTree::new();
    let c = Coordinator::new(1);
    match c.route_lease(&tree, 10, 123) {
        LeaseRoute::Drop => {}
        _ => panic!("a hint naming no local block is a protocol violation"),
    }
}

#[test]
fn lease_for_migrating_block_is_queued() {
    let mut tree = BPTree::new();
    tree.add_block(10, leaf(10, 0, u64::MAX, 0));
    tree.set_top_id(10);
    let mut c = Coordinator::new(1);
    c.begin_migration(10);
    match c.route_lease(&tree, 42, 10) {
        LeaseRoute::Queue(id) => assert_eq!(id, 10),
        _ => panic!("requests against a migrating block must wait"),
    }
}

/// Two leases race the migration of block 10; both are queued in arrival
/// order and handed back together when the destination acknowledges.
#[test]
fn queued_leases_replay_in_arrival_order() {
    let mut tree = BPTree::new();
    tree.add_block(10, leaf(10, 0, u64::MAX, 0));
    tree.set_top_id(10);
    let mut c = Coordinator::new(1);
    c.begin_migration(10);
    c.queue_request(10, GeneralRequest::LeaseRequest(41, entry(5, 41), 10));
    c.queue_request(10, GeneralRequest::LeaseRequest(42, entry(6, 42), 10));
    let pending = c.end_migration(&mut tree, 10);
    assert_eq!(pending.len(), 2);
    match &pending[0] {
        GeneralRequest::LeaseRequest(k, e, hint) => {
            assert_eq!(*k, 41);
            assert_eq!(e.myid, 5);
            assert_eq!(*hint, 10);
        }
        _ => panic!("first queued request"),
    }
    match &pending[1] {
        GeneralRequest::LeaseRequest(k, _, _) => assert_eq!(*k, 42),
        _ => panic!("second queued request"),
    }
    assert!(!tree.contains_block(10));
    // a fresh migration of the same id starts with an empty queue
    let none = c.end_migration(&mut tree, 10);
    assert!(none.is_empty());
}

#[test]
fn migrate_installs_block_at_destination() {
    let mut tree = BPTree::new();
    let mut b = leaf(0, 3, 90, 4);
    b.set_block_id();
    b.add_entry(7, entry(2, 7));
    let id = b.return_id();
    let got = handle_migrate(&mut tree, b);
    assert_eq!(got, id);
    assert!(tree.contains_block(id));
    let stored = tree.get_block(id);
    assert_eq!(stored.keys, vec![7]);
    assert_eq!(stored.return_divider_key(), 90);
}

/// A remote-parent insert arrives for a parent that has itself split: the
/// key 50 lies past the parent's divider 45, so the request is relayed to
/// the parent's right sibling.
#[test]
fn remote_parent_insert_past_divider_is_relayed() {
    let mut tree = BPTree::new();
    let mut p = Block::new();
    p.block_id = 70;
    p.is_leaf = false;
    p.keys = vec![20];
    p.children = vec![1, 2];
    p.divider_key = 45;
    p.next_block = 71;
    tree.add_block(70, p);
    match insert_on_remote_parent(&mut tree, 50, 70, 9) {
        RemoteParentOutcome::Forwarded(next) => assert_eq!(next, 71),
        _ => panic!("a key past the divider belongs to the right sibling"),
    }
}

#[test]
fn remote_parent_insert_records_child() {
    let mut tree = BPTree::new();
    let mut p = Block::new();
    p.block_id = 70;
    p.is_leaf = false;
    p.keys = vec![20];
    p.children = vec![1, 2];
    p.divider_key = 1000;
    tree.add_block(70, p);
    match insert_on_remote_parent(&mut tree, 40, 70, 9) {
        RemoteParentOutcome::Complete(id) => assert_eq!(id, 70),
        _ => panic!("the parent absorbs the child"),
    }
    let p = tree.get_block(70);
    assert_eq!(p.keys, vec![20, 40]);
    assert_eq!(p.children, vec![1, 2, 9]);
}

#[test]
fn remote_parent_insert_splitting_names_owner() {
    let mut tree = BPTree::new();
    let mut p = Block::new();
    p.block_id = 70;
    p.is_leaf = false;
    p.keys = vec![10, 20, 30, 40];
    p.children = vec![1, 2, 3, 4, 5];
    p.divider_key = 1000;
    tree.add_block(70, p);
    // keys become [10, 15, 20, 30, 40]; the median 20 is promoted, and the
    // key 15 stays in the left half, so the answer names the parent
    match insert_on_remote_parent(&mut tree, 15, 70, 9) {
        RemoteParentOutcome::Split { right, divider, respond } => {
            assert_eq!(divider, 20);
            assert_eq!(respond, 70);
            assert!(tree.contains_block(right));
            assert_eq!(tree.get_block(right).keys, vec![30, 40]);
        }
        _ => panic!("the fifth key splits the parent"),
    }
}

#[test]
fn remote_parent_insert_for_unknown_block_is_dropped() {
    let mut tree = BPTree::new();
    match insert_on_remote_parent(&mut tree, 15, 70, 9) {
        RemoteParentOutcome::Dropped => {}
        _ => panic!("no local parent block 70"),
    }
}

/// Two peers: the root holder inserts five keys, the split's right half
/// migrates to the empty peer, and a later lease for a key in the migrated
/// range stops at the sender's local frontier while the new owner can
/// insert it locally.
#[test]
fn split_then_migrate_moves_right_half() {
    let mut tree_a = BPTree::new();
    let mut root = Block::new();
    root.set_block_id();
    let leaf_id = root.return_id();
    tree_a.add_block(leaf_id, root);
    tree_a.set_top_id(leaf_id);
    let mut right_id = 0;
    for k in [10u64, 20, 30, 40, 50] {
        let target = tree_a.find(tree_a.get_top_id(), k);
        if let bplus_dht::block::InsertResult::RightBlock(r, _) =
            tree_a.insert(target, k, entry(1, k))
        {
            right_id = r;
        }
    }
    assert_ne!(right_id, 0);

    // hand the right half over to peer B
    let mut coord_a = Coordinator::new(1);
    coord_a.begin_migration(right_id);
    let block = tree_a.get_block(right_id).clone();
    let mut tree_b = BPTree::new();
    let installed = handle_migrate(&mut tree_b, block);
    assert_eq!(installed, right_id);
    let pending = coord_a.end_migration(&mut tree_a, right_id);
    assert!(pending.is_empty());
    assert!(!tree_a.contains_block(right_id));
    assert!(tree_b.contains_block(right_id));

    // a lease for 45 on A halts at the local frontier: the child that owns
    // it is no longer local, so A must ask the overlay
    let coord_a2 = Coordinator::new(1);
    match coord_a2.route_lease(&tree_a, 45, tree_a.get_top_id()) {
        LeaseRoute::ForwardProvider(id) => assert_eq!(id, tree_a.get_top_id()),
        _ => panic!("the subtree owning 45 left this peer"),
    }
    // on B, the forwarded lease enters at the migrated block and lands
    let coord_b = Coordinator::new(2);
    match coord_b.route_lease(&tree_b, 45, right_id) {
        LeaseRoute::InsertLocal(id) => assert_eq!(id, right_id),
        _ => panic!("the migrated leaf owns 45"),
    }
    match tree_b.insert(right_id, 45, entry(9, 45)) {
        bplus_dht::block::InsertResult::Complete => {}
        _ => panic!("a fourth key does not split"),
    }
    assert_eq!(tree_b.get_block(right_id).keys, vec![30, 40, 45, 50]);
}

#[test]
fn wire_types_carry_their_payloads() {
    let req = GeneralRequest::InsertOnRemoteParent(40, 70, 9);
    match req {
        GeneralRequest::InsertOnRemoteParent(k, p, c) => {
            assert_eq!((k, p, c), (40, 70, 9));
        }
        _ => panic!(),
    }
    let resp = GeneralResponse::MigrateResponse;
    match resp {
        GeneralResponse::MigrateResponse => {}
        _ => panic!(),
    }
    let body = GenericResponse(String::from("ok"));
    assert_eq!(body.0, "ok");
}
