use bplus_dht::block::{Block, Entry, InsertResult, SplitResult, Data, SIZE};
use bplus_dht::tree::{BPTree, ParentInsert};

fn entry(owner: u64, key: u64) -> Entry {
    Entry::new(owner, key)
}

fn fresh_leaf(id: u64, parent: u64) -> Block {
    let mut b = Block::new();
    b.block_id = id;
    b.parent = parent;
    b
}

#[test]
fn add_entry_keeps_keys_ordered() {
    let mut b = Block::new();
    b.add_entry(20, entry(1, 20));
    b.add_entry(10, entry(1, 10));
    b.add_entry(30, entry(1, 30));
    b.add_entry(15, entry(1, 15));
    assert_eq!(b.keys, vec![10, 15, 20, 30]);
    assert_eq!(b.values.len(), 4);
    assert_eq!(b.values[0].key, 10);
    assert_eq!(b.values[3].key, 30);
}

#[test]
fn add_entry_duplicate_key_lands_after_equal() {
    let mut b = Block::new();
    b.add_entry(10, entry(1, 10));
    b.add_entry(10, entry(2, 10));
    assert_eq!(b.keys, vec![10, 10]);
    assert_eq!(b.values[0].myid, 1);
    assert_eq!(b.values[1].myid, 2);
}

#[test]
fn add_child_places_child_right_of_key() {
    let mut b = Block::new();
    b.is_leaf = false;
    b.children.push(100);
    b.add_child(50, 200);
    assert_eq!(b.keys, vec![50]);
    assert_eq!(b.children, vec![100, 200]);
    b.add_child(30, 300);
    assert_eq!(b.keys, vec![30, 50]);
    assert_eq!(b.children, vec![100, 300, 200]);
    b.add_child(70, 400);
    assert_eq!(b.keys, vec![30, 50, 70]);
    assert_eq!(b.children, vec![100, 300, 200, 400]);
}

#[test]
fn entry_compares_by_owner_alone() {
    assert!(entry(1, 10) == entry(1, 99));
    assert!(entry(1, 10) != entry(2, 10));
    assert!(entry(1, 10) < entry(2, 10));
    assert!(entry(3, 10) > entry(2, 50));
    let _ = Data::empty();
}

#[test]
fn split_result_new_defaults() {
    let r = SplitResult::new(77);
    assert_eq!(r.left, 77);
    assert_eq!(r.right, 0);
    assert_eq!(r.divider_key, 0);
}

#[test]
fn fresh_block_owns_whole_key_space() {
    let b = Block::new();
    assert!(b.is_leaf());
    assert_eq!(b.return_divider_key(), u64::MAX);
    assert_eq!(b.return_next_block(), 0);
    assert_eq!(b.parent(), 0);
    assert_eq!(b.return_id(), 0);
}

#[test]
fn set_block_id_draws_positive_id() {
    let mut b = Block::new();
    b.set_block_id();
    assert!(b.return_id() >= 1);
    assert!(b.return_id() < u64::MAX);
}

/// One peer, `root`, then leases for 10, 20, 30, 40, 50: the fifth insert
/// splits the root leaf under a fresh internal root whose only key is 30;
/// the left leaf keeps {10, 20}, the right gets {30, 40, 50}.
#[test]
fn single_peer_grow_splits_at_five() {
    let mut tree = BPTree::new();
    let mut root = Block::new();
    root.set_block_id();
    let leaf_id = root.return_id();
    tree.add_block(leaf_id, root);
    tree.set_top_id(leaf_id);

    for k in [10u64, 20, 30, 40] {
        let target = tree.find(tree.get_top_id(), k);
        assert_eq!(target, leaf_id);
        match tree.insert(target, k, entry(1, k)) {
            InsertResult::Complete => {}
            InsertResult::RightBlock(_, _) => panic!("no split expected yet"),
        }
    }
    let target = tree.find(tree.get_top_id(), 50);
    let (right_id, divider) = match tree.insert(target, 50, entry(1, 50)) {
        InsertResult::RightBlock(r, d) => (r, d),
        InsertResult::Complete => panic!("fifth insert must split"),
    };
    assert_eq!(divider, 30);

    let top = tree.get_top_id();
    assert_ne!(top, leaf_id);
    let root = tree.get_block(top);
    assert!(!root.is_leaf());
    assert_eq!(root.keys, vec![30]);
    assert_eq!(root.children, vec![leaf_id, right_id]);
    assert_eq!(root.return_parent_key(), 30);

    let left = tree.get_block(leaf_id);
    assert_eq!(left.keys, vec![10, 20]);
    assert_eq!(left.return_divider_key(), 30);
    assert_eq!(left.return_next_block(), right_id);
    assert_eq!(left.parent(), top);

    let right = tree.get_block(right_id);
    assert_eq!(right.keys, vec![30, 40, 50]);
    assert_eq!(right.return_divider_key(), u64::MAX);
    assert_eq!(right.return_next_block(), 0);
    assert_eq!(right.parent(), top);
    assert_eq!(right.values.len(), 3);
    assert_eq!(tree.get_size(), 3);
}

#[test]
fn find_descends_to_owning_leaf() {
    let mut tree = BPTree::new();
    let mut root = Block::new();
    root.set_block_id();
    let leaf_id = root.return_id();
    tree.add_block(leaf_id, root);
    tree.set_top_id(leaf_id);
    for k in [10u64, 20, 30, 40, 50] {
        let target = tree.find(tree.get_top_id(), k);
        tree.insert(target, k, entry(1, k));
    }
    let top = tree.get_top_id();
    let left = tree.get_block(top).children[0];
    let right = tree.get_block(top).children[1];
    assert_eq!(tree.find(top, 10), left);
    assert_eq!(tree.find(top, 25), left);
    // the descent takes "key at most the separator" to the left; an equal
    // key is then recovered through the sibling link
    assert_eq!(tree.find(top, 30), left);
    assert_eq!(tree.find(top, 35), right);
    assert_eq!(tree.find(top, u64::MAX - 1), right);
}

#[test]
fn find_stops_at_local_frontier() {
    let mut tree = BPTree::new();
    let mut internal = Block::new();
    internal.set_block_id();
    internal.is_leaf = false;
    internal.keys = vec![40];
    internal.children = vec![111, 222];
    let frontier_id = internal.return_id();
    tree.add_block(frontier_id, internal);
    tree.set_top_id(frontier_id);
    // neither child is local, so the descent yields the frontier block
    assert_eq!(tree.find(frontier_id, 10), frontier_id);
    assert_eq!(tree.find(frontier_id, 99), frontier_id);
}

#[test]
fn insert_child_splits_internal_at_five() {
    let mut tree = BPTree::new();
    let mut b = Block::new();
    b.set_block_id();
    b.is_leaf = false;
    b.keys = vec![10, 20, 30, 40];
    b.children = vec![1, 2, 3, 4, 5];
    b.divider_key = 1000;
    let id = b.return_id();
    tree.add_block(id, b);
    match tree.insert_child(25, 6, id) {
        InsertResult::Complete => panic!("fifth key must split"),
        InsertResult::RightBlock(right_id, divider) => {
            // keys become [10, 20, 25, 30, 40]; the median 25 is promoted
            assert_eq!(divider, 25);
            let left = tree.get_block(id);
            assert_eq!(left.keys, vec![10, 20]);
            assert_eq!(left.children, vec![1, 2, 3]);
            assert_eq!(left.return_divider_key(), 25);
            assert_eq!(left.return_next_block(), right_id);
            let right = tree.get_block(right_id);
            assert_eq!(right.keys, vec![30, 40]);
            assert_eq!(right.children, vec![6, 4, 5]);
            assert_eq!(right.return_divider_key(), 1000);
            assert!(!right.is_leaf());
        }
    }
}

#[test]
fn insert_child_without_overflow_completes() {
    let mut tree = BPTree::new();
    let mut b = Block::new();
    b.set_block_id();
    b.is_leaf = false;
    b.keys = vec![10, 30];
    b.children = vec![1, 2, 3];
    let id = b.return_id();
    tree.add_block(id, b);
    match tree.insert_child(20, 9, id) {
        InsertResult::Complete => {}
        InsertResult::RightBlock(_, _) => panic!("three keys do not split"),
    }
    let b = tree.get_block(id);
    assert_eq!(b.keys, vec![10, 20, 30]);
    assert_eq!(b.children, vec![1, 2, 9, 3]);
}

#[test]
fn cascade_reports_remote_parent() {
    let mut tree = BPTree::new();
    let mut left = fresh_leaf(10, 999);
    left.divider_key = 50;
    let right = fresh_leaf(20, 999);
    tree.add_block(10, left);
    tree.add_block(20, right);
    tree.set_top_id(0);
    match tree.insert_on_parent(10, 50, 20) {
        ParentInsert::Remote { parent, key, child } => {
            assert_eq!(parent, 999);
            assert_eq!(key, 50);
            assert_eq!(child, 20);
        }
        ParentInsert::Done => panic!("parent 999 is not local"),
    }
}

#[test]
fn cascade_grows_root_over_split_top() {
    let mut tree = BPTree::new();
    let left = fresh_leaf(10, 0);
    let right = fresh_leaf(20, 0);
    tree.add_block(10, left);
    tree.add_block(20, right);
    tree.set_top_id(10);
    match tree.insert_on_parent(10, 42, 20) {
        ParentInsert::Done => {}
        ParentInsert::Remote { .. } => panic!("the top block grows a root locally"),
    }
    let top = tree.get_top_id();
    assert_ne!(top, 10);
    assert_ne!(top, 20);
    let root = tree.get_block(top);
    assert!(!root.is_leaf());
    assert_eq!(root.keys, vec![42]);
    assert_eq!(root.children, vec![10, 20]);
    assert_eq!(tree.get_block(10).parent(), top);
    assert_eq!(tree.get_block(20).parent(), top);
}

#[test]
fn cascade_records_child_on_local_parent() {
    let mut tree = BPTree::new();
    let mut parent = Block::new();
    parent.set_block_id();
    parent.is_leaf = false;
    parent.keys = vec![30];
    parent.children = vec![10, 77];
    let pid = parent.return_id();
    let mut left = fresh_leaf(10, pid);
    left.divider_key = 20;
    let right = fresh_leaf(20, pid);
    tree.add_block(pid, parent);
    tree.add_block(10, left);
    tree.add_block(20, right);
    tree.set_top_id(pid);
    match tree.insert_on_parent(10, 20, 20) {
        ParentInsert::Done => {}
        ParentInsert::Remote { .. } => panic!("the parent is local"),
    }
    let p = tree.get_block(pid);
    assert_eq!(p.keys, vec![20, 30]);
    assert_eq!(p.children, vec![10, 20, 77]);
}

#[test]
fn map_operations_roundtrip() {
    let mut tree = BPTree::new();
    assert_eq!(tree.get_size(), 0);
    assert!(!tree.contains_block(5));
    tree.add_block(5, fresh_leaf(5, 0));
    assert!(tree.contains_block(5));
    assert_eq!(tree.get_size(), 1);
    assert_eq!(tree.get_block_map().len(), 1);
    tree.remove_block(5);
    assert!(!tree.contains_block(5));
    assert_eq!(tree.get_size(), 0);
    tree.set_top_id(9);
    assert_eq!(tree.get_top_id(), 9);
}

/// Inserting the same keys in two different orders leaves the same leaf.
#[test]
fn leaf_contents_independent_of_insert_order() {
    let mut a = Block::new();
    for k in [3u64, 1, 2, 9] {
        a.add_entry(k, entry(k, k));
    }
    let mut b = Block::new();
    for k in [9u64, 2, 3, 1] {
        b.add_entry(k, entry(k, k));
    }
    assert_eq!(a.keys, b.keys);
    assert_eq!(a.keys, vec![1, 2, 3, 9]);
}

#[test]
fn size_bound_is_five() {
    assert_eq!(SIZE, 5);
}

/// A single peer absorbing many leases, each split followed by the parent
/// cascade, keeps the shard invariants: every block under the fanout bound
/// with strictly increasing keys below its divider, the leaves forming one
/// ascending chain that holds every key, and every key retrievable by a
/// descent plus, where a divider was hit, the sibling hop.
#[test]
fn invariants_hold_after_growth() {
    let mut tree = BPTree::new();
    let mut root = Block::new();
    root.set_block_id();
    let leaf_id = root.return_id();
    tree.add_block(leaf_id, root);
    tree.set_top_id(leaf_id);

    let keys: Vec<u64> = (1..=40).map(|i| i * 10).collect();
    for &k in &keys {
        let target = tree.find(tree.get_top_id(), k);
        let target = owning_leaf(&tree, target, k);
        let had_parent = tree.get_block(target).parent() != 0;
        if let InsertResult::RightBlock(right_id, divider) = tree.insert(target, k, entry(1, k)) {
            // a root-leaf split wires the fresh root itself; only a plain
            // split leaves a parent to inform
            if had_parent {
                tree.insert_on_parent(target, divider, right_id);
            }
        }
    }

    // per-block invariants
    let mut leaf_count = 0usize;
    for (id, b) in tree.get_block_map() {
        assert_eq!(b.return_id(), *id);
        assert!(b.keys.len() < SIZE);
        for w in b.keys.windows(2) {
            assert!(w[0] < w[1]);
        }
        for k in &b.keys {
            assert!(*k < b.return_divider_key());
        }
        if b.is_leaf {
            leaf_count += 1;
        } else {
            assert_eq!(b.children.len(), b.keys.len() + 1);
        }
    }

    // the leaf chain: start at the leftmost leaf and walk the links
    let mut id = tree.get_top_id();
    while !tree.get_block(id).is_leaf() {
        id = tree.get_block(id).children[0];
    }
    let mut collected: Vec<u64> = Vec::new();
    let mut visited = 0usize;
    let mut last_divider = 0u64;
    loop {
        let b = tree.get_block(id);
        assert!(b.is_leaf());
        assert!(last_divider <= b.return_divider_key());
        for k in &b.keys {
            assert!(last_divider <= *k);
            collected.push(*k);
        }
        last_divider = b.return_divider_key();
        visited += 1;
        if b.return_next_block() == 0 {
            break;
        }
        id = b.return_next_block();
    }
    assert_eq!(visited, leaf_count);
    assert_eq!(collected, keys);

    // every key is retrievable by descending again
    for &k in &keys {
        let found = tree.find(tree.get_top_id(), k);
        let holder = owning_leaf(&tree, found, k);
        assert!(tree.get_block(holder).keys.contains(&k));
    }
}

/// Follows the sibling links from the block the descent found until the
/// block whose range holds `k` — the recovery path a lease takes after it
/// races a split.
fn owning_leaf(tree: &BPTree, mut id: u64, k: u64) -> u64 {
    loop {
        let b = tree.get_block(id);
        if !b.is_leaf() || k < b.return_divider_key() || b.return_next_block() == 0 {
            return id;
        }
        id = b.return_next_block();
    }
}
