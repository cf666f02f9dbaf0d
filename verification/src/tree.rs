//! The local shard of the distributed tree: a map from block id to block,
//! and the descent, insert and split-cascade operations over it.

use vstd::prelude::*;
use std::collections::HashMap;
use crate::block::{Block, BlockId, Entry, InsertResult, Key, SIZE};
use crate::block::{
    insert_pos, is_new_root, lemma_insert_pos_bounds, lemma_search_pos_bounds,
    lemma_search_pos_is, same_outside1, same_outside2, same_outside3, search_pos,
    split_left_internal_ok, split_left_leaf_ok, split_right_internal_ok, split_right_leaf_ok,
};

verus! {

/// Every internal block in the map has one child more than it has keys.
/// The descent relies on this to pick a child at every internal block.
pub open spec fn internal_arity_ok(m: Map<u64, Block>) -> bool {
    forall|id: u64|
        #[trigger] m.contains_key(id) && !m[id].is_leaf ==> m[id].children@.len()
            == m[id].keys@.len() + 1
}

/// Every block in the map holds fewer than `SIZE` keys.
pub open spec fn blocks_small(m: Map<u64, Block>) -> bool {
    forall|id: u64| #[trigger] m.contains_key(id) ==> m[id].keys@.len() < SIZE
}

/// The child the descent picks inside an internal block: the child at the
/// first position whose key is at least `k`, or the last child.
pub open spec fn chosen_child(b: Block, k: u64) -> u64 {
    b.children@[search_pos(b.keys@, k)]
}

/// The read-only descent from `id` towards the leaf that would own `k`,
/// stopping at the local frontier: at an internal block it steps into the
/// chosen child only while that child is present in the local map.  `fuel`
/// bounds the number of steps; the executable descent starts it at the map
/// size, which a descent through well-formed (cycle-free) blocks never
/// exhausts.
pub open spec fn find_rec(m: Map<u64, Block>, id: u64, k: u64, fuel: nat) -> u64
    decreases fuel,
{
    if !m.contains_key(id) {
        id
    } else if m[id].is_leaf {
        id
    } else if fuel == 0 {
        id
    } else {
        let c = chosen_child(m[id], k);
        if m.contains_key(c) {
            find_rec(m, c, k, (fuel - 1) as nat)
        } else {
            id
        }
    }
}

/// `a` is `b` with `(k, e)` inserted at the ordered position in
/// `keys`/`values` and everything else unchanged.
pub open spec fn entry_added_ok(a: Block, b: Block, k: u64, e: Entry) -> bool {
    let p = insert_pos(b.keys@, k);
    &&& a.parent == b.parent
    &&& a.block_id == b.block_id
    &&& a.keys@ == b.keys@.insert(p, k)
    &&& a.children@ == b.children@
    &&& a.values@ == b.values@.insert(p, e)
    &&& a.is_leaf == b.is_leaf
    &&& a.divider_key == b.divider_key
    &&& a.next_block == b.next_block
}

/// `a` is `b` with `(k, c)` inserted at the ordered position in
/// `keys`/`children` (the child one slot to the right of the key) and
/// everything else unchanged.
pub open spec fn child_added_ok(a: Block, b: Block, k: u64, c: u64) -> bool {
    let p = insert_pos(b.keys@, k);
    &&& a.parent == b.parent
    &&& a.block_id == b.block_id
    &&& a.keys@ == b.keys@.insert(p, k)
    &&& a.children@ == b.children@.insert(p + 1, c)
    &&& a.values@ == b.values@
    &&& a.is_leaf == b.is_leaf
    &&& a.divider_key == b.divider_key
    &&& a.next_block == b.next_block
}

/// The per-peer shard.  `top_id` is meaningful only on the peer that created
/// the root of the whole tree.
pub struct BPTree {
    pub block_map: HashMap<Key, Block>,
    pub top_id: BlockId,
}

impl BPTree {
    pub fn new() -> (t: BPTree)
        ensures
            t.block_map@ == Map::<u64, Block>::empty(),
            t.top_id == 0,
    {
        BPTree { block_map: HashMap::new(), top_id: 0 }
    }

    pub fn get_size(&self) -> (n: usize)
        ensures
            n == self.block_map@.len(),
    {
        self.block_map.len()
    }

    pub fn remove_block(&mut self, id: BlockId)
        ensures
            final(self).block_map@ == old(self).block_map@.remove(id),
            final(self).top_id == old(self).top_id,
    {
        self.block_map.remove(&id);
    }

    pub fn add_block(&mut self, id: BlockId, block: Block)
        ensures
            final(self).block_map@ == old(self).block_map@.insert(id, block),
            final(self).top_id == old(self).top_id,
    {
        self.block_map.insert(id, block);
    }

    pub fn get_block_map(&self) -> (m: &HashMap<Key, Block>)
        ensures
            m@ == self.block_map@,
    {
        &self.block_map
    }

    pub fn get_top_id(&self) -> (r: BlockId)
        ensures
            r == self.top_id,
    {
        self.top_id
    }

    pub fn set_top_id(&mut self, id: BlockId)
        ensures
            final(self).block_map@ == old(self).block_map@,
            final(self).top_id == id,
    {
        self.top_id = id;
    }

    pub fn contains_block(&self, block_id: BlockId) -> (r: bool)
        ensures
            r == self.block_map@.contains_key(block_id),
    {
        self.block_map.contains_key(&block_id)
    }

    pub fn get_block(&self, id: BlockId) -> (b: &Block)
        requires
            self.block_map@.contains_key(id),
        ensures
            *b == self.block_map@[id],
    {
        self.block_map.get(&id).unwrap()
    }

    /// Read-only descent from `block_id`: at each internal block pick the
    /// child owning `k`; step into it while it is present locally, otherwise
    /// stop — the caller then asks the overlay who holds the frontier block.
    /// On reaching a leaf, return its id.
    pub fn find(&self, block_id: BlockId, k: Key) -> (r: BlockId)
        requires
            self.block_map@.contains_key(block_id),
            internal_arity_ok(self.block_map@),
        ensures
            r == find_rec(self.block_map@, block_id, k, self.block_map@.len()),
            self.block_map@.contains_key(r),
    {
        let mut current = block_id;
        let mut fuel = self.block_map.len();
        loop
            invariant
                self.block_map@.contains_key(current),
                internal_arity_ok(self.block_map@),
                fuel <= self.block_map@.len(),
                find_rec(self.block_map@, block_id, k, self.block_map@.len()) == find_rec(
                    self.block_map@,
                    current,
                    k,
                    fuel as nat,
                ),
            decreases fuel,
        {
            let current_block = self.block_map.get(&current).unwrap();
            if current_block.is_leaf {
                return current;
            }
            if fuel == 0 {
                return current;
            }
            let idx = child_pos(&current_block.keys, k);
            proof {
                lemma_search_pos_bounds(current_block.keys@, k);
            }
            let new_id = current_block.children[idx];
            assert(new_id == chosen_child(self.block_map@[current], k));
            if self.block_map.contains_key(&new_id) {
                current = new_id;
                fuel = fuel - 1;
            } else {
                return current;
            }
        }
    }

    /// Inserts the entry into the named leaf.  If the leaf's key count
    /// reaches `SIZE` it splits: under a fresh root when the leaf was the
    /// root (the top id is updated), as a plain sibling split otherwise; in
    /// either case the left half is linked to the new right sibling, and
    /// `RightBlock` carries the new sibling and the divider key for the
    /// parent to record.
    pub fn insert(&mut self, leaf_id: BlockId, key: Key, entry: Entry) -> (res: InsertResult)
        requires
            old(self).block_map@.contains_key(leaf_id),
            old(self).block_map@[leaf_id].block_id == leaf_id,
            old(self).block_map@[leaf_id].is_leaf,
            old(self).block_map@[leaf_id].keys@.len() == old(self).block_map@[leaf_id].values@.len(),
            old(self).block_map@[leaf_id].keys@.len() < SIZE,
        ensures
            blocks_small(old(self).block_map@) ==> blocks_small(final(self).block_map@),
            ({
                let b = old(self).block_map@[leaf_id];
                let p = insert_pos(b.keys@, key);
                let ak = b.keys@.insert(p, key);
                let av = b.values@.insert(p, entry);
                let m1 = final(self).block_map@;
                if ak.len() < SIZE {
                    &&& res matches InsertResult::Complete
                    &&& final(self).top_id == old(self).top_id
                    &&& m1.contains_key(leaf_id)
                    &&& entry_added_ok(m1[leaf_id], b, key, entry)
                    &&& same_outside1(old(self).block_map@, m1, leaf_id)
                } else if b.parent != 0 {
                    res matches InsertResult::RightBlock(r, dk) && {
                        &&& dk == ak[(SIZE / 2) as int]
                        &&& 1 <= r < u64::MAX
                        &&& r != leaf_id
                        &&& final(self).top_id == old(self).top_id
                        &&& m1.contains_key(leaf_id)
                        &&& m1.contains_key(r)
                        &&& split_left_leaf_ok(m1[leaf_id], leaf_id, b.parent, ak, av, b.children@, dk, r)
                        &&& split_right_leaf_ok(m1[r], r, b.parent, ak, av, b.divider_key, b.next_block)
                        &&& same_outside2(old(self).block_map@, m1, leaf_id, r)
                    }
                } else {
                    res matches InsertResult::RightBlock(r, dk) && {
                        let root_id = final(self).top_id;
                        &&& dk == ak[(SIZE / 2) as int]
                        &&& 1 <= r < u64::MAX
                        &&& r != leaf_id
                        &&& 1 <= root_id < u64::MAX
                        &&& root_id != leaf_id
                        &&& root_id != r
                        &&& m1.contains_key(leaf_id)
                        &&& m1.contains_key(r)
                        &&& m1.contains_key(root_id)
                        &&& is_new_root(m1[root_id], root_id, leaf_id, r, dk)
                        &&& split_left_leaf_ok(m1[leaf_id], leaf_id, root_id, ak, av, b.children@, dk, r)
                        &&& split_right_leaf_ok(m1[r], r, root_id, ak, av, b.divider_key, b.next_block)
                        &&& same_outside3(old(self).block_map@, m1, leaf_id, r, root_id)
                    }
                }
            }),
    {
        let mut leaf = self.block_map.remove(&leaf_id).unwrap();
        proof {
            lemma_insert_pos_bounds(old(self).block_map@[leaf_id].keys@, key);
        }
        leaf.add_entry(key, entry);
        if leaf.keys.len() == SIZE {
            if leaf.parent == 0 {
                let result = leaf.split_leaf_root(&mut self.block_map);
                let root_id = self.block_map.get(&leaf_id).unwrap().parent;
                let mut lb = self.block_map.remove(&leaf_id).unwrap();
                lb.set_next_block(result.right);
                self.block_map.insert(leaf_id, lb);
                self.top_id = root_id;
                return InsertResult::RightBlock(result.right, result.divider_key);
            }
            let result = leaf.split_leaf_block(&mut self.block_map);
            let mut lb = self.block_map.remove(&leaf_id).unwrap();
            lb.set_next_block(result.right);
            self.block_map.insert(leaf_id, lb);
            return InsertResult::RightBlock(result.right, result.divider_key);
        }
        self.block_map.insert(leaf_id, leaf);
        InsertResult::Complete
    }

    /// Adds `(key, child)` to the named internal block; if its key count
    /// reaches `SIZE` the block splits and `RightBlock` reports the new
    /// right sibling and the promoted median key.
    pub fn insert_child(&mut self, key: Key, child: BlockId, current_block: BlockId) -> (res:
        InsertResult)
        requires
            old(self).block_map@.contains_key(current_block),
            old(self).block_map@[current_block].block_id == current_block,
            !old(self).block_map@[current_block].is_leaf,
            old(self).block_map@[current_block].children@.len() == old(self).block_map@[
                current_block].keys@.len() + 1,
            old(self).block_map@[current_block].keys@.len() < SIZE,
        ensures
            final(self).top_id == old(self).top_id,
            blocks_small(old(self).block_map@) ==> blocks_small(final(self).block_map@),
            ({
                let b = old(self).block_map@[current_block];
                let p = insert_pos(b.keys@, key);
                let ak = b.keys@.insert(p, key);
                let ac = b.children@.insert(p + 1, child);
                let m1 = final(self).block_map@;
                if ak.len() < SIZE {
                    &&& res matches InsertResult::Complete
                    &&& m1.contains_key(current_block)
                    &&& child_added_ok(m1[current_block], b, key, child)
                    &&& same_outside1(old(self).block_map@, m1, current_block)
                } else {
                    res matches InsertResult::RightBlock(r, dk) && {
                        &&& dk == ak[(SIZE / 2) as int]
                        &&& 1 <= r < u64::MAX
                        &&& r != current_block
                        &&& m1.contains_key(current_block)
                        &&& m1.contains_key(r)
                        &&& split_left_internal_ok(m1[current_block], current_block, b.parent, ak, ac, b.values@, r)
                        &&& split_right_internal_ok(m1[r], r, b.parent, ak, ac, b.divider_key, b.next_block)
                        &&& same_outside2(old(self).block_map@, m1, current_block, r)
                    }
                }
            }),
    {
        let mut blk = self.block_map.remove(&current_block).unwrap();
        proof {
            lemma_insert_pos_bounds(old(self).block_map@[current_block].keys@, key);
        }
        blk.add_child(key, child);
        if blk.keys.len() == SIZE {
            let result = blk.split_internal_block(&mut self.block_map);
            return InsertResult::RightBlock(result.right, result.divider_key);
        }
        self.block_map.insert(current_block, blk);
        InsertResult::Complete
    }
}

/// What the split cascade reports: either every parent that had to learn of
/// a new child was local and has been updated, or the cascade reached a
/// block whose parent lives on another peer and that peer must be told.
#[derive(Clone, Copy, Debug)]
pub enum ParentInsert {
    Done,
    Remote { parent: BlockId, key: Key, child: BlockId },
}

/// `a` is `b` with only the parent pointer rewritten.
pub open spec fn reparented_ok(a: Block, b: Block, parent: u64) -> bool {
    &&& a.parent == parent
    &&& a.block_id == b.block_id
    &&& a.keys@ == b.keys@
    &&& a.children@ == b.children@
    &&& a.values@ == b.values@
    &&& a.is_leaf == b.is_leaf
    &&& a.divider_key == b.divider_key
    &&& a.next_block == b.next_block
}

impl BPTree {
    /// Grows a fresh root above the two blocks a split of the old top block
    /// produced: the new root holds the divider key and both halves as
    /// children, both halves are reparented to it, and it becomes the top.
    fn grow_root(&mut self, left: BlockId, key: Key, right: BlockId)
        requires
            old(self).block_map@.contains_key(left),
            old(self).block_map@.contains_key(right),
            left != right,
        ensures
            blocks_small(old(self).block_map@) ==> blocks_small(final(self).block_map@),
            ({
                let m0 = old(self).block_map@;
                let m1 = final(self).block_map@;
                let root_id = final(self).top_id;
                &&& 1 <= root_id < u64::MAX
                &&& root_id != left
                &&& root_id != right
                &&& m1.contains_key(left)
                &&& m1.contains_key(right)
                &&& m1.contains_key(root_id)
                &&& is_new_root(m1[root_id], root_id, left, right, key)
                &&& reparented_ok(m1[left], m0[left], root_id)
                &&& reparented_ok(m1[right], m0[right], root_id)
                &&& same_outside3(m0, m1, left, right, root_id)
            }),
    {
        let mut new_root = Block::new();
        let root_id = crate::block::fresh_id_avoiding2(left, right);
        new_root.block_id = root_id;
        new_root.is_leaf = false;
        new_root.children.push(left);
        new_root.add_child(key, right);
        proof {
            assert(new_root.keys@ =~= seq![key]);
            assert(new_root.children@ =~= seq![left, right]);
        }
        let mut lb = self.block_map.remove(&left).unwrap();
        lb.parent = root_id;
        let mut rb = self.block_map.remove(&right).unwrap();
        rb.parent = root_id;
        self.block_map.insert(root_id, new_root);
        self.block_map.insert(right, rb);
        self.block_map.insert(left, lb);
        self.top_id = root_id;
    }

    /// The split cascade: a split of `left` has produced the new sibling
    /// `right` under divider `key`, and the parents must learn of it.  While
    /// the parent is local the child is recorded there, splitting further up
    /// as needed; if the old top block itself split, a fresh root is grown
    /// over the two halves.  A recorded parent may itself have split since
    /// the child last saw it, so the cascade walks the parent's sibling
    /// links until it finds the block whose range holds the key.  When it
    /// reaches a block not held locally, the caller is told to send
    /// `InsertOnRemoteParent` to that block's holder.  A shard whose parent
    /// pointers are corrupted (a parent that is a leaf, ill-sized, or
    /// registered under a different id) stops the cascade short rather than
    /// corrupt the tree further.
    #[verifier::loop_isolation(false)]
    pub fn insert_on_parent(&mut self, left: BlockId, key: Key, right: BlockId) -> (res:
        ParentInsert)
        requires
            old(self).block_map@.contains_key(left),
            old(self).block_map@.contains_key(right),
            left != right,
        ensures
            blocks_small(old(self).block_map@) ==> blocks_small(final(self).block_map@),
            res matches ParentInsert::Remote { parent, key: k2, child } ==> {
                &&& !final(self).block_map@.contains_key(parent)
                &&& final(self).block_map@.contains_key(child)
            },
            ({
                let m0 = old(self).block_map@;
                let m1 = final(self).block_map@;
                if left == old(self).top_id {
                    let root_id = final(self).top_id;
                    &&& res matches ParentInsert::Done
                    &&& 1 <= root_id < u64::MAX
                    &&& root_id != left
                    &&& root_id != right
                    &&& m1.contains_key(left)
                    &&& m1.contains_key(right)
                    &&& m1.contains_key(root_id)
                    &&& is_new_root(m1[root_id], root_id, left, right, key)
                    &&& reparented_ok(m1[left], m0[left], root_id)
                    &&& reparented_ok(m1[right], m0[right], root_id)
                    &&& same_outside3(m0, m1, left, right, root_id)
                } else if !m0.contains_key(m0[left].parent) {
                    &&& res matches ParentInsert::Remote { parent, key: k2, child }
                        && parent == m0[left].parent && k2 == key && child == right
                    &&& m1 == m0
                    &&& final(self).top_id == old(self).top_id
                } else {
                    let p = m0[left].parent;
                    let b = m0[p];
                    let ak = b.keys@.insert(insert_pos(b.keys@, key), key);
                    (key < b.divider_key && b.block_id == p && !b.is_leaf && b.children@.len()
                        == b.keys@.len() + 1 && b.keys@.len() < SIZE && ak.len() < SIZE) ==> {
                        &&& res matches ParentInsert::Done
                        &&& m1.contains_key(p)
                        &&& child_added_ok(m1[p], b, key, right)
                        &&& same_outside1(m0, m1, p)
                        &&& final(self).top_id == old(self).top_id
                    }
                }
            }),
    {
        let mut cur_left = left;
        let mut cur_key = key;
        let mut cur_right = right;
        let mut fuel = self.block_map.len();
        loop
            invariant
                self.block_map@.contains_key(cur_left),
                self.block_map@.contains_key(cur_right),
                cur_left != cur_right,
                old(self).block_map@.contains_key(left),
                old(self).block_map@.contains_key(right),
                left != right,
                blocks_small(old(self).block_map@) ==> blocks_small(self.block_map@),
                (cur_left == left && cur_key == key && cur_right == right && *self == *old(
                    self,
                )) || (left != old(self).top_id && old(self).block_map@.contains_key(
                    old(self).block_map@[left].parent,
                ) && ({
                    let b = old(self).block_map@[old(self).block_map@[left].parent];
                    key >= b.divider_key || b.keys@.insert(insert_pos(b.keys@, key), key).len()
                        >= SIZE
                })),
            decreases fuel,
        {
            if cur_left == self.top_id {
                self.grow_root(cur_left, cur_key, cur_right);
                return ParentInsert::Done;
            }
            let mut p = self.block_map.get(&cur_left).unwrap().parent;
            // the parent may itself have split since this block last saw
            // it: while the key lies at or past a parent's divider, the
            // right sibling is the one that owns it now
            let mut hops = self.block_map.len();
            loop
                invariant
                    p == self.block_map@[cur_left].parent || (self.block_map@.contains_key(
                        self.block_map@[cur_left].parent,
                    ) && cur_key >= self.block_map@[self.block_map@[cur_left].parent].divider_key),
                decreases hops,
            {
                if !self.block_map.contains_key(&p) {
                    return ParentInsert::Remote { parent: p, key: cur_key, child: cur_right };
                }
                let pb = self.block_map.get(&p).unwrap();
                if cur_key < pb.divider_key {
                    break;
                }
                if hops == 0 {
                    return ParentInsert::Done;
                }
                hops = hops - 1;
                p = pb.next_block;
            }
            let pb = self.block_map.get(&p).unwrap();
            if pb.block_id != p || pb.is_leaf || pb.keys.len() >= SIZE || pb.children.len()
                != pb.keys.len() + 1 {
                return ParentInsert::Done;
            }
            match self.insert_child(cur_key, cur_right, p) {
                InsertResult::Complete => {
                    return ParentInsert::Done;
                },
                InsertResult::RightBlock(r2, dk2) => {
                    if fuel == 0 {
                        return ParentInsert::Done;
                    }
                    fuel = fuel - 1;
                    cur_left = p;
                    cur_key = dk2;
                    cur_right = r2;
                },
            }
        }
    }
}

/// The position of the first key at least `k`, or the key count if all keys
/// are smaller.
fn child_pos(keys: &Vec<u64>, k: u64) -> (p: usize)
    ensures
        p == search_pos(keys@, k),
{
    let n = keys.len();
    let mut i: usize = 0;
    while i < n
        invariant
            i <= n,
            n == keys@.len(),
            forall|j: int| 0 <= j < i ==> keys@[j] < k,
        decreases n - i,
    {
        if keys[i] >= k {
            proof {
                lemma_search_pos_is(keys@, k, i as int);
            }
            return i;
        }
        i += 1;
    }
    proof {
        lemma_search_pos_is(keys@, k, n as int);
    }
    n
}

} // verus!
