//! One B+ tree node (a "block"): keys, children or entries, the sibling
//! link and the divider key, together with the ordered-insert helpers and
//! the three split operations.

use vstd::prelude::*;
use std::collections::HashMap;

verus! {

/// A block splits exactly when its key count reaches this bound, so between
/// operations every block holds at most `SIZE - 1` keys.
pub const SIZE: usize = 5;

pub type BlockId = u64;

pub type Key = u64;

/// Opaque leaf payload; empty in this design.
#[derive(Clone, Copy, Debug)]
pub struct Data;

impl Data {
    pub fn empty() -> Data {
        Data
    }
}

/// A leaf record: the id of the peer that issued the lease, the key, and the
/// opaque payload.  Entries compare by owner peer alone.
#[derive(Clone, Copy, Debug)]
pub struct Entry {
    pub myid: u64,
    pub key: Key,
    pub data: Data,
}

impl Entry {
    pub fn new(id: u64, key: Key) -> (e: Entry)
        ensures
            e.myid == id,
            e.key == key,
    {
        Entry { myid: id, key, data: Data::empty() }
    }
}

impl PartialEq for Entry {
    fn eq(&self, other: &Entry) -> (r: bool) {
        self.myid == other.myid
    }
}

impl vstd::std_specs::cmp::PartialEqSpecImpl for Entry {
    open spec fn obeys_eq_spec() -> bool {
        true
    }

    open spec fn eq_spec(&self, other: &Entry) -> bool {
        self.myid == other.myid
    }
}

impl PartialOrd for Entry {
    fn partial_cmp(&self, other: &Entry) -> (r: Option<core::cmp::Ordering>) {
        if self.myid < other.myid {
            Some(core::cmp::Ordering::Less)
        } else if self.myid == other.myid {
            Some(core::cmp::Ordering::Equal)
        } else {
            Some(core::cmp::Ordering::Greater)
        }
    }
}

impl vstd::std_specs::cmp::PartialOrdSpecImpl for Entry {
    open spec fn obeys_partial_cmp_spec() -> bool {
        true
    }

    open spec fn partial_cmp_spec(&self, other: &Entry) -> Option<core::cmp::Ordering> {
        if self.myid < other.myid {
            Some(core::cmp::Ordering::Less)
        } else if self.myid == other.myid {
            Some(core::cmp::Ordering::Equal)
        } else {
            Some(core::cmp::Ordering::Greater)
        }
    }
}

/// A sequence of keys in non-decreasing order.
pub open spec fn sorted(s: Seq<u64>) -> bool {
    forall|i: int, j: int| 0 <= i <= j < s.len() ==> s[i] <= s[j]
}

/// The position at which an ordered insert of `k` lands: the first index
/// whose key is strictly greater than `k`, or the length if there is none.
pub open spec fn insert_pos(s: Seq<u64>, k: u64) -> int
    decreases s.len(),
{
    if s.len() == 0 {
        0
    } else if s[0] > k {
        0
    } else {
        1 + insert_pos(s.drop_first(), k)
    }
}

pub proof fn lemma_insert_pos_bounds(s: Seq<u64>, k: u64)
    ensures
        0 <= insert_pos(s, k) <= s.len(),
        forall|i: int| 0 <= i < insert_pos(s, k) ==> s[i] <= k,
    decreases s.len(),
{
    if s.len() == 0 {
    } else if s[0] > k {
    } else {
        lemma_insert_pos_bounds(s.drop_first(), k);
        assert forall|i: int| 0 <= i < insert_pos(s, k) implies s[i] <= k by {
            if i > 0 {
                assert(s.drop_first()[i - 1] == s[i]);
            }
        }
    }
}

/// `insert_pos` is the unique index with all keys at smaller indices at most
/// `k` and the key there (if any) strictly greater.
pub proof fn lemma_insert_pos_is(s: Seq<u64>, k: u64, i: int)
    requires
        0 <= i <= s.len(),
        forall|j: int| 0 <= j < i ==> s[j] <= k,
        i < s.len() ==> s[i] > k,
    ensures
        insert_pos(s, k) == i,
    decreases s.len(),
{
    if s.len() == 0 {
    } else if s[0] > k {
        assert(i == 0);
    } else {
        assert(s[0] <= k);
        assert(i != 0);
        let t = s.drop_first();
        assert forall|j: int| 0 <= j < i - 1 implies t[j] <= k by {
            assert(t[j] == s[j + 1]);
        }
        assert(i - 1 < t.len() ==> t[i - 1] > k) by {
            if i - 1 < t.len() {
                assert(t[i - 1] == s[i]);
            }
        }
        lemma_insert_pos_is(t, k, i - 1);
    }
}

/// The position the descent picks inside an internal block: the first index
/// whose key is at least `k` (so that `k <= keys[i]`), or the length if
/// there is none — which, with one child more than keys, selects the last
/// child.
pub open spec fn search_pos(s: Seq<u64>, k: u64) -> int
    decreases s.len(),
{
    if s.len() == 0 {
        0
    } else if s[0] >= k {
        0
    } else {
        1 + search_pos(s.drop_first(), k)
    }
}

pub proof fn lemma_search_pos_is(s: Seq<u64>, k: u64, i: int)
    requires
        0 <= i <= s.len(),
        forall|j: int| 0 <= j < i ==> s[j] < k,
        i < s.len() ==> s[i] >= k,
    ensures
        search_pos(s, k) == i,
    decreases s.len(),
{
    if s.len() == 0 {
    } else if s[0] >= k {
        assert(i == 0);
    } else {
        assert(s[0] < k);
        assert(i != 0);
        let t = s.drop_first();
        assert forall|j: int| 0 <= j < i - 1 implies t[j] < k by {
            assert(t[j] == s[j + 1]);
        }
        assert(i - 1 < t.len() ==> t[i - 1] >= k) by {
            if i - 1 < t.len() {
                assert(t[i - 1] == s[i]);
            }
        }
        lemma_search_pos_is(t, k, i - 1);
    }
}

pub proof fn lemma_search_pos_bounds(s: Seq<u64>, k: u64)
    ensures
        0 <= search_pos(s, k) <= s.len(),
    decreases s.len(),
{
    if s.len() == 0 {
    } else if s[0] >= k {
    } else {
        lemma_search_pos_bounds(s.drop_first(), k);
    }
}

/// The key sitting at `insert_pos`, when there is one, is strictly greater
/// than `k`.
pub proof fn lemma_insert_pos_gt(s: Seq<u64>, k: u64)
    ensures
        insert_pos(s, k) < s.len() ==> s[insert_pos(s, k)] > k,
    decreases s.len(),
{
    if s.len() == 0 {
    } else if s[0] > k {
    } else {
        let t = s.drop_first();
        lemma_insert_pos_gt(t, k);
        lemma_insert_pos_bounds(t, k);
        if insert_pos(s, k) < s.len() {
            assert(s[insert_pos(s, k)] == t[insert_pos(t, k)]);
        }
    }
}

/// In a sorted sequence every key at or after `insert_pos` is strictly
/// greater than `k`, so inserting `k` there keeps the sequence sorted.
pub proof fn lemma_insert_pos_sorted(s: Seq<u64>, k: u64)
    requires
        sorted(s),
    ensures
        forall|i: int| insert_pos(s, k) <= i < s.len() ==> s[i] > k,
        sorted(s.insert(insert_pos(s, k), k)),
{
    lemma_insert_pos_bounds(s, k);
    lemma_insert_pos_gt(s, k);
    let p = insert_pos(s, k);
    assert forall|i: int| p <= i < s.len() implies s[i] > k by {
        assert(s[p] <= s[i]);
    }
    let t = s.insert(p, k);
    assert forall|i: int, j: int| 0 <= i <= j < t.len() implies t[i] <= t[j] by {
        if i < p {
            assert(t[i] == s[i]);
        } else if i > p {
            assert(t[i] == s[i - 1]);
        }
        if j < p {
            assert(t[j] == s[j]);
        } else if j > p {
            assert(t[j] == s[j - 1]);
        }
    }
}

/// A sequence of keys in strictly increasing order (no duplicates).
pub open spec fn strictly_sorted(s: Seq<u64>) -> bool {
    forall|i: int, j: int| 0 <= i < j < s.len() ==> s[i] < s[j]
}

/// Every key in the sequence lies strictly below `bound`.
pub open spec fn all_below(s: Seq<u64>, bound: u64) -> bool {
    forall|i: int| 0 <= i < s.len() ==> s[i] < bound
}

/// Inserting a key not yet present keeps a strictly increasing sequence
/// strictly increasing.
pub proof fn lemma_insert_pos_strict(s: Seq<u64>, k: u64)
    requires
        strictly_sorted(s),
        !s.contains(k),
    ensures
        strictly_sorted(s.insert(insert_pos(s, k), k)),
{
    assert(sorted(s));
    lemma_insert_pos_bounds(s, k);
    lemma_insert_pos_gt(s, k);
    let p = insert_pos(s, k);
    assert forall|i: int| 0 <= i < p implies s[i] < k by {
        assert(s[i] != k);
    }
    let t = s.insert(p, k);
    assert forall|i: int, j: int| 0 <= i < j < t.len() implies t[i] < t[j] by {
        if i < p {
            assert(t[i] == s[i]);
        } else if i > p {
            assert(t[i] == s[i - 1]);
        }
        if j < p {
            assert(t[j] == s[j]);
        } else if j > p {
            assert(t[j] == s[j - 1]);
        }
        if j == p && i < p {
            assert(t[i] == s[i]);
        }
        if i == p && j > p {
            assert(s[p] <= s[j - 1]);
        }
    }
}

/// One B+ tree node.  `keys` runs parallel to `values` on a leaf and to
/// `children` (offset by one: `children` has one more element) on an
/// internal block.  `divider_key` is the exclusive upper bound of the keys
/// this block currently owns; `next_block` links to the right sibling at the
/// same level, 0 if none.
#[derive(Clone, Debug)]
pub struct Block {
    pub parent: BlockId,
    pub block_id: BlockId,
    pub keys: Vec<Key>,
    pub children: Vec<BlockId>,
    pub values: Vec<Entry>,
    pub is_leaf: bool,
    pub divider_key: Key,
    pub next_block: BlockId,
}

impl Block {
    pub fn new() -> (b: Block)
        ensures
            b.parent == 0,
            b.block_id == 0,
            b.keys@ == Seq::<Key>::empty(),
            b.children@ == Seq::<BlockId>::empty(),
            b.values@ == Seq::<Entry>::empty(),
            b.is_leaf == true,
            b.divider_key == u64::MAX,
            b.next_block == 0,
    {
        Block {
            block_id: 0,
            parent: 0,
            keys: Vec::new(),
            children: Vec::new(),
            values: Vec::new(),
            is_leaf: true,
            divider_key: u64::MAX,
            next_block: 0,
        }
    }

    pub fn set_next_block(&mut self, next_block: BlockId)
        ensures
            *final(self) == (Block { next_block, ..*old(self) }),
    {
        self.next_block = next_block;
    }

    pub fn return_next_block(&self) -> (r: BlockId)
        ensures
            r == self.next_block,
    {
        self.next_block
    }

    pub fn return_divider_key(&self) -> (r: Key)
        ensures
            r == self.divider_key,
    {
        self.divider_key
    }

    pub fn return_parent_key(&self) -> (r: Key)
        requires
            self.keys@.len() > 0,
        ensures
            r == self.keys@[0],
    {
        self.keys[0]
    }

    pub fn return_id(&self) -> (r: BlockId)
        ensures
            r == self.block_id,
    {
        self.block_id
    }

    pub fn parent(&self) -> (r: BlockId)
        ensures
            r == self.parent,
    {
        self.parent
    }

    pub fn is_leaf(&self) -> (r: bool)
        ensures
            r == self.is_leaf,
    {
        self.is_leaf
    }

    /// Draws a fresh random id for this block.  Zero is the reserved
    /// sentinel "no block", so the id is always positive; collisions between
    /// independently drawn ids are assumed negligible by the protocol.
    pub fn set_block_id(&mut self)
        ensures
            *final(self) == (Block { block_id: final(self).block_id, ..*old(self) }),
            1 <= final(self).block_id < u64::MAX,
    {
        let id = random_block_id();
        self.block_id = id;
    }

    pub fn set_parent(&mut self, parent: BlockId)
        ensures
            *final(self) == (Block { parent, ..*old(self) }),
    {
        self.parent = parent;
    }
}

/// Relies on rand's `thread_rng().gen_range`: a uniformly drawn value in the
/// half-open range given to it, here `[1, u64::MAX)`.  Nothing more is
/// assumed of the draw.
#[verifier::external_body]
fn random_block_id() -> (r: u64)
    ensures
        1 <= r < u64::MAX,
{
    rand::Rng::gen_range(&mut rand::thread_rng(), 1..u64::MAX)
}

/// A random positive id different from `a`.  In the vanishingly unlikely
/// event that the draw collides, the id is nudged to the neighbouring value
/// so that a split can never overwrite its own left half.
pub fn fresh_id_avoiding(a: u64) -> (r: u64)
    ensures
        1 <= r < u64::MAX,
        r != a,
{
    let r = random_block_id();
    if r != a {
        r
    } else if r > 1 {
        r - 1
    } else {
        r + 1
    }
}

/// A random positive id different from both `a` and `b`; the fallback on a
/// collision picks the smallest of 1, 2, 3 that differs from both.
pub fn fresh_id_avoiding2(a: u64, b: u64) -> (r: u64)
    ensures
        1 <= r < u64::MAX,
        r != a,
        r != b,
{
    let r = random_block_id();
    if r != a && r != b {
        r
    } else if 1 != a && 1 != b {
        1
    } else if 2 != a && 2 != b {
        2
    } else {
        3
    }
}

/// What `insert` / `insert_child` report: either the block absorbed the new
/// item, or it split and the new right sibling (with the divider key that
/// now bounds the left half) must be made known to the parent.
#[derive(Clone, Copy, Debug)]
pub enum InsertResult {
    Complete,
    RightBlock(BlockId, Key),
}

/// The outcome of a split: the left (original) block id, the freshly
/// allocated right sibling, and the divider key separating them.
#[derive(Clone, Copy, Debug)]
pub struct SplitResult {
    pub left: BlockId,
    pub right: BlockId,
    pub divider_key: Key,
}

impl SplitResult {
    pub fn new(left: BlockId) -> (r: SplitResult)
        ensures
            r.left == left,
            r.right == 0,
            r.divider_key == 0,
    {
        SplitResult { left, right: 0, divider_key: 0 }
    }
}

impl Block {
    /// Inserts `(k, new_entry)` into `keys`/`values` at the first position
    /// whose key is strictly greater than `k`, keeping the leaf ordered.
    pub fn add_entry(&mut self, k: Key, new_entry: Entry)
        requires
            old(self).keys@.len() == old(self).values@.len(),
            old(self).keys@.len() < usize::MAX,
        ensures
            final(self).keys@ == old(self).keys@.insert(insert_pos(old(self).keys@, k), k),
            final(self).values@ == old(self).values@.insert(insert_pos(old(self).keys@, k), new_entry),
            final(self).parent == old(self).parent,
            final(self).block_id == old(self).block_id,
            final(self).children@ == old(self).children@,
            final(self).is_leaf == old(self).is_leaf,
            final(self).divider_key == old(self).divider_key,
            final(self).next_block == old(self).next_block,
    {
        proof {
            lemma_insert_pos_bounds(old(self).keys@, k);
        }
        let n = self.keys.len();
        let mut i: usize = 0;
        while i < n
            invariant
                *self == *old(self),
                n == self.keys@.len(),
                self.keys@.len() == self.values@.len(),
                i <= n,
                forall|j: int| 0 <= j < i ==> self.keys@[j] <= k,
            decreases n - i,
        {
            if self.keys[i] > k {
                proof {
                    lemma_insert_pos_is(self.keys@, k, i as int);
                }
                self.keys.insert(i, k);
                self.values.insert(i, new_entry);
                return;
            }
            i += 1;
        }
        proof {
            lemma_insert_pos_is(self.keys@, k, n as int);
        }
        self.keys.push(k);
        self.values.push(new_entry);
        proof {
            assert(self.keys@ =~= old(self).keys@.insert(n as int, k));
            assert(self.values@ =~= old(self).values@.insert(n as int, new_entry));
        }
    }

    /// Inserts `(k, new_block)` into `keys`/`children`, the child landing
    /// one slot to the right of the key, preserving the internal layout in
    /// which `children` has one element more than `keys`.
    pub fn add_child(&mut self, k: Key, new_block: BlockId)
        requires
            old(self).children@.len() == old(self).keys@.len() + 1,
        ensures
            final(self).keys@ == old(self).keys@.insert(insert_pos(old(self).keys@, k), k),
            final(self).children@ == old(self).children@.insert(
                insert_pos(old(self).keys@, k) + 1,
                new_block,
            ),
            final(self).parent == old(self).parent,
            final(self).block_id == old(self).block_id,
            final(self).values@ == old(self).values@,
            final(self).is_leaf == old(self).is_leaf,
            final(self).divider_key == old(self).divider_key,
            final(self).next_block == old(self).next_block,
    {
        proof {
            lemma_insert_pos_bounds(old(self).keys@, k);
        }
        let n = self.keys.len();
        let mut i: usize = 0;
        while i < n
            invariant
                *self == *old(self),
                n == self.keys@.len(),
                self.children@.len() == self.keys@.len() + 1,
                i <= n,
                forall|j: int| 0 <= j < i ==> self.keys@[j] <= k,
            decreases n - i,
        {
            if self.keys[i] > k {
                proof {
                    lemma_insert_pos_is(self.keys@, k, i as int);
                }
                self.keys.insert(i, k);
                self.children.insert(i + 1, new_block);
                return;
            }
            i += 1;
        }
        proof {
            lemma_insert_pos_is(self.keys@, k, n as int);
        }
        self.keys.push(k);
        self.children.push(new_block);
        proof {
            assert(self.keys@ =~= old(self).keys@.insert(n as int, k));
            assert(self.children@ =~= old(self).children@.insert(n as int + 1, new_block));
        }
    }
}

/// The lower half a leaf keeps after a split, given the pre-split key and
/// entry sequences: the first `SIZE / 2` of each, now bounded by the divider
/// key, with the sibling link pointing wherever the caller directs it.
pub open spec fn split_left_leaf_ok(
    l: Block,
    block_id: u64,
    parent: u64,
    ks: Seq<u64>,
    vs: Seq<Entry>,
    children: Seq<BlockId>,
    dk: u64,
    next: u64,
) -> bool {
    &&& l.parent == parent
    &&& l.block_id == block_id
    &&& l.keys@ == ks.subrange(0, (SIZE / 2) as int)
    &&& l.children@ == children
    &&& l.values@ == vs.subrange(0, (SIZE / 2) as int)
    &&& l.is_leaf
    &&& l.divider_key == dk
    &&& l.next_block == next
}

/// The upper half moved into the fresh right leaf: it takes over the old
/// block's divider key and sibling link.
pub open spec fn split_right_leaf_ok(
    r: Block,
    right_id: u64,
    parent: u64,
    ks: Seq<u64>,
    vs: Seq<Entry>,
    divider: u64,
    next: u64,
) -> bool {
    &&& r.parent == parent
    &&& r.block_id == right_id
    &&& r.keys@ == ks.subrange((SIZE / 2) as int, ks.len() as int)
    &&& r.children@ == Seq::<BlockId>::empty()
    &&& r.values@ == vs.subrange((SIZE / 2) as int, vs.len() as int)
    &&& r.is_leaf
    &&& r.divider_key == divider
    &&& r.next_block == next
}

/// The fresh root an overfull root leaf splits under: one key (the divider)
/// and the two halves as children.
pub open spec fn is_new_root(g: Block, root_id: u64, left_id: u64, right_id: u64, dk: u64) -> bool {
    &&& g.parent == 0
    &&& g.block_id == root_id
    &&& g.keys@ == seq![dk]
    &&& g.children@ == seq![left_id, right_id]
    &&& g.values@ == Seq::<Entry>::empty()
    &&& !g.is_leaf
    &&& g.divider_key == u64::MAX
    &&& g.next_block == 0
}

/// The lower half an internal block keeps after a split: the keys and
/// children below the median; the median key becomes the divider, and the
/// sibling link to the new right half is published in the same step.
pub open spec fn split_left_internal_ok(
    l: Block,
    block_id: u64,
    parent: u64,
    ks: Seq<u64>,
    children: Seq<BlockId>,
    vs: Seq<Entry>,
    right_id: u64,
) -> bool {
    &&& l.parent == parent
    &&& l.block_id == block_id
    &&& l.keys@ == ks.subrange(0, (SIZE / 2) as int)
    &&& l.children@ == children.subrange(0, (SIZE / 2 + 1) as int)
    &&& l.values@ == vs
    &&& !l.is_leaf
    &&& l.divider_key == ks[(SIZE / 2) as int]
    &&& l.next_block == right_id
}

/// The keys and children above the median, moved into the fresh right
/// internal block.
pub open spec fn split_right_internal_ok(
    r: Block,
    right_id: u64,
    parent: u64,
    ks: Seq<u64>,
    children: Seq<BlockId>,
    divider: u64,
    next: u64,
) -> bool {
    &&& r.parent == parent
    &&& r.block_id == right_id
    &&& r.keys@ == ks.subrange((SIZE / 2 + 1) as int, ks.len() as int)
    &&& r.children@ == children.subrange((SIZE / 2 + 1) as int, children.len() as int)
    &&& r.values@ == Seq::<Entry>::empty()
    &&& !r.is_leaf
    &&& r.divider_key == divider
    &&& r.next_block == next
}

/// Away from the listed ids the two maps agree, both in membership and in
/// content.
pub open spec fn same_outside1(m0: Map<u64, Block>, m1: Map<u64, Block>, a: u64) -> bool {
    &&& forall|id: u64| id != a ==> (#[trigger] m1.contains_key(id) <==> m0.contains_key(id))
    &&& forall|id: u64| id != a && m0.contains_key(id) ==> #[trigger] m1[id] == m0[id]
}

pub open spec fn same_outside2(m0: Map<u64, Block>, m1: Map<u64, Block>, a: u64, b: u64) -> bool {
    &&& forall|id: u64|
        id != a && id != b ==> (#[trigger] m1.contains_key(id) <==> m0.contains_key(id))
    &&& forall|id: u64|
        id != a && id != b && m0.contains_key(id) ==> #[trigger] m1[id] == m0[id]
}

pub open spec fn same_outside3(
    m0: Map<u64, Block>,
    m1: Map<u64, Block>,
    a: u64,
    b: u64,
    c: u64,
) -> bool {
    &&& forall|id: u64|
        id != a && id != b && id != c ==> (#[trigger] m1.contains_key(id) <==> m0.contains_key(
            id,
        ))
    &&& forall|id: u64|
        id != a && id != b && id != c && m0.contains_key(id) ==> #[trigger] m1[id] == m0[id]
}

impl Block {
    /// Splits this just-overfull leaf, which is the root of the whole tree:
    /// allocates a fresh internal root and a fresh right leaf, moves the
    /// upper half of the keys and entries over, and installs root and both
    /// halves in the map.  The caller links the left half to the right and
    /// records the new root as the top block.
    #[verifier::loop_isolation(false)]
    pub fn split_leaf_root(self, block_map: &mut HashMap<u64, Block>) -> (result: SplitResult)
        requires
            self.is_leaf,
            self.keys@.len() == SIZE,
            self.values@.len() == SIZE,
        ensures
            result.left == self.block_id,
            result.divider_key == self.keys@[(SIZE / 2) as int],
            1 <= result.right < u64::MAX,
            result.right != self.block_id,
            ({
                let root_id = final(block_map)@[self.block_id].parent;
                &&& 1 <= root_id < u64::MAX
                &&& root_id != self.block_id
                &&& root_id != result.right
                &&& final(block_map)@.contains_key(self.block_id)
                &&& final(block_map)@.contains_key(result.right)
                &&& final(block_map)@.contains_key(root_id)
                &&& is_new_root(
                    final(block_map)@[root_id],
                    root_id,
                    self.block_id,
                    result.right,
                    result.divider_key,
                )
                &&& split_left_leaf_ok(
                    final(block_map)@[self.block_id],
                    self.block_id,
                    root_id,
                    self.keys@,
                    self.values@,
                    self.children@,
                    result.divider_key,
                    self.next_block,
                )
                &&& split_right_leaf_ok(
                    final(block_map)@[result.right],
                    result.right,
                    root_id,
                    self.keys@,
                    self.values@,
                    self.divider_key,
                    self.next_block,
                )
                &&& same_outside3(
                    old(block_map)@,
                    final(block_map)@,
                    self.block_id,
                    result.right,
                    root_id,
                )
            }),
    {
        let mut result = SplitResult::new(self.block_id);
        let mut leftblock = self;
        let left_id = leftblock.block_id;

        let mut new_root = Block::new();
        let root_id = fresh_id_avoiding(left_id);
        new_root.block_id = root_id;
        new_root.is_leaf = false;

        leftblock.parent = root_id;
        new_root.children.push(left_id);

        let mut rightblock = Block::new();
        let right_id = fresh_id_avoiding2(left_id, root_id);
        rightblock.block_id = right_id;
        rightblock.parent = root_id;
        rightblock.divider_key = leftblock.divider_key;
        rightblock.next_block = leftblock.next_block;
        result.right = right_id;

        let counter: usize = SIZE / 2;
        let mut i: usize = counter;
        while i < SIZE
            invariant
                counter <= i <= SIZE,
                leftblock.keys@.len() == SIZE,
                leftblock.values@.len() == SIZE,
                rightblock.keys@ == leftblock.keys@.subrange(counter as int, i as int),
                rightblock.values@ == leftblock.values@.subrange(counter as int, i as int),
                rightblock.parent == root_id,
                rightblock.block_id == right_id,
                rightblock.children@ == Seq::<BlockId>::empty(),
                rightblock.is_leaf,
                rightblock.divider_key == leftblock.divider_key,
                rightblock.next_block == leftblock.next_block,
            decreases SIZE - i,
        {
            let k = leftblock.keys[i];
            let e = leftblock.values[i];
            rightblock.keys.push(k);
            rightblock.values.push(e);
            proof {
                assert(rightblock.keys@ =~= leftblock.keys@.subrange(
                    counter as int,
                    i as int + 1,
                ));
                assert(rightblock.values@ =~= leftblock.values@.subrange(
                    counter as int,
                    i as int + 1,
                ));
            }
            i += 1;
        }
        leftblock.keys.truncate(counter);
        leftblock.values.truncate(counter);

        let divider_key = rightblock.keys[0];
        result.divider_key = divider_key;
        leftblock.divider_key = divider_key;
        new_root.keys.push(divider_key);
        new_root.children.push(right_id);

        proof {
            assert(new_root.keys@ =~= seq![divider_key]);
            assert(new_root.children@ =~= seq![left_id, right_id]);
        }

        block_map.insert(root_id, new_root);
        block_map.insert(right_id, rightblock);
        block_map.insert(left_id, leftblock);
        result
    }

    /// Splits this just-overfull non-root leaf: a fresh right leaf inherits
    /// the parent, the upper half of the keys and entries, the old divider
    /// key and the old sibling link; the left half is bounded by the
    /// smallest migrated key.  Installs both halves in the map.
    #[verifier::loop_isolation(false)]
    pub fn split_leaf_block(self, block_map: &mut HashMap<u64, Block>) -> (result: SplitResult)
        requires
            self.is_leaf,
            self.keys@.len() == SIZE,
            self.values@.len() == SIZE,
        ensures
            result.left == self.block_id,
            result.divider_key == self.keys@[(SIZE / 2) as int],
            1 <= result.right < u64::MAX,
            result.right != self.block_id,
            final(block_map)@.contains_key(self.block_id),
            final(block_map)@.contains_key(result.right),
            split_left_leaf_ok(
                final(block_map)@[self.block_id],
                self.block_id,
                self.parent,
                self.keys@,
                self.values@,
                self.children@,
                result.divider_key,
                self.next_block,
            ),
            split_right_leaf_ok(
                final(block_map)@[result.right],
                result.right,
                self.parent,
                self.keys@,
                self.values@,
                self.divider_key,
                self.next_block,
            ),
            same_outside2(old(block_map)@, final(block_map)@, self.block_id, result.right),
    {
        let mut result = SplitResult::new(self.block_id);
        let mut leftblock = self;
        let left_id = leftblock.block_id;

        let mut rightblock = Block::new();
        let right_id = fresh_id_avoiding(left_id);
        rightblock.block_id = right_id;
        rightblock.parent = leftblock.parent;
        rightblock.divider_key = leftblock.divider_key;
        rightblock.next_block = leftblock.next_block;
        result.right = right_id;

        let counter: usize = SIZE / 2;
        let mut i: usize = counter;
        while i < SIZE
            invariant
                counter <= i <= SIZE,
                leftblock.keys@.len() == SIZE,
                leftblock.values@.len() == SIZE,
                rightblock.keys@ == leftblock.keys@.subrange(counter as int, i as int),
                rightblock.values@ == leftblock.values@.subrange(counter as int, i as int),
                rightblock.parent == leftblock.parent,
                rightblock.block_id == right_id,
                rightblock.children@ == Seq::<BlockId>::empty(),
                rightblock.is_leaf,
                rightblock.divider_key == leftblock.divider_key,
                rightblock.next_block == leftblock.next_block,
            decreases SIZE - i,
        {
            let k = leftblock.keys[i];
            let e = leftblock.values[i];
            rightblock.keys.push(k);
            rightblock.values.push(e);
            proof {
                assert(rightblock.keys@ =~= leftblock.keys@.subrange(
                    counter as int,
                    i as int + 1,
                ));
                assert(rightblock.values@ =~= leftblock.values@.subrange(
                    counter as int,
                    i as int + 1,
                ));
            }
            i += 1;
        }
        leftblock.keys.truncate(counter);
        leftblock.values.truncate(counter);

        let divider_key = rightblock.keys[0];
        result.divider_key = divider_key;
        leftblock.divider_key = divider_key;

        block_map.insert(right_id, rightblock);
        block_map.insert(left_id, leftblock);
        result
    }

    /// Splits this just-overfull internal block.  The keys and children
    /// above the median move into a fresh right internal block; the median
    /// key becomes the divider reported to the parent; the sibling link from
    /// left to right is published in the same step.
    #[verifier::loop_isolation(false)]
    pub fn split_internal_block(self, block_map: &mut HashMap<u64, Block>) -> (result: SplitResult)
        requires
            !self.is_leaf,
            self.keys@.len() == SIZE,
            self.children@.len() == SIZE + 1,
        ensures
            result.left == self.block_id,
            result.divider_key == self.keys@[(SIZE / 2) as int],
            1 <= result.right < u64::MAX,
            result.right != self.block_id,
            final(block_map)@.contains_key(self.block_id),
            final(block_map)@.contains_key(result.right),
            split_left_internal_ok(
                final(block_map)@[self.block_id],
                self.block_id,
                self.parent,
                self.keys@,
                self.children@,
                self.values@,
                result.right,
            ),
            split_right_internal_ok(
                final(block_map)@[result.right],
                result.right,
                self.parent,
                self.keys@,
                self.children@,
                self.divider_key,
                self.next_block,
            ),
            same_outside2(old(block_map)@, final(block_map)@, self.block_id, result.right),
    {
        let mut result = SplitResult::new(self.block_id);
        let mut leftblock = self;
        let left_id = leftblock.block_id;

        let mut rightblock = Block::new();
        let right_id = fresh_id_avoiding(left_id);
        rightblock.block_id = right_id;
        rightblock.parent = leftblock.parent;
        rightblock.is_leaf = false;
        rightblock.divider_key = leftblock.divider_key;
        rightblock.next_block = leftblock.next_block;
        result.right = right_id;

        let counter: usize = 1 + SIZE / 2;
        let mut i: usize = counter;
        while i < SIZE
            invariant
                counter <= i <= SIZE,
                leftblock.keys@.len() == SIZE,
                leftblock.children@.len() == SIZE + 1,
                rightblock.keys@ == leftblock.keys@.subrange(counter as int, i as int),
                rightblock.children@ == leftblock.children@.subrange(counter as int, i as int),
                rightblock.parent == leftblock.parent,
                rightblock.block_id == right_id,
                rightblock.values@ == Seq::<Entry>::empty(),
                !rightblock.is_leaf,
                rightblock.divider_key == leftblock.divider_key,
                rightblock.next_block == leftblock.next_block,
            decreases SIZE - i,
        {
            let k = leftblock.keys[i];
            let c = leftblock.children[i];
            rightblock.keys.push(k);
            rightblock.children.push(c);
            proof {
                assert(rightblock.keys@ =~= leftblock.keys@.subrange(
                    counter as int,
                    i as int + 1,
                ));
                assert(rightblock.children@ =~= leftblock.children@.subrange(
                    counter as int,
                    i as int + 1,
                ));
            }
            i += 1;
        }
        let last_child = leftblock.children[SIZE];
        rightblock.children.push(last_child);
        proof {
            assert(rightblock.children@ =~= leftblock.children@.subrange(
                counter as int,
                (SIZE + 1) as int,
            ));
        }

        let divider_key = leftblock.keys[SIZE / 2];
        leftblock.keys.truncate(SIZE / 2);
        leftblock.children.truncate(SIZE / 2 + 1);
        result.divider_key = divider_key;
        leftblock.divider_key = divider_key;
        leftblock.next_block = right_id;

        block_map.insert(right_id, rightblock);
        block_map.insert(left_id, leftblock);
        result
    }
}

} // verus!
