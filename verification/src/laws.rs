//! The laws the tree and the coordinator obey, stated over the same spec
//! functions the operations' contracts use and proved from them.

use vstd::prelude::*;
use vstd::multiset::Multiset;
use vstd::relations::{sorted_by, total_ordering};
use vstd::seq_lib::lemma_sorted_unique;
use crate::block::{
    all_below, insert_pos, lemma_insert_pos_bounds, lemma_insert_pos_sorted, sorted,
    strictly_sorted, Block, Entry,
};
use crate::coordinator::queue_put;
use crate::messages::GeneralRequest;
use crate::tree::{chosen_child, entry_added_ok, find_rec};
use crate::block::same_outside1;

verus! {

/// Every block sits in the map under its own id.
pub open spec fn ids_match(m: Map<u64, Block>) -> bool {
    forall|id: u64| #[trigger] m.contains_key(id) ==> m[id].block_id == id
}

/// Every key a block holds directly lies strictly below its divider key.
/// This is the per-block face of range ownership: together with the split
/// contracts it says that a block never holds a key at or above the bound
/// it advertises.
pub open spec fn keys_bounded(m: Map<u64, Block>) -> bool {
    forall|id: u64| #[trigger] m.contains_key(id) ==> all_below(m[id].keys@, m[id].divider_key)
}

/// Every block's keys are strictly increasing.
pub open spec fn keys_strict(m: Map<u64, Block>) -> bool {
    forall|id: u64| #[trigger] m.contains_key(id) ==> strictly_sorted(m[id].keys@)
}

/// Along the sibling links leaves ascend: a leaf's locally present successor
/// is a leaf whose divider key is at least its own, and every key that
/// successor holds is at least the predecessor's divider.
pub open spec fn leaf_chain_ok(m: Map<u64, Block>) -> bool {
    forall|i: u64|
        #[trigger] m.contains_key(i) && m[i].is_leaf && m.contains_key(m[i].next_block) ==> {
            let j = m[i].next_block;
            &&& m[j].is_leaf
            &&& m[i].divider_key <= m[j].divider_key
            &&& forall|n: int|
                0 <= n < m[j].keys@.len() ==> m[i].divider_key <= #[trigger] m[j].keys@[n]
        }
}

/// No two distinct leaves link to the same locally present successor, so a
/// traversal of the chain visits a leaf at most once.
pub open spec fn chain_injective(m: Map<u64, Block>) -> bool {
    forall|i1: u64, i2: u64|
        #![trigger m[i1].next_block, m[i2].next_block]
        m.contains_key(i1) && m.contains_key(i2) && m[i1].is_leaf && m[i2].is_leaf
            && m[i1].next_block == m[i2].next_block && m.contains_key(m[i1].next_block) ==> i1
            == i2
}

/// The bound an internal block imposes on its child at position `i`: the
/// key to the child's right, or the block's own divider key for the last
/// child.
pub open spec fn child_bound(b: Block, i: int) -> u64 {
    if i < b.keys@.len() {
        b.keys@[i]
    } else {
        b.divider_key
    }
}

/// Every locally present parent-child link respects its bound: the child's
/// divider key is at most what the parent's key layout grants that slot.
pub open spec fn links_bounded(m: Map<u64, Block>) -> bool {
    forall|p: u64, i: int|
        #![trigger m[p].children@[i]]
        m.contains_key(p) && !m[p].is_leaf && 0 <= i < m[p].children@.len() && m.contains_key(
            m[p].children@[i],
        ) ==> m[m[p].children@[i]].divider_key <= child_bound(m[p], i)
}

/// Whether `k` is stored in the subtree below `id`, within `fuel` levels:
/// in the block's own keys or, below an internal block, in the subtree of a
/// locally present child.
pub open spec fn subtree_has_key(m: Map<u64, Block>, id: u64, k: u64, fuel: nat) -> bool
    decreases fuel,
{
    if !m.contains_key(id) {
        false
    } else if m[id].keys@.contains(k) {
        true
    } else if m[id].is_leaf || fuel == 0 {
        false
    } else {
        exists|i: int|
            0 <= i < m[id].children@.len() && subtree_has_key(
                m,
                m[id].children@[i],
                k,
                (fuel - 1) as nat,
            )
    }
}

/// Range ownership, transitively: when every block's own keys lie strictly
/// below its divider key and every parent-child link respects its bound,
/// every key stored anywhere in a block's subtree lies strictly below that
/// block's divider key.
pub proof fn lemma_subtree_keys_bounded(m: Map<u64, Block>, id: u64, k: u64, fuel: nat)
    requires
        keys_bounded(m),
        links_bounded(m),
        subtree_has_key(m, id, k, fuel),
    ensures
        m.contains_key(id),
        k < m[id].divider_key,
    decreases fuel,
{
    let b = m[id];
    if b.keys@.contains(k) {
        let n = choose|n: int| 0 <= n < b.keys@.len() && b.keys@[n] == k;
        assert(all_below(b.keys@, b.divider_key));
        assert(b.keys@[n] < b.divider_key);
    } else {
        let i = choose|i: int|
            0 <= i < b.children@.len() && subtree_has_key(m, b.children@[i], k, (fuel - 1) as nat);
        let c = b.children@[i];
        lemma_subtree_keys_bounded(m, c, k, (fuel - 1) as nat);
        assert(m[c].divider_key <= child_bound(b, i));
        if i < b.keys@.len() {
            assert(all_below(b.keys@, b.divider_key));
            assert(b.keys@[i] < b.divider_key);
        }
    }
}

/// A key inserted into the leaf the descent found is retrievable by
/// descending again from the same top: an insert that does not split
/// changes no internal block, so the new descent ends at the same leaf, and
/// that leaf now holds the key.
pub proof fn lemma_insert_then_find(
    m0: Map<u64, Block>,
    m1: Map<u64, Block>,
    top: u64,
    leaf: u64,
    key: u64,
    entry: Entry,
    fuel: nat,
)
    requires
        m0.contains_key(top),
        leaf == find_rec(m0, top, key, fuel),
        m0.contains_key(leaf),
        m0[leaf].is_leaf,
        m1.contains_key(leaf),
        entry_added_ok(m1[leaf], m0[leaf], key, entry),
        same_outside1(m0, m1, leaf),
    ensures
        find_rec(m1, top, key, fuel) == leaf,
        m1[leaf].keys@.contains(key),
    decreases fuel,
{
    lemma_insert_pos_bounds(m0[leaf].keys@, key);
    let p = insert_pos(m0[leaf].keys@, key);
    assert(m1[leaf].keys@[p] == key);
    assert(m1[leaf].keys@.contains(key));
    if m0[top].is_leaf {
        assert(find_rec(m0, top, key, fuel) == top);
        assert(m1[top].is_leaf);
        assert(find_rec(m1, top, key, fuel) == top);
    } else {
        assert(top != leaf);
        assert(m1[top] == m0[top]);
        if fuel == 0 {
            assert(find_rec(m0, top, key, fuel) == top);
            assert(false);
        } else {
            let c = chosen_child(m0[top], key);
            if m0.contains_key(c) {
                assert(find_rec(m0, top, key, fuel) == find_rec(m0, c, key, (fuel - 1) as nat));
                assert(m1.contains_key(c));
                lemma_insert_then_find(m0, m1, c, leaf, key, entry, (fuel - 1) as nat);
                assert(chosen_child(m1[top], key) == c);
                assert(find_rec(m1, top, key, fuel) == find_rec(m1, c, key, (fuel - 1) as nat));
            } else {
                assert(find_rec(m0, top, key, fuel) == top);
                assert(false);
            }
        }
    }
}

/// One ordered insert, as `Block::add_entry` performs it on the key
/// sequence: the key lands at the first position whose key exceeds it.
pub open spec fn seq_ordered_insert(s: Seq<u64>, k: u64) -> Seq<u64> {
    s.insert(insert_pos(s, k), k)
}

/// A whole sequence of ordered inserts, applied left to right.
pub open spec fn ordered_insert_all(s: Seq<u64>, ks: Seq<u64>) -> Seq<u64>
    decreases ks.len(),
{
    if ks.len() == 0 {
        s
    } else {
        ordered_insert_all(seq_ordered_insert(s, ks[0]), ks.drop_first())
    }
}

/// Ordered inserts keep the sequence sorted and add exactly the inserted
/// keys to its multiset.
pub proof fn lemma_ordered_insert_all_sorted(s: Seq<u64>, ks: Seq<u64>)
    requires
        sorted(s),
    ensures
        sorted(ordered_insert_all(s, ks)),
        ordered_insert_all(s, ks).to_multiset() == s.to_multiset().add(ks.to_multiset()),
    decreases ks.len(),
{
    broadcast use vstd::seq_lib::group_to_multiset_ensures;
    broadcast use vstd::multiset::group_multiset_axioms;

    if ks.len() == 0 {
        assert(ordered_insert_all(s, ks).to_multiset() =~= s.to_multiset().add(
            ks.to_multiset(),
        ));
    } else {
        let k = ks[0];
        let s1 = seq_ordered_insert(s, k);
        lemma_insert_pos_bounds(s, k);
        lemma_insert_pos_sorted(s, k);
        vstd::seq_lib::to_multiset_insert(s, insert_pos(s, k), k);
        lemma_ordered_insert_all_sorted(s1, ks.drop_first());
        assert(ks =~= seq![k] + ks.drop_first());
        vstd::seq_lib::lemma_multiset_commutative(seq![k], ks.drop_first());
        assert(seq![k] =~= Seq::<u64>::empty().push(k));
        assert(seq![k].to_multiset() =~= Multiset::<u64>::empty().insert(k));
        assert(ks.to_multiset() =~= Multiset::<u64>::empty().insert(k).add(
            ks.drop_first().to_multiset(),
        ));
        assert(ordered_insert_all(s, ks).to_multiset() =~= s.to_multiset().add(
            ks.to_multiset(),
        ));
    }
}

/// Insertion into a leaf is order-independent: feeding the same multiset of
/// keys, in any two orders, through the ordered insert of `add_entry`
/// starting from an empty leaf yields the identical key sequence.  (With
/// enough keys to force a split the resulting shapes can differ between
/// orders, so the law is stated for what a single leaf absorbs.)
pub proof fn lemma_insertion_order_irrelevant(ks1: Seq<u64>, ks2: Seq<u64>)
    requires
        ks1.to_multiset() == ks2.to_multiset(),
    ensures
        ordered_insert_all(Seq::<u64>::empty(), ks1) == ordered_insert_all(
            Seq::<u64>::empty(),
            ks2,
        ),
{
    broadcast use vstd::multiset::group_multiset_axioms;

    let e = Seq::<u64>::empty();
    lemma_ordered_insert_all_sorted(e, ks1);
    lemma_ordered_insert_all_sorted(e, ks2);
    let r1 = ordered_insert_all(e, ks1);
    let r2 = ordered_insert_all(e, ks2);
    assert(r1.to_multiset() =~= r2.to_multiset());
    let leq = |a: u64, b: u64| a <= b;
    assert(sorted_by(r1, leq));
    assert(sorted_by(r2, leq));
    assert(total_ordering(leq));
    lemma_sorted_unique(r1, r2, leq);
    assert(r1 =~= r2);
}

/// An insert that does not split keeps every shard invariant: the fanout
/// bound (fewer than `SIZE` keys per block), the internal arity, the
/// id-keying, the strict order and divider bound of each block's keys, and
/// the ascending leaf chain — provided the key belongs to the leaf: it is
/// new, below the leaf's divider, and at least the divider of any local
/// predecessor leaf.
pub proof fn lemma_entry_add_preserves(
    m0: Map<u64, Block>,
    m1: Map<u64, Block>,
    leaf: u64,
    key: u64,
    entry: Entry,
)
    requires
        m0.contains_key(leaf),
        m0[leaf].is_leaf,
        m0[leaf].keys@.len() + 1 < crate::block::SIZE,
        m1.contains_key(leaf),
        entry_added_ok(m1[leaf], m0[leaf], key, entry),
        same_outside1(m0, m1, leaf),
        crate::tree::blocks_small(m0),
        crate::tree::internal_arity_ok(m0),
        ids_match(m0),
        keys_bounded(m0),
        keys_strict(m0),
        leaf_chain_ok(m0),
        chain_injective(m0),
        key < m0[leaf].divider_key,
        !m0[leaf].keys@.contains(key),
        forall|x: u64|
            m0.contains_key(x) && m0[x].is_leaf && #[trigger] m0[x].next_block == leaf
                ==> m0[x].divider_key <= key,
    ensures
        crate::tree::blocks_small(m1),
        crate::tree::internal_arity_ok(m1),
        ids_match(m1),
        keys_bounded(m1),
        keys_strict(m1),
        leaf_chain_ok(m1),
        chain_injective(m1),
{
    let b = m0[leaf];
    let p = insert_pos(b.keys@, key);
    let ak = b.keys@.insert(p, key);
    lemma_insert_pos_bounds(b.keys@, key);
    crate::block::lemma_insert_pos_strict(b.keys@, key);
    assert forall|id: u64| #[trigger] m1.contains_key(id) implies m1[id].keys@.len()
        < crate::block::SIZE && m1[id].block_id == id && all_below(m1[id].keys@, m1[id].divider_key)
        && strictly_sorted(m1[id].keys@) && (!m1[id].is_leaf ==> m1[id].children@.len()
        == m1[id].keys@.len() + 1) by {
        if id == leaf {
            assert forall|n: int| 0 <= n < ak.len() implies ak[n] < b.divider_key by {
                if n < p {
                    assert(ak[n] == b.keys@[n]);
                } else if n > p {
                    assert(ak[n] == b.keys@[n - 1]);
                }
            }
        } else {
            assert(m1[id] == m0[id]);
            assert(m0.contains_key(id));
        }
    }
    assert forall|i: u64|
        #[trigger] m1.contains_key(i) && m1[i].is_leaf && m1.contains_key(m1[i].next_block) implies {
        let j = m1[i].next_block;
        &&& m1[j].is_leaf
        &&& m1[i].divider_key <= m1[j].divider_key
        &&& forall|n: int| 0 <= n < m1[j].keys@.len() ==> m1[i].divider_key <= #[trigger] m1[j].keys@[n]
    } by {
        let j = m1[i].next_block;
        assert(m0.contains_key(i));
        assert(m1[i].next_block == m0[i].next_block);
        assert(m1[i].is_leaf == m0[i].is_leaf);
        assert(m1[i].divider_key == m0[i].divider_key);
        assert(m0.contains_key(j));
        if j == leaf {
            assert forall|n: int| 0 <= n < m1[j].keys@.len() implies m1[i].divider_key
                <= m1[j].keys@[n] by {
                if n < p {
                    assert(ak[n] == b.keys@[n]);
                } else if n > p {
                    assert(ak[n] == b.keys@[n - 1]);
                } else {
                    assert(ak[n] == key);
                }
            }
        } else {
            assert(m1[j] == m0[j]);
        }
    }
    assert forall|i1: u64, i2: u64|
        #![trigger m1[i1].next_block, m1[i2].next_block]
        m1.contains_key(i1) && m1.contains_key(i2) && m1[i1].is_leaf && m1[i2].is_leaf
            && m1[i1].next_block == m1[i2].next_block && m1.contains_key(m1[i1].next_block)
        implies i1 == i2 by {
        assert(m0.contains_key(i1) && m0.contains_key(i2));
        assert(m0[i1].next_block == m1[i1].next_block && m0[i2].next_block == m1[i2].next_block);
        assert(m0[i1].is_leaf && m0[i2].is_leaf);
        assert(m0.contains_key(m0[i1].next_block));
    }
}

/// A leaf split keeps every shard invariant.  The left half keeps the lower
/// keys under the new divider and links to the fresh right half; the right
/// half takes the upper keys, the old divider and the old sibling link, so
/// the leaf chain stays ascending and visits each leaf once.  The fresh id
/// must be genuinely fresh — held by no block and named by no sibling link —
/// which the protocol's random 64-bit draw makes overwhelmingly likely but
/// nothing local can guarantee; under that hypothesis the chain splices
/// exactly.
pub proof fn lemma_leaf_split_preserves(
    m0: Map<u64, Block>,
    m1: Map<u64, Block>,
    leaf: u64,
    right: u64,
    key: u64,
    entry: Entry,
)
    requires
        m0.contains_key(leaf),
        m0[leaf].is_leaf,
        m0[leaf].keys@.len() + 1 == crate::block::SIZE,
        m1.contains_key(leaf),
        m1.contains_key(right),
        right != leaf,
        ({
            let b = m0[leaf];
            let p = insert_pos(b.keys@, key);
            let ak = b.keys@.insert(p, key);
            let av = b.values@.insert(p, entry);
            &&& crate::block::split_left_leaf_ok(
                m1[leaf],
                leaf,
                m1[leaf].parent,
                ak,
                av,
                b.children@,
                ak[(crate::block::SIZE / 2) as int],
                right,
            )
            &&& crate::block::split_right_leaf_ok(
                m1[right],
                right,
                m1[right].parent,
                ak,
                av,
                b.divider_key,
                b.next_block,
            )
        }),
        crate::block::same_outside2(m0, m1, leaf, right),
        !m0.contains_key(right),
        forall|x: u64| m0.contains_key(x) ==> #[trigger] m0[x].next_block != right,
        m0[leaf].next_block != leaf,
        crate::tree::blocks_small(m0),
        crate::tree::internal_arity_ok(m0),
        keys_bounded(m0),
        keys_strict(m0),
        leaf_chain_ok(m0),
        chain_injective(m0),
        key < m0[leaf].divider_key,
        !m0[leaf].keys@.contains(key),
        forall|x: u64|
            m0.contains_key(x) && m0[x].is_leaf && #[trigger] m0[x].next_block == leaf
                ==> m0[x].divider_key <= key,
    ensures
        crate::tree::blocks_small(m1),
        crate::tree::internal_arity_ok(m1),
        keys_bounded(m1),
        keys_strict(m1),
        leaf_chain_ok(m1),
        chain_injective(m1),
{
    let b = m0[leaf];
    let p = insert_pos(b.keys@, key);
    let ak = b.keys@.insert(p, key);
    let half = (crate::block::SIZE / 2) as int;
    let dk = ak[half];
    lemma_insert_pos_bounds(b.keys@, key);
    crate::block::lemma_insert_pos_strict(b.keys@, key);
    lemma_insert_pos_sorted(b.keys@, key);
    assert(strictly_sorted(ak));
    assert forall|n: int| 0 <= n < ak.len() implies ak[n] < b.divider_key by {
        if n < p {
            assert(ak[n] == b.keys@[n]);
        } else if n > p {
            assert(ak[n] == b.keys@[n - 1]);
        }
    }
    assert forall|x: u64|
        m0.contains_key(x) && m0[x].is_leaf && #[trigger] m0[x].next_block == leaf implies (
    forall|n: int| 0 <= n < ak.len() ==> m0[x].divider_key <= #[trigger] ak[n]) by {
        assert forall|n: int| 0 <= n < ak.len() implies m0[x].divider_key <= ak[n] by {
            if n < p {
                assert(ak[n] == b.keys@[n]);
            } else if n > p {
                assert(ak[n] == b.keys@[n - 1]);
            } else {
                assert(ak[n] == key);
            }
        }
    }
    // the left half's keys and the divider
    assert(m1[leaf].keys@ == ak.subrange(0, half));
    assert(m1[right].keys@ == ak.subrange(half, ak.len() as int));
    assert(dk < b.divider_key);
    // fanout, order, bounds, arity, per block
    assert forall|id: u64| #[trigger] m1.contains_key(id) implies m1[id].keys@.len()
        < crate::block::SIZE && all_below(m1[id].keys@, m1[id].divider_key) && strictly_sorted(
        m1[id].keys@,
    ) && (!m1[id].is_leaf ==> m1[id].children@.len() == m1[id].keys@.len() + 1) by {
        if id == leaf {
            assert forall|n: int| 0 <= n < m1[leaf].keys@.len() implies m1[leaf].keys@[n] < dk by {
                assert(m1[leaf].keys@[n] == ak[n]);
                assert(ak[n] < ak[half]);
            }
        } else if id == right {
            assert(m1[right].keys@.len() < crate::block::SIZE);
            assert forall|n: int| 0 <= n < m1[right].keys@.len() implies m1[right].keys@[n]
                < m1[right].divider_key by {
                assert(m1[right].keys@[n] == ak[half + n]);
            }
        } else {
            assert(m1[id] == m0[id]);
            assert(m0.contains_key(id));
        }
    }
    // the leaf chain
    assert forall|i: u64|
        #[trigger] m1.contains_key(i) && m1[i].is_leaf && m1.contains_key(m1[i].next_block) implies {
        let j = m1[i].next_block;
        &&& m1[j].is_leaf
        &&& m1[i].divider_key <= m1[j].divider_key
        &&& forall|n: int| 0 <= n < m1[j].keys@.len() ==> m1[i].divider_key <= #[trigger] m1[j].keys@[n]
    } by {
        let j = m1[i].next_block;
        if i == leaf {
            // new link: left half -> right half
            assert(j == right);
            assert(m1[right].is_leaf);
            assert(m1[leaf].divider_key == dk);
            assert(m1[right].divider_key == b.divider_key);
            assert forall|n: int| 0 <= n < m1[right].keys@.len() implies dk
                <= m1[right].keys@[n] by {
                assert(m1[right].keys@[n] == ak[half + n]);
            }
        } else if i == right {
            // the right half inherits the old link of the leaf
            assert(j == b.next_block);
            assert(j != right);
            assert(j != leaf);
            assert(m1[j] == m0[j]);
            assert(m0.contains_key(j));
            assert(m0.contains_key(leaf) && m0[leaf].is_leaf && m0[leaf].next_block == j
                && m0.contains_key(j));
        } else {
            assert(m0.contains_key(i));
            assert(m1[i] == m0[i]);
            assert(j != right);
            assert(m0.contains_key(j));
            if j == leaf {
                assert(m0[i].divider_key <= key);
                assert forall|n: int| 0 <= n < m1[leaf].keys@.len() implies m1[i].divider_key
                    <= m1[leaf].keys@[n] by {
                    assert(m1[leaf].keys@[n] == ak[n]);
                }
                assert(m0[i].divider_key <= dk);
            } else {
                assert(m1[j] == m0[j]);
            }
        }
    }
    // injectivity of the chain
    assert forall|i1: u64, i2: u64|
        #![trigger m1[i1].next_block, m1[i2].next_block]
        m1.contains_key(i1) && m1.contains_key(i2) && m1[i1].is_leaf && m1[i2].is_leaf
            && m1[i1].next_block == m1[i2].next_block && m1.contains_key(m1[i1].next_block)
        implies i1 == i2 by {
        let j = m1[i1].next_block;
        if i1 != i2 {
            if j == right {
                // only the left half links to the fresh right half
                if i1 != leaf {
                    assert(i1 != right ==> m1[i1] == m0[i1] && m0[i1].next_block != right);
                    assert(i1 == right ==> m1[right].next_block == b.next_block && b.next_block != right);
                    assert(false);
                }
                if i2 != leaf {
                    assert(i2 != right ==> m1[i2] == m0[i2] && m0[i2].next_block != right);
                    assert(i2 == right ==> m1[right].next_block == b.next_block && b.next_block != right);
                    assert(false);
                }
            } else {
                // map both ends back to the old chain
                let o1: u64 = if i1 == right { leaf } else { i1 };
                let o2: u64 = if i2 == right { leaf } else { i2 };
                assert(i1 != leaf && i2 != leaf) by {
                    if i1 == leaf {
                        assert(m1[leaf].next_block == right);
                    }
                    if i2 == leaf {
                        assert(m1[leaf].next_block == right);
                    }
                }
                assert(m0.contains_key(o1) && m0[o1].is_leaf && m0[o1].next_block == j);
                assert(m0.contains_key(o2) && m0[o2].is_leaf && m0[o2].next_block == j);
                assert(j != right);
                assert(m0.contains_key(j));
                assert(o1 == o2);
                // with both ends distinct from the leaf, equal origins force
                // equal ends, against the assumption
                assert(false);
            }
        }
    }
}

/// The invariants the law lemmas carry through every shard transformation.
pub open spec fn shard_invariants(m: Map<u64, Block>) -> bool {
    &&& crate::tree::blocks_small(m)
    &&& crate::tree::internal_arity_ok(m)
    &&& keys_bounded(m)
    &&& keys_strict(m)
    &&& leaf_chain_ok(m)
    &&& chain_injective(m)
}

/// Adding one internal block under a fresh id — fresh in that no block sits
/// under it and no sibling link names it — preserves every shard invariant,
/// provided the new block itself is well formed.
pub proof fn lemma_add_fresh_internal_preserves(m0: Map<u64, Block>, m1: Map<u64, Block>, id: u64)
    requires
        shard_invariants(m0),
        !m0.contains_key(id),
        forall|x: u64| m0.contains_key(x) ==> #[trigger] m0[x].next_block != id,
        m1.contains_key(id),
        same_outside1(m0, m1, id),
        !m1[id].is_leaf,
        m1[id].keys@.len() < crate::block::SIZE,
        m1[id].children@.len() == m1[id].keys@.len() + 1,
        strictly_sorted(m1[id].keys@),
        all_below(m1[id].keys@, m1[id].divider_key),
    ensures
        shard_invariants(m1),
{
    assert forall|x: u64| #[trigger] m1.contains_key(x) implies m1[x].keys@.len()
        < crate::block::SIZE && all_below(m1[x].keys@, m1[x].divider_key) && strictly_sorted(
        m1[x].keys@,
    ) && (!m1[x].is_leaf ==> m1[x].children@.len() == m1[x].keys@.len() + 1) by {
        if x != id {
            assert(m1[x] == m0[x]);
            assert(m0.contains_key(x));
        }
    }
    assert forall|i: u64|
        #[trigger] m1.contains_key(i) && m1[i].is_leaf && m1.contains_key(m1[i].next_block) implies {
        let j = m1[i].next_block;
        &&& m1[j].is_leaf
        &&& m1[i].divider_key <= m1[j].divider_key
        &&& forall|n: int| 0 <= n < m1[j].keys@.len() ==> m1[i].divider_key <= #[trigger] m1[j].keys@[n]
    } by {
        let j = m1[i].next_block;
        assert(i != id);
        assert(m0.contains_key(i) && m1[i] == m0[i]);
        assert(j != id);
        assert(m0.contains_key(j) && m1[j] == m0[j]);
    }
    assert forall|i1: u64, i2: u64|
        #![trigger m1[i1].next_block, m1[i2].next_block]
        m1.contains_key(i1) && m1.contains_key(i2) && m1[i1].is_leaf && m1[i2].is_leaf
            && m1[i1].next_block == m1[i2].next_block && m1.contains_key(m1[i1].next_block)
        implies i1 == i2 by {
        assert(i1 != id && i2 != id);
        assert(m0.contains_key(i1) && m0.contains_key(i2));
        assert(m1[i1] == m0[i1] && m1[i2] == m0[i2]);
        assert(m0[i1].next_block != id);
        assert(m0.contains_key(m0[i1].next_block));
    }
}

/// An internal split keeps every shard invariant.  Both halves are internal
/// blocks, so the leaf chain is untouched; the median promoted out of the
/// left half bounds it, and the right half keeps the old bound.  As with
/// every split, the fresh id must not be held by any block nor named by any
/// sibling link.
pub proof fn lemma_internal_split_preserves(
    m0: Map<u64, Block>,
    m1: Map<u64, Block>,
    cb: u64,
    right: u64,
    key: u64,
    child: u64,
)
    requires
        shard_invariants(m0),
        m0.contains_key(cb),
        !m0[cb].is_leaf,
        m0[cb].keys@.len() + 1 == crate::block::SIZE,
        m1.contains_key(cb),
        m1.contains_key(right),
        right != cb,
        ({
            let b = m0[cb];
            let p = insert_pos(b.keys@, key);
            let ak = b.keys@.insert(p, key);
            let ac = b.children@.insert(p + 1, child);
            &&& crate::block::split_left_internal_ok(m1[cb], cb, m1[cb].parent, ak, ac, b.values@, right)
            &&& crate::block::split_right_internal_ok(
                m1[right],
                right,
                m1[right].parent,
                ak,
                ac,
                b.divider_key,
                b.next_block,
            )
        }),
        crate::block::same_outside2(m0, m1, cb, right),
        !m0.contains_key(right),
        forall|x: u64| m0.contains_key(x) ==> #[trigger] m0[x].next_block != right,
        key < m0[cb].divider_key,
        !m0[cb].keys@.contains(key),
    ensures
        shard_invariants(m1),
{
    let b = m0[cb];
    let p = insert_pos(b.keys@, key);
    let ak = b.keys@.insert(p, key);
    let ac = b.children@.insert(p + 1, child);
    let half = (crate::block::SIZE / 2) as int;
    lemma_insert_pos_bounds(b.keys@, key);
    crate::block::lemma_insert_pos_strict(b.keys@, key);
    assert forall|n: int| 0 <= n < ak.len() implies ak[n] < b.divider_key by {
        if n < p {
            assert(ak[n] == b.keys@[n]);
        } else if n > p {
            assert(ak[n] == b.keys@[n - 1]);
        }
    }
    assert forall|x: u64| #[trigger] m1.contains_key(x) implies m1[x].keys@.len()
        < crate::block::SIZE && all_below(m1[x].keys@, m1[x].divider_key) && strictly_sorted(
        m1[x].keys@,
    ) && (!m1[x].is_leaf ==> m1[x].children@.len() == m1[x].keys@.len() + 1) by {
        if x == cb {
            assert(m1[cb].keys@ == ak.subrange(0, half));
            assert(m1[cb].children@ == ac.subrange(0, half + 1));
            assert forall|n: int| 0 <= n < m1[cb].keys@.len() implies m1[cb].keys@[n]
                < m1[cb].divider_key by {
                assert(m1[cb].keys@[n] == ak[n]);
                assert(m1[cb].divider_key == ak[half]);
            }
        } else if x == right {
            assert(m1[right].keys@ == ak.subrange(half + 1, ak.len() as int));
            assert(m1[right].children@ == ac.subrange(half + 1, ac.len() as int));
            assert forall|n: int| 0 <= n < m1[right].keys@.len() implies m1[right].keys@[n]
                < m1[right].divider_key by {
                assert(m1[right].keys@[n] == ak[half + 1 + n]);
            }
        } else {
            assert(m1[x] == m0[x]);
            assert(m0.contains_key(x));
        }
    }
    assert forall|i: u64|
        #[trigger] m1.contains_key(i) && m1[i].is_leaf && m1.contains_key(m1[i].next_block) implies {
        let j = m1[i].next_block;
        &&& m1[j].is_leaf
        &&& m1[i].divider_key <= m1[j].divider_key
        &&& forall|n: int| 0 <= n < m1[j].keys@.len() ==> m1[i].divider_key <= #[trigger] m1[j].keys@[n]
    } by {
        let j = m1[i].next_block;
        assert(i != cb && i != right);
        assert(m0.contains_key(i) && m1[i] == m0[i]);
        assert(j != right);
        assert(m0.contains_key(j));
        assert(j != cb) by {
            if j == cb {
                assert(m0[cb].is_leaf);
            }
        }
        assert(m1[j] == m0[j]);
    }
    assert forall|i1: u64, i2: u64|
        #![trigger m1[i1].next_block, m1[i2].next_block]
        m1.contains_key(i1) && m1.contains_key(i2) && m1[i1].is_leaf && m1[i2].is_leaf
            && m1[i1].next_block == m1[i2].next_block && m1.contains_key(m1[i1].next_block)
        implies i1 == i2 by {
        let j = m1[i1].next_block;
        assert(i1 != cb && i1 != right && i2 != cb && i2 != right);
        assert(m0.contains_key(i1) && m1[i1] == m0[i1]);
        assert(m0.contains_key(i2) && m1[i2] == m0[i2]);
        assert(j != right);
        assert(m0.contains_key(j));
    }
}

/// Growing a fresh root over the two halves of a split top block keeps
/// every shard invariant: only parent pointers change on the halves, which
/// the leaf chain never reads, and the new root is a well-formed internal
/// block under a fresh id.
pub proof fn lemma_grow_root_preserves(
    m0: Map<u64, Block>,
    m1: Map<u64, Block>,
    left: u64,
    right: u64,
    key: u64,
    root_id: u64,
)
    requires
        shard_invariants(m0),
        m0.contains_key(left),
        m0.contains_key(right),
        left != right,
        root_id != left,
        root_id != right,
        !m0.contains_key(root_id),
        forall|x: u64| m0.contains_key(x) ==> #[trigger] m0[x].next_block != root_id,
        key < u64::MAX,
        m1.contains_key(left),
        m1.contains_key(right),
        m1.contains_key(root_id),
        crate::block::is_new_root(m1[root_id], root_id, left, right, key),
        crate::tree::reparented_ok(m1[left], m0[left], root_id),
        crate::tree::reparented_ok(m1[right], m0[right], root_id),
        crate::block::same_outside3(m0, m1, left, right, root_id),
    ensures
        shard_invariants(m1),
{
    assert forall|x: u64| #[trigger] m1.contains_key(x) implies m1[x].keys@.len()
        < crate::block::SIZE && all_below(m1[x].keys@, m1[x].divider_key) && strictly_sorted(
        m1[x].keys@,
    ) && (!m1[x].is_leaf ==> m1[x].children@.len() == m1[x].keys@.len() + 1) by {
        if x == root_id {
            assert(m1[root_id].keys@ == seq![key]);
            assert(m1[root_id].children@ == seq![left, right]);
            assert(m1[root_id].keys@.len() == 1);
            assert(m1[root_id].children@.len() == 2);
            assert forall|n: int| 0 <= n < m1[root_id].keys@.len() implies m1[root_id].keys@[n]
                < m1[root_id].divider_key by {
                assert(m1[root_id].keys@[n] == key);
            }
        } else if x == left || x == right {
            assert(m0.contains_key(x));
        } else {
            assert(m1[x] == m0[x]);
            assert(m0.contains_key(x));
        }
    }
    assert forall|i: u64|
        #[trigger] m1.contains_key(i) && m1[i].is_leaf && m1.contains_key(m1[i].next_block) implies {
        let j = m1[i].next_block;
        &&& m1[j].is_leaf
        &&& m1[i].divider_key <= m1[j].divider_key
        &&& forall|n: int| 0 <= n < m1[j].keys@.len() ==> m1[i].divider_key <= #[trigger] m1[j].keys@[n]
    } by {
        let j = m1[i].next_block;
        assert(i != root_id);
        assert(m0.contains_key(i));
        assert(m1[i].next_block == m0[i].next_block && m1[i].is_leaf == m0[i].is_leaf
            && m1[i].divider_key == m0[i].divider_key);
        assert(j != root_id);
        assert(m0.contains_key(j));
        assert(m1[j].is_leaf == m0[j].is_leaf && m1[j].divider_key == m0[j].divider_key
            && m1[j].keys@ == m0[j].keys@);
    }
    assert forall|i1: u64, i2: u64|
        #![trigger m1[i1].next_block, m1[i2].next_block]
        m1.contains_key(i1) && m1.contains_key(i2) && m1[i1].is_leaf && m1[i2].is_leaf
            && m1[i1].next_block == m1[i2].next_block && m1.contains_key(m1[i1].next_block)
        implies i1 == i2 by {
        assert(i1 != root_id && i2 != root_id);
        assert(m0.contains_key(i1) && m0.contains_key(i2));
        assert(m0[i1].next_block == m1[i1].next_block && m0[i1].is_leaf == m1[i1].is_leaf);
        assert(m0[i2].next_block == m1[i2].next_block && m0[i2].is_leaf == m1[i2].is_leaf);
        assert(m0[i1].next_block != root_id);
        assert(m0.contains_key(m0[i1].next_block));
    }
}

/// A root-leaf split — a leaf split plus a fresh internal root over the two
/// halves — keeps every shard invariant.  It composes the leaf-split law
/// with the fresh-internal-block law through the intermediate map that
/// lacks only the new root.
pub proof fn lemma_root_split_preserves(
    m0: Map<u64, Block>,
    m1: Map<u64, Block>,
    leaf: u64,
    right: u64,
    root_id: u64,
    key: u64,
    entry: Entry,
)
    requires
        m0.contains_key(leaf),
        m0[leaf].is_leaf,
        m0[leaf].keys@.len() + 1 == crate::block::SIZE,
        m1.contains_key(leaf),
        m1.contains_key(right),
        m1.contains_key(root_id),
        right != leaf,
        root_id != leaf,
        root_id != right,
        ({
            let b = m0[leaf];
            let p = insert_pos(b.keys@, key);
            let ak = b.keys@.insert(p, key);
            let av = b.values@.insert(p, entry);
            &&& crate::block::split_left_leaf_ok(
                m1[leaf],
                leaf,
                m1[leaf].parent,
                ak,
                av,
                b.children@,
                ak[(crate::block::SIZE / 2) as int],
                right,
            )
            &&& crate::block::split_right_leaf_ok(
                m1[right],
                right,
                m1[right].parent,
                ak,
                av,
                b.divider_key,
                b.next_block,
            )
            &&& crate::block::is_new_root(
                m1[root_id],
                root_id,
                leaf,
                right,
                ak[(crate::block::SIZE / 2) as int],
            )
        }),
        crate::block::same_outside3(m0, m1, leaf, right, root_id),
        !m0.contains_key(right),
        !m0.contains_key(root_id),
        forall|x: u64| m0.contains_key(x) ==> #[trigger] m0[x].next_block != right,
        forall|x: u64| m0.contains_key(x) ==> #[trigger] m0[x].next_block != root_id,
        m0[leaf].next_block != leaf,
        m0[leaf].next_block != root_id,
        shard_invariants(m0),
        key < m0[leaf].divider_key,
        !m0[leaf].keys@.contains(key),
        forall|x: u64|
            m0.contains_key(x) && m0[x].is_leaf && #[trigger] m0[x].next_block == leaf
                ==> m0[x].divider_key <= key,
    ensures
        shard_invariants(m1),
{
    let b = m0[leaf];
    let p = insert_pos(b.keys@, key);
    let ak = b.keys@.insert(p, key);
    let dk = ak[(crate::block::SIZE / 2) as int];
    lemma_insert_pos_bounds(b.keys@, key);
    let mid = m1.remove(root_id);
    assert(mid.contains_key(leaf) && mid[leaf] == m1[leaf]);
    assert(mid.contains_key(right) && mid[right] == m1[right]);
    assert(crate::block::same_outside2(m0, mid, leaf, right));
    lemma_leaf_split_preserves(m0, mid, leaf, right, key, entry);
    assert(same_outside1(mid, m1, root_id)) by {
        assert forall|x: u64| x != root_id implies (#[trigger] m1.contains_key(x)
            <==> mid.contains_key(x)) by {}
        assert forall|x: u64| x != root_id && mid.contains_key(x) implies #[trigger] m1[x]
            == mid[x] by {}
    }
    assert forall|x: u64| mid.contains_key(x) implies #[trigger] mid[x].next_block != root_id by {
        if x == leaf {
            assert(mid[leaf].next_block == right);
        } else if x == right {
            assert(mid[right].next_block == b.next_block);
        } else {
            assert(m0.contains_key(x) && mid[x] == m0[x]);
        }
    }
    assert(m1[root_id].keys@ == seq![dk]);
    assert(strictly_sorted(m1[root_id].keys@));
    assert(dk < b.divider_key) by {
        assert(ak[(crate::block::SIZE / 2) as int] < b.divider_key) by {
            let h = (crate::block::SIZE / 2) as int;
            if h < p {
                assert(ak[h] == b.keys@[h]);
            } else if h > p {
                assert(ak[h] == b.keys@[h - 1]);
            }
        }
    }
    assert(all_below(m1[root_id].keys@, m1[root_id].divider_key)) by {
        assert(m1[root_id].keys@[0] == dk);
        assert(m1[root_id].divider_key == u64::MAX);
    }
    lemma_add_fresh_internal_preserves(mid, m1, root_id);
}

/// Migrating a block out (the source deleting its copy once the destination
/// acknowledged) keeps every shard invariant: removal only makes the chain
/// clauses vacuous.
pub proof fn lemma_remove_preserves(m0: Map<u64, Block>, m1: Map<u64, Block>, id: u64)
    requires
        shard_invariants(m0),
        m1 == m0.remove(id),
    ensures
        shard_invariants(m1),
{
}

/// Migrating a block in keeps every shard invariant, provided the block is
/// itself well formed, nothing local sits under or links to its id, and —
/// when it is a leaf — its sibling link either leaves the shard or lands on
/// a leaf compatible with the chain order.
pub proof fn lemma_migrate_in_preserves(m0: Map<u64, Block>, m1: Map<u64, Block>, bl: Block)
    requires
        shard_invariants(m0),
        !m0.contains_key(bl.block_id),
        forall|x: u64| m0.contains_key(x) ==> #[trigger] m0[x].next_block != bl.block_id,
        m1 == m0.insert(bl.block_id, bl),
        bl.keys@.len() < crate::block::SIZE,
        !bl.is_leaf ==> bl.children@.len() == bl.keys@.len() + 1,
        strictly_sorted(bl.keys@),
        all_below(bl.keys@, bl.divider_key),
        bl.is_leaf && m0.contains_key(bl.next_block) ==> m0[bl.next_block].is_leaf
            && bl.divider_key <= m0[bl.next_block].divider_key && (forall|n: int|
            0 <= n < m0[bl.next_block].keys@.len() ==> bl.divider_key
                <= #[trigger] m0[bl.next_block].keys@[n]),
        bl.is_leaf && m0.contains_key(bl.next_block) ==> (forall|x: u64|
            m0.contains_key(x) && m0[x].is_leaf ==> #[trigger] m0[x].next_block
                != bl.next_block),
        bl.next_block != bl.block_id,
    ensures
        shard_invariants(m1),
{
    let id = bl.block_id;
    assert forall|i: u64|
        #[trigger] m1.contains_key(i) && m1[i].is_leaf && m1.contains_key(m1[i].next_block) implies {
        let j = m1[i].next_block;
        &&& m1[j].is_leaf
        &&& m1[i].divider_key <= m1[j].divider_key
        &&& forall|n: int| 0 <= n < m1[j].keys@.len() ==> m1[i].divider_key <= #[trigger] m1[j].keys@[n]
    } by {
        let j = m1[i].next_block;
        if i == id {
            assert(j != id);
            assert(m0.contains_key(j) && m1[j] == m0[j]);
            assert forall|n: int| 0 <= n < m1[j].keys@.len() implies m1[i].divider_key
                <= m1[j].keys@[n] by {
                assert(m1[j].keys@[n] == m0[j].keys@[n]);
            }
        } else {
            assert(m0.contains_key(i) && m1[i] == m0[i]);
            assert(j != id);
            assert(m0.contains_key(j) && m1[j] == m0[j]);
        }
    }
    assert forall|i1: u64, i2: u64|
        #![trigger m1[i1].next_block, m1[i2].next_block]
        m1.contains_key(i1) && m1.contains_key(i2) && m1[i1].is_leaf && m1[i2].is_leaf
            && m1[i1].next_block == m1[i2].next_block && m1.contains_key(m1[i1].next_block)
        implies i1 == i2 by {
        let j = m1[i1].next_block;
        assert(j != id);
        if i1 != id && i2 != id {
            assert(m0.contains_key(i1) && m0.contains_key(i2));
            assert(m0.contains_key(j));
        } else if i1 == id && i2 != id {
            assert(m0.contains_key(i2) && m0[i2].is_leaf && m0[i2].next_block == bl.next_block);
            assert(m0.contains_key(bl.next_block));
            assert(false);
        } else if i2 == id && i1 != id {
            assert(m0.contains_key(i1) && m0[i1].is_leaf && m0[i1].next_block == bl.next_block);
            assert(m0.contains_key(bl.next_block));
            assert(false);
        }
    }
}

/// A whole sequence of enqueues against one block, in arrival order.
pub open spec fn queue_put_all(
    m: Map<u64, Seq<GeneralRequest>>,
    id: u64,
    rs: Seq<GeneralRequest>,
) -> Map<u64, Seq<GeneralRequest>>
    decreases rs.len(),
{
    if rs.len() == 0 {
        m
    } else {
        queue_put_all(queue_put(m, id, rs[0]), id, rs.drop_first())
    }
}

/// Queued requests survive a migration window exactly once and in arrival
/// order: after any sequence of enqueues against a migrating block, the
/// block's queue holds exactly the previously queued requests followed by
/// the new ones, in order, and no other block's queue has changed.  What
/// `end_migration` then hands back for replay is exactly this queue.
pub proof fn lemma_queue_fifo(m: Map<u64, Seq<GeneralRequest>>, id: u64, rs: Seq<GeneralRequest>)
    ensures
        rs.len() > 0 || m.contains_key(id) ==> queue_put_all(m, id, rs).contains_key(id)
            && queue_put_all(m, id, rs)[id] == (if m.contains_key(id) {
            m[id]
        } else {
            Seq::<GeneralRequest>::empty()
        }) + rs,
        forall|x: u64|
            x != id ==> (#[trigger] queue_put_all(m, id, rs).contains_key(x) <==> m.contains_key(
                x,
            )),
        forall|x: u64|
            x != id && m.contains_key(x) ==> #[trigger] queue_put_all(m, id, rs)[x] == m[x],
    decreases rs.len(),
{
    if rs.len() == 0 {
        if m.contains_key(id) {
            assert(queue_put_all(m, id, rs)[id] =~= m[id] + rs);
        }
    } else {
        let m1 = queue_put(m, id, rs[0]);
        lemma_queue_fifo(m1, id, rs.drop_first());
        assert(m1.contains_key(id));
        assert(queue_put_all(m, id, rs) == queue_put_all(m1, id, rs.drop_first()));
        assert(m1[id] == if m.contains_key(id) {
            m[id].push(rs[0])
        } else {
            seq![rs[0]]
        });
        assert(queue_put_all(m1, id, rs.drop_first())[id] =~= (if m.contains_key(id) {
            m[id]
        } else {
            Seq::<GeneralRequest>::empty()
        }) + rs);
    }
}

} // verus!
