//! Changes to the tops of trees, and what they need.

use crate::key::{extent_entry, lemma_ord, BchVal, Bpos, BtreeKey, EntryView, KeyEntry, KeyType};
use crate::entries::{lemma_put, lower_bound_at};
use crate::insert::{insert_splits, insert_takes, torn};
use crate::merge_shape::one;
use crate::node::{BtreeNode, NodeFlags, MAX_NODE_SIZE, MIN_NODE_SIZE};
use crate::shape::{
    child, get, kid_ok, kids_apart, lemma_route_is, lemma_unfold, node_ok, sub_wf, top,
};
use crate::split::stored;
use crate::transaction::BtreeTrans;
use crate::tree::{Btree, BtreeRoot, PendingRootJournal};
use crate::writer::{
    fails_with, new_written, takes_room, writes_kept, BtreeNodeWriter, StorageError,
};
use vstd::prelude::*;

verus! {

/// Levels that a tree may have.
pub const BTREE_MAX_DEPTH: usize = 4;

/// Why a node is written anew.
#[derive(Debug, Clone, Copy, PartialEq, Eq, Structural)]
pub enum BtreeNodeRewriteReason {
    /// It is not.
    NoRewrite,
    /// The format of its keys changed.
    Format,
    /// It is damaged.
    Corrupt,
    /// An inner node whose format has to be worked out again.
    InternalFormat,
    /// It was split ahead of need.
    PreSplit,
    /// Snapshots were cleaned up.
    SnapshotCleanup,
}

impl BtreeNodeRewriteReason {
    /// The code of a reason.
    pub fn code(self) -> (r: u8)
        ensures
            r == match self {
                BtreeNodeRewriteReason::NoRewrite => 0u8,
                BtreeNodeRewriteReason::Format => 1,
                BtreeNodeRewriteReason::Corrupt => 2,
                BtreeNodeRewriteReason::InternalFormat => 3,
                BtreeNodeRewriteReason::PreSplit => 4,
                BtreeNodeRewriteReason::SnapshotCleanup => 5,
            },
    {
        match self {
            BtreeNodeRewriteReason::NoRewrite => 0,
            BtreeNodeRewriteReason::Format => 1,
            BtreeNodeRewriteReason::Corrupt => 2,
            BtreeNodeRewriteReason::InternalFormat => 3,
            BtreeNodeRewriteReason::PreSplit => 4,
            BtreeNodeRewriteReason::SnapshotCleanup => 5,
        }
    }
}

/// Nodes that a split of `b` may need at worst: two on each level up to the root, and a new root
/// where the tree may still grow.
pub fn btree_update_reserve_required(btree: &Btree, b: &BtreeNode) -> (r: usize)
    requires
        b.level <= btree.root.node.level,
    ensures
        ({
            let depth = btree.root.node.level + 1;
            r == (depth - b.level) * 2 + if depth < BTREE_MAX_DEPTH {
                1int
            } else {
                -1int
            }
        }),
        btree.root.node.level <= 2 ==> r == 2 * (btree.root.node.level - b.level) + 3,
        btree.root.node.level > 2 ==> r == 2 * (btree.root.node.level - b.level) + 1,
{
    let depth: usize = btree.root.node.level as usize + 1;
    let below: usize = depth - b.level as usize;
    if depth < BTREE_MAX_DEPTH {
        below * 2 + 1
    } else {
        below * 2 - 1
    }
}

/// A node is worth merging where the lower of its sibling estimates, changed by `d`, is within
/// `threshold`.
pub open spec fn needs_merge(b: BtreeNode, threshold: u16, d: int) -> bool {
    let low = if b.sib_u64s@[0] < b.sib_u64s@[1] {
        b.sib_u64s@[0]
    } else {
        b.sib_u64s@[1]
    };
    low + d <= threshold
}

/// Whether a node is worth merging.
pub fn btree_node_needs_merge(threshold: u16, b: &BtreeNode, d: i32) -> (r: bool)
    ensures
        r == needs_merge(*b, threshold, d as int),
{
    let low: u16 = if b.sib_u64s[0] < b.sib_u64s[1] {
        b.sib_u64s[0]
    } else {
        b.sib_u64s[1]
    };
    low as i64 + d as i64 <= threshold as i64
}

/// Sets both sibling estimates to the live words of the node, with none at the ends of the key
/// space.
pub fn btree_node_reset_sib_u64s(b: &mut BtreeNode)
    ensures
        final(b).sib_u64s@ == seq![
            crate::node::sib_estimate(old(b).live_u64s, old(b).min_key == Bpos::lowest()),
            crate::node::sib_estimate(old(b).live_u64s, old(b).max_key == Bpos::highest()),
        ],
        *final(b) == (BtreeNode { sib_u64s: final(b).sib_u64s, ..*old(b) }),
{
    b.reset_sib_u64s();
}

/// Makes a node that was read the root, as it is.
pub fn bch2_btree_set_root_for_read(btree: &mut Btree, node: BtreeNode)
    ensures
        *final(btree) == (Btree {
            root: BtreeRoot { node, depth: node.level },
            ..*old(btree)
        }),
{
    btree.set_root_internal(node);
}

/// Inserts the key that a full leaf was to take; the leaf, and full nodes above it, are split where
/// there is need. A leaf that is being written turns the key away.
pub fn bch2_btree_split_leaf<W: BtreeNodeWriter>(
    btree: &mut Btree,
    writer: &mut W,
    target: &BtreeKey,
    value: &BchVal,
) -> (r: Result<bool, StorageError>)
    requires
        old(btree).wf(),
        old(btree).root.depth < 255,
        old(btree).cache@.dom().subset_of(old(writer).in_use()),
    ensures
        fails_with(*old(writer), *final(writer), r),
        takes_room(*old(writer), *final(writer), r, old(btree).root.depth + 3),
        !insert_splits(old(btree).leaf(target.pos.ord()), old(btree).root.depth) ==> r is Ok
            && *final(writer) == *old(writer) && final(btree).root.depth == old(btree).root.depth,
        final(btree).wf(),
        final(btree).cache@.dom().subset_of(final(writer).in_use()),
        writes_kept(*old(writer), *final(writer)),
        new_written(old(btree).cache@, final(btree).cache@, *final(writer)),
        r matches Ok(inserted) ==> final(btree).grown(
            *old(btree),
            *target,
            *value,
            inserted,
            0,
            *old(writer),
            *final(writer),
        ),
        old(btree).leaf(target.pos.ord()).flags.write_blocked ==> r == Ok::<bool, StorageError>(
            false,
        ),
        r is Ok ==> r == Ok::<bool, StorageError>(
            insert_takes(
                old(btree).leaf(target.pos.ord()),
                old(btree).root.depth,
                target.pos.ord(),
            ),
        ),
        match r {
            Ok(true) => final(btree).only_changed(
                *old(btree),
                target.pos.ord(),
                stored(*target, *value),
            ),
            Ok(false) => final(btree).same_content(*old(btree)),
            Err(_) => {
                &&& final(btree).key_cache == old(btree).key_cache
                &&& final(btree).root.depth == old(btree).root.depth
                &&& final(btree).same_notes(*old(btree))
                &&& forall|x: int|
                    0 <= x < top() ==> torn(
                        old(btree).tree_get(x),
                        #[trigger] final(btree).tree_get(x),
                        x,
                        target.pos.ord(),
                        stored(*target, *value),
                    )
            },
        },
        final(btree).btype == old(btree).btype,
{
    let mut trans: BtreeTrans = BtreeTrans::new();
    btree.bch2_btree_insert_trans(writer, *target, *value, &mut trans, 0)
}

/// The only entry of a root that was put on top of a node at `addr`.
pub open spec fn lone_route(addr: u64) -> EntryView {
    extent_entry(
        BtreeKey { pos: Bpos::lowest(), key_type: KeyType::Normal, size: 1 },
        BchVal { paddr: addr, ver: 0 },
    )
}

/// A root with one entry leads to what is below that entry.
proof fn lemma_lone_root(m: Map<u64, BtreeNode>, root: BtreeNode, addr: u64, level: nat)
    requires
        root.wf(),
        root.level == level + 1,
        root.keys() == one(lone_route(addr)),
        m.contains_key(addr),
        sub_wf(m, m[addr], level, 0, top()),
    ensures
        sub_wf(m, root, level + 1, 0, top()),
        forall|x: int| #[trigger] get(m, root, level + 1, x) == get(m, m[addr], level, x),
{
    let s = root.keys();
    lemma_ord(Bpos::lowest(), Bpos::lowest());
    assert(s[0] == lone_route(addr));
    assert(child(s[0]) == addr);
    assert forall|i: int| 0 <= i < s.len() implies #[trigger] kid_ok(m, s, level, 0, top(), i) by {
        assert(i == 0);
    }
    assert(kids_apart(m, s, level));
    assert(node_ok(root, level + 1, 0, top()));
    lemma_unfold(m, root, level + 1, 0, top());
    assert forall|x: int| #[trigger] get(m, root, level + 1, x) == get(m, m[addr], level, x) by {
        lemma_route_is(s, x, 0);
    }
}

/// Puts a new root on top of the node at `child_addr`, one level up, and hands out a copy of
/// it. Where that node is the top of a tree as high as this one, the tree then leads to all
/// that is below it.
pub fn bch2_btree_increase_depth<W: BtreeNodeWriter>(
    btree: &mut Btree,
    child_addr: u64,
    writer: &mut W,
) -> (r: Result<BtreeNode, StorageError>)
    requires
        MIN_NODE_SIZE <= old(btree).root.node.node_size <= MAX_NODE_SIZE,
    ensures
        final(btree).cache == old(btree).cache,
        final(btree).same_front(*old(btree)),
        writes_kept(*old(writer), *final(writer)),
        old(btree).root.depth >= BTREE_MAX_DEPTH ==> r == Err::<BtreeNode, StorageError>(
            StorageError::InvalidArgument,
        ) && *final(writer) == *old(writer),
        old(btree).root.depth < BTREE_MAX_DEPTH ==> fails_with(*old(writer), *final(writer), r)
            && takes_room(*old(writer), *final(writer), r, 1),
        match r {
            Ok(root) => {
                let o = *old(btree);
                let n = *final(btree);
                &&& o.root.depth < BTREE_MAX_DEPTH
                &&& n.root.depth == o.root.depth + 1
                &&& n.root.node.wf()
                &&& n.root.node.level == n.root.depth
                &&& n.root.node.node_size == o.root.node.node_size
                &&& n.root.node.keys() == one(lone_route(child_addr))
                &&& n.root.node.min_key == o.root.node.min_key
                &&& n.root.node.max_key == o.root.node.max_key
                &&& n.root.node.sib_u64s@ == seq![u16::MAX, u16::MAX]
                &&& n.root.node.dead_u64s == 0
                &&& n.root.node.written == 0
                &&& n.root.node.journal_seq == 0
                &&& n.root.node.lock_seq == 0
                &&& n.root.node.flags == NodeFlags::none()
                &&& n.root_modified == o.root_modified
                &&& root.keys() == n.root.node.keys()
                &&& root == (BtreeNode { entries: root.entries, ..n.root.node })
                &&& n.root_noted(*old(writer), *final(writer))
                &&& o.cache@.contains_key(child_addr) && sub_wf(
                    o.cache@,
                    o.cache@[child_addr],
                    o.height(),
                    0,
                    top(),
                ) ==> {
                    &&& n.shape_ok()
                    &&& forall|x: int| #[trigger]
                        n.tree_get(x) == get(o.cache@, o.cache@[child_addr], o.height(), x)
                }
            },
            Err(_) => *final(btree) == *old(btree),
        },
{
    if btree.root.depth as usize >= BTREE_MAX_DEPTH {
        return Err(StorageError::InvalidArgument);
    }
    let mut root: BtreeNode = BtreeNode::new_internal();
    root.level = btree.root.depth + 1;
    root.node_size = btree.root.node.node_size;
    let ghost empty = root.keys();
    let entry: KeyEntry = KeyEntry::from_key_value(
        BtreeKey::min_key(),
        BchVal { paddr: child_addr, ver: 0 },
    );
    let done: bool = root.insert_entry(entry);
    proof {
        assert(entry@ == lone_route(child_addr));
        assert(done);
        assert(lower_bound_at(empty, entry@.pos.ord(), 0));
        lemma_put(empty, entry@, 0);
        assert(root.keys() =~= one(lone_route(child_addr)));
    }
    root.min_key = btree.root.node.min_key;
    root.max_key = btree.root.node.max_key;
    let addr: u64 = match writer.write_btree_node(&root) {
        Err(e) => {
            return Err(e);
        },
        Ok(a) => a,
    };
    let copy: BtreeNode = root.duplicate();
    let ghost before = *btree;
    let level: u8 = root.level;
    btree.root = BtreeRoot { node: root, depth: level };
    btree.pending_root_journal = Some(PendingRootJournal { root_addr: addr, level });
    btree.current_root_disk = Some((addr, level));
    proof {
        let m = before.cache@;
        if m.contains_key(child_addr) && sub_wf(m, m[child_addr], before.height(), 0, top()) {
            lemma_lone_root(m, btree.root.node, child_addr, before.height());
            assert forall|x: int| #[trigger] btree.tree_get(x) == get(
                m,
                m[child_addr],
                before.height(),
                x,
            ) by {
                assert(btree.tree_get(x) == get(m, btree.root.node, before.height() + 1, x));
            }
        }
    }
    Ok(copy)
}

/// A node is worth merging where either of its estimates, changed by `d`, is within the threshold.
pub proof fn law_needs_merge_either_side(b: BtreeNode, threshold: u16, d: int)
    ensures
        needs_merge(b, threshold, d) <==> b.sib_u64s@[0] + d <= threshold || b.sib_u64s@[1] + d
            <= threshold,
{
}

/// The entry above a lone child leads to it from the lowest position on.
pub proof fn law_lone_route_leads_down(addr: u64)
    ensures
        lone_route(addr).pos == Bpos::lowest(),
        lone_route(addr).key_type == KeyType::Normal,
        lone_route(addr).bch_val().paddr == addr,
{
}

} // verus!
