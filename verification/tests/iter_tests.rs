//! Iterators over trees, and what a snapshot sees through them.

use subvol_core::btree_id::BtreeId;
use subvol_core::iter::{BtreeIter, IterFlags};
use subvol_core::iter_update::UpdateTriggerFlags;
use subvol_core::key::{BchVal, Bpos, BtreeKey, ExtentValue, KeyEntry, KeyType, KeyValue};
use subvol_core::node::BtreeNode;
use subvol_core::node_cache::NodeCache;
use subvol_core::path::BtreeNodeLockedType;
use subvol_core::snapshot::SnapshotTable;
use subvol_core::tree::{Btree, BtreeRoot};

fn key(vaddr: u64) -> BtreeKey {
    BtreeKey::new(vaddr, 1, KeyType::Normal)
}

fn leaf_tree(keys: &[u64]) -> Btree {
    let mut t = Btree::new_with_type(BtreeId::Extents);
    for &k in keys {
        assert!(t.root.node.insert(key(k), BchVal::new(k * 10, 0)));
    }
    t
}

fn two_leaf_tree() -> Btree {
    let mut cache = NodeCache::new();
    let mut left = BtreeNode::new_leaf();
    left.insert(key(10), BchVal::new(100, 0));
    left.insert(key(20), BchVal::new(200, 0));
    left.insert(key(30), BchVal::new(300, 0));
    let mut right = BtreeNode::new_leaf();
    right.insert(key(40), BchVal::new(400, 0));
    right.insert(key(50), BchVal::new(500, 0));
    cache.insert(1, left);
    cache.insert(2, right);
    let mut internal = BtreeNode::new_internal();
    internal.insert(BtreeKey::min_key(), BchVal::new(1, 0));
    internal.insert(key(40), BchVal::new(2, 0));
    Btree::bch2_btree_set_root_for_read(
        BtreeRoot { node: internal, depth: 1 },
        cache,
        BtreeId::Extents,
    )
}

fn iter_at(t: &Btree, target: &BtreeKey) -> BtreeIter {
    BtreeIter::init_with_path(t, target, IterFlags::default(), BtreeId::Extents)
}

/// A snapshot tree: s2 and s4 were taken from the root, s3 from s2.
fn snapshots() -> (SnapshotTable, u32, u32, u32, u32) {
    let mut t = SnapshotTable::new();
    let (root, s2, s4, s3) = (1000u32, 900u32, 899u32, 800u32);
    assert!(t.add_snapshot(root, 0));
    assert!(t.add_snapshot(s2, root));
    assert!(t.add_snapshot(s4, root));
    assert!(t.add_snapshot(s3, s2));
    (t, root, s2, s3, s4)
}

fn snapshot_leaf(root: u32, s2: u32, s3: u32, s4: u32) -> Btree {
    let mut t = Btree::new_with_type(BtreeId::Extents);
    let leaf = &mut t.root.node;
    leaf.insert(BtreeKey::new(10, s3, KeyType::Normal), BchVal::new(100, 0));
    leaf.insert(BtreeKey::new(20, s2, KeyType::Normal), BchVal::new(200, 0));
    leaf.insert(BtreeKey::new(30, s2, KeyType::Whiteout), BchVal::new(300, 0));
    leaf.insert(BtreeKey::new(40, root, KeyType::Normal), BchVal::new(400, 0));
    leaf.insert(BtreeKey::new(50, s4, KeyType::Normal), BchVal::new(500, 0));
    t
}

#[test]
fn test_update_trigger_flags_match_local_bcachefs_bit_layout() {
    let flags = [
        (UpdateTriggerFlags::internal_snapshot_node(), 1u32 << 18),
        (UpdateTriggerFlags::nojournal(), 1u32 << 19),
        (UpdateTriggerFlags::key_cache_reclaim(), 1u32 << 20),
        (UpdateTriggerFlags::norun(), 1u32 << 21),
        (UpdateTriggerFlags::transactional(), 1u32 << 22),
        (UpdateTriggerFlags::atomic(), 1u32 << 23),
        (UpdateTriggerFlags::gc(), 1u32 << 24),
        (UpdateTriggerFlags::insert(), 1u32 << 25),
        (UpdateTriggerFlags::overwrite(), 1u32 << 26),
        (UpdateTriggerFlags::is_discard(), 1u32 << 27),
        (UpdateTriggerFlags::set_needs_reconcile_done(), 1u32 << 28),
    ];
    assert_eq!(std::mem::size_of::<UpdateTriggerFlags>(), 4);
    for (flag, expected) in flags {
        assert_eq!(flag.bits(), expected);
    }
}

#[test]
fn test_update_trigger_flags_combine() {
    assert_eq!(UpdateTriggerFlags::empty().bits(), 0);
    let transactional = UpdateTriggerFlags::transactional().union(UpdateTriggerFlags::insert());
    assert!(transactional.contains(UpdateTriggerFlags::transactional()));
    assert!(transactional.contains(UpdateTriggerFlags::insert()));
    assert!(!transactional.contains(UpdateTriggerFlags::gc()));
    assert_eq!(transactional.bits(), (1u32 << 22) | (1u32 << 25));
    let gc = UpdateTriggerFlags::gc().union(UpdateTriggerFlags::insert());
    assert!(gc.contains(UpdateTriggerFlags::gc()));
    assert!(gc.contains(UpdateTriggerFlags::insert()));
    assert!(!gc.contains(UpdateTriggerFlags::transactional()));
    assert_eq!(gc.bits(), (1u32 << 24) | (1u32 << 25));
}

#[test]
fn test_iter_init_single_leaf() {
    let t = leaf_tree(&[]);
    let iter = iter_at(&t, &key(100));
    assert_eq!(iter.path.len(), 1);
    assert!(iter.at_leaf(&t));
}

#[test]
fn test_iter_init_keeps_lookup_position_separate_from_current_key() {
    let mut t = leaf_tree(&[]);
    t.root.node.insert(key(20), BchVal::new(200, 0));
    let target = key(15);
    let iter = iter_at(&t, &target);
    assert_eq!(iter.pos, target);
    assert_eq!(iter.peek(&t).unwrap().0, key(20));
}

#[test]
fn test_iter_peek_empty() {
    let t = leaf_tree(&[]);
    let iter = iter_at(&t, &key(100));
    assert!(iter.peek(&t).is_none());
}

#[test]
fn test_iter_init_intent() {
    let t = leaf_tree(&[]);
    let flags = IterFlags {
        intent: true,
        forward: true,
        with_journal: false,
        cached: false,
        nopreserve: false,
    };
    let iter = BtreeIter::init_with_path(&t, &key(100), flags, BtreeId::Extents);
    assert_eq!(iter.flags.intent, true);
}

#[test]
fn test_iter_restart() {
    let t = leaf_tree(&[]);
    let mut iter = iter_at(&t, &key(100));
    assert!(!iter.had_restart);
    iter.restart(&t);
    assert!(iter.had_restart);
}

#[test]
fn test_iter_advance_empty() {
    let t = leaf_tree(&[]);
    let mut iter = iter_at(&t, &key(100));
    assert!(!iter.advance(&t));
}

#[test]
fn test_iter_prev_slot_same_leaf() {
    let t = leaf_tree(&[10, 20, 30]);
    let mut iter = iter_at(&t, &key(20));
    let prev = iter.prev_slot(&t).expect("should rewind within leaf");
    assert_eq!(prev.0, key(10));
    assert_eq!(iter.peek(&t).unwrap().0, key(10));
}

#[test]
fn test_iter_prev_slot_cross_leaf() {
    let t = two_leaf_tree();
    let mut iter = iter_at(&t, &key(40));
    let prev = iter.prev_slot(&t).expect("should rewind to previous leaf");
    assert_eq!(prev.0, key(30));
    assert_eq!(iter.peek(&t).unwrap().0, key(30));
}

#[test]
fn test_iter_peek_prev_min_respects_lower_bound() {
    let t = leaf_tree(&[10, 20, 30]);
    let mut iter = iter_at(&t, &key(30));
    let ok = iter.peek_prev_min(&t, Bpos::new(0, 15, 1)).expect("an entry above the lower bound");
    assert_eq!(ok.0, key(20));
    assert!(iter.peek_prev_min(&t, Bpos::new(0, 25, 1)).is_none());
}

#[test]
fn test_iter_peek_max_respects_upper_bound() {
    let t = leaf_tree(&[10, 20]);
    let mut iter = iter_at(&t, &key(10));
    assert_eq!(iter.peek_max(&t, &Bpos::new(0, 10, 1)).unwrap().0, key(10));
    assert!(iter.peek_max(&t, &Bpos::new(0, 5, 1)).is_none());
}

#[test]
fn test_iter_leaf_key_count() {
    let t = leaf_tree(&[]);
    let iter = iter_at(&t, &key(100));
    assert_eq!(iter.leaf_key_count(&t), 0);
}

#[test]
fn test_iter_snapshot_filter_s2() {
    let (snaps, root, s2, s3, s4) = snapshots();
    let t = snapshot_leaf(root, s2, s3, s4);
    let mut iter = iter_at(&t, &BtreeKey::min_key());
    iter.set_snapshot_filter(s2);
    let first = iter.peek_visible(&t, &snaps);
    assert_eq!(first.unwrap().0, BtreeKey::new(20, s2, KeyType::Normal));
    assert!(iter.advance_visible(&t, &snaps));
    let second = iter.peek_visible(&t, &snaps);
    assert_eq!(second.unwrap().0, BtreeKey::new(40, root, KeyType::Normal));
    assert!(!iter.advance_visible(&t, &snaps));
    assert!(iter.peek_visible(&t, &snaps).is_none());
}

#[test]
fn test_iter_snapshot_filter_s4() {
    let (snaps, root, s2, s3, s4) = snapshots();
    let t = snapshot_leaf(root, s2, s3, s4);
    let mut iter = iter_at(&t, &BtreeKey::min_key());
    iter.set_snapshot_filter(s4);
    let first = iter.peek_visible(&t, &snaps);
    assert_eq!(first.unwrap().0, BtreeKey::new(40, root, KeyType::Normal));
    assert!(iter.advance_visible(&t, &snaps));
    let second = iter.peek_visible(&t, &snaps);
    assert_eq!(second.unwrap().0, BtreeKey::new(50, s4, KeyType::Normal));
    assert!(!iter.advance_visible(&t, &snaps));
}

#[test]
fn test_iter_snapshot_filter_root() {
    let (snaps, root, s2, s3, s4) = snapshots();
    let t = snapshot_leaf(root, s2, s3, s4);
    let mut iter = iter_at(&t, &BtreeKey::min_key());
    iter.set_snapshot_filter(root);
    let mut entries: Vec<BtreeKey> = Vec::new();
    while let Some((k, _)) = iter.peek_visible(&t, &snaps) {
        entries.push(k);
        if !iter.advance_visible(&t, &snaps) {
            break;
        }
    }
    assert_eq!(entries.len(), 1, "root should see only its own entry");
    assert_eq!(entries[0], BtreeKey::new(40, root, KeyType::Normal));
}

#[test]
fn test_iter_peek_visible_no_filter() {
    let mut t = leaf_tree(&[]);
    t.root.node.insert(BtreeKey::new(10, 3, KeyType::Normal), BchVal::new(100, 0));
    t.root.node.insert(BtreeKey::new(20, 2, KeyType::Whiteout), BchVal::new(200, 0));
    t.root.node.insert(BtreeKey::new(30, 1, KeyType::Normal), BchVal::new(300, 0));
    let snaps = SnapshotTable::new();
    let mut iter = iter_at(&t, &BtreeKey::min_key());
    let first = iter.peek_visible(&t, &snaps);
    assert_eq!(first.unwrap().0, BtreeKey::new(10, 3, KeyType::Normal));
    assert!(iter.advance_visible(&t, &snaps), "should advance past whiteout");
    let second = iter.peek_visible(&t, &snaps);
    assert_eq!(second.unwrap().0, BtreeKey::new(30, 1, KeyType::Normal));
    assert!(!iter.advance_visible(&t, &snaps), "no more entries");
    assert!(iter.peek_visible(&t, &snaps).is_none(), "should be at end");
}

#[test]
fn test_iter_multi_level_traversal() {
    let t = two_leaf_tree();
    let iter = iter_at(&t, &key(20));
    let result = iter.peek(&t);
    assert_eq!(result.unwrap().0, key(20));
    assert_eq!(result.unwrap().1, BchVal::new(200, 0));
    let iter = iter_at(&t, &key(50));
    let result = iter.peek(&t);
    assert_eq!(result.unwrap().0, key(50));
    assert_eq!(result.unwrap().1, BchVal::new(500, 0));
    let iter = iter_at(&t, &key(35));
    let result = iter.peek(&t);
    assert!(result.is_some(), "should advance to the next leaf");
    assert_eq!(result.unwrap().0, key(40));
}

#[test]
fn test_restart_optimized_skips_when_seq_unchanged() {
    let t = leaf_tree(&[]);
    let mut iter = iter_at(&t, &key(100));
    let restarted = iter.restart_optimized(&t);
    assert!(!restarted, "should skip restart when seq unchanged");
    for level in &iter.path {
        assert_eq!(level.lock, BtreeNodeLockedType::Unlocked, "lock should be released");
    }
    assert!(!iter.had_restart);
}

#[test]
fn test_restart_optimized_falls_back_when_seq_changed() {
    let mut t = leaf_tree(&[]);
    let mut iter = iter_at(&t, &key(100));
    t.root.node.lock_seq += 1;
    let restarted = iter.restart_optimized(&t);
    assert!(restarted, "should fall back to full restart when seq changed");
    assert!(iter.had_restart);
}

#[test]
fn test_restart_optimized_empty_path() {
    let t = leaf_tree(&[]);
    let mut iter = iter_at(&t, &key(100));
    iter.path.clear();
    let result = iter.restart_optimized(&t);
    assert!(result, "an empty path falls back to a full restart");
    assert!(!iter.path.is_empty());
}

#[test]
fn test_snapshot_visible_cache_shared_across_calls() {
    let mut snaps = SnapshotTable::new();
    let (root, s2, s3) = (1000u32, 900u32, 800u32);
    assert!(snaps.add_snapshot(root, 0));
    assert!(snaps.add_snapshot(s2, root));
    assert!(snaps.add_snapshot(s3, s2));
    let mut t = leaf_tree(&[]);
    t.root.node.insert(BtreeKey::new(10, root, KeyType::Normal), BchVal::new(100, 0));
    t.root.node.insert(BtreeKey::new(20, root, KeyType::Normal), BchVal::new(200, 0));
    let mut iter = iter_at(&t, &BtreeKey::min_key());
    iter.set_snapshot_filter(s3);
    let first = iter.peek_visible(&t, &snaps);
    assert_eq!(first.unwrap().0, BtreeKey::new(10, root, KeyType::Normal));
    assert!(iter.advance_visible(&t, &snaps), "should advance to next");
    let second = iter.peek_visible(&t, &snaps);
    assert_eq!(second.unwrap().0, BtreeKey::new(20, root, KeyType::Normal));
    assert!(!iter.visible.is_empty(), "what was found out is kept");
}

#[test]
fn test_snapshot_visible_cache_cleared_on_filter_change() {
    let (snaps, _root, s2, _s3, s4) = snapshots();
    let mut t = leaf_tree(&[]);
    t.root.node.insert(BtreeKey::new(10, s2, KeyType::Normal), BchVal::new(100, 0));
    t.root.node.insert(BtreeKey::new(20, s4, KeyType::Normal), BchVal::new(200, 0));
    let mut iter = iter_at(&t, &BtreeKey::min_key());
    iter.set_snapshot_filter(s2);
    let first = iter.peek_visible(&t, &snaps);
    assert_eq!(first.unwrap().0, BtreeKey::new(10, s2, KeyType::Normal));
    iter.set_snapshot_filter(s4);
    let first_s4 = iter.peek_visible(&t, &snaps);
    assert_eq!(first_s4.unwrap().0, BtreeKey::new(20, s4, KeyType::Normal));
}

#[test]
fn test_visible_range_with_entry_preserves_extent_device() {
    let mut t = leaf_tree(&[]);
    let k = BtreeKey::new(10, 0, KeyType::Normal);
    assert!(t.root.node.insert_entry(KeyEntry::new(
        k.to_bpos(),
        KeyType::Normal,
        KeyValue::Extent(ExtentValue {
            paddr: 100,
            size: 2,
            ver: 7,
            crc32c: 0,
            crc_offset_blocks: 0,
            dev_idx: 3,
        }),
    )));
    let snaps = SnapshotTable::new();
    let mut iter = iter_at(&t, &BtreeKey::min_key());
    let (_, value, raw, start, end) = iter
        .peek_visible_range_with_entry(&t, &snaps)
        .expect("extent should be visible");
    assert_eq!(value, BchVal::new(100, 7));
    assert_eq!((start, end), (10, 12));
    let ptrs = raw.for_each_ptr();
    assert_eq!(ptrs.len(), 1);
    assert_eq!(ptrs[0].dev, 3);
    assert_eq!(ptrs[0].offset, 100);
}

#[test]
fn a_step_back_undoes_a_step_forward() {
    let t = two_leaf_tree();
    let mut iter = iter_at(&t, &key(30));
    assert!(iter.advance(&t));
    assert_eq!(iter.peek(&t).unwrap().0, key(40));
    assert_eq!(iter.prev_slot(&t).unwrap().0, key(30));
}

#[test]
fn an_iterator_with_intent_updates_in_place() {
    let mut t = leaf_tree(&[10, 20]);
    let flags = IterFlags {
        intent: true,
        forward: true,
        with_journal: false,
        cached: false,
        nopreserve: false,
    };
    let mut iter = BtreeIter::init_with_path(&t, &key(20), flags, BtreeId::Extents);
    assert!(iter.update(&mut t, &BchVal::new(77, 1)));
    assert_eq!(t.bch2_btree_iter_peek(&key(20)).unwrap().1, BchVal::new(77, 1));
    let mut reader = iter_at(&t, &key(10));
    assert!(!reader.update(&mut t, &BchVal::new(1, 1)), "a reader may not update");
}

#[test]
fn an_iterator_without_its_leaf_is_not_at_one() {
    let mut t = two_leaf_tree();
    let iter = iter_at(&t, &key(40));
    assert!(iter.at_leaf(&t));
    assert!(t.cache.take_node(2).is_some());
    assert!(!iter.at_leaf(&t));
    let lost = BtreeIter::from_existing(
        &key(40),
        IterFlags::default(),
        BtreeId::Extents,
        Vec::new(),
        0,
    );
    assert!(!lost.at_leaf(&t));
    let mut raised = iter_at(&two_leaf_tree(), &key(10));
    raised.path[0].addr = 3;
    let mut internal = BtreeNode::new_internal();
    internal.insert(BtreeKey::min_key(), BchVal::new(1, 0));
    t.cache.insert(3, internal);
    assert!(!raised.at_leaf(&t));
}
