//! What the library promises over several calls: views of snapshots, restarts, cuts at shard
//! borders, what is written, and the reports of the checks.

use subvol_core::bset::{bch2_bset_insert, BsetTree, BtreeNodeIter, ENTRY_TYPE_BTREE_PTR};
use subvol_core::btree_id::BtreeId;
use subvol_core::bucket::{serialize_alloc_entry, BchAllocEntry, BchAllocator, BchDataType};
use subvol_core::cache::BtreeCache;
use subvol_core::gc_alloc_info::{bch2_check_alloc_info, AllocIssue};
use subvol_core::gc_check::{bch2_check_allocations, bch2_gc_alloc_done, bch2_gc_alloc_start};
use subvol_core::iter::{BtreeIter, IterFlags};
use subvol_core::key::{BchVal, Bpos, BtreeEntry, BtreeKey, KeyEntry, KeyType};
use subvol_core::node::BtreeNode;
use subvol_core::node_cache::NodeCache;
use subvol_core::path::BtreeNodeLockedType;
use subvol_core::snapshot::SnapshotTable;
use subvol_core::topology::bch2_check_topology;
use subvol_core::tree::{Btree, BtreeRoot};
use subvol_core::volume::{bch2_btree_bit_mod, BchVol};
use subvol_core::writer::{NoopWriter, ReservedWriter, StorageError};

fn normal(vaddr: u64) -> BtreeKey {
    BtreeKey::new(vaddr, 1, KeyType::Normal)
}

/// Three snapshots, each taken from the one before.
fn chain() -> (SnapshotTable, u32, u32, u32) {
    let mut t = SnapshotTable::new();
    let (root, mid, tip) = (1000u32, 900u32, 800u32);
    assert!(t.add_snapshot(root, 0));
    assert!(t.add_snapshot(mid, root));
    assert!(t.add_snapshot(tip, mid));
    (t, root, mid, tip)
}

fn leaf_of(keys: &[(u64, u32, KeyType)]) -> Btree {
    let mut t = Btree::new_with_type(BtreeId::Extents);
    for &(offset, snapshot, ty) in keys {
        assert!(t.root.node.insert(BtreeKey::new(offset, snapshot, ty), BchVal::new(offset, 0)));
    }
    t
}

fn seen_by(t: &Btree, snaps: &SnapshotTable, snapshot: u32) -> Option<BtreeKey> {
    let mut iter =
        BtreeIter::init_with_path(t, &BtreeKey::min_key(), IterFlags::default(), BtreeId::Extents);
    iter.set_snapshot_filter(snapshot);
    let whole = iter.peek_visible(t, snaps).map(|p| p.0);
    let mut iter =
        BtreeIter::init_with_path(t, &BtreeKey::min_key(), IterFlags::default(), BtreeId::Extents);
    iter.set_snapshot_filter(snapshot);
    let ranged = iter.peek_visible_range(t, snaps).map(|p| p.0);
    assert_eq!(whole, ranged);
    whole
}

#[test]
fn a_whiteout_hides_what_it_shadows() {
    let (snaps, root, mid, tip) = chain();
    let t = leaf_of(&[(10, mid, KeyType::Normal), (10, root, KeyType::Whiteout)]);
    assert_eq!(seen_by(&t, &snaps, tip), None);
    assert_eq!(seen_by(&t, &snaps, 0), Some(BtreeKey::new(10, mid, KeyType::Normal)));
}

#[test]
fn an_unseen_whiteout_hides_nothing() {
    let (mut snaps, root, mid, tip) = chain();
    let other = 950u32;
    assert!(snaps.add_snapshot(other, root));
    let t = leaf_of(&[(10, mid, KeyType::Normal), (10, other, KeyType::Whiteout)]);
    assert_eq!(seen_by(&t, &snaps, tip), Some(BtreeKey::new(10, mid, KeyType::Normal)));
}

#[test]
fn whiteouts_alone_are_never_seen() {
    let (snaps, root, mid, tip) = chain();
    let t = leaf_of(&[(10, tip, KeyType::Whiteout), (20, mid, KeyType::Whiteout)]);
    for s in [0, root, mid, tip] {
        assert_eq!(seen_by(&t, &snaps, s), None);
    }
}

/// An inner root with two leaves below it.
fn two_leaves() -> Btree {
    let mut cache = NodeCache::new();
    for (addr, keys) in [(1u64, [10u64, 20]), (2, [40, 50])] {
        let mut leaf = BtreeNode::new_leaf();
        for k in keys {
            assert!(leaf.insert(normal(k), BchVal::new(k, 0)));
        }
        cache.insert(addr, leaf);
    }
    let mut root = BtreeNode::new_internal();
    assert!(root.insert(BtreeKey::min_key(), BchVal::new(1, 0)));
    assert!(root.insert(normal(40), BchVal::new(2, 0)));
    Btree::bch2_btree_set_root_for_read(
        BtreeRoot { node: root, depth: 1 },
        cache,
        BtreeId::Extents,
    )
}

#[test]
fn a_rewritten_parent_forces_a_restart() {
    let mut t = two_leaves();
    let mut iter =
        BtreeIter::init_with_path(&t, &normal(40), IterFlags::default(), BtreeId::Extents);
    assert!(!iter.restart_optimized(&t));
    t.root.node.lock_seq += 1;
    assert!(iter.restart_optimized(&t));
    assert!(iter.had_restart);
    assert_eq!(iter.peek(&t).unwrap().0, normal(40));
}

#[test]
fn only_the_leaf_is_held_at_first() {
    let t = two_leaves();
    let reader = BtreeIter::init_with_path(&t, &normal(10), IterFlags::default(), BtreeId::Extents);
    assert_eq!(reader.path[0].lock, BtreeNodeLockedType::Read);
    assert_eq!(reader.path[1].lock, BtreeNodeLockedType::Unlocked);
    let flags = IterFlags { intent: true, ..IterFlags::default() };
    let writer = BtreeIter::init_with_path(&t, &normal(10), flags, BtreeId::Extents);
    assert_eq!(writer.path[0].lock, BtreeNodeLockedType::Intent);
}

fn offsets(node: &BtreeNode) -> Vec<u64> {
    node.entries.iter().map(|e| e.pos.offset).collect()
}

#[test]
fn a_tree_is_cut_at_the_border_of_its_shards() {
    let mut b = Btree::new();
    for o in [0u64, 1, 2, 3, 1024, 1025, 1026, 1027, 1028, 1029] {
        assert!(b.root.node.insert(normal(o), BchVal::new(o + 1, 0)));
    }
    let mut w = NoopWriter::starting_at(1000);
    assert_eq!(b.presplit_shard_boundaries(&mut w), Ok(true));
    assert_eq!(b.depth(), 1);
    let kids: Vec<u64> = b.root.node.entries.iter().map(|e| e.to_key_value().1.paddr).collect();
    assert_eq!(kids.len(), 2);
    assert_eq!(offsets(b.cache().get(kids[0]).unwrap()), [0, 1, 2, 3]);
    assert_eq!(
        offsets(b.cache().get(kids[1]).unwrap()),
        [1024, 1025, 1026, 1027, 1028, 1029]
    );
}

#[test]
fn the_writer_gets_the_nodes_of_the_tree() {
    let mut b = Btree::new();
    b.root.node.node_size = 320;
    for i in 0..5u64 {
        assert!(b.root.node.insert(normal(i), BchVal::new(i * 3, 0)));
    }
    let mut w = ReservedWriter::with_addrs(vec![21, 22, 23]).unwrap();
    assert!(b.split_root(&mut w, None, 77).unwrap());
    let (root_addr, level) = b.current_root_disk_info().unwrap();
    assert_eq!(level, 1);
    let written = w.into_written();
    assert_eq!(written.len(), 3);
    for (addr, node) in &written {
        let kept = if *addr == root_addr { &b.root.node } else { b.cache().get(*addr).unwrap() };
        assert_eq!(offsets(node), offsets(kept));
        assert_eq!(node.journal_seq, 77);
        assert_eq!(node.level, kept.level);
    }
}

#[test]
fn a_deletion_merges_and_marks() {
    let mut b = Btree::new();
    b.root.node.node_size = 512;
    let mut w = NoopWriter::starting_at(1000);
    for i in 0..60u64 {
        assert!(b.bch2_btree_insert(&mut w, normal(i), BchVal::new(i, 0), 0).unwrap());
    }
    let nodes = b.cache().len();
    assert!(nodes > 2);
    let mut last = nodes;
    for i in 0..50u64 {
        assert!(b.bch2_btree_delete(&mut w, &normal(i), i + 1).unwrap());
        last = b.cache().len();
    }
    assert!(last < nodes, "leaves were merged");
    for i in 50..60u64 {
        assert!(b.bch2_btree_iter_peek(&normal(i)).is_some());
    }
    for i in 0..50u64 {
        assert!(b.bch2_btree_iter_peek(&normal(i)).is_none());
    }
}

#[test]
fn a_deleted_key_is_found_by_no_type() {
    let mut b = Btree::new();
    let mut w = NoopWriter::starting_at(1000);
    let present = BtreeKey::new(5, 1, KeyType::Present);
    assert!(b.bch2_btree_insert(&mut w, normal(5), BchVal::new(1, 0), 0).unwrap());
    assert!(b.bch2_btree_iter_peek(&normal(5)).is_some());
    assert!(b.bch2_btree_iter_peek(&present).is_none());
    assert!(b.bch2_btree_delete(&mut w, &normal(5), 0).unwrap());
    assert!(b.bch2_btree_iter_peek(&normal(5)).is_none());
    assert!(b.bch2_btree_iter_peek(&present).is_none());
}

#[test]
fn a_refused_bit_leaves_the_volume() {
    let mut vol = BchVol::new();
    *vol.btree_mut(BtreeId::NeedDiscard) = two_leaves();
    let pos = Bpos::new(0, 9, 0);
    assert!(!bch2_btree_bit_mod(&mut vol, BtreeId::NeedDiscard, pos, true));
    let tree = vol.btree(BtreeId::NeedDiscard);
    assert!(!tree.root_modified);
    assert_eq!(offsets(&tree.root().node), [0, 40]);
    assert_eq!(tree.key_cache.nr_dirty_keys(), 0);
}

fn record(offset: u64, entry_type: u8) -> BtreeEntry {
    BtreeEntry {
        btree_type: 0,
        level: 0,
        entry_type,
        pos: Bpos::new(0, offset, 0),
        payload: vec![offset as u8],
    }
}

fn layers() -> [BsetTree; 3] {
    let mut sets = [BsetTree::new(1), BsetTree::new(2), BsetTree::new(3)];
    for (i, offs) in [vec![10u64, 20, 30], vec![20, 25], vec![5, 30, 40]].iter().enumerate() {
        for &o in offs {
            let ty = if o == 25 { ENTRY_TYPE_BTREE_PTR } else { 1 };
            assert_eq!(bch2_bset_insert(&mut sets[i], record(o, ty)), Ok(()));
        }
    }
    sets
}

#[test]
fn a_walk_gives_every_record_once() {
    let sets = layers();
    let mut it = BtreeNodeIter::new();
    for (skip, want) in [
        (false, vec![(0u8, 10u64), (0, 20), (1, 20), (1, 25), (0, 30), (2, 30), (2, 40)]),
        (true, vec![(0, 10), (0, 20), (1, 20), (0, 30), (2, 30), (2, 40)]),
    ] {
        it.init(&sets, 3, &Bpos::new(0, 6, 0));
        let mut seen = Vec::new();
        while let Some((i, e)) = it.next(&sets, skip) {
            seen.push((i, e.pos.offset));
        }
        assert_eq!(seen, want);
    }
}

#[test]
fn a_walk_back_gives_every_record_once() {
    let sets = layers();
    let mut it = BtreeNodeIter::new();
    for (skip, want) in [
        (false, vec![(1u8, 25u64), (0, 20), (1, 20), (0, 10), (2, 5)]),
        (true, vec![(0, 20), (1, 20), (0, 10), (2, 5)]),
    ] {
        it.init_reverse(&sets, 3, &Bpos::new(0, 30, 0));
        let mut seen = Vec::new();
        while let Some((i, e)) = it.prev(&sets, skip) {
            seen.push((i, e.pos.offset));
        }
        assert_eq!(seen, want);
    }
}

#[test]
fn a_flush_hands_over_what_is_dirty() {
    let mut cache = BtreeCache::new();
    let mut inner = BtreeNode::new_internal();
    inner.level = 2;
    cache.insert_dirty(7, std::sync::Arc::new(inner));
    cache.insert_dirty(8, std::sync::Arc::new(BtreeNode::new_leaf()));
    let out = cache.flush_dirty();
    let ids: Vec<u64> = out.iter().map(|p| p.0).collect();
    assert_eq!(ids, [8, 7], "leaves first");
    assert!(cache.get(7).is_none());
    assert!(cache.get(8).is_none());
    assert!(cache.flush_dirty().is_empty());
}

#[test]
fn deleted_entries_may_be_out_of_order() {
    let mut vol = BchVol::new();
    let tree = vol.btree_mut(BtreeId::Extents);
    for k in [10u64, 20, 30] {
        assert!(tree.root.node.insert(normal(k), BchVal::new(k, 0)));
    }
    tree.root.node.entries.swap(0, 1);
    tree.root.node.min_key = Bpos::lowest();
    assert_eq!(bch2_check_topology(&vol), Err(StorageError::Transaction));
    vol.btree_mut(BtreeId::Extents).root.node.entries[0].key_type = KeyType::Deleted;
    assert_eq!(bch2_check_topology(&vol), Ok(()));
}

fn allocator(buckets: usize) -> BchAllocator {
    let mut a = BchAllocator::new();
    assert!(a.add_device(0, 2048, buckets));
    a
}

fn set_state(a: &mut BchAllocator, b: usize, ty: BchDataType) {
    let mut slot = a.devs[0].slots[b];
    slot.bucket.state = ty;
    a.put_slot(0, b, slot);
}

#[test]
fn leaks_and_changes_are_told_in_words() {
    let vol = BchVol::new();
    let mut a = allocator(16);
    set_state(&mut a, 3, BchDataType::Cached);
    set_state(&mut a, 5, BchDataType::Journal);
    let before = bch2_gc_alloc_start(&a);
    set_state(&mut a, 3, BchDataType::Free);
    set_state(&mut a, 5, BchDataType::Btree);
    set_state(&mut a, 12, BchDataType::User);
    let mut lines: Vec<String> =
        bch2_gc_alloc_done(&a, before).unwrap().iter().map(|c| c.text()).collect();
    lines.sort();
    assert_eq!(
        lines,
        [
            "device 0 bucket 12 is now User but was not previously allocated",
            "device 0 bucket 3 was Cached but is now free/unreferenced",
            "device 0 bucket 5 changed from Journal to Btree",
        ]
    );
    let leaks = bch2_check_allocations(&vol, &a).unwrap();
    let lines: Vec<String> = leaks.iter().map(|l| l.text()).collect();
    assert_eq!(
        lines,
        [
            "device 0 bucket 5 allocated (Btree) but not referenced by any extent",
            "device 0 bucket 12 allocated (User) but not referenced by any extent",
        ]
    );
}

#[test]
fn issues_are_told_in_words() {
    let (dev, bucket) = (2u8, 17u64);
    let genbits = 5u64 << 56;
    for (issue, line) in [
        (AllocIssue::BadRecord { bucket }, "alloc key 17 failed to deserialize"),
        (AllocIssue::NoRecord { dev, bucket }, "missing alloc entry for device 2 bucket 17"),
        (
            AllocIssue::NoFreespace { dev, bucket, genbits },
            "missing freespace entry for free device 2 bucket 17 genbits 5",
        ),
        (
            AllocIssue::StaleFreespace { dev, bucket, genbits, expected: 6 << 56 },
            "stale freespace entry for device 2 bucket 17 genbits 5 (expected 6)",
        ),
        (
            AllocIssue::FreespaceInUse { dev, bucket, genbits },
            "stale freespace entry for allocated device 2 bucket 17 genbits 5",
        ),
        (
            AllocIssue::GenMismatch { dev, bucket, recorded_gen: 3, actual_gen: 4 },
            "device 2 bucket 17 gen mismatch: alloc btree gen=3, gens[]=4",
        ),
    ] {
        assert_eq!(issue.text(), line);
    }
    let recorded = BchAllocEntry { gen: 7, io_time_write: 9, ..BchAllocEntry::zero() };
    let line = AllocIssue::NoBucket { dev, bucket, recorded }.text();
    assert_eq!(
        line,
        "alloc entry device 2 bucket 17 references missing bucket BchAllocEntry { \
         journal_seq_nonempty: 0, flags: 0, gen: 7, oldest_gen: 0, data_type: 0, \
         stripe_redundancy_obsolete: 0, dirty_sectors: 0, cached_sectors: 0, io_time: [0, 9], \
         stripe_refcount: 0, nr_external_backpointers: 0, journal_seq_empty: 0, \
         stripe_sectors: 0, pad: 0 }"
    );
    let line =
        AllocIssue::Mismatch { dev, bucket, recorded, actual: BchAllocEntry::zero() }.text();
    assert!(line.starts_with("alloc device 2 bucket 17 mismatch: alloc=BchAllocEntry { "));
    assert!(line.contains(" allocator=BchAllocEntry { "));
}

#[test]
fn a_record_without_bucket_is_reported_once() {
    let mut vol = BchVol::new();
    let a = allocator(1);
    for _ in 0..2 {
        let bytes = serialize_alloc_entry(&BchAllocEntry::zero());
        let entry = KeyEntry::raw(Bpos::new(0, 9, 0), KeyType::Normal, bytes);
        assert!(vol.insert_entry_raw(BtreeId::Alloc, entry, 0));
    }
    let lost = bch2_check_alloc_info(&vol, &a)
        .unwrap()
        .iter()
        .filter(|i| matches!(i, AllocIssue::NoBucket { bucket: 9, .. }))
        .count();
    assert_eq!(lost, 1);
}

/// A root of level 2 with two inner nodes, the second of which leads nowhere.
fn tree_with_a_hole() -> Btree {
    let mut cache = NodeCache::new();
    let mut leaf = BtreeNode::new_leaf();
    for k in [10u64, 20] {
        assert!(leaf.insert(normal(k), BchVal::new(k, 0)));
    }
    let mut left = BtreeNode::new_internal();
    assert!(left.insert(BtreeKey::min_key(), BchVal::new(1, 0)));
    let mut root = BtreeNode::new(2);
    assert!(root.insert(BtreeKey::min_key(), BchVal::new(10, 0)));
    assert!(root.insert(normal(100), BchVal::new(11, 0)));
    cache.insert(1, leaf);
    cache.insert(10, left);
    cache.insert(11, BtreeNode::new_internal());
    Btree::bch2_btree_set_root_for_read(
        BtreeRoot { node: root, depth: 2 },
        cache,
        BtreeId::Extents,
    )
}

#[test]
fn a_way_that_leads_nowhere_is_mended() {
    let mut t = tree_with_a_hole();
    assert!(t.hangs_together());
    let mut path = Vec::new();
    assert_eq!(t.bch2_btree_path_traverse_one(&normal(10), &mut path), Some(1));
    assert_eq!(path, [10]);
    assert_eq!(t.bch2_btree_path_traverse_one(&normal(150), &mut path), None);
    assert_eq!(path, [11]);
    let mut w = NoopWriter::starting_at(1000);
    let found = t.bch2_btree_path_traverse_mend(&mut w, &normal(150), &mut path).unwrap();
    assert!(t.cache().get(found.unwrap()).unwrap().entries.is_empty());
    assert!(t.hangs_together());
    for k in [10u64, 20] {
        assert_eq!(t.bch2_btree_iter_peek(&normal(k)).unwrap().1, BchVal::new(k, 0));
    }
    assert!(t.bch2_btree_iter_peek(&normal(150)).is_none());
    assert!(t.bch2_btree_insert(&mut w, normal(150), BchVal::new(7, 0), 0).unwrap());
    assert_eq!(t.bch2_btree_iter_peek(&normal(150)).unwrap().1, BchVal::new(7, 0));
}

#[test]
fn mending_fills_every_hole_and_nothing_else() {
    let mut t = tree_with_a_hole();
    let mut w = ReservedWriter::with_addrs(vec![21]).unwrap();
    assert_eq!(t.bch2_btree_mend(&mut w), Ok(()));
    let written = w.into_written();
    assert_eq!(written.len(), 1);
    assert_eq!(written[0].0, 21);
    assert_eq!(offsets(t.cache().get(11).unwrap()), [100]);
    let mut none = ReservedWriter::with_addrs(vec![]).unwrap();
    assert_eq!(t.bch2_btree_mend(&mut none), Ok(()), "nothing is left to mend");
    let mut poor = ReservedWriter::with_addrs(vec![]).unwrap();
    assert!(tree_with_a_hole().bch2_btree_mend(&mut poor).is_err());
}

#[test]
fn nodes_that_do_not_form_a_tree_are_told() {
    assert!(two_leaves().hangs_together());
    let mut twice = two_leaves();
    twice.root.node = BtreeNode::new_internal();
    assert!(twice.root.node.insert(BtreeKey::min_key(), BchVal::new(2, 0)));
    assert!(twice.hangs_together());
    assert!(twice.root.node.insert(normal(60), BchVal::new(2, 0)));
    assert!(!twice.hangs_together(), "one leaf at two places");
    let mut gone = two_leaves();
    assert!(gone.cache.take_node(2).is_some());
    assert!(!gone.hangs_together());
    let mut astray = two_leaves();
    let mut leaf = astray.cache.take_node(2).unwrap();
    assert!(leaf.insert(normal(15), BchVal::new(1, 0)));
    astray.cache.insert(2, leaf);
    assert!(!astray.hangs_together(), "a key outside the range of its leaf");
}
