//! Corners of the public interface: allocation checks, slots, limits and hand-overs.

use std::sync::Arc;
use subvol_core::accounting::bch2_alloc_key_to_dev_counters;
use subvol_core::bset::{
    bch2_bset_init_first, bch2_bset_init_next, bch2_bset_insert, bset_search_write_set,
    BsetAuxTreeType, BsetTree,
};
use subvol_core::btree_id::BtreeId;
use subvol_core::bucket::{
    serialize_alloc_entry, BchAllocEntry, BchAllocator, BchDataType,
};
use subvol_core::cache::BtreeCache;
use subvol_core::cache_fill::node_id_for;
use subvol_core::gc::{bch2_fs_btree_gc_init_early, BtreeGc};
use subvol_core::gc_alloc_info::{bch2_check_alloc_info, AllocIssue};
use subvol_core::interior::BtreeNodeRewriteReason;
use subvol_core::interior_updates::InteriorUpdates;
use subvol_core::iter::{BtreeIter, IterFlags};
use subvol_core::key::{BchVal, Bpos, BtreeEntry, BtreeKey, KeyEntry, KeyType};
use subvol_core::node::BtreeNode;
use subvol_core::node_buffer::NodeBuffer;
use subvol_core::node_write::{
    bch2_btree_cancel_all_writes, bch2_btree_flush_all_reads, bch2_btree_flush_all_writes,
    compat_bpos,
};
use subvol_core::snapshot::SnapshotTable;
use subvol_core::tree::Btree;
use subvol_core::volume::{bch2_presplit_shard_boundaries, BchVol};
use subvol_core::writer::NoopWriter;

fn plain_key(vaddr: u64) -> BtreeKey {
    BtreeKey::new(vaddr, 1, KeyType::Normal)
}

fn one_device(buckets: usize) -> BchAllocator {
    let mut a = BchAllocator::new();
    assert!(a.add_device(0, 2048, buckets));
    a
}

fn put_record(vol: &mut BchVol, bucket: u64, e: &BchAllocEntry) {
    assert!(vol.insert_entry_raw(
        BtreeId::Alloc,
        KeyEntry::raw(Bpos::new(0, bucket, 0), KeyType::Normal, serialize_alloc_entry(e)),
        0,
    ));
}

#[test]
fn a_bucket_without_record_is_reported() {
    let vol = BchVol::new();
    let allocator = one_device(2);
    let issues = bch2_check_alloc_info(&vol, &allocator).unwrap();
    for bucket in 0..2u64 {
        assert!(issues.contains(&AllocIssue::NoRecord { dev: 0, bucket }));
    }
    assert!(!issues.iter().any(|i| matches!(i, AllocIssue::BadRecord { .. })));
}

#[test]
fn a_record_that_differs_is_reported() {
    let mut vol = BchVol::new();
    let allocator = one_device(1);
    let wrong = BchAllocEntry {
        data_type: BchDataType::User.to_raw(),
        dirty_sectors: 8,
        ..BchAllocEntry::zero()
    };
    put_record(&mut vol, 0, &wrong);
    let issues = bch2_check_alloc_info(&vol, &allocator).unwrap();
    assert!(issues
        .iter()
        .any(|i| matches!(i, AllocIssue::Mismatch { dev: 0, bucket: 0, .. })));
    assert!(!issues.contains(&AllocIssue::NoRecord { dev: 0, bucket: 0 }));
}

#[test]
fn a_record_without_bucket_is_reported() {
    let mut vol = BchVol::new();
    let allocator = one_device(1);
    put_record(&mut vol, 9, &BchAllocEntry::zero());
    let issues = bch2_check_alloc_info(&vol, &allocator).unwrap();
    assert!(issues
        .iter()
        .any(|i| matches!(i, AllocIssue::NoBucket { dev: 0, bucket: 9, .. })));
}

#[test]
fn an_unreadable_record_is_reported() {
    let mut vol = BchVol::new();
    let allocator = one_device(1);
    assert!(vol.insert_entry_raw(
        BtreeId::Alloc,
        KeyEntry::raw(Bpos::new(0, 3, 0), KeyType::Normal, vec![1, 2, 3]),
        0,
    ));
    let issues = bch2_check_alloc_info(&vol, &allocator).unwrap();
    assert!(issues.contains(&AllocIssue::BadRecord { bucket: 3 }));
}

#[test]
fn counters_follow_the_records() {
    let mut counters = Vec::new();
    let free = BchAllocEntry::zero();
    let user = BchAllocEntry {
        data_type: BchDataType::User.to_raw(),
        dirty_sectors: 100,
        ..BchAllocEntry::zero()
    };
    bch2_alloc_key_to_dev_counters(&mut counters, 0, 2048, &free, &user);
    let c = counters.iter().find(|c| c.data_type == BchDataType::User.to_raw()).unwrap();
    assert_eq!((c.buckets, c.sectors, c.fragmented), (1, 100, 1948));
}

#[test]
fn a_tree_over_two_shards_is_split() {
    let mut vol = BchVol::new();
    for k in [1u64, 2, 3, 4, 5] {
        let offset = if k < 3 { k } else { 2048 + k };
        vol.btree_mut(BtreeId::Extents).bch2_btree_bset_insert_key_wrapper(
            KeyEntry::from_key_value(plain_key(offset), BchVal::new(k, 0)),
            0,
        );
    }
    let mut writer = NoopWriter::starting_at(1000);
    assert_eq!(bch2_presplit_shard_boundaries(&mut vol, &mut writer), Ok(()));
    assert_eq!(vol.btree(BtreeId::Extents).depth(), 1);
    assert_eq!(vol.btree(BtreeId::Alloc).depth(), 0);
    for k in [1u64, 2, 2051, 2052, 2053] {
        assert!(vol.get_entry(BtreeId::Extents, &plain_key(k)).is_some(), "key {}", k);
    }
}

fn three_keys() -> Btree {
    let mut t = Btree::new();
    let mut w = NoopWriter::starting_at(1000);
    for k in [10u64, 20, 30] {
        assert!(t.bch2_btree_insert(&mut w, plain_key(k), BchVal::new(k, 0), 0).unwrap());
    }
    t
}

#[test]
fn slots_are_entries() {
    let t = three_keys();
    let flags = IterFlags::default();
    let mut iter = BtreeIter::init_with_path(&t, &plain_key(10), flags, BtreeId::Inodes);
    assert_eq!(iter.bch2_btree_iter_peek_slot(&t).unwrap().0.pos.offset, 10);
    assert_eq!(iter.next_slot(&t).unwrap().0.pos.offset, 20);
    assert_eq!(iter.prev_slot(&t).unwrap().0.pos.offset, 10);
    assert!(iter.traverse(&t));
}

#[test]
fn an_iterator_may_begin_before_its_target() {
    let t = three_keys();
    let iter = BtreeIter::init_with_snapshot_peek_prev_with_path(
        &t,
        &plain_key(25),
        IterFlags::default(),
        0,
        BtreeId::Inodes,
    );
    assert_eq!(iter.peek(&t).unwrap().0.pos.offset, 20);
}

#[test]
fn a_range_ends_where_the_next_entry_begins() {
    let t = three_keys();
    let snaps = SnapshotTable::new();
    let flags = IterFlags::default();
    let mut iter = BtreeIter::init_with_path(&t, &plain_key(10), flags, BtreeId::Inodes);
    let (key, value, start, end) = iter.peek_visible_range(&t, &snaps).unwrap();
    assert_eq!(key.pos.offset, 10);
    assert_eq!(value.paddr, 10);
    assert_eq!(start, 10);
    assert!(end > start && end <= 20);
}

#[test]
fn room_is_made_by_a_clean_or_a_dirty_node() {
    let mut cache = BtreeCache::new();
    let mut depth = 0u32;
    cache.insert_dirty(7, Arc::new(BtreeNode::new_leaf()));
    assert!(!cache.try_cannibalize(&mut depth));
    assert_eq!(cache.pending_flush.len(), 1);
    assert_eq!(depth, 0);
    assert!(!cache.try_cannibalize(&mut depth), "nobody else holds the lock");
    assert_eq!(depth, 1);
    assert!(!cache.btree_node_reclaim(), "few nodes stay");
}

#[test]
fn a_node_for_a_key_is_cached() {
    let mut cache = BtreeCache::new();
    let key = plain_key(3);
    let node = cache.alloc_node_for_key(&key, 2, BtreeId::Extents);
    assert_eq!(node.level, 2);
    assert_eq!(node.min_key, key.to_bpos());
    let id = node_id_for(&key, BtreeId::Extents);
    assert!(cache.get(id).is_some());
    cache.bch2_btree_node_set_dirty(id);
    assert_eq!(cache.nr_dirty(), 1);
    cache.bch2_btree_node_data_free(id);
    assert!(cache.is_empty());
}

#[test]
fn a_node_is_handed_over_between_updates() {
    let mut updates = InteriorUpdates::new();
    let a = updates.start();
    let b = updates.start();
    updates.block_node(a, 7);
    updates.reparent(7, b);
    updates.finish(a);
    assert!(updates.unblock_node(b, 7));
}

#[test]
fn layers_start_empty() {
    let mut set = BsetTree::new(1);
    let entry = BtreeEntry {
        btree_type: 0,
        level: 0,
        entry_type: 1,
        pos: Bpos::new(0, 5, 0),
        payload: vec![1],
    };
    assert_eq!(bch2_bset_insert(&mut set, entry), Ok(()));
    assert_eq!(bset_search_write_set(&set, &Bpos::new(0, 9, 0)), 0);
    bch2_bset_init_next(&mut set, 2, 16);
    assert!(set.is_empty());
    assert_eq!(set.bset.seq, 2);
    bch2_bset_init_first(&mut set, 3);
    assert_eq!(set.aux_type, BsetAuxTreeType::NoAuxTree);
}

#[test]
fn keys_of_a_buffer_are_found_by_number() {
    let mut node = NodeBuffer::new_leaf();
    for k in [1u64, 2] {
        assert!(node.insert(&Bpos::new(0, k, 1), KeyType::Normal, &vec![0u8; 24]));
    }
    let first = node.sets[0].first_key_offset() * 8;
    assert_eq!(node.find_entry_offset(1), (first, 48));
    assert_eq!(node.find_entry_offset(2), (first + 48, 48));
    assert_eq!(node.find_entry_offset(3), (0, 0));
}

#[test]
fn nothing_is_on_its_way() {
    assert!(bch2_btree_flush_all_reads());
    assert!(bch2_btree_flush_all_writes());
    bch2_btree_cancel_all_writes();
    let mut pos = Bpos::new(1, 2, 3);
    compat_bpos(0, 0, 0, 0, false, &mut pos);
    assert_eq!(pos, Bpos::new(1, 2, 3));
    let mut gc = BtreeGc::new();
    gc.running = true;
    bch2_fs_btree_gc_init_early(&mut gc);
    assert!(!gc.running);
    assert_eq!(BtreeNodeRewriteReason::SnapshotCleanup.code(), 5);
}

#[test]
fn a_tree_shows_its_root_and_its_nodes() {
    let mut t = three_keys();
    let (root, cache) = t.root_and_cache();
    assert_eq!(root.depth, 0);
    assert!(cache.is_empty());
    let addr = t.cache_mut().alloc_addr();
    assert_eq!(addr, 1);
    let (written, sectors, left) = Btree::node_progress(&BtreeNode::new_leaf());
    assert_eq!(written, 0);
    assert!(sectors > 0 && left > 0);
}
