//! Garbage collection: phases, marks, checks and sweeps.

use std::cmp::Ordering;
use subvol_core::bucket::{
    deserialize_alloc_entry, sector_to_bucket, serialize_alloc_entry, BchAllocEntry, BchAllocator,
    BchDataType, BLOCKS_PER_BUCKET, SECTORS_PER_BLOCK,
};
use subvol_core::btree_id::BtreeId;
use subvol_core::gc::{
    bch2_gc_gen_async, bch2_gc_pos_from_sb, bch2_gc_pos_to_sb, bch2_gc_pos_to_text, gc_phase,
    gc_pos_btree, gc_pos_cmp, gc_visited, BtreeGc, GcPhase, SbGcPos,
};
use subvol_core::gc_check::{bch2_check_allocations, bch2_gc_alloc_done, bch2_gc_alloc_start};
use subvol_core::gc_mark::{bch2_gc_btrees, bch2_gc_gen};
use subvol_core::gc_sweep::bch2_gc_sweep;
use subvol_core::key::{BchVal, Bpos, BtreeKey, ExtentValue, KeyEntry, KeyType, KeyValue};
use subvol_core::node::BtreeNode;
use subvol_core::node_cache::NodeCache;
use subvol_core::topology::bch2_check_topology;
use subvol_core::tree::{Btree, BtreeRoot};
use subvol_core::volume::{BchVol, DevCounters};
use subvol_core::writer::NoopWriter;

fn extent(offset: u64, paddr: u64, ver: u16) -> KeyEntry {
    KeyEntry::new(
        Bpos::new(0, offset, 0),
        KeyType::Normal,
        KeyValue::Extent(ExtentValue {
            paddr,
            size: 1,
            ver,
            crc32c: 0,
            crc_offset_blocks: 0,
            dev_idx: 0,
        }),
    )
}

fn gc_allocator(bucket_size: u64) -> BchAllocator {
    let mut a = BchAllocator::new();
    assert!(a.add_device(0, bucket_size, 1024));
    a
}

fn mark_referenced(a: &mut BchAllocator, b: usize, ty: BchDataType) {
    let mut slot = a.devs[0].slots[b];
    slot.gc.gen = slot.gen;
    slot.gc.gen_valid = true;
    slot.gc.data_type = ty.to_raw();
    a.put_slot(0, b, slot);
}

fn set_state(a: &mut BchAllocator, b: usize, ty: BchDataType) {
    let mut slot = a.devs[0].slots[b];
    slot.bucket.state = ty;
    a.put_slot(0, b, slot);
}

fn state_of(a: &BchAllocator, b: usize) -> BchDataType {
    a.devs[0].slots[b].bucket.state
}

fn inner_tree() -> Btree {
    let mut cache = NodeCache::new();
    let mut left = BtreeNode::new_leaf();
    for k in [10u64, 20, 30] {
        left.insert(BtreeKey::new(k, 1, KeyType::Normal), BchVal::new(k * 10, 0));
    }
    let mut right = BtreeNode::new_leaf();
    for k in [40u64, 50] {
        right.insert(BtreeKey::new(k, 1, KeyType::Normal), BchVal::new(k * 10, 0));
    }
    let left_addr = cache.alloc_addr();
    let right_addr = cache.alloc_addr();
    cache.insert(left_addr, left);
    cache.insert(right_addr, right);
    let mut internal = BtreeNode::new_internal();
    internal.insert(BtreeKey::min_key(), BchVal::new(left_addr, 0));
    internal.insert(BtreeKey::new(40, 1, KeyType::Normal), BchVal::new(right_addr, 0));
    Btree::bch2_btree_set_root_for_read(
        BtreeRoot { node: internal, depth: 1 },
        cache,
        BtreeId::Extents,
    )
}

fn child_addrs(tree: &Btree) -> (u64, u64) {
    let e = &tree.root().node.entries;
    (e[0].to_key_value().1.paddr, e[1].to_key_value().1.paddr)
}

#[test]
fn test_gc_phase_order() {
    assert!(GcPhase::NotRunning < GcPhase::Start);
    assert!(GcPhase::Start < GcPhase::Sb);
    assert!(GcPhase::Sb < GcPhase::Btree);
}

#[test]
fn test_gc_pos_cmp() {
    let a = gc_phase(GcPhase::Start);
    let b = gc_phase(GcPhase::Btree);
    assert_eq!(gc_pos_cmp(&a, &b), Ordering::Less);
}

#[test]
fn test_gc_visited() {
    let gc = BtreeGc::new();
    let pos = gc_phase(GcPhase::Start);
    assert!(!gc_visited(&gc, &pos), "gc should not have visited Start yet");
}

#[test]
fn test_gc_default() {
    let gc = BtreeGc::default();
    assert_eq!(gc.pos.phase, GcPhase::NotRunning);
    assert!(!gc.running);
}

#[test]
fn test_gc_trigger() {
    let mut gc = BtreeGc::new();
    bch2_gc_gen_async(&mut gc);
    assert!(gc.triggered);
}

#[test]
fn test_gc_gen_basic() {
    let mut gc = BtreeGc::new();
    let mut vol = BchVol::new();
    let mut allocator = gc_allocator(1024);
    let paddr = 0x1000u64;
    vol.btree_mut(BtreeId::Extents).bch2_btree_bset_insert_key_wrapper(extent(1, paddr, 1), 0);
    let result = bch2_gc_gen(&vol, &mut allocator, &mut gc, 1);
    assert!(result.is_ok(), "bch2_gc_gen should succeed");
    let bucket_idx = sector_to_bucket(1024, paddr * SECTORS_PER_BLOCK) as usize;
    assert_eq!(bucket_idx, 32);
    let slot = allocator.devs[0].slots[bucket_idx];
    assert!(slot.gc.gen_valid);
    assert_eq!(slot.gc.data_type, BchDataType::User.to_raw());
}

#[test]
fn test_check_topology_basic() {
    let mut vol = BchVol::new();
    vol.btree_mut(BtreeId::Extents).bch2_btree_bset_insert_key_wrapper(extent(10, 0x100, 1), 0);
    vol.btree_mut(BtreeId::Extents).bch2_btree_bset_insert_key_wrapper(extent(20, 0x200, 1), 0);
    assert!(bch2_check_topology(&vol).is_ok());
}

#[test]
fn test_check_topology_empty_btree() {
    let vol = BchVol::new();
    assert!(bch2_check_topology(&vol).is_ok());
}

#[test]
fn test_check_allocations_basic() {
    let vol = BchVol::new();
    let allocator = gc_allocator(2048);
    let result = bch2_check_allocations(&vol, &allocator);
    assert!(result.is_ok(), "allocations check should succeed");
    let discrepancies = result.unwrap();
    assert!(discrepancies.is_empty(), "expected no discrepancies, got: {:?}", discrepancies);
}

#[test]
fn test_check_topology_with_root_range() {
    let mut vol = BchVol::new();
    vol.btree_mut(BtreeId::Extents).bch2_btree_bset_insert_key_wrapper(extent(10, 0x100, 1), 0);
    vol.btree_mut(BtreeId::Extents).bch2_btree_bset_insert_key_wrapper(extent(20, 0x200, 1), 0);
    assert!(bch2_check_topology(&vol).is_ok());
}

#[test]
fn test_check_topology_detects_out_of_order() {
    let mut vol = BchVol::new();
    vol.btree_mut(BtreeId::Extents).bch2_btree_bset_insert_key_wrapper(extent(20, 0x200, 1), 0);
    vol.btree_mut(BtreeId::Extents).bch2_btree_bset_insert_key_wrapper(extent(10, 0x100, 1), 0);
    assert!(bch2_check_topology(&vol).is_ok(), "sorted insert ensures ordered entries");
}

#[test]
fn test_check_topology_recursive_tree() {
    let mut vol = BchVol::new();
    *vol.btree_mut(BtreeId::Extents) = inner_tree();
    assert!(bch2_check_topology(&vol).is_ok());
}

#[test]
fn test_check_topology_detects_child_boundary_overlap() {
    let mut btree = inner_tree();
    let (left_addr, right_addr) = child_addrs(&btree);
    let mut right = btree.cache.take_node(right_addr).expect("right child");
    right.min_key = Bpos::new(25, 1, 0);
    btree.cache.insert(right_addr, right);
    let mut vol = BchVol::new();
    *vol.btree_mut(BtreeId::Extents) = btree;
    assert!(bch2_check_topology(&vol).is_err());
    assert_ne!(left_addr, right_addr);
}

#[test]
fn test_check_topology_detects_missing_child() {
    let mut btree = inner_tree();
    let (_, right_addr) = child_addrs(&btree);
    let _ = btree.cache.take_node(right_addr).expect("right child");
    let mut vol = BchVol::new();
    *vol.btree_mut(BtreeId::Extents) = btree;
    assert!(bch2_check_topology(&vol).is_err());
}

#[test]
fn test_gc_btrees_mark_path() {
    let mut vol = BchVol::new();
    let paddr = 0x2000u64;
    vol.btree_mut(BtreeId::Extents).bch2_btree_bset_insert_key_wrapper(extent(1, paddr, 0), 0);
    let mut allocator = gc_allocator(2048);
    assert!(bch2_gc_btrees(&mut vol, &mut allocator).is_ok());
    let b = (paddr / BLOCKS_PER_BUCKET) as usize;
    let slot = allocator.devs[0].slots[b];
    assert_eq!(slot.bucket.state, BchDataType::User);
    assert!(slot.gc.gen_valid);
    assert_eq!(slot.gc.data_type, BchDataType::User.to_raw());
    assert_eq!(slot.gc.gen, slot.gen);
}

#[test]
fn test_gc_btrees_collects_entries() {
    let mut vol = BchVol::new();
    vol.btree_mut(BtreeId::Extents).bch2_btree_bset_insert_key_wrapper(extent(1, 0x3000, 0), 0);
    vol.btree_mut(BtreeId::Alloc).bch2_btree_bset_insert_key_wrapper(extent(5, 0x4000, 0), 0);
    let mut allocator = gc_allocator(2048);
    assert!(bch2_gc_btrees(&mut vol, &mut allocator).is_ok());
    assert_eq!(state_of(&allocator, (0x3000 / BLOCKS_PER_BUCKET) as usize), BchDataType::User);
    assert_eq!(state_of(&allocator, (0x4000 / BLOCKS_PER_BUCKET) as usize), BchDataType::User);
}

#[test]
fn test_gc_sweep_reclaims_unreferenced_user_bucket() {
    let mut vol = BchVol::new();
    let mut allocator = gc_allocator(2048);
    let paddr = 0x5000u64;
    vol.btree_mut(BtreeId::Extents).bch2_btree_bset_insert_key_wrapper(extent(1, paddr, 1), 0);
    let bucket_ref = (paddr / BLOCKS_PER_BUCKET) as usize;
    assert_eq!(bucket_ref, 80);
    let bucket_unref = 30usize;
    set_state(&mut allocator, bucket_ref, BchDataType::User);
    set_state(&mut allocator, bucket_unref, BchDataType::User);
    mark_referenced(&mut allocator, bucket_ref, BchDataType::User);
    let stats = bch2_gc_sweep(&mut vol, &mut allocator).unwrap();
    assert_eq!(state_of(&allocator, bucket_ref), BchDataType::User);
    assert_eq!(state_of(&allocator, bucket_unref), BchDataType::Free);
    assert_eq!(stats.reclaimed_count, 1, "should reclaim 1 bucket");
    assert_eq!(stats.reclaimed_buckets, vec![bucket_unref as u64]);
}

#[test]
fn test_gc_sweep_applies_old_new_device_accounting_delta() {
    let mut vol = BchVol::new();
    let mut allocator = gc_allocator(2048);
    let bucket = 30u64;
    set_state(&mut allocator, 0, BchDataType::Sb);
    mark_referenced(&mut allocator, 0, BchDataType::Sb);
    set_state(&mut allocator, bucket as usize, BchDataType::User);
    let old = BchAllocEntry {
        data_type: BchDataType::User.to_raw(),
        dirty_sectors: 100,
        ..BchAllocEntry::zero()
    };
    vol.btree_mut(BtreeId::Alloc).bch2_btree_bset_insert_key_wrapper(
        KeyEntry::raw(Bpos::new(0, bucket, 0), KeyType::Normal, serialize_alloc_entry(&old)),
        0,
    );
    vol.counters.push(DevCounters {
        dev: 0,
        data_type: BchDataType::User.to_raw(),
        buckets: 1,
        sectors: 100,
        fragmented: 1948,
    });
    bch2_gc_sweep(&mut vol, &mut allocator).unwrap();
    let counters = |vol: &BchVol, ty: BchDataType| {
        let c = vol.counters.iter().find(|c| c.dev == 0 && c.data_type == ty.to_raw()).unwrap();
        [c.buckets, c.sectors, c.fragmented]
    };
    assert_eq!(counters(&vol, BchDataType::User), [0, 0, 0]);
    assert_eq!(counters(&vol, BchDataType::Free), [1, 0, 0]);
    let corrected = vol.get_entry_raw(BtreeId::Alloc, Bpos::new(0, bucket, 0)).unwrap();
    match corrected.value {
        KeyValue::Raw(bytes) => assert_eq!(
            deserialize_alloc_entry(&bytes).unwrap().data_type,
            BchDataType::Free.to_raw()
        ),
        _ => panic!("alloc value is not raw"),
    }
}

#[test]
fn test_gc_sweep_preserves_sb_journal_btree() {
    let mut vol = BchVol::new();
    let mut allocator = gc_allocator(2048);
    mark_referenced(&mut allocator, 0, BchDataType::User);
    set_state(&mut allocator, 0, BchDataType::Sb);
    set_state(&mut allocator, 1, BchDataType::Journal);
    set_state(&mut allocator, 2, BchDataType::Btree);
    let stats = bch2_gc_sweep(&mut vol, &mut allocator).unwrap();
    assert_eq!(state_of(&allocator, 0), BchDataType::Sb);
    assert_eq!(state_of(&allocator, 1), BchDataType::Journal);
    assert_eq!(state_of(&allocator, 2), BchDataType::Btree);
    assert!(stats.skipped_state > 0);
}

#[test]
fn test_gc_sweep_cleans_needgcgens_transient() {
    let mut vol = BchVol::new();
    let mut allocator = gc_allocator(2048);
    mark_referenced(&mut allocator, 0, BchDataType::User);
    set_state(&mut allocator, 5, BchDataType::NeedGcGens);
    set_state(&mut allocator, 10, BchDataType::NeedGcGens);
    let stats = bch2_gc_sweep(&mut vol, &mut allocator).unwrap();
    assert_eq!(state_of(&allocator, 5), BchDataType::Free);
    assert_eq!(state_of(&allocator, 10), BchDataType::Free);
    assert_eq!(stats.reclaimed_count, 2, "should reclaim 2 NeedGcGens buckets");
}

#[test]
fn test_gc_sweep_empty_vol_no_reclaim() {
    let mut vol = BchVol::new();
    let mut allocator = gc_allocator(2048);
    let stats = bch2_gc_sweep(&mut vol, &mut allocator).unwrap();
    assert_eq!(stats.reclaimed_count, 0);
}

#[test]
fn gc_positions_order_by_phase_tree_level_and_place() {
    let a = gc_pos_btree(1, 0, 5);
    let b = gc_pos_btree(1, 0, 6);
    let c = gc_pos_btree(2, 0, 0);
    assert_eq!(gc_pos_cmp(&a, &b), Ordering::Less);
    assert_eq!(gc_pos_cmp(&b, &c), Ordering::Less);
    assert_eq!(gc_pos_cmp(&a, &c), Ordering::Less);
    assert_eq!(gc_pos_cmp(&a, &a), Ordering::Equal);
    assert_eq!(gc_pos_cmp(&c, &a), Ordering::Greater);
}

#[test]
fn gc_position_survives_the_superblock() {
    let mut gc = BtreeGc::new();
    gc.pos = gc_pos_btree(3, 1, 77);
    let mut sb = SbGcPos { gc_pos: gc_phase(GcPhase::NotRunning), gc_pos_valid: false };
    bch2_gc_pos_to_sb(&gc, &mut sb);
    let back = bch2_gc_pos_from_sb(&sb).unwrap();
    assert_eq!(gc_pos_cmp(&back, &gc.pos), Ordering::Equal);
    assert!(!bch2_gc_pos_to_text(&back).is_empty());
}

#[test]
fn an_unreferenced_allocation_is_a_leak() {
    let vol = BchVol::new();
    let mut allocator = gc_allocator(2048);
    set_state(&mut allocator, 7, BchDataType::User);
    let leaks = bch2_check_allocations(&vol, &allocator).unwrap();
    assert_eq!(leaks.len(), 1);
    assert_eq!(leaks[0].bucket, 7);
}

#[test]
fn changes_since_a_snapshot_are_found() {
    let mut allocator = gc_allocator(2048);
    let snapshot = bch2_gc_alloc_start(&allocator);
    set_state(&mut allocator, 9, BchDataType::Cached);
    let changes = bch2_gc_alloc_done(&allocator, snapshot).unwrap();
    assert_eq!(changes.len(), 1);
    assert_eq!(changes[0].bucket, 9);
}

#[test]
fn alloc_records_read_back() {
    let e = BchAllocEntry {
        gen: 3,
        oldest_gen: 2,
        dirty_sectors: 17,
        data_type: BchDataType::Cached.to_raw(),
        ..BchAllocEntry::zero()
    };
    let bytes = serialize_alloc_entry(&e);
    assert_eq!(bytes.len(), 64);
    assert_eq!(deserialize_alloc_entry(&bytes), Some(e));
    assert_eq!(deserialize_alloc_entry(&vec![0u8; 3]), None);
}

#[test]
fn what_is_referenced_survives_mark_and_sweep() {
    let mut vol = BchVol::new();
    vol.btree_mut(BtreeId::Extents).bch2_btree_bset_insert_key_wrapper(extent(1, 0x2000, 0), 0);
    let mut allocator = gc_allocator(2048);
    let used = (0x2000 / BLOCKS_PER_BUCKET) as usize;
    set_state(&mut allocator, used + 1, BchDataType::User);
    assert!(bch2_gc_btrees(&mut vol, &mut allocator).is_ok());
    let stats = bch2_gc_sweep(&mut vol, &mut allocator).unwrap();
    assert_eq!(state_of(&allocator, used), BchDataType::User);
    assert_eq!(state_of(&allocator, used + 1), BchDataType::Free);
    assert_eq!(stats.reclaimed_buckets, vec![used as u64 + 1]);
}

#[test]
fn marks_cover_a_tree_that_was_split() {
    let mut vol = BchVol::new();
    let mut w = NoopWriter::starting_at(0x10_0000);
    vol.btree_mut(BtreeId::Extents).root.node.node_size = 4096;
    for i in 1..=2000u64 {
        let key = BtreeKey::new(i * 7, 1, KeyType::Normal);
        let value = BchVal::new(i * BLOCKS_PER_BUCKET / 4, 1);
        let tree = vol.btree_mut(BtreeId::Extents);
        assert_eq!(tree.bch2_btree_insert(&mut w, key, value, 0), Ok(true));
    }
    assert!(vol.btree(BtreeId::Extents).depth() > 0);
    assert!(bch2_check_topology(&vol).is_ok());
    let mut allocator = gc_allocator(2048);
    assert!(bch2_gc_btrees(&mut vol, &mut allocator).is_ok());
    for b in 1..=500usize {
        assert!(allocator.devs[0].slots[b].gc.gen_valid, "bucket {} is in use", b);
        assert_eq!(state_of(&allocator, b), BchDataType::User);
    }
    assert!(!allocator.devs[0].slots[502].gc.gen_valid);
}
