//! Where things go: the order of a report, the places of routes and iterators, and what fits.

use subvol_core::bset::{
    bch2_bset_insert, bch2_bset_search_all, rebuild_rw_aux, BsetAuxTreeType, BsetTree,
    BtreeNodeIter,
};
use subvol_core::btree_id::BtreeId;
use subvol_core::bucket::{serialize_alloc_entry, BchAllocEntry, BchAllocator, BchDataType};
use subvol_core::evicted::EvictedSizeTable;
use subvol_core::gc_alloc_info::{bch2_check_alloc_info, AllocIssue};
use subvol_core::gc_mark::bch2_gc_btrees;
use subvol_core::iter::{BtreeIter, IterFlags};
use subvol_core::key::{BchVal, Bpos, BtreeEntry, BtreeKey, KeyEntry, KeyType, KeyValue};
use subvol_core::node::BtreeNode;
use subvol_core::node_cache::NodeCache;
use subvol_core::tree::{Btree, BtreeRoot};
use subvol_core::volume::BchVol;
use subvol_core::writer::{NoopWriter, ReservedWriter, StorageError};

fn normal(vaddr: u64) -> BtreeKey {
    BtreeKey::new(vaddr, 1, KeyType::Normal)
}

fn put_raw(vol: &mut BchVol, ty: BtreeId, pos: Bpos, bytes: Vec<u8>) {
    assert!(vol.insert_entry_raw(ty, KeyEntry::raw(pos, KeyType::Normal, bytes), 0));
}

#[test]
fn a_report_goes_bucket_by_bucket_and_ends_with_generations() {
    let mut vol = BchVol::new();
    let mut allocator = BchAllocator::new();
    assert!(allocator.add_device(0, 2048, 3));
    let mut used = allocator.devs[0].slots[2];
    used.bucket.state = BchDataType::User;
    allocator.put_slot(0, 2, used);
    let wrong = BchAllocEntry { gen: 9, ..BchAllocEntry::zero() };
    put_raw(&mut vol, BtreeId::Alloc, Bpos::new(0, 0, 0), serialize_alloc_entry(&wrong));
    put_raw(&mut vol, BtreeId::Alloc, Bpos::new(0, 1, 0), vec![1, 2, 3]);
    put_raw(&mut vol, BtreeId::Alloc, Bpos::new(0, 7, 0), serialize_alloc_entry(&wrong));
    // keys of two generations for the first bucket, and one for the bucket in use
    let high = 0x100_0000_0000_0000u64;
    for offset in [0, high, 2] {
        put_raw(&mut vol, BtreeId::Freespace, Bpos::new(0, offset, 0), Vec::new());
    }
    let issues = bch2_check_alloc_info(&vol, &allocator).unwrap();
    let kinds: Vec<(u8, u64)> = issues
        .iter()
        .map(|i| match i {
            AllocIssue::BadRecord { bucket } => (0, *bucket),
            AllocIssue::Mismatch { bucket, .. } => (1, *bucket),
            AllocIssue::NoRecord { bucket, .. } => (2, *bucket),
            AllocIssue::NoFreespace { bucket, .. } => (3, *bucket),
            AllocIssue::StaleFreespace { bucket, .. } => (4, *bucket),
            AllocIssue::FreespaceInUse { bucket, .. } => (5, *bucket),
            AllocIssue::NoBucket { bucket, .. } => (6, *bucket),
            AllocIssue::GenMismatch { bucket, .. } => (7, *bucket),
        })
        .collect();
    assert_eq!(
        kinds,
        vec![(0, 1), (1, 0), (4, 0), (2, 1), (3, 1), (2, 2), (5, 2), (6, 7), (7, 0)]
    );
    assert_eq!(
        issues.last(),
        Some(&AllocIssue::GenMismatch { dev: 0, bucket: 0, recorded_gen: 9, actual_gen: 0 })
    );
}

/// A leaf with some keys, small enough to be worth a merge.
fn leaf(keys: &[u64], node_size: u32) -> BtreeNode {
    let mut n = BtreeNode::new_leaf();
    n.node_size = node_size;
    for &k in keys {
        assert!(n.insert(normal(k), BchVal::new(k, 0)));
    }
    n.sib_u64s = [0, 0];
    n
}

/// A root over leaves, each with the place of its route; the first route is the lowest.
fn tree_of(leaves: Vec<(u64, BtreeNode)>) -> Btree {
    let mut cache = NodeCache::new();
    let mut root = BtreeNode::new_internal();
    for (i, (at, n)) in leaves.into_iter().enumerate() {
        let addr = i as u64 + 1;
        let key = if i == 0 { BtreeKey::min_key() } else { normal(at) };
        assert!(root.insert(key, BchVal::new(addr, 0)));
        cache.insert(addr, n);
    }
    Btree::bch2_btree_set_root_for_read(
        BtreeRoot { node: root, depth: 1 },
        cache,
        BtreeId::Extents,
    )
}

fn routes(t: &Btree) -> Vec<(u64, u64)> {
    let route = |e: &KeyEntry| (e.pos.offset, e.to_key_value().1.paddr);
    t.root.node.entries.iter().map(route).collect()
}

#[test]
fn a_merged_leaf_is_routed_at_its_lowest_key() {
    let mut t = tree_of(vec![
        (0, leaf(&[10, 20], 4096)),
        (100, leaf(&[120, 130], 4096)),
        (200, leaf(&[210], 4096)),
        (300, leaf(&[310], 4096)),
    ]);
    assert!(t.bch2_foreground_maybe_merge(&normal(210).pos, 0));
    assert_eq!(routes(&t), vec![(0, 1), (120, 4)]);
    for k in [10u64, 20, 120, 130, 210, 310] {
        assert!(t.bch2_btree_iter_peek(&normal(k)).is_some(), "key {}", k);
    }
    assert!(t.bch2_btree_iter_peek(&normal(110)).is_none());
    // what lies between goes to the leaf ahead
    let mut w = NoopWriter::starting_at(1000);
    assert_eq!(t.bch2_btree_insert(&mut w, normal(110), BchVal::new(1, 0), 0), Ok(true));
    assert!(t.bch2_btree_iter_peek(&normal(110)).is_some());
    assert_eq!(t.cache().get(1).unwrap().entries.len(), 3);
}

#[test]
fn shared_leaves_are_routed_at_their_lowest_keys() {
    let mut t = tree_of(vec![
        (0, leaf(&[10], 512)),
        (100, leaf(&[120, 130, 140, 150, 160], 512)),
        (200, leaf(&[210, 220, 230, 240], 512)),
        (300, leaf(&[310, 320, 330, 340, 350], 512)),
    ]);
    assert!(t.bch2_foreground_maybe_merge(&normal(210).pos, 0));
    let r = routes(&t);
    assert_eq!(r.len(), 3);
    assert_eq!(r[1], (120, 2));
    assert_eq!(r[2].1, 4);
    assert_eq!(r[2].0, t.cache().get(4).unwrap().entries[0].pos.offset);
    for k in [10u64, 120, 160, 210, 240, 310, 350] {
        assert!(t.bch2_btree_iter_peek(&normal(k)).is_some(), "key {}", k);
    }
}

#[test]
fn the_first_route_stays_the_lowest() {
    let mut t = tree_of(vec![
        (0, leaf(&[100], 512)),
        (200, leaf(&[210], 512)),
        (300, leaf(&[310, 320], 512)),
    ]);
    assert!(t.bch2_foreground_maybe_merge(&normal(210).pos, 0));
    assert_eq!(routes(&t), vec![(0, 3)]);
    // keys before the first of the merged leaf are found after the leaf was split
    let mut w = NoopWriter::starting_at(1000);
    for k in 50..90u64 {
        assert_eq!(t.bch2_btree_insert(&mut w, normal(k), BchVal::new(k, 0), 0), Ok(true));
    }
    assert!(t.root.node.entries.len() > 1);
    for k in 50..90u64 {
        assert!(t.bch2_btree_iter_peek(&normal(k)).is_some(), "key {}", k);
    }
}

fn three_keys() -> Btree {
    let mut t = Btree::new_with_type(BtreeId::Inodes);
    for k in [10u64, 20, 30] {
        assert!(t.root.node.insert(normal(k), BchVal::new(k * 10, 0)));
    }
    t
}

#[test]
fn a_step_back_from_the_first_entry_goes_by_the_position() {
    let t = three_keys();
    let flags = IterFlags::default();
    let mut iter = BtreeIter::init_with_snapshot_peek_prev_with_path(
        &t,
        &normal(15),
        flags,
        0,
        BtreeId::Inodes,
    );
    assert_eq!(iter.peek(&t).unwrap().0, normal(10));
    assert_eq!(iter.pos, normal(15));
    assert_eq!(iter.prev_slot(&t), Some((normal(10), BchVal::new(100, 0))));
    assert_eq!(iter.pos, normal(10));
    assert_eq!(iter.prev_slot(&t), None);
    assert_eq!(iter.peek(&t).unwrap().0, normal(10));
}

#[test]
fn a_bounded_step_back_goes_by_the_position_too() {
    let t = three_keys();
    let flags = IterFlags::default();
    let start = || {
        BtreeIter::init_with_snapshot_peek_prev_with_path(
            &t,
            &normal(15),
            flags,
            0,
            BtreeId::Inodes,
        )
    };
    let mut iter = start();
    assert_eq!(iter.peek_prev_min(&t, Bpos::new(0, 5, 0)).unwrap().0, normal(10));
    let mut iter = start();
    assert_eq!(iter.peek_prev_min(&t, Bpos::new(0, 12, 0)), None);
    assert_eq!(iter.pos.pos, Bpos::new(0, 12, 0));
}

#[test]
fn in_an_empty_tree_a_step_back_moves_the_position_only() {
    let t = Btree::new_with_type(BtreeId::Inodes);
    let flags = IterFlags::default();
    let mut iter = BtreeIter::init_with_path(&t, &normal(5), flags, BtreeId::Inodes);
    assert_eq!(iter.prev_slot(&t), None);
    assert_eq!(iter.pos, BtreeKey::from_bpos(Bpos::new(0, 5, 0), KeyType::Normal));
    assert_eq!(iter.prev_slot(&t), None);
    assert_eq!(iter.pos.pos, Bpos::new(0, 4, u32::MAX));
    let mut iter = BtreeIter::init_with_path(&t, &BtreeKey::min_key(), flags, BtreeId::Inodes);
    assert_eq!(iter.prev_slot(&t), None);
    assert_eq!(iter.pos, BtreeKey::min_key());
}

#[test]
fn a_traversal_that_starts_over_comes_to_the_first_entry_of_the_leaf() {
    let t = tree_of(vec![(0, leaf(&[10, 20], 4096)), (100, leaf(&[120, 130], 4096))]);
    let flags = IterFlags::default();
    let mut iter = BtreeIter::init_with_path(&t, &normal(10), flags, BtreeId::Inodes);
    iter.pos = normal(130);
    assert!(iter.traverse(&t));
    assert_eq!(iter.pos, normal(120));
    assert_eq!(iter.peek(&t).unwrap().0, normal(120));
}

#[test]
fn positions_have_predecessors() {
    assert_eq!(Bpos::new(1, 2, 3).predecessor(), Bpos::new(1, 2, 2));
    assert_eq!(Bpos::new(1, 2, 0).predecessor(), Bpos::new(1, 1, u32::MAX));
    assert_eq!(Bpos::new(1, 0, 0).predecessor(), Bpos::new(0, u64::MAX, u32::MAX));
}

#[test]
fn a_table_of_sizes_is_as_large_as_asked_for() {
    let mut table = EvictedSizeTable::new(1);
    assert_eq!(table.lookup(0), Some(0));
    assert_eq!(table.lookup(1), None);
    table.record(1, 7);
    assert_eq!(table.lookup(1), Some(7));
    table.record(3, 9);
    assert_eq!(table.lookup(1), None, "the two share a slot");
    assert_eq!(table.lookup(3), Some(9));
    table.record(2, 5);
    assert_eq!(table.lookup(3), Some(9));
    assert_eq!(table.lookup(2), Some(5));
}

fn record(offset: u64) -> BtreeEntry {
    BtreeEntry {
        btree_type: 0,
        level: 0,
        entry_type: 1,
        pos: Bpos::new(0, offset, 0),
        payload: Vec::new(),
    }
}

#[test]
fn large_sets_are_indexed_and_grow() {
    let mut set = BsetTree::new(1);
    for k in 0..65535u64 {
        set.bset.entries.push(record(2 * k));
    }
    assert_eq!(bch2_bset_insert(&mut set, record(2 * 65535)), Ok(()));
    assert_eq!(set.len(), 65536);
    assert_eq!(set.rw_aux.len(), 6554);
    assert_eq!(set.rw_aux[6553].entry_idx, 65530);
    assert_eq!(set.aux_type, BsetAuxTreeType::RwAuxTree);
    // in place of a record
    assert_eq!(bch2_bset_insert(&mut set, record(0)), Ok(()));
    assert_eq!(set.len(), 65536);
    rebuild_rw_aux(&mut set);
    assert_eq!(set.rw_aux[1].entry_idx, 10);
}

#[test]
fn layers_that_are_not_in_use_do_not_count() {
    let mut sets = [BsetTree::new(1), BsetTree::new(2), BsetTree::new(3)];
    assert_eq!(bch2_bset_insert(&mut sets[0], record(5)), Ok(()));
    // out of order, and not looked at
    sets[1].bset.entries.push(record(9));
    sets[1].bset.entries.push(record(3));
    let mut iter = BtreeNodeIter::new();
    iter.init(&sets, 1, &Bpos::new(0, 0, 0));
    assert_eq!(iter.next(&sets, false).map(|x| (x.0, x.1.pos.offset)), Some((0, 5)));
    assert!(iter.next(&sets, false).is_none());
    assert!(bch2_bset_search_all(&sets, 1, &Bpos::new(0, 9, 0)).is_none());
}

#[test]
fn a_writer_with_room_is_enough() {
    let mut t = Btree::new();
    t.root.node.node_size = 512;
    let mut next = 1000u64;
    for i in 0..400u64 {
        let n = u64::from(t.depth()) + 3;
        let mut w = ReservedWriter::with_addrs((next..next + n).collect()).unwrap();
        next += n;
        assert_eq!(t.bch2_btree_insert(&mut w, normal(i), BchVal::new(i, 0), 0), Ok(true));
    }
    assert!(t.depth() >= 2);
    for i in 0..400u64 {
        let n = u64::from(t.depth());
        let mut w = ReservedWriter::with_addrs((next..next + n).collect()).unwrap();
        next += n;
        assert_eq!(t.bch2_btree_delete(&mut w, &normal(i), 0), Ok(true));
    }
    let mut full = small_full_leaf();
    let mut w = ReservedWriter::with_addrs(vec![1, 2]).unwrap();
    let r = full.bch2_btree_insert(&mut w, normal(1000), BchVal::new(0, 0), 0);
    assert_eq!(r, Err(StorageError::NoSpace));
}

/// A tree of one leaf without room for another key.
fn small_full_leaf() -> Btree {
    let mut t = Btree::new();
    t.root.node.node_size = 512;
    let mut i = 0;
    while t.root.node.insert(normal(i), BchVal::new(i, 0)) {
        i += 1;
    }
    t
}

#[test]
fn a_split_key_is_found_by_its_type() {
    let mut t = Btree::new();
    t.root.node.node_size = 512;
    let mut w = NoopWriter::starting_at(1000);
    for i in 0..60u64 {
        assert!(t.bch2_btree_insert(&mut w, normal(2 * i), BchVal::new(i, 0), 0).unwrap());
    }
    let present = BtreeKey::new(41, 1, KeyType::Present);
    let r = Btree::bch2_btree_split_leaf(&mut t, &mut w, present, BchVal::new(7, 0), 1);
    assert_eq!(r, Ok(true));
    assert_eq!(t.bch2_btree_iter_peek(&present).map(|e| e.1), Some(BchVal::new(7, 0)));
    assert!(t.bch2_btree_iter_peek(&normal(41)).is_none());
    for i in 0..60u64 {
        assert!(t.bch2_btree_iter_peek(&normal(2 * i)).is_some());
    }
}

#[test]
fn a_delete_tells_what_a_lookup_found() {
    let mut t = Btree::new();
    t.root.node.node_size = 512;
    let mut w = NoopWriter::starting_at(1000);
    for i in 0..60u64 {
        assert!(t.bch2_btree_insert(&mut w, normal(2 * i), BchVal::new(i, 0), 0).unwrap());
    }
    let mut depth = t.depth();
    for k in 0..120u64 {
        let found = t.bch2_btree_iter_peek(&normal(k)).is_some();
        assert_eq!(t.bch2_btree_delete(&mut w, &normal(k), 0), Ok(found));
        assert!(t.bch2_btree_iter_peek(&normal(k)).is_none());
        assert!(t.depth() <= depth);
        depth = t.depth();
    }
}

#[test]
fn marks_bear_the_generation_of_their_bucket_and_no_other_bucket_changes() {
    let mut vol = BchVol::new();
    let mut allocator = BchAllocator::new();
    assert!(allocator.add_device(0, 2048, 64));
    for b in 0..64 {
        let mut slot = allocator.devs[0].slots[b];
        slot.bucket.journal_seq_empty = b as u64;
        allocator.put_slot(0, b, slot);
    }
    let before: Vec<_> = allocator.devs[0].slots.clone();
    let entry = KeyEntry::from_key_value(normal(1), BchVal::new(1000, 0));
    assert!(matches!(entry.value, KeyValue::Extent(_)));
    vol.btree_mut(BtreeId::Extents).bch2_btree_bset_insert_key_wrapper(entry, 0);
    assert!(bch2_gc_btrees(&mut vol, &mut allocator).is_ok());
    let changed: Vec<usize> =
        (0..64).filter(|&b| allocator.devs[0].slots[b] != before[b]).collect();
    assert_eq!(changed.len(), 1);
    let slot = allocator.devs[0].slots[changed[0]];
    assert!(slot.gc.gen_valid);
    assert_eq!(slot.gc.gen, slot.gen);
    assert_eq!(slot.gen, before[changed[0]].gen);
}
