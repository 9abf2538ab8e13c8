//! Sorted sets of keys, and how records of nodes lie on disk.

use subvol_core::bset::{
    bch2_bset_delete, bch2_bset_insert, bch2_bset_search, bch2_bset_search_all, Bset, BsetTree,
    BtreeNodeIter,
};
use subvol_core::extent_io::{
    check_first_block, committed_blocks, initial_ptr, initial_record_blocks, next_replica,
    plan_node_write, record_start, BtreeNodeHeader, BtreePtrV2, MemberState,
};
use subvol_core::key::{Bpos, BtreeEntry};
use subvol_core::node_write::BLOCK_SIZE;
use subvol_core::writer::StorageError;

fn entry(offset: u64, value: u8) -> BtreeEntry {
    BtreeEntry {
        btree_type: 0,
        level: 0,
        entry_type: 1,
        pos: Bpos::new(0, offset, 0),
        payload: vec![value],
    }
}

fn at(offset: u64) -> Bpos {
    Bpos::new(0, offset, 0)
}

#[test]
fn a_set_is_kept_in_order() {
    let mut set = Bset::new(1);
    assert!(set.is_empty());
    for k in [30u64, 10, 20] {
        assert_eq!(set.insert(entry(k, k as u8)), Ok(()));
    }
    assert_eq!(set.len(), 3);
    assert_eq!(set.search_idx(&at(20)), Ok(1));
    assert_eq!(set.search_idx(&at(25)), Err(2));
    assert_eq!(set.first_entry().unwrap().pos, at(10));
    assert_eq!(set.last_entry().unwrap().pos, at(30));
    assert_eq!(set.search_successor(&at(20)).unwrap().pos, at(30));
    assert_eq!(set.search_predecessor(&at(20)).unwrap().pos, at(10));
    assert!(set.delete(&at(20)));
    assert!(!set.delete(&at(20)));
    assert!(set.get(&at(20)).is_none());
    set.clear();
    assert!(set.first_entry().is_none());
}

#[test]
fn a_second_insert_replaces_the_first() {
    let mut set = Bset::new(1);
    assert_eq!(set.insert(entry(5, 1)), Ok(()));
    assert_eq!(set.insert(entry(5, 2)), Ok(()));
    assert_eq!(set.len(), 1);
    assert_eq!(bch2_bset_search(&set, &at(5)), Ok(0));
}

#[test]
fn the_newest_set_is_searched_first() {
    let mut sets = [BsetTree::new(1), BsetTree::new(2), BsetTree::new(3)];
    assert_eq!(bch2_bset_insert(&mut sets[0], entry(5, 1)), Ok(()));
    assert_eq!(bch2_bset_insert(&mut sets[1], entry(5, 2)), Ok(()));
    assert_eq!(bch2_bset_insert(&mut sets[0], entry(9, 3)), Ok(()));
    let found = bch2_bset_search_all(&sets, 2, &at(5)).unwrap();
    assert_eq!(found.0, 1);
    assert!(bch2_bset_delete(&mut sets[0], &at(9)));
    assert!(bch2_bset_search_all(&sets, 2, &at(9)).is_none());
}

#[test]
fn a_walk_goes_over_all_sets_in_order() {
    let mut sets = [BsetTree::new(1), BsetTree::new(2), BsetTree::new(3)];
    for k in [10u64, 30] {
        assert_eq!(bch2_bset_insert(&mut sets[0], entry(k, 0)), Ok(()));
    }
    assert_eq!(bch2_bset_insert(&mut sets[1], entry(20, 0)), Ok(()));
    let mut iter = BtreeNodeIter::new();
    iter.init(&sets, 2, &at(0));
    let mut seen = Vec::new();
    while let Some((_, e)) = iter.next(&sets, false) {
        seen.push(e.pos.offset);
    }
    assert_eq!(seen, [10, 20, 30]);
    iter.init_reverse(&sets, 2, &at(25));
    assert_eq!(iter.prev(&sets, false).unwrap().1.pos.offset, 20);
}

#[test]
fn records_are_of_whole_blocks() {
    assert_eq!(record_start(10, 16, 2 * BLOCK_SIZE), Ok(12));
    assert_eq!(record_start(10, 3, BLOCK_SIZE), Err(StorageError::InvalidData));
    assert_eq!(record_start(10, 8, 100), Err(StorageError::InvalidData));
}

fn header() -> BtreeNodeHeader {
    BtreeNodeHeader { magic: 7, version: 3, record_bytes: 8192, level: 1, generation: 4 }
}

#[test]
fn the_first_record_says_how_long_it_is() {
    assert_eq!(initial_record_blocks(&header(), 7, 3), Ok(2));
    assert!(initial_record_blocks(&header(), 8, 3).is_err());
    assert!(initial_record_blocks(&header(), 7, 4).is_err());
    assert!(check_first_block(BLOCK_SIZE, 96).is_ok());
    assert!(check_first_block(10, 96).is_err());
    let ptr = initial_ptr(40, 8192, 1, 2, 4);
    assert_eq!(ptr.sectors_written, 16);
    assert_eq!(ptr.block_addr, 40);
    assert_eq!(ptr.level, 1);
}

#[test]
fn a_pointer_tells_how_much_is_committed() {
    let mut ptr =
        BtreePtrV2 { block_addr: 9, sectors_written: 24, level: 0, dev_idx: 0, generation: 1 };
    assert_eq!(committed_blocks(&ptr), Ok(3));
    ptr.sectors_written = 3;
    assert!(committed_blocks(&ptr).is_err());
}

#[test]
fn replicas_are_tried_one_after_the_other() {
    assert_eq!(next_replica(2, 0), Ok(0));
    assert_eq!(next_replica(2, 1), Ok(1));
    assert!(next_replica(2, 2).is_err());
    assert!(next_replica(0, 0).is_err());
}

#[test]
fn a_write_is_cut_into_blocks_for_all_writable_devices() {
    let record: Vec<u8> = (0..5000u32).map(|i| i as u8).collect();
    let devs = vec![(0u8, MemberState::Rw), (1, MemberState::Ro), (2, MemberState::Rw)];
    let plan = plan_node_write(100, &record, &devs).unwrap();
    assert_eq!(plan.devs, [0, 2]);
    assert_eq!(plan.blocks.len(), 2);
    assert_eq!(plan.blocks[1].block, 101);
    assert_eq!(plan.blocks[1].bytes.len(), BLOCK_SIZE);
    assert_eq!(plan.blocks[1].bytes[0], record[BLOCK_SIZE]);
    assert_eq!(plan.blocks[1].bytes[BLOCK_SIZE - 1], 0);
    assert_eq!(plan_node_write(0, &record, &devs).err(), Some(StorageError::NotFound));
    let none = vec![(1u8, MemberState::Ro)];
    assert_eq!(plan_node_write(100, &record, &none).err(), Some(StorageError::NotFound));
}
