//! Nodes as bytes: what is checked after a read and done before and after a write.

use subvol_core::bset::MAX_BSETS;
use subvol_core::key::{Bpos, KeyType};
use subvol_core::node::{BtreeNode, NodeState, BSET_HEADER_U64S};
use subvol_core::node_buffer::{BsetRange, NodeBuffer};
use subvol_core::node_flags::{
    bch2_btree_node_io_lock, bch2_btree_node_io_unlock, btree_node_io_try_lock,
    btree_node_write_done, journal_pin_flush, node_write_refused, node_write_submitted,
    prepare_node_write, wants_journal_pin, PinFlush,
};
use subvol_core::node_io::{
    bch2_btree_node_drop_keys_outside_node, bch2_btree_node_read_done, bch2_validate_bset,
    bch2_validate_bset_keys, iter_bset_packed_keys,
};
use subvol_core::node_write::{
    bch2_btree_init_next, bch2_btree_node_header_to_text, bch2_btree_node_prep_for_write,
    bch2_btree_post_write_cleanup, sort_node_for_write, want_new_bset,
};
use subvol_core::packed::{key_type_num, pack_cell, read_pos};
use subvol_core::sort_iter::{bch2_sort_keys, SortIter};
use subvol_core::writer::StorageError;

fn put(node: &mut NodeBuffer, vaddr: u64, paddr: u64) {
    let mut value = paddr.to_le_bytes().to_vec();
    value.resize(24, 0);
    assert!(node.insert(&Bpos::new(0, vaddr, 1), KeyType::Normal, &value));
}

fn offsets_of(node: &NodeBuffer, set: usize) -> Vec<u64> {
    let range = node.sets[set];
    let start = range.first_key_offset() * 8;
    iter_bset_packed_keys(&node.data, start, u32::from(range.end_offset) * 8)
        .unwrap()
        .iter()
        .map(|k| k.pos.offset)
        .collect()
}

fn open_next_set(node: &mut NodeBuffer) {
    bch2_btree_init_next(node);
    if node.nsets == 1 {
        let end = node.sets[0].end_offset;
        node.sets[1] =
            BsetRange { data_offset: end, end_offset: end + BSET_HEADER_U64S, indexed: true };
        node.nsets = 2;
    }
}

fn append_deleted(node: &mut NodeBuffer, vaddr: u64) {
    let si = usize::from(node.nsets) - 1;
    let at = node.sets[si].first_key_offset();
    let cell = pack_cell(&Bpos::new(0, vaddr, 1), KeyType::Deleted, &Vec::new());
    let from = at as usize * 8;
    node.data[from..from + cell.len()].copy_from_slice(&cell);
    node.sets[si].end_offset = at as u16 + (cell.len() / 8) as u16;
}

#[test]
fn test_read_done_validates() {
    let mut node = NodeBuffer::new_leaf();
    node.min_key = Bpos::new(1, 0, 0);
    node.max_key = Bpos::new(1, 2, 0);
    assert!(bch2_btree_node_read_done(&mut node).is_ok());
    assert_eq!(node.sib_u64s, [0, 0]);
    let text = bch2_btree_node_header_to_text(&node);
    assert!(text.contains("level=0"));
}

#[test]
fn test_validate_bset_rejects_invalid() {
    let mut node = NodeBuffer::new_leaf();
    put(&mut node, 1, 0x100);
    put(&mut node, 2, 0x200);
    node.compact();
    assert!(bch2_validate_bset(&node, 0).is_ok());
    assert!(bch2_validate_bset(&node, MAX_BSETS).is_err());
    assert!(bch2_validate_bset(&node, MAX_BSETS + 1).is_err());

    let mut bad_node = NodeBuffer::new_leaf();
    bad_node.sets[0].data_offset = 50000;
    assert!(bch2_validate_bset(&bad_node, 0).is_err());

    let mut short_header = NodeBuffer::new_leaf();
    short_header.sets[0].end_offset = short_header.sets[0].data_offset;
    assert!(bch2_validate_bset(&short_header, 0).is_err());
}

#[test]
fn test_validate_bset_keys_rejects_out_of_order() {
    let mut node = NodeBuffer::new_leaf();
    put(&mut node, 1, 0x100);
    put(&mut node, 2, 0x200);
    put(&mut node, 3, 0x300);
    let first_key_byte = BSET_HEADER_U64S as usize * 8;
    let e1_size = node.data[first_key_byte] as usize * 8;
    let e2_start = first_key_byte + e1_size;
    let e2_size = node.data[e2_start] as usize * 8;
    let e3_start = e2_start + e2_size;
    let e3_size = node.data[e3_start] as usize * 8;
    let e1_data = node.data[first_key_byte..first_key_byte + e1_size].to_vec();
    let e3_data = node.data[e3_start..e3_start + e3_size].to_vec();
    node.data[first_key_byte..first_key_byte + e1_size].copy_from_slice(&e3_data);
    node.data[e3_start..e3_start + e3_size].copy_from_slice(&e1_data);

    node.sets[0].indexed = false;
    let result = bch2_validate_bset_keys(&node, 0);
    assert!(result.is_err(), "unsorted entries in set[0] should fail: {:?}", result);

    node.compact();
    assert!(bch2_validate_bset_keys(&node, 0).is_ok());
    assert_eq!(offsets_of(&node, 0), [1, 2, 3]);
}

#[test]
fn test_read_done_rejects_empty_data() {
    let mut node = NodeBuffer::new_leaf();
    node.data.clear();
    assert!(bch2_btree_node_read_done(&mut node).is_err());
}

#[test]
fn test_validate_bset_keys_zero_size_ok() {
    let node = NodeBuffer::new_leaf();
    assert!(bch2_validate_bset_keys(&node, 0).is_ok());
}

#[test]
fn test_drop_keys_outside_node_removes_out_of_range() {
    let mut node = NodeBuffer::new_leaf();
    put(&mut node, 10, 0x100);
    put(&mut node, 20, 0x200);
    put(&mut node, 30, 0x300);
    node.compact();
    node.min_key = Bpos { inode: 0, offset: 15, snapshot: 1 };
    node.max_key = Bpos { inode: 0, offset: 25, snapshot: 1 };
    bch2_btree_node_drop_keys_outside_node(&mut node).unwrap();
    assert_eq!(node.packed_keys, 1);
    assert_eq!(offsets_of(&node, 0), [20]);
}

#[test]
fn test_header_to_text_format() {
    let mut node = NodeBuffer::new_leaf();
    put(&mut node, 42, 0x100);
    node.compact();
    let text = bch2_btree_node_header_to_text(&node);
    assert!(text.contains("level=0"));
    assert!(text.contains("packed_keys=1"));
    assert!(text.contains("nsets=1"));
}

#[test]
fn test_io_lock_unlock() {
    let mut node = BtreeNode::new_leaf();
    assert!(!node.flags.is_write_in_flight());
    bch2_btree_node_io_lock(&mut node);
    assert!(node.flags.is_write_in_flight());
    assert!(node.flags.write_in_flight_inner);
    assert!(!node.flags.try_lock_write_in_flight());
    bch2_btree_node_io_unlock(&mut node);
    assert!(!node.flags.is_write_in_flight());
    assert!(!node.flags.write_in_flight_inner);
    assert!(node.flags.try_lock_write_in_flight());
    assert!(node.flags.is_write_in_flight());
    bch2_btree_node_io_unlock(&mut node);
}

#[test]
fn test_read_in_flight_flags() {
    let mut node = BtreeNode::new_leaf();
    assert!(!node.flags.is_read_in_flight());
    assert!(node.flags.try_lock_read_in_flight());
    assert!(node.flags.is_read_in_flight());
    assert!(!node.flags.try_lock_read_in_flight());
    node.flags.clear_read_in_flight();
    assert!(!node.flags.is_read_in_flight());
}

#[test]
fn test_just_written_flag() {
    let mut node = NodeBuffer::new_leaf();
    assert!(!node.flags.is_just_written());
    node.flags.set_just_written();
    assert!(node.flags.is_just_written());
    bch2_btree_post_write_cleanup(&mut node);
    assert!(!node.flags.is_just_written());
}

fn sorted_offsets(node: &NodeBuffer) -> Vec<u64> {
    let mut iter = SortIter::init_from_node(node);
    iter.add_all_bsets(node);
    let mut buf = vec![0u8; node.node_size as usize];
    let (written, keys) = iter.sort_into(&mut buf).unwrap();
    let mut offsets = Vec::new();
    let mut at = 0usize;
    while at < written {
        offsets.push(read_pos(&buf, at).offset);
        at += usize::from(buf[at]) * 8;
    }
    assert_eq!(at, written);
    assert_eq!(offsets.len(), keys);
    offsets
}

#[test]
fn test_sort_iter_single_bset() {
    let mut node = NodeBuffer::new_leaf();
    put(&mut node, 3, 0x300);
    put(&mut node, 1, 0x100);
    put(&mut node, 2, 0x200);
    let mut iter = SortIter::init_from_node(&node);
    iter.add_all_bsets(&node);
    assert_eq!(iter.total_keys(), 3);
    assert_eq!(sorted_offsets(&node), [1, 2, 3]);
}

#[test]
fn test_sort_iter_multiple_bsets() {
    let mut node = NodeBuffer::new_leaf();
    put(&mut node, 10, 0x100);
    put(&mut node, 30, 0x300);
    put(&mut node, 50, 0x500);
    node.compact();
    assert!(node.packed_keys > 0);
    open_next_set(&mut node);
    put(&mut node, 20, 0x200);
    put(&mut node, 40, 0x400);
    assert_eq!(node.nsets, 2);
    let mut iter = SortIter::init_from_node(&node);
    iter.add_all_bsets(&node);
    assert_eq!(iter.total_keys(), 5);
    assert_eq!(sorted_offsets(&node), [10, 20, 30, 40, 50]);
}

#[test]
fn test_sort_iter_empty() {
    let node = NodeBuffer::new_leaf();
    let mut iter = SortIter::init_from_node(&node);
    iter.add_all_bsets(&node);
    assert_eq!(iter.total_keys(), 0);
    let mut buf = vec![0u8; 256];
    let (written, _) = iter.sort_into(&mut buf).unwrap();
    assert_eq!(written, 0);
}

#[test]
fn test_sort_iter_newer_deleted_suppresses_older_live_key() {
    let mut node = NodeBuffer::new_leaf();
    put(&mut node, 42, 0x4200);
    node.compact();
    open_next_set(&mut node);
    append_deleted(&mut node, 42);
    let mut iter = SortIter::init_from_node(&node);
    iter.add_all_bsets(&node);
    let mut buf = vec![0u8; node.node_size as usize];
    let (written, keys) = iter.sort_into(&mut buf).unwrap();
    assert_eq!(written, 0);
    assert_eq!(keys, 0);
}

#[test]
fn test_bch2_sort_keys_only_filters_deleted_key() {
    let mut node = NodeBuffer::new_leaf();
    put(&mut node, 42, 0x4200);
    node.compact();
    open_next_set(&mut node);
    append_deleted(&mut node, 42);
    let mut iter = SortIter::init_from_node(&node);
    iter.add_all_bsets(&node);
    let mut buf = vec![0u8; node.node_size as usize];
    let written_u64s = bch2_sort_keys(&mut buf, &mut iter).unwrap();
    assert_eq!(written_u64s, usize::from(buf[0]));
    assert_eq!(read_pos(&buf, 0).offset, 42);
    assert_eq!(buf[2], key_type_num(KeyType::Normal));
}

#[test]
fn test_bch2_sort_keys_integration() {
    let mut node = NodeBuffer::new_leaf();
    put(&mut node, 5, 0x500);
    put(&mut node, 3, 0x300);
    node.compact();
    put(&mut node, 4, 0x400);
    put(&mut node, 1, 0x100);
    sort_node_for_write(&mut node).unwrap();
    assert_eq!(node.nsets, 1);
    assert_eq!(node.packed_keys, 4);
    assert!(offsets_of(&node, 0).contains(&1));
    assert!(offsets_of(&node, 0).contains(&5));
}

#[test]
fn test_negative_read_done_with_additional_bsets() {
    let mut node = NodeBuffer::new_leaf();
    put(&mut node, 2, 0x200);
    put(&mut node, 4, 0x400);
    node.compact();
    node.sets[0].data_offset = 100;
    node.sets[0].end_offset = 50;
    let result = bch2_btree_node_read_done(&mut node);
    assert!(result.is_err(), "should reject bset with data_offset > end_offset");
}

#[test]
fn test_post_write_cleanup_single_bset() {
    let mut node = NodeBuffer::new_leaf();
    put(&mut node, 1, 0x100);
    put(&mut node, 2, 0x200);
    node.compact();
    node.flags.set_just_written();
    assert!(!bch2_btree_post_write_cleanup(&mut node));
    assert!(node.nsets >= 1);
    assert!(!node.flags.is_just_written());
    if node.nsets >= 2 {
        assert!(node.sets[1].end_offset > node.sets[1].data_offset);
    }
}

#[test]
fn test_read_done_empty_node_ok() {
    let mut node = NodeBuffer::new_leaf();
    assert!(bch2_btree_node_read_done(&mut node).is_ok());
    assert_eq!(node.packed_keys, 0);
}

#[test]
fn test_node_flags_independence() {
    let mut node = BtreeNode::new_leaf();
    node.flags.set_write_in_flight();
    assert!(node.flags.is_write_in_flight());
    assert!(!node.flags.is_read_in_flight());
    assert!(!node.flags.is_just_written());
    node.flags.set_read_in_flight();
    assert!(node.flags.is_write_in_flight());
    assert!(node.flags.is_read_in_flight());
    node.flags.set_just_written();
    assert!(node.flags.is_just_written());
    node.flags.clear_write_in_flight();
    assert!(!node.flags.is_write_in_flight());
    assert!(node.flags.is_read_in_flight());
    assert!(node.flags.is_just_written());
    node.flags.clear_read_in_flight();
    node.flags.clear_just_written();
    assert!(!node.flags.is_read_in_flight());
    assert!(!node.flags.is_just_written());
}

#[test]
fn test_sort_keys_single_bset() {
    let mut node = NodeBuffer::new_leaf();
    put(&mut node, 3, 0x300);
    put(&mut node, 1, 0x100);
    node.compact();
    sort_node_for_write(&mut node).unwrap();
    assert_eq!(node.nsets, 1);
    assert_eq!(node.packed_keys, 2);
}

#[test]
fn test_io_lock_reentry_safe() {
    let mut node = BtreeNode::new_leaf();
    assert!(node.flags.try_lock_write_in_flight());
    assert!(!node.flags.try_lock_write_in_flight());
    node.flags.clear_write_in_flight();
    assert!(node.flags.try_lock_write_in_flight());
    node.flags.clear_write_in_flight();
}

#[test]
fn a_read_keeps_the_newest_version() {
    let mut node = NodeBuffer::new_leaf();
    put(&mut node, 7, 0x700);
    put(&mut node, 8, 0x800);
    node.compact();
    open_next_set(&mut node);
    put(&mut node, 7, 0x701);
    assert!(bch2_btree_node_read_done(&mut node).is_ok());
    assert_eq!(node.nsets, 1);
    assert_eq!(node.packed_keys, 2);
    assert_eq!(offsets_of(&node, 0), [7, 8]);
    let value = node.sets[0].first_key_offset() as usize * 8 + 24;
    assert_eq!(node.data[value..value + 2], [0x01, 0x07]);
}

#[test]
fn a_cleanup_merges_sets_and_drops_dead_keys() {
    let mut node = NodeBuffer::new_leaf();
    put(&mut node, 1, 0x100);
    put(&mut node, 2, 0x200);
    node.compact();
    open_next_set(&mut node);
    append_deleted(&mut node, 1);
    node.flags.set_just_written();
    assert!(bch2_btree_post_write_cleanup(&mut node));
    assert_eq!(offsets_of(&node, 0), [2]);
}

#[test]
fn a_key_that_does_not_fit_leaves_the_node_alone() {
    let mut node = NodeBuffer::new_leaf();
    let big = vec![1u8; 2016];
    let mut placed = 0u64;
    while node.insert(&Bpos::new(0, placed, 1), KeyType::Normal, &big) {
        placed += 1;
    }
    assert!(placed > 0);
    assert_eq!(u64::from(node.packed_keys), placed);
    assert_eq!(offsets_of(&node, 0).len() as u64, placed);
}

#[test]
fn a_truncated_key_is_corrupt() {
    let mut node = NodeBuffer::new_leaf();
    put(&mut node, 1, 0x100);
    node.data[BSET_HEADER_U64S as usize * 8] = 200;
    assert_eq!(bch2_validate_bset_keys(&node, 0), Err(StorageError::Corruption));
    assert_eq!(bch2_btree_node_read_done(&mut node), Err(StorageError::Corruption));
}

#[test]
fn an_unwritten_small_node_wants_no_new_set() {
    let mut node = NodeBuffer::new_leaf();
    put(&mut node, 1, 0x100);
    assert_eq!(want_new_bset(&node), None);
    bch2_btree_node_prep_for_write(&mut node);
    assert_eq!(offsets_of(&node, 0), [1]);
}

#[test]
fn a_write_takes_the_io_flags_and_gives_them_back() {
    let mut node = BtreeNode::new_leaf();
    assert!(btree_node_io_try_lock(&mut node));
    assert!(!btree_node_io_try_lock(&mut node));
    node_write_submitted(&mut node);
    btree_node_write_done(&mut node, true);
    assert!(!node.flags.write_in_flight);
    assert_eq!(node.state, NodeState::Alive);
    assert!(btree_node_io_try_lock(&mut node));
    node_write_refused(&mut node);
    assert!(!node.flags.write_in_flight);
}

#[test]
fn a_pinned_node_without_a_place_is_not_flushed() {
    let mut node = BtreeNode::new_leaf();
    assert_eq!(journal_pin_flush(&mut node, 0), PinFlush::Nothing);
    assert_eq!(journal_pin_flush(&mut node, 5), PinFlush::Write);
    assert_eq!(journal_pin_flush(&mut node, 5), PinFlush::Later);
    assert!(!wants_journal_pin(0));
    assert!(wants_journal_pin(9));
}

#[test]
fn a_node_is_merged_before_its_write() {
    let mut node = NodeBuffer::new_leaf();
    put(&mut node, 5, 0x500);
    node.compact();
    open_next_set(&mut node);
    put(&mut node, 4, 0x400);
    prepare_node_write(&mut node).unwrap();
    assert_eq!(node.nsets, 1);
    assert_eq!(offsets_of(&node, 0), [4, 5]);
}

#[test]
fn test_post_write_cleanup_with_whiteout() {
    let mut node = NodeBuffer::new_leaf();
    for i in 0..10 {
        put(&mut node, i, i * 0x100);
    }
    node.compact();
    assert!(node.insert(&Bpos::new(0, 3, 1), KeyType::Deleted, &Vec::new()));
    if node.whiteout_u64s > 0 {
        assert!(bch2_btree_post_write_cleanup(&mut node));
    }
    node.compact();
    assert_eq!(offsets_of(&node, 0), [0, 1, 2, 4, 5, 6, 7, 8, 9]);
}
