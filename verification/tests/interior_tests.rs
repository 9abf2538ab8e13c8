//! Inner nodes: reserves, merges and the growth of a tree.

use subvol_core::interior::{
    bch2_btree_increase_depth, bch2_btree_set_root_for_read, bch2_btree_split_leaf, btree_node_needs_merge,
    btree_node_reset_sib_u64s, btree_update_reserve_required, BTREE_MAX_DEPTH,
};
use subvol_core::interior_updates::{writes_over, InteriorUpdates};
use subvol_core::key::{BchVal, Bpos, BtreeKey, ExtentValue, KeyType, KeyValue};
use subvol_core::merge::{compute_merge, MergePlan};
use subvol_core::node::{BtreeNode, NodeFlags};
use subvol_core::tree::Btree;
use subvol_core::volume::BchVol;
use subvol_core::writer::{NoopWriter, StorageError};

fn normal_key(vaddr: u64) -> BtreeKey {
    BtreeKey::new(vaddr, 1, KeyType::Normal)
}

#[test]
fn test_btree_update_reserve_required_leaf() {
    let mut btree = Btree::new();
    btree.root.node.level = 2;
    let node = BtreeNode::new_leaf();
    assert_eq!(btree_update_reserve_required(&btree, &node), 7);
}

#[test]
fn test_btree_update_reserve_required_max_depth() {
    let mut btree = Btree::new();
    btree.root.node.level = BTREE_MAX_DEPTH as u8 - 1;
    let node = BtreeNode::new_leaf();
    assert_eq!(btree_update_reserve_required(&btree, &node), BTREE_MAX_DEPTH * 2 - 1);
}

#[test]
fn test_btree_node_needs_merge_empty_leaf() {
    let vol = BchVol::new();
    let threshold = vol.btree_foreground_merge_threshold;
    let mut node = BtreeNode::new_leaf();
    assert!(!btree_node_needs_merge(threshold, &node, 0));
    node.sib_u64s = [100, 100];
    assert!(btree_node_needs_merge(threshold, &node, 0));
    assert!(btree_node_needs_merge(threshold, &node, -50));
    assert!(!btree_node_needs_merge(threshold, &node, i32::from(threshold)));
    node.sib_u64s = [u16::MAX; 2];
    assert!(btree_node_needs_merge(threshold, &node, -(u16::MAX as i32)));
}

#[test]
fn test_btree_node_needs_merge_full_leaf() {
    let vol = BchVol::new();
    let threshold = vol.btree_foreground_merge_threshold;
    let mut node = BtreeNode::new_leaf();
    for i in 0..6000u64 {
        if !node.insert(normal_key(i), BchVal::new(i * 10, 0)) {
            break;
        }
    }
    assert!(node.total_data_bytes() > node.node_size / 3);
    assert!(!btree_node_needs_merge(threshold, &node, 0));
    node.sib_u64s = [100, 100];
    assert!(btree_node_needs_merge(threshold, &node, 0));
}

#[test]
fn test_btree_node_reset_sib_u64s() {
    let mut node = BtreeNode::new_leaf();
    for i in 0..100u64 {
        node.insert(normal_key(i), BchVal::new(i * 10, 0));
    }
    btree_node_reset_sib_u64s(&mut node);
    let live_u64s = (node.live_data_bytes() / 8) as u16;
    assert_eq!(node.sib_u64s, [live_u64s; 2]);
    node.min_key = Bpos::lowest();
    btree_node_reset_sib_u64s(&mut node);
    assert_eq!(node.sib_u64s[0], u16::MAX);
}

#[test]
fn test_btree_node_reset_sib_u64s_uses_live_keys() {
    let mut node = BtreeNode::new_leaf();
    let key = normal_key(1);
    assert!(node.insert(key, BchVal::new(10, 0)));
    node.compact();
    assert!(node.delete_key(&key));
    assert_eq!(node.key_count(), 0);
    assert_eq!(node.total_data_bytes(), 0);
    assert_eq!(node.live_data_bytes(), 0);
    node.min_key = Bpos::new(1, 0, 0);
    node.max_key = Bpos::new(1, 2, 0);
    btree_node_reset_sib_u64s(&mut node);
    assert_eq!(node.sib_u64s, [0, 0]);
}

#[test]
fn test_btree_set_root_basic() {
    let mut btree = Btree::new();
    let old_depth = btree.depth();
    let new_node = BtreeNode::new_internal();
    assert_eq!(new_node.level, 1);
    btree.bch2_btree_set_root_inmem(new_node, 1);
    assert_eq!(btree.depth(), old_depth + 1);
    assert_eq!(btree.current_root_disk_info(), Some((1, 1)));
}

#[test]
fn test_bch2_btree_set_root_for_read() {
    let mut btree = Btree::new();
    bch2_btree_set_root_for_read(&mut btree, BtreeNode::new_leaf());
    assert_eq!(btree.depth(), 0);
}

#[test]
fn test_bch2_btree_split_leaf_basic() {
    let mut btree = Btree::new();
    let mut writer = NoopWriter::starting_at(1000);
    btree.root.node.node_size = 256;
    for i in 0..50u64 {
        assert!(btree
            .bch2_btree_insert(&mut writer, normal_key(i), BchVal::new(i * 10, 0), 0)
            .unwrap());
    }
    for i in 0..50u64 {
        assert!(btree.bch2_btree_iter_peek(&normal_key(i)).is_some(), "key {}", i);
    }
}

#[test]
fn test_btree_increase_depth_small() {
    let mut btree = Btree::new();
    let mut writer = NoopWriter::starting_at(1000);
    let child_addr = 42;
    let new_root = bch2_btree_increase_depth(&mut btree, child_addr, &mut writer).unwrap();
    assert_eq!(btree.depth(), 1);
    assert_eq!(new_root.key_count(), 1);
    let entry = &new_root.entries[0];
    assert_eq!(entry.to_key_value().0, BtreeKey::min_key());
    assert_eq!(
        entry.value,
        KeyValue::Extent(ExtentValue {
            paddr: child_addr,
            size: 1,
            ver: 0,
            crc32c: 0,
            crc_offset_blocks: 0,
            dev_idx: 0,
        })
    );
    let (disk_addr, disk_level) = btree.current_root_disk_info().unwrap();
    assert!(disk_addr > 0);
    assert_eq!(disk_level, 1);
    let prj = btree.take_pending_root_journal().unwrap();
    assert_eq!(prj.root_addr, disk_addr);
    assert_eq!(prj.level, 1);
}

#[test]
fn test_btree_merge_after_delete() {
    let mut btree = Btree::new();
    let mut writer = NoopWriter::starting_at(1000);
    btree.root.node.node_size = 512;
    for i in 0..30u64 {
        assert!(btree
            .bch2_btree_insert(&mut writer, normal_key(i), BchVal::new(i * 10, 0), 0)
            .unwrap());
    }
    for i in 0..12u64 {
        assert!(btree.bch2_btree_delete(&mut writer, &normal_key(i), 0).unwrap(), "at {}", i);
    }
    for i in 12..30u64 {
        assert!(btree.bch2_btree_iter_peek(&normal_key(i)).is_some(), "key {}", i);
    }
}

#[test]
fn test_btree_reserve_required_constants() {
    let mut btree = Btree::new();
    btree.root.node.level = 1;
    let node = BtreeNode::new_internal();
    assert_eq!(btree_update_reserve_required(&btree, &node), 3);
    btree.root.node.level = BTREE_MAX_DEPTH as u8 - 1;
    let leaf = BtreeNode::new_leaf();
    assert_eq!(btree_update_reserve_required(&btree, &leaf), 7);
}

#[test]
fn test_increase_depth_clears_will_make_reachable_after_write() {
    let mut btree = Btree::new();
    let mut writer = NoopWriter::starting_at(1000);
    assert_eq!(btree.depth(), 0);
    btree.root.node.node_size = 256;
    for i in 0..30u64 {
        assert!(btree
            .bch2_btree_insert(&mut writer, normal_key(i), BchVal::new(i * 10, 0), 0)
            .unwrap_or(false));
    }
    assert!(btree.depth() >= 1);
    assert!(!btree.root().node.flags.will_make_reachable);
}

#[test]
fn a_full_leaf_takes_a_key_by_a_split() {
    let mut btree = Btree::new();
    let mut writer = NoopWriter::starting_at(1000);
    btree.root.node.node_size = 256;
    for i in 0..32u64 {
        assert!(btree
            .bch2_btree_insert(&mut writer, normal_key(i), BchVal::new(i * 10, 0), 0)
            .unwrap());
    }
    let (key, value) = (normal_key(100), BchVal::new(1000, 0));
    assert!(bch2_btree_split_leaf(&mut btree, &mut writer, &key, &value).unwrap());
    assert_eq!(btree.bch2_btree_iter_peek(&key), Some((key, value)));
}

#[test]
fn updates_hold_nodes_back_until_they_are_finished() {
    let mut updates = InteriorUpdates::new();
    let a = updates.start();
    let b = updates.start();
    updates.block_node(a, 7);
    updates.block_node(b, 7);
    assert!(updates.pending());
    assert!(!updates.unblock_node(a, 7), "another update still holds the node back");
    assert!(updates.unblock_node(b, 7));
    updates.finish(a);
    updates.finish(b);
    assert!(!updates.pending());
}

#[test]
fn writes_are_over_when_all_are() {
    let mut flags = NodeFlags::none();
    assert!(writes_over(&vec![flags]));
    flags.set_write_in_flight();
    assert!(!writes_over(&vec![NodeFlags::none(), flags]));
}

#[test]
fn a_merge_goes_by_the_words_of_the_siblings() {
    // 4096 bytes: three quarters are 384 words, half are 256
    assert_eq!(compute_merge(4096, None, 10, None), MergePlan::Keep);
    assert_eq!(compute_merge(4096, Some(374), 10, None), MergePlan::Left);
    assert_eq!(compute_merge(4096, Some(375), 10, None), MergePlan::Keep);
    assert_eq!(compute_merge(4096, None, 10, Some(374)), MergePlan::Right);
    assert_eq!(compute_merge(4096, Some(100), 100, Some(100)), MergePlan::Both);
    assert_eq!(compute_merge(4096, Some(300), 100, Some(300)), MergePlan::Share);
    assert_eq!(compute_merge(4096, Some(500), 10, Some(260)), MergePlan::Keep);
    assert_eq!(compute_merge(4096, Some(600), 10, Some(240)), MergePlan::Right);
    assert_eq!(compute_merge(4096, Some(240), 10, Some(600)), MergePlan::Left);
}

#[test]
fn a_writer_without_addresses_stops_a_split() {
    let mut btree = Btree::new();
    let mut writer = NoopWriter::starting_at(u64::MAX);
    btree.root.node.node_size = 256;
    let mut i = 0u64;
    let outcome = loop {
        match btree.bch2_btree_insert(&mut writer, normal_key(i), BchVal::new(i, 0), 0) {
            Ok(true) => i += 1,
            other => break other,
        }
    };
    assert_eq!(outcome, Err(StorageError::NoSpace));
    for k in 0..i {
        assert!(btree.bch2_btree_iter_peek(&normal_key(k)).is_some(), "key {}", k);
    }
}
