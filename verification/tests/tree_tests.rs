//! Trees of several levels: inserts, splits, deletes and merges.

use subvol_core::btree_id::BtreeId;
use subvol_core::iter::{BtreeIter, IterFlags};
use subvol_core::key::{BchVal, Bpos, BtreeKey, KeyEntry, KeyType, KeyValue};
use subvol_core::node::BtreeNode;
use subvol_core::node_cache::NodeCache;
use subvol_core::transaction::BtreeTrans;
use subvol_core::tree::{Btree, BtreeRoot};
use subvol_core::writer::{NoopWriter, ReservedWriter, StorageError};

fn normal(vaddr: u64) -> BtreeKey {
    BtreeKey::new(vaddr, 1, KeyType::Normal)
}

fn writer() -> NoopWriter {
    NoopWriter::starting_at(1000)
}

/// An inner root with two leaves below it.
fn two_level_tree() -> Btree {
    let mut cache = NodeCache::new();
    let mut left = BtreeNode::new_leaf();
    left.insert(normal(10), BchVal::new(100, 0));
    left.insert(normal(20), BchVal::new(200, 0));
    left.insert(normal(30), BchVal::new(300, 0));
    let mut right = BtreeNode::new_leaf();
    right.insert(normal(40), BchVal::new(400, 0));
    right.insert(normal(50), BchVal::new(500, 0));
    let left_addr = cache.alloc_addr();
    let right_addr = cache.alloc_addr();
    cache.insert(left_addr, left);
    cache.insert(right_addr, right);
    let mut internal = BtreeNode::new_internal();
    internal.insert(BtreeKey::min_key(), BchVal::new(left_addr, 0));
    internal.insert(normal(40), BchVal::new(right_addr, 0));
    Btree::bch2_btree_set_root_for_read(
        BtreeRoot { node: internal, depth: 1 },
        cache,
        BtreeId::Extents,
    )
}

fn small_tree(node_size: u32) -> Btree {
    let mut b = Btree::new();
    b.root.node.node_size = node_size;
    b
}

fn fill(b: &mut Btree, w: &mut NoopWriter, n: u64, factor: u64) {
    for i in 0..n {
        assert_eq!(b.bch2_btree_insert(w, normal(i), BchVal::new(i * factor, 0), 0), Ok(true));
    }
}

fn assert_values(b: &mut Btree, from: u64, to: u64, factor: u64) {
    for i in from..to {
        let found = b.bch2_btree_iter_peek(&normal(i));
        assert_eq!(found.map(|e| e.1), Some(BchVal::new(i * factor, 0)), "key {}", i);
    }
}

#[test]
fn test_btree_multi_level_insert() {
    let mut b = two_level_tree();
    let mut w = writer();
    assert!(b.bch2_btree_insert(&mut w, normal(15), BchVal::new(150, 0), 0).unwrap());
    let found = b.bch2_btree_iter_peek(&normal(15));
    assert!(found.is_some(), "inserted key 15 should be found");
    assert_eq!(found.unwrap().1, BchVal::new(150, 0));
    assert!(b.bch2_btree_insert(&mut w, normal(45), BchVal::new(450, 0), 0).unwrap());
    let found = b.bch2_btree_iter_peek(&normal(45));
    assert!(found.is_some(), "inserted key 45 should be found");
    assert_eq!(found.unwrap().1, BchVal::new(450, 0));
    assert!(b.bch2_btree_iter_peek(&normal(10)).is_some());
    assert!(b.bch2_btree_iter_peek(&normal(50)).is_some());
}

#[test]
fn test_btree_multi_level_delete() {
    let mut b = two_level_tree();
    let mut w = writer();
    assert!(b.bch2_btree_delete(&mut w, &normal(10), 0).unwrap());
    assert!(b.bch2_btree_iter_peek(&normal(10)).is_none(), "deleted key 10 gone");
    assert!(b.bch2_btree_delete(&mut w, &normal(50), 0).unwrap());
    assert!(b.bch2_btree_iter_peek(&normal(50)).is_none(), "deleted key 50 gone");
    assert!(b.bch2_btree_iter_peek(&normal(20)).is_some());
    assert!(b.bch2_btree_iter_peek(&normal(40)).is_some());
    assert!(!b.bch2_btree_delete(&mut w, &normal(999), 0).unwrap());
}

#[test]
fn test_btree_multi_level_insert_after_delete() {
    let mut b = two_level_tree();
    let mut w = writer();
    assert!(b.bch2_btree_delete(&mut w, &normal(20), 0).unwrap());
    assert!(b.bch2_btree_iter_peek(&normal(20)).is_none());
    assert!(b.bch2_btree_insert(&mut w, normal(20), BchVal::new(999, 0), 0).unwrap());
    let found = b.bch2_btree_iter_peek(&normal(20));
    assert!(found.is_some(), "re-inserted key 20 should be found");
    assert_eq!(found.unwrap().1, BchVal::new(999, 0));
}

#[test]
fn test_btree_multi_level_leaf_split() {
    let mut b = two_level_tree();
    let mut w = writer();
    let fill_count = 9040;
    for i in 31..=fill_count {
        assert!(b.bch2_btree_insert(&mut w, normal(i), BchVal::new(i * 10, 0), 0).unwrap());
    }
    let mid = fill_count / 2 + 30;
    assert!(b.bch2_btree_iter_peek(&normal(mid)).is_some());
    assert!(b.bch2_btree_iter_peek(&normal(fill_count)).is_some());
    assert!(b.bch2_btree_iter_peek(&normal(10)).is_some());
    assert!(b.bch2_btree_iter_peek(&normal(50)).is_some());
    assert_eq!(b.depth(), 1);
}

#[test]
fn test_btree_new() {
    let b = Btree::new();
    assert_eq!(b.depth(), 0);
    assert_eq!(b.root().node.key_count(), 0);
}

#[test]
fn test_btree_insert_and_count() {
    let mut b = Btree::new();
    let mut w = writer();
    let k = normal(100);
    assert!(b.bch2_btree_insert(&mut w, k, BchVal::new(0xABCD, 1), 0).unwrap());
    assert!(b.root().node.key_count() > 0);
}

#[test]
fn test_btree_get_empty() {
    let mut b = Btree::new();
    assert!(b.bch2_btree_iter_peek(&normal(100)).is_none());
}

#[test]
fn test_btree_get_after_insert() {
    let mut b = Btree::new();
    let mut w = writer();
    let k = normal(42);
    assert!(b.bch2_btree_insert(&mut w, k, BchVal::new(0xFF, 1), 0).unwrap());
    let found = b.bch2_btree_iter_peek(&k);
    assert!(found.is_some());
    assert_eq!(found.unwrap().0, k);
}

#[test]
fn test_btree_delete_no_panic() {
    let mut b = Btree::new();
    let mut w = writer();
    let k = normal(42);
    b.bch2_btree_insert(&mut w, k, BchVal::new(0xFF, 1), 0).unwrap();
    b.bch2_btree_delete(&mut w, &k, 0).unwrap();
}

#[test]
fn test_btree_transaction() {
    let b = Btree::new();
    let result = b.bch2_trans_commit(|trans: BtreeTrans| {
        let iter = BtreeIter::init_with_path(&b, &normal(100), IterFlags::default(), BtreeId::Extents);
        assert!(iter.peek(&b).is_none());
        ((), trans)
    });
    assert!(result.is_ok());
}

#[test]
fn test_btree_multiple_inserts() {
    let mut b = Btree::new();
    let mut w = writer();
    for i in 0..10 {
        assert!(b.bch2_btree_insert(&mut w, normal(i), BchVal::new(i * 10, 1), 0).unwrap());
    }
    assert_eq!(b.root().node.key_count(), 10);
}

#[test]
fn test_split_propagation_3level() {
    let mut b = small_tree(512);
    let mut w = writer();
    let total_keys = 700u64;
    fill(&mut b, &mut w, total_keys, 10);
    assert_eq!(b.depth(), 3);
    assert_values(&mut b, 0, total_keys, 10);
}

#[test]
fn test_insert_routing_no_wrap_panic() {
    let mut b = small_tree(256);
    let mut w = writer();
    let total = 600u64;
    fill(&mut b, &mut w, total, 10);
    assert!(b.depth() >= 2);
    assert_values(&mut b, 0, total, 10);
}

#[test]
fn test_insert_routing_path_empty() {
    let mut b = small_tree(256);
    let mut w = writer();
    let total = 200u64;
    fill(&mut b, &mut w, total, 5);
    assert!(b.depth() >= 1);
    for i in 0..total {
        assert!(b.bch2_btree_iter_peek(&normal(i)).is_some());
    }
}

#[test]
fn test_split_root_propagates_journal_seq() {
    let mut b = small_tree(320);
    let mut w = writer();
    let split_seq = 77u64;
    b.root.node.journal_seq = 13;
    for i in 0..5u64 {
        assert!(b.root.node.insert(normal(i), BchVal::new(i * 3, 0)));
    }
    assert!(b.split_root(&mut w, None, split_seq).unwrap());
    let flushed = b.bch2_btree_flush_all();
    assert!(flushed.is_empty(), "children are written at once");
    let prj = b.take_pending_root_journal().expect("the new root is recorded");
    assert!(prj.root_addr > 0);
    assert!(prj.level > 0);
    assert_eq!(b.root.node.journal_seq, split_seq);
}

#[test]
fn test_split_balanced_byte_size() {
    let mut node = BtreeNode::new_leaf();
    for i in 0..9 {
        assert!(node.insert(normal(i as u64), BchVal::new(i as u64 * 10, 0)));
    }
    let (median_key, right_half) = node.split().expect("split should succeed with 9 entries");
    assert!(median_key.get_vaddr() > 0, "median_key should be valid");
    let left_bytes = node.total_data_bytes();
    let right_bytes = right_half.total_data_bytes();
    let total_bytes = left_bytes + right_bytes;
    let half_bytes = total_bytes / 2;
    let left_diff_pct = if left_bytes > half_bytes {
        (left_bytes - half_bytes) as f64 / half_bytes as f64 * 100.0
    } else {
        (half_bytes - left_bytes) as f64 / half_bytes as f64 * 100.0
    };
    let right_diff_pct = if right_bytes > half_bytes {
        (right_bytes - half_bytes) as f64 / half_bytes as f64 * 100.0
    } else {
        (half_bytes - right_bytes) as f64 / half_bytes as f64 * 100.0
    };
    assert!(left_diff_pct <= 35.0);
    assert!(right_diff_pct <= 35.0);
    for i in 0..6 {
        assert!(node.search(&normal(i)).is_some(), "left entry {} should survive split", i);
    }
    for i in 6..9 {
        assert!(right_half.search(&normal(i)).is_some(), "right entry {} should survive split", i);
    }
}

#[test]
fn test_insert_routing_clean_loop() {
    let mut b = small_tree(512);
    let mut w = writer();
    let total = 2000u64;
    fill(&mut b, &mut w, total, 10);
    assert!(b.depth() >= 2);
    assert_values(&mut b, 0, total, 10);
}

#[test]
fn test_insert_routing_at_path_boundary() {
    let mut b = small_tree(512);
    let mut w = writer();
    let total = 4000u64;
    fill(&mut b, &mut w, total, 10);
    assert!(b.depth() >= 2);
    for i in 0..total {
        assert!(b.bch2_btree_iter_peek(&normal(i)).is_some(), "key {} lost", i);
    }
}

#[test]
fn test_leaf_merge_after_delete() {
    let mut b = small_tree(512);
    let mut w = writer();
    fill(&mut b, &mut w, 30, 10);
    assert_eq!(b.depth(), 1, "should be depth=1 after split");
    for i in 0..10u64 {
        assert!(b.bch2_btree_delete(&mut w, &normal(i), 0).unwrap(), "delete failed at i={}", i);
    }
    for i in 0..10u64 {
        assert!(b.bch2_btree_iter_peek(&normal(i)).is_none(), "deleted key {}", i);
    }
    assert_values(&mut b, 10, 30, 10);
}

#[test]
fn test_leaf_no_merge_above_threshold() {
    let mut b = small_tree(512);
    let mut w = writer();
    fill(&mut b, &mut w, 30, 10);
    let cache_len_before = b.cache().len();
    assert!(b.bch2_btree_delete(&mut w, &normal(0), 0).unwrap());
    assert_eq!(b.cache().len(), cache_len_before, "no merge occurs");
    assert!(b.bch2_btree_iter_peek(&normal(0)).is_none());
    for i in 1..30u64 {
        assert!(b.bch2_btree_iter_peek(&normal(i)).is_some(), "key {} should exist", i);
    }
}

#[test]
fn test_leaf_merge_left_sibling() {
    let mut b = small_tree(256);
    let mut w = writer();
    let total = 120u64;
    fill(&mut b, &mut w, total, 10);
    assert!(b.depth() >= 2);
    let delete_start = 90u64;
    for i in delete_start..total {
        assert!(b.bch2_btree_delete(&mut w, &normal(i), 0).unwrap(), "delete failed at i={}", i);
    }
    assert_values(&mut b, 0, delete_start, 10);
}

#[test]
fn test_leaf_merge_edge_min_key() {
    let mut b = small_tree(512);
    let mut w = writer();
    fill(&mut b, &mut w, 30, 10);
    assert_eq!(b.depth(), 1);
    for i in 0..12u64 {
        assert!(b.bch2_btree_delete(&mut w, &normal(i), 0).unwrap(), "delete failed at i={}", i);
    }
    for i in 0..12u64 {
        assert!(b.bch2_btree_iter_peek(&normal(i)).is_none(), "deleted key {}", i);
    }
    assert_values(&mut b, 12, 30, 10);
}

#[test]
fn test_cascade_merge_3level() {
    let mut b = small_tree(512);
    let mut w = writer();
    let total = 700u64;
    fill(&mut b, &mut w, total, 10);
    assert_eq!(b.depth(), 3, "tree should have depth 3 before cascade");
    let check_keys: &[u64] = &[312, 313, 314, 315, 320, 350, 400, 500];
    for i in 250..400u64 {
        assert!(b.bch2_btree_delete(&mut w, &normal(i), 0).unwrap(), "delete failed at i={}", i);
        if i % 5 == 0 {
            for &ck in check_keys {
                if ck > i {
                    assert!(b.bch2_btree_iter_peek(&normal(ck)).is_some(), "key {} after {}", ck, i);
                }
            }
        }
    }
    for i in 250..400u64 {
        assert!(b.bch2_btree_iter_peek(&normal(i)).is_none(), "deleted key {}", i);
    }
    assert_values(&mut b, 0, 250, 10);
    assert_values(&mut b, 400, total, 10);
}

#[test]
fn test_depth_zero_wrapper_serializes_root_updates() {
    let mut tree = Btree::new_with_type(BtreeId::Extents);
    for offset in 1..=8u64 {
        assert!(tree.bch2_btree_bset_insert_key_wrapper(
            KeyEntry::new(
                Bpos::new(0, offset, 1),
                KeyType::Normal,
                KeyValue::Raw(vec![offset as u8])
            ),
            1
        ));
    }
    assert_eq!(tree.root().node.key_count(), 8);
}

#[test]
fn insert_updates_a_key_in_place() {
    let mut b = Btree::new();
    let mut w = writer();
    b.bch2_btree_insert(&mut w, normal(7), BchVal::new(1, 1), 0).unwrap();
    b.bch2_btree_insert(&mut w, normal(7), BchVal::new(2, 2), 0).unwrap();
    assert_eq!(b.bch2_btree_iter_peek(&normal(7)), Some((normal(7), BchVal::new(2, 2))));
    assert_eq!(b.root().node.key_count(), 1);
}

#[test]
fn listing_is_sorted_and_complete() {
    let mut b = small_tree(256);
    let mut w = writer();
    for i in [5u64, 3, 9, 1, 7, 100, 50, 20, 60, 2, 8] {
        b.bch2_btree_insert(&mut w, normal(i), BchVal::new(i, 0), 0).unwrap();
    }
    let keys: Vec<u64> = b.for_each_btree_key().iter().map(|e| e.0.get_vaddr()).collect();
    assert_eq!(keys, vec![1, 2, 3, 5, 7, 8, 9, 20, 50, 60, 100]);
}

#[test]
fn writes_without_space_fail() {
    let mut b = small_tree(256);
    let mut w = NoopWriter::starting_at(u64::MAX);
    let mut result = Ok(true);
    for i in 0..50u64 {
        result = b.bch2_btree_insert(&mut w, normal(i), BchVal::new(i, 0), 0);
        if result != Ok(true) {
            break;
        }
    }
    assert_eq!(result, Err(StorageError::NoSpace));
}

#[test]
fn too_many_restarts_fail_a_transaction() {
    let b = Btree::new();
    let result = b.bch2_trans_commit(|mut trans: BtreeTrans| {
        for _ in 0..11 {
            trans.trigger_node_split();
            trans.bch2_trans_begin();
        }
        ((), trans)
    });
    assert_eq!(result, Err(StorageError::Transaction));
}

#[test]
fn nodes_go_to_the_reserved_addresses() {
    let mut tree = Btree::new();
    tree.root.node.node_size = 256;
    let mut used = Vec::new();
    for i in 0..20u64 {
        let addrs: Vec<u64> = (0..8).map(|a| 1000 + 8 * i + a).collect();
        let mut w = ReservedWriter::with_addrs(addrs.clone()).unwrap();
        assert!(tree.bch2_btree_insert(&mut w, normal(i), BchVal::new(i, 0), 0).unwrap());
        for (addr, node) in w.into_written() {
            assert!(addrs.contains(&addr));
            assert!(node.is_sound());
            used.push(addr);
        }
    }
    assert!(tree.depth() >= 1);
    assert!(!used.is_empty());
    assert!(ReservedWriter::with_addrs(vec![5, 5]).is_none());
    assert!(ReservedWriter::with_addrs(vec![0]).is_none());
}

#[test]
fn a_node_out_of_order_is_not_sound() {
    let mut node = BtreeNode::new_leaf();
    assert!(node.insert(normal(1), BchVal::new(1, 0)));
    assert!(node.insert(normal(2), BchVal::new(2, 0)));
    assert!(node.is_sound());
    node.entries.swap(0, 1);
    assert!(!node.is_sound());
    node.entries.swap(0, 1);
    node.live_u64s += 1;
    assert!(!node.is_sound());
}
