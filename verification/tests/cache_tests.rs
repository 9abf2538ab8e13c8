//! The node cache: lookups, eviction, dirty nodes and limits.

use std::sync::Arc;
use subvol_core::btree_id::BtreeId;
use subvol_core::cache::{BtreeCache, MAX_CLEAN, MAX_DIRTY, PREEMPTIVE_SHRINK_SCAN_BUDGET};
use subvol_core::cache_fill::{
    bch2_btree_node_mem_free, bch2_btree_node_transition_state,
    bch2_btree_node_transition_state_locked, bch2_btree_node_write_done_clean, node_id_for,
};
use subvol_core::evicted::EvictedSizeTable;
use subvol_core::key::{BchVal, BtreeKey, KeyType};
use subvol_core::meminfo::parse_meminfo_snapshot;
use subvol_core::node::{BtreeNode, NodeState};
use subvol_core::writer::StorageError;

fn make_node() -> Arc<BtreeNode> {
    Arc::new(BtreeNode::new_leaf())
}

fn make_interior() -> Arc<BtreeNode> {
    Arc::new(BtreeNode::new_internal())
}

fn filled(keys: u64) -> BtreeNode {
    let mut node = BtreeNode::new_leaf();
    for k in 0..keys {
        assert!(node.insert(BtreeKey::new(k + 1, 1, KeyType::Normal), BchVal::new(k, 1)));
    }
    node
}

fn is_accessed(cache: &BtreeCache, id: u64) -> bool {
    let mut all = cache.clean.iter().chain(cache.dirty.iter()).chain(cache.pending_flush.iter());
    all.find(|e| e.id == id).unwrap().accessed
}

#[test]
fn test_get_or_load_hit_and_miss() {
    let mut cache = BtreeCache::new();
    let node = make_node();
    let mut load_called = false;
    let got = cache.get_or_load(
        42,
        || {
            load_called = true;
            node.clone()
        },
        false,
    );
    assert!(load_called, "load_fn should be called on miss");
    assert!(Arc::ptr_eq(&node, &got));

    let mut load_called2 = false;
    let got2 = cache.get_or_load(
        42,
        || {
            load_called2 = true;
            make_node()
        },
        false,
    );
    assert!(!load_called2, "load_fn should NOT be called on hit");
    assert!(Arc::ptr_eq(&node, &got2));
}

#[test]
fn test_lru_eviction() {
    let mut cache = BtreeCache::new();
    let mut nodes = Vec::new();
    for i in 0..MAX_CLEAN as u64 {
        let n = make_node();
        cache.insert(i, n.clone());
        nodes.push(n);
    }
    cache.insert(MAX_CLEAN as u64, make_node());
    assert!(cache.get(0).is_none(), "LRU entry should be evicted");
    assert!(cache.get(MAX_CLEAN as u64).is_some(), "new entry should exist");
    assert!(cache.get((MAX_CLEAN - 1) as u64).is_some(), "last entry should exist");
}

#[test]
fn test_lru_promotion() {
    let mut cache = BtreeCache::new();
    for i in 0..MAX_CLEAN as u64 {
        cache.insert(i, make_node());
    }
    let _ = cache.get_or_load(500, make_node, false);
    let extra_count = MAX_CLEAN / 2;
    for i in MAX_CLEAN as u64..(MAX_CLEAN as u64 + extra_count as u64) {
        cache.insert(i, make_node());
    }
    assert!(cache.get(0).is_none(), "non-promoted LRU front should be evicted");
    assert!(cache.get(500).is_some(), "promoted entry should survive eviction");
}

#[test]
fn test_dirty_tracking() {
    let mut cache = BtreeCache::new();
    let node = make_node();
    cache.insert(100, node.clone());
    cache.mark_dirty(100);
    assert!(cache.clean.iter().all(|e| e.id != 100), "should not be in clean after mark_dirty");
    let entry = cache.dirty.iter().find(|e| e.id == 100);
    assert!(entry.is_some(), "should be in dirty after mark_dirty");
    assert!(!entry.unwrap().node.flags.need_rewrite, "dirty is not need_rewrite");
}

#[test]
fn test_transition_state_helpers() {
    let mut node = BtreeNode::new_leaf();
    assert_eq!(node.state, NodeState::Alive);
    bch2_btree_node_transition_state(&mut node, NodeState::InFlight);
    assert_eq!(node.state, NodeState::InFlight);
    bch2_btree_node_transition_state_locked(&mut node, NodeState::Alive);
    assert_eq!(node.state, NodeState::Alive);
}

#[test]
fn test_write_done_clean_resets_write_state() {
    let mut node = BtreeNode::new_leaf();
    node.flags.set_write_in_flight();
    node.flags.set_need_rewrite();
    bch2_btree_node_transition_state(&mut node, NodeState::InFlight);
    bch2_btree_node_write_done_clean(&mut node);
    assert!(!node.flags.is_write_in_flight());
    assert!(node.flags.need_rewrite);
    assert_eq!(node.state, NodeState::Alive);
}

#[test]
fn test_btree_node_mem_free_consumes_arc() {
    let node = make_node();
    let other = node.clone();
    assert_eq!(Arc::strong_count(&other), 2);
    bch2_btree_node_mem_free(node);
    assert_eq!(Arc::strong_count(&other), 1);
}

#[test]
fn test_flush_dirty() {
    let mut cache = BtreeCache::new();
    cache.insert(100, make_node());
    cache.mark_dirty(100);
    assert_eq!(cache.len(), 1);
    cache.flush_dirty();
    assert!(cache.get(100).is_none(), "flushed dirty node should be gone");
}

#[test]
fn test_gc_retire_single_ref() {
    let mut cache = BtreeCache::new();
    cache.insert(200, make_node());
    cache.gc_retire(&vec![200]);
    assert!(cache.get(200).is_none(), "retired node should be removed from cache");
}

#[test]
fn test_gc_retire_external_ref() {
    let mut cache = BtreeCache::new();
    let node = make_node();
    cache.insert(300, node.clone());
    cache.gc_retire(&vec![300]);
    assert!(cache.get(300).is_some(), "node with external ref should remain");
    drop(node);
    cache.gc_retire(&Vec::new());
    assert!(cache.get(300).is_none(), "a queued node goes once nobody holds it");
}

#[test]
fn test_reget_after_eviction() {
    let mut cache = BtreeCache::new();
    for i in 0..MAX_CLEAN as u64 {
        cache.insert(i, make_node());
    }
    cache.insert(MAX_CLEAN as u64, make_node());
    assert!(cache.get(0).is_none());
    let mut load_called = false;
    let _ = cache.get_or_load(
        0,
        || {
            load_called = true;
            make_node()
        },
        false,
    );
    assert!(load_called, "re-get after eviction should call load_fn");
    assert!(cache.get(0).is_some(), "re-loaded entry should be in cache");
}

#[test]
fn test_dirty_still_accessible() {
    let mut cache = BtreeCache::new();
    let node = make_node();
    cache.insert(400, node.clone());
    cache.mark_dirty(400);
    let got = cache.get_or_load(400, make_node, false);
    assert!(Arc::ptr_eq(&node, &got), "dirty node should still be accessible");
    assert!(is_accessed(&cache, 400), "dirty lookup should refresh accessed bit");
}

#[test]
fn test_dirty_auto_flush() {
    let mut cache = BtreeCache::new();
    for i in 0..(MAX_DIRTY - 1) as u64 {
        cache.insert(i, make_node());
        cache.mark_dirty(i);
    }
    cache.insert(9999, make_node());
    cache.mark_dirty(9999);
    assert!(cache.dirty.is_empty(), "dirty should be drained after auto-flush");
    assert!(cache.clean.is_empty(), "all nodes were dirty, clean should be empty");
    assert_eq!(cache.pending_flush.len(), MAX_DIRTY);
    assert!(cache.pending_flush.iter().any(|e| e.id == 0));
    assert!(cache.pending_flush.iter().any(|e| e.id == 9999));
    assert!(cache.get(0).is_some(), "pending_flush node should still be accessible via get");
    assert!(cache.get(42).is_some(), "pending_flush node 42 should still be accessible");
    let _ = cache.get_or_load(0, make_node, false);
    assert!(is_accessed(&cache, 0), "pending_flush hit should refresh accessed bit");
}

#[test]
fn test_remove() {
    let mut cache = BtreeCache::new();
    let node = make_node();
    cache.insert(500, node.clone());
    let removed = cache.remove(500);
    assert!(removed.is_some(), "remove should return the node");
    assert!(Arc::ptr_eq(&removed.unwrap(), &node));
    assert!(cache.get(500).is_none(), "removed node should be gone");
    assert!(cache.clean.iter().all(|e| e.id != 500));
}

#[test]
fn test_get_or_load_evicts() {
    let mut cache = BtreeCache::new();
    for i in 0..MAX_CLEAN as u64 {
        cache.insert(i, make_node());
    }
    let _ = cache.get_or_load(9999, make_node, false);
    assert!(cache.get(0).is_none(), "get_or_load should evict LRU when full");
    assert!(cache.get(9999).is_some(), "get_or_load should insert new node");
}

#[test]
fn test_empty() {
    let mut cache = BtreeCache::new();
    assert!(cache.is_empty());
    assert_eq!(cache.len(), 0);
    cache.insert(1, make_node());
    assert!(!cache.is_empty());
    assert_eq!(cache.len(), 1);
}

#[test]
fn test_leaf_first_eviction() {
    let mut cache = BtreeCache::new();
    cache.insert(0, make_interior());
    for i in 1..MAX_CLEAN as u64 {
        cache.insert(i, make_node());
    }
    assert_eq!(cache.len(), MAX_CLEAN);
    cache.insert(MAX_CLEAN as u64, make_node());
    assert!(cache.get(0).is_some(), "interior ID=0 must survive eviction");
    assert!(cache.get(1).is_none(), "leaf ID=1 at LRU front-2 should be evicted first");
    assert!(cache.get(MAX_CLEAN as u64).is_some(), "newly inserted node must be present");
}

#[test]
fn test_interior_only_fallback() {
    let mut cache = BtreeCache::new();
    for i in 0..MAX_CLEAN as u64 {
        cache.insert(i, make_interior());
    }
    assert_eq!(cache.len(), MAX_CLEAN);
    cache.insert(MAX_CLEAN as u64, make_interior());
    assert!(cache.get(0).is_none(), "LRU front interior should be evicted when no leaves");
    assert!(cache.get(MAX_CLEAN as u64).is_some(), "new interior should be present");
}

#[test]
fn test_mixed_eviction_order() {
    let mut cache = BtreeCache::new();
    for i in 0..MAX_CLEAN as u64 {
        if i % 2 == 0 {
            cache.insert(i, make_node());
        } else {
            cache.insert(i, make_interior());
        }
    }
    assert_eq!(cache.len(), MAX_CLEAN);
    cache.insert(MAX_CLEAN as u64, make_node());
    assert!(cache.get(0).is_none(), "first leaf in LRU should be evicted");
    assert!(cache.get(1).is_some(), "interior after evicted leaf should survive");
    assert!(cache.get(2).is_some(), "second leaf should survive (only one eviction)");
}

#[test]
fn test_get_or_load_level_tracking() {
    let mut cache = BtreeCache::new();
    let l1 = cache.get_or_load(10, make_node, false);
    assert_eq!(l1.level, 0);
    let l2 = cache.get_or_load(20, make_interior, false);
    assert_eq!(l2.level, 1);
    let level_of = |id: u64| cache.clean.iter().find(|e| e.id == id).map(|e| e.node.level);
    assert_eq!(level_of(10), Some(0));
    assert_eq!(level_of(20), Some(1));
}

#[test]
fn test_level_cleanup_on_remove() {
    let mut cache = BtreeCache::new();
    cache.insert(50, make_interior());
    cache.insert(60, make_node());
    assert!(cache.remove(50).is_some());
    assert!(cache.clean.iter().all(|e| e.id != 50), "level should be cleaned up on remove");
    assert!(cache.clean.iter().any(|e| e.id == 60), "unremoved node level should remain");
}

#[test]
fn test_shrink_two_phase_clock() {
    let mut cache = BtreeCache::new();
    let n = 80u64;
    for i in 0..n {
        cache.insert(i, make_node());
    }
    assert_eq!(cache.len(), n as usize);
    let freed1 = cache.shrink(n as usize);
    assert_eq!(freed1, 0, "all scanned nodes have accessed set, none evicted");
    for e in cache.clean.iter().take(16) {
        assert!(!e.accessed, "node {} should have accessed cleared", e.id);
    }
    let freed2 = cache.shrink(n as usize);
    assert_eq!(freed2, 16, "second shrink should evict 16 unaccessed nodes");
    assert_eq!(cache.len(), 64, "should keep min_keep=64 nodes");
}

#[test]
fn test_shrink_protects_reaccessed() {
    let mut cache = BtreeCache::new();
    for i in 0..80u64 {
        cache.insert(i, make_node());
    }
    cache.shrink(80);
    let _ = cache.get_or_load(0, make_node, false);
    let _freed = cache.shrink(80);
    assert!(cache.get(0).is_some(), "re-accessed node should survive shrink");
    assert_eq!(cache.len(), 65, "should keep min_keep=64 + re-accessed node");
}

#[test]
fn test_evicted_size_tracking_via_evict_one_leaf() {
    let mut cache = BtreeCache::new();
    assert_eq!(cache.total_evicted_size(), 0);
    for i in 0..MAX_CLEAN as u64 {
        cache.insert(i, make_node());
    }
    cache.insert(MAX_CLEAN as u64, make_node());
    assert!(cache.len() <= MAX_CLEAN, "eviction should keep cache within MAX_CLEAN");
    let _ = cache.total_evicted_size();
}

#[test]
fn test_lookup_evicted_size() {
    let mut cache = BtreeCache::new();
    cache.insert(100, make_node());
    cache.remove(100);
    assert_eq!(cache.lookup_evicted_size(100), None, "remove does not record evicted_size");
}

#[test]
fn test_btree_cache_to_text_contains_core_sections() {
    let mut cache = BtreeCache::new();
    cache.insert(10, make_node());
    cache.insert_dirty(20, make_interior());
    cache.bch2_node_pin(10);
    let text = cache.bch2_btree_cache_to_text();
    assert!(text.contains("live:\t"));
    assert!(text.contains("pinned:\t"));
    assert!(text.contains("clean:\t"));
    assert!(text.contains("dirty:\t"));
    assert!(text.contains("pending flush:\t"));
    assert!(text.contains("clean lru:\t"));
    assert!(text.contains("in flight:\t"));
    assert!(text.contains("cannibalize lock:\t"));
    assert!(text.contains("evicted size:\t"));
    assert!(text.contains("cache hits:\t"));
    assert!(text.contains("requested:\t"));
    assert!(text.contains("freed:\t"));
    assert!(text.contains("self reclaim:\t"));
    assert!(text.contains("not freed (access_bit):\t"));
    assert!(text.contains("cache misses:\t"));
    assert!(text.contains("retire queue:\t"));
}

#[test]
fn test_system_memory_usage_high_from() {
    let total = 1000;
    assert!(
        !BtreeCache::system_memory_usage_high_from(300, total, 100, 4),
        "available >= 1/4 total should not trigger"
    );
    assert!(
        BtreeCache::system_memory_usage_high_from(100, total, 300, 4),
        "large pinned footprint under low available memory should trigger"
    );
}

#[test]
fn test_parse_meminfo_snapshot() {
    let meminfo = "\
MemTotal:        1000 kB
MemFree:          200 kB
MemAvailable:     300 kB
Buffers:           10 kB
";
    let (available, total) = parse_meminfo_snapshot(&meminfo.as_bytes().to_vec()).unwrap();
    assert_eq!(available, 300 * 1024);
    assert_eq!(total, 1000 * 1024);
}

#[test]
fn test_preemptive_shrink_threshold() {
    assert!(
        !BtreeCache::should_preemptive_shrink_from(
            MAX_CLEAN - PREEMPTIVE_SHRINK_SCAN_BUDGET - 1,
            false,
        ),
        "below the threshold should not shrink preemptively"
    );
    assert!(
        BtreeCache::should_preemptive_shrink_from(
            MAX_CLEAN - PREEMPTIVE_SHRINK_SCAN_BUDGET,
            false,
        ),
        "at the threshold should shrink preemptively"
    );
    assert!(
        BtreeCache::should_preemptive_shrink_from(0, true),
        "memory pressure should force preemptive shrink"
    );
}

#[test]
fn test_nr_live_updates_on_load_paths() {
    let mut cache = BtreeCache::new();
    let _ = cache.get_or_load(1, make_node, false);
    assert_eq!(cache.nr_live(), 1, "get_or_load should update nr_live");
    let _ = cache.bch2_btree_node_get(2, make_interior, false);
    assert_eq!(cache.nr_live(), 2, "bch2_btree_node_get should update nr_live");
}

#[test]
fn test_will_make_reachable_default_false() {
    let node = BtreeNode::new_leaf();
    assert!(!node.flags.will_make_reachable, "new node should have will_make_reachable=false");
}

#[test]
fn test_will_make_reachable_set_clear() {
    let mut node = BtreeNode::new_leaf();
    assert!(!node.flags.will_make_reachable);
    node.flags.set_will_make_reachable();
    assert!(node.flags.will_make_reachable, "after set, should be true");
    node.flags.clear_will_make_reachable();
    assert!(!node.flags.will_make_reachable, "after clear, should be false");
}

#[test]
fn test_will_make_reachable_arc() {
    let mut node = make_node();
    assert!(!node.flags.will_make_reachable);
    Arc::get_mut(&mut node).unwrap().flags.set_will_make_reachable();
    assert!(node.flags.will_make_reachable);
}

#[test]
fn test_will_make_reachable_blocks_eviction() {
    let mut cache = BtreeCache::new();
    let mut protected = make_node();
    Arc::get_mut(&mut protected).unwrap().flags.set_will_make_reachable();
    cache.insert(1, protected);
    for i in 2..MAX_CLEAN as u64 + 1 {
        cache.insert(i, make_node());
    }
    assert_eq!(cache.len(), MAX_CLEAN);
    cache.insert(MAX_CLEAN as u64 + 1, make_node());
    assert!(cache.get(1).is_some(), "will_make_reachable node must survive eviction");
}

#[test]
fn dirty_nodes_are_handed_over_leaves_first() {
    let mut cache = BtreeCache::new();
    cache.insert_dirty(1, make_interior());
    cache.insert_dirty(2, make_node());
    let out = cache.flush_dirty();
    let ids: Vec<u64> = out.iter().map(|p| p.0).collect();
    assert_eq!(ids, [2, 1]);
    assert_eq!(cache.nr_dirty(), 0);
}

#[test]
fn an_evicted_node_leaves_a_note_of_its_size() {
    let mut cache = BtreeCache::new();
    cache.insert(7, Arc::new(filled(3)));
    for i in 100..100 + MAX_CLEAN as u64 {
        cache.insert(i, make_node());
    }
    assert!(cache.get(7).is_none());
    assert_eq!(cache.lookup_evicted_size(7), Some((filled(3).live_data_bytes() / 8) as u16));
    assert!(cache.total_evicted_size() > 0);
}

#[test]
fn pins_keep_a_node() {
    let mut cache = BtreeCache::new();
    cache.insert(7, make_node());
    cache.bch2_node_pin(7);
    assert_eq!(cache.pin_count(7), Some(1));
    for i in 100..100 + MAX_CLEAN as u64 {
        cache.insert(i, make_node());
    }
    assert!(cache.get(7).is_some());
    cache.bch2_btree_cache_unpin(7);
    assert_eq!(cache.pin_count(7), Some(0));
    assert_eq!(cache.pin_count(6), None);
}

#[test]
fn the_cannibalize_lock_is_one_callers_at_a_time() {
    let mut cache = BtreeCache::new();
    let (mut a, mut b) = (0u32, 0u32);
    assert!(!cache.bch2_btree_cache_cannibalize_lock(&mut a), "nobody to wait for");
    assert!(!cache.bch2_btree_cache_cannibalize_lock(&mut a), "the holder goes on");
    assert!(cache.bch2_btree_cache_cannibalize_lock(&mut b), "another caller waits");
    cache.bch2_btree_cache_cannibalize_unlock(&mut a);
    assert_eq!(a, 0);
    assert!(!cache.cannibalize_in_progress);
}

#[test]
fn a_filled_node_stands_under_the_number_of_its_key() {
    let mut cache = BtreeCache::new();
    let key = BtreeKey::new(11, 1, KeyType::Normal);
    let id = node_id_for(&key, BtreeId::Extents);
    assert_eq!(id, 11 * 31 ^ u64::from(BtreeId::Extents.to_u8()));
    let got = cache.bch2_btree_node_fill(&key, BtreeId::Extents, 0, Ok(Some(filled(11)))).unwrap();
    assert_eq!(got.level, 0);
    assert!(got.search(&key).is_some());
    assert!(Arc::ptr_eq(&got, &cache.get(id).unwrap()));
}

#[test]
fn a_failed_fill_leaves_the_cache_alone() {
    let mut cache = BtreeCache::new();
    let key = BtreeKey::new(11, 1, KeyType::Normal);
    let got = cache.bch2_btree_node_fill(&key, BtreeId::Extents, 0, Err(StorageError::Corruption));
    assert_eq!(got.err(), Some(StorageError::Corruption));
    assert!(cache.is_empty());
}

#[test]
fn a_prefetched_node_fills_when_its_read_is_over() {
    let mut cache = BtreeCache::new();
    assert!(cache.btree_node_prefetch_id(77, 0));
    assert!(!cache.btree_node_prefetch_id(77, 0));
    assert!(cache.get(77).unwrap().flags.is_read_in_flight());
    cache.finish_read(77, Some(filled(7)));
    let node = cache.get(77).unwrap();
    assert!(!node.flags.is_read_in_flight());
    assert_eq!(node.state, NodeState::Alive);
    assert!(node.search(&BtreeKey::new(7, 1, KeyType::Normal)).is_some());
    let key = BtreeKey::new(5, 1, KeyType::Normal);
    let id = cache.bch2_btree_node_prefetch(&key, BtreeId::Extents, 0);
    assert_eq!(id, Some(node_id_for(&key, BtreeId::Extents)));
    assert_eq!(cache.bch2_btree_node_prefetch(&key, BtreeId::Extents, 0), None);
}

#[test]
fn memory_without_its_lines_is_unknown() {
    assert_eq!(parse_meminfo_snapshot(&b"MemTotal: 1000 kB\n".to_vec()), None);
    assert_eq!(parse_meminfo_snapshot(&b"MemTotal: x kB\nMemAvailable: 1 kB\n".to_vec()), None);
    let huge = b"MemTotal: 18446744073709551615 kB\nMemAvailable: 1 kB\n".to_vec();
    assert_eq!(parse_meminfo_snapshot(&huge), None);
    assert!(!BtreeCache::new().system_memory_usage_high(None));
}

#[test]
fn sizes_are_noted_and_found() {
    let mut table = EvictedSizeTable::with_min_capacity();
    assert_eq!(table.lookup(5), None);
    table.record(5, 17);
    table.record(6, 18);
    assert_eq!(table.lookup(5), Some(17));
    assert_eq!(table.lookup(6), Some(18));
}

#[test]
fn many_writes_on_their_way_throttle() {
    let mut cache = BtreeCache::new();
    cache.inc_in_flight();
    assert_eq!(cache.nr_in_flight_inner, 1);
    cache.dec_in_flight();
    assert_eq!(cache.nr_in_flight_inner, 0);
    cache.bch2_btree_cache_update_throttle();
    assert!(!cache.bch2_btree_cache_should_throttle());
    assert_eq!(cache.cache_hits(), 0);
    let _ = cache.bch2_btree_node_get(1, make_node, false);
    let _ = cache.bch2_btree_node_get(1, make_node, false);
    assert_eq!(cache.cache_misses(), 1);
    assert_eq!(cache.cache_hits(), 1);
}
