//! Volumes: trees by kind, and the keys in front of them.

use std::collections::HashSet;
use subvol_core::btree_id::{btree_id_nr, BtreeId};
use subvol_core::key::{BchVal, Bpos, BtreeKey, ExtentValue, KeyEntry, KeyType, KeyValue};
use subvol_core::volume::{bch2_btree_bit_mod, BchVol};
use subvol_core::writer::NoopWriter;

fn extent_entry_at(pos: Bpos, paddr: u64) -> KeyEntry {
    KeyEntry::new(
        pos,
        KeyType::Normal,
        KeyValue::Extent(ExtentValue {
            paddr,
            size: 1,
            ver: 0,
            crc32c: 0,
            crc_offset_blocks: 0,
            dev_idx: 0,
        }),
    )
}

#[test]
fn test_btree_type_all_coverage() {
    let all = btree_id_nr();
    let mut set = HashSet::new();
    for ty in all.iter() {
        assert!(set.insert(*ty), "duplicate BtreeId variant");
    }
    assert_eq!(set.len(), all.len());
}

#[test]
fn test_btree_type_index_roundtrip() {
    let all = btree_id_nr();
    let mut indices = HashSet::new();
    for ty in all.iter() {
        let idx = ty.to_u8() as usize;
        assert!(idx < all.len(), "index {} >= count {}", idx, all.len());
        assert!(indices.insert(idx), "duplicate index {}", idx);
        assert_eq!(BtreeId::from_u8(ty.to_u8()), Some(*ty));
    }
    assert_eq!(BtreeId::from_u8(28), None);
}

#[test]
fn test_btree_vol_new_all_initialized() {
    let vol = BchVol::new();
    let kinds: HashSet<BtreeId> = btree_id_nr().iter().map(|ty| vol.btree(*ty).btype()).collect();
    assert_eq!(kinds.len(), btree_id_nr().len(), "each kind has a tree of its own");
}

#[test]
fn test_btree_vol_insert_and_get() {
    let mut vol = BchVol::new();
    let key = BtreeKey::from_bpos(Bpos::new(0, 100, 42), KeyType::Normal);
    let val = BchVal::new(0x1234, 1);
    assert!(vol.insert_entry_raw(BtreeId::Extents, KeyEntry::from_key_value(key, val), 0));
    assert_eq!(vol.get_entry(BtreeId::Extents, &key), Some((key, val)));
}

#[test]
fn test_btree_vol_types_independent() {
    let mut vol = BchVol::new();
    let ext_key = BtreeKey::from_bpos(Bpos::new(0, 10, 0), KeyType::Normal);
    let ext_val = BchVal::new(0x100, 1);
    vol.insert_entry_raw(BtreeId::Extents, KeyEntry::from_key_value(ext_key, ext_val), 0);
    let snap_key = BtreeKey::from_bpos(Bpos::new(2, 20, 1), KeyType::Normal);
    let snap_val = BchVal::new(0x200, 2);
    vol.insert_entry_raw(BtreeId::Snapshots, KeyEntry::from_key_value(snap_key, snap_val), 0);
    assert_eq!(vol.get_entry(BtreeId::Extents, &snap_key), None);
    assert_eq!(vol.get_entry(BtreeId::Snapshots, &ext_key), None);
}

#[test]
fn test_btree_vol_delete() {
    let mut vol = BchVol::new();
    let mut writer = NoopWriter::starting_at(1000);
    let key = BtreeKey::from_bpos(Bpos::new(0, 50, 0), KeyType::Normal);
    let val = BchVal::new(0xABC, 1);
    assert!(vol.insert_entry_raw(BtreeId::Extents, KeyEntry::from_key_value(key, val), 0));
    assert_eq!(vol.get_entry(BtreeId::Extents, &key), Some((key, val)));
    assert!(vol
        .btree_mut(BtreeId::Extents)
        .bch2_btree_delete(&mut writer, &key, 0)
        .unwrap_or(false));
    assert_eq!(vol.get_entry(BtreeId::Extents, &key), None);
    assert!(!vol
        .btree_mut(BtreeId::Extents)
        .bch2_btree_delete(&mut writer, &key, 0)
        .unwrap_or(false));
}

#[test]
fn test_btree_vol_for_each() {
    let vol = BchVol::new();
    let mut count = 0;
    for ty in btree_id_nr() {
        count += 1;
        assert_eq!(vol.btree(ty).root().node.key_count(), 0, "btree {:?} not empty", ty);
    }
    assert_eq!(count, btree_id_nr().len());
}

#[test]
fn test_btree_vol_default() {
    let vol = BchVol::new();
    assert!(vol.btree(BtreeId::Alloc).root().node.key_count() == 0);
}

#[test]
fn test_insert_entry_raw_flushes_dirty_key_cache() {
    let mut vol = BchVol::new();
    let dirty_pos = Bpos::new(0, 50, 0);
    vol.btree_mut(BtreeId::Extents)
        .key_cache
        .bch2_btree_insert_key_cached(extent_entry_at(dirty_pos, 0x111));
    assert_eq!(vol.btree(BtreeId::Extents).key_cache.nr_dirty_keys(), 1);
    let write_pos = Bpos::new(0, 60, 0);
    assert!(vol.insert_entry_raw(BtreeId::Extents, extent_entry_at(write_pos, 0x222), 0));
    assert_eq!(vol.btree(BtreeId::Extents).key_cache.nr_dirty_keys(), 0);
    let cached_key = BtreeKey::from_bpos(dirty_pos, KeyType::Normal);
    let got = vol.get_entry(BtreeId::Extents, &cached_key);
    assert!(got.is_some(), "dirty key should still be readable after flush");
    assert_eq!(got.unwrap().1.paddr, 0x111);
}

#[test]
fn test_insert_entry_raw_flushes_dirty_key_cache_with_preexisting_dirty_entry() {
    let mut vol = BchVol::new();
    let dirty_pos = Bpos::new(0, 70, 0);
    vol.btree_mut(BtreeId::Extents)
        .key_cache
        .bch2_btree_insert_key_cached(extent_entry_at(dirty_pos, 0x333));
    assert_eq!(vol.btree(BtreeId::Extents).key_cache.nr_dirty_keys(), 1);
    let batch_pos = Bpos::new(0, 80, 0);
    assert!(vol.insert_entry_raw(BtreeId::Extents, extent_entry_at(batch_pos, 0x444), 0));
    assert_eq!(vol.btree(BtreeId::Extents).key_cache.nr_dirty_keys(), 0);
    let cached_key = BtreeKey::from_bpos(dirty_pos, KeyType::Normal);
    let got = vol.get_entry(BtreeId::Extents, &cached_key);
    assert!(got.is_some(), "dirty key should remain readable after batch flush");
    assert_eq!(got.unwrap().1.paddr, 0x333);
}

#[test]
fn a_bit_is_set_and_cleared() {
    let mut vol = BchVol::new();
    let pos = Bpos::new(0, 9, 0);
    assert!(bch2_btree_bit_mod(&mut vol, BtreeId::NeedDiscard, pos, true));
    assert!(vol.get_entry_raw(BtreeId::NeedDiscard, pos).is_some());
    assert!(bch2_btree_bit_mod(&mut vol, BtreeId::NeedDiscard, pos, false));
    assert!(vol.get_entry_raw(BtreeId::NeedDiscard, pos).is_none());
}
