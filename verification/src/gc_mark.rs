//! Marking: which buckets the entries of the trees refer to.

use crate::btree_id::{BtreeId, NR_BTREE_IDS};
use crate::bucket::{
    bucket_data_type, bucket_ref_update_checks, data_type_of, data_type_or_free, dev_at, dev_index,
    law_pointer_bucket, lemma_dev_index, ptr_bucket, ptr_counts, ref_check, sector_to_bucket,
    with_slot, BchAllocator,
    BchDataType, Bucket, BucketSlot, DevView, GcBucket, RefCheck, ADDR48_MAX, SECTORS_PER_BLOCK,
};
use crate::contents::walk;
use crate::entries::{keys, lemma_find_some};
use crate::gc::{BtreeGc, GcPhase, GcPos};
use crate::key::{lemma_ord, Bpos, EntryView, ExtentPtr, KeyEntry, KeyType, KeyValue, ValueView};
use crate::topology::{bch2_check_topology, law_walk_is_contents};
use crate::tree::Btree;
use crate::volume::BchVol;
use crate::writer::StorageError;
use vstd::prelude::*;

verus! {

/// A pointer leads to bucket `b` of a device.
pub open spec fn hits(p: ExtentPtr, dev: DevView, b: int) -> bool {
    ptr_counts(p) && p.dev == dev.dev_idx && ptr_bucket(p, dev.bucket_size) == b
}

/// A pointer of an entry leads to bucket `b` of a device.
pub open spec fn entry_hits(e: EntryView, dev: DevView, b: int) -> bool {
    exists|j: int| 0 <= j < e.value.ptrs().len() && hits(#[trigger] e.value.ptrs()[j], dev, b)
}

/// An entry of the list refers to bucket `b` of a device.
pub open spec fn referenced(c: Seq<EntryView>, dev: DevView, b: int) -> bool {
    exists|i: int| 0 <= i < c.len() && entry_hits(#[trigger] c[i], dev, b)
}

/// One flag for each bucket.
pub open spec fn table_fits(marks: Seq<Vec<bool>>, devs: Seq<DevView>) -> bool {
    &&& marks.len() == devs.len()
    &&& forall|d: int|
        0 <= d < devs.len() ==> (#[trigger] marks[d])@.len() == devs[d].slots.len()
}

/// The flags are those of the buckets that the list refers to.
pub open spec fn table_of(marks: Seq<Vec<bool>>, devs: Seq<DevView>, c: Seq<EntryView>) -> bool {
    &&& table_fits(marks, devs)
    &&& forall|d: int, b: int|
        0 <= d < devs.len() && 0 <= b < devs[d].slots.len() ==> #[trigger] marks[d]@[b]
            == referenced(c, devs[d], b)
}

/// A table without any flag.
fn empty_table(allocator: &BchAllocator) -> (r: Vec<Vec<bool>>)
    ensures
        table_of(r@, allocator@, Seq::empty()),
{
    let mut marks: Vec<Vec<bool>> = Vec::new();
    let mut d: usize = 0;
    while d < allocator.devs.len()
        invariant
            d <= allocator.devs.len(),
            marks@.len() == d,
            forall|i: int|
                0 <= i < d ==> (#[trigger] marks@[i])@.len() == allocator@[i].slots.len(),
            forall|i: int, b: int|
                0 <= i < d && 0 <= b < allocator@[i].slots.len() ==> !#[trigger] marks@[i]@[b],
        decreases allocator.devs.len() - d,
    {
        let n: usize = allocator.devs[d].slots.len();
        let mut row: Vec<bool> = Vec::new();
        let mut b: usize = 0;
        while b < n
            invariant
                b <= n,
                row@.len() == b,
                forall|i: int| 0 <= i < b ==> !#[trigger] row@[i],
            decreases n - b,
        {
            row.push(false);
            b += 1;
        }
        marks.push(row);
        assert(allocator@[d as int] == allocator.devs@[d as int]@);
        d += 1;
    }
    marks
}

/// Sets the flags of the buckets that a pointer leads to.
fn flag_ptr(marks: &mut Vec<Vec<bool>>, allocator: &BchAllocator, p: &ExtentPtr)
    requires
        allocator.wf(),
        table_fits(old(marks)@, allocator@),
    ensures
        table_fits(final(marks)@, allocator@),
        forall|d: int, b: int|
            0 <= d < allocator@.len() && 0 <= b < allocator@[d].slots.len()
                ==> #[trigger] final(marks)@[d]@[b] == (old(marks)@[d]@[b] || hits(
                *p,
                allocator@[d],
                b,
            )),
{
    let ghost m0 = marks@;
    if p.offset == 0 || p.offset > ADDR48_MAX {
        return;
    }
    let d: usize = match allocator.device(p.dev) {
        None => {
            proof {
                assert forall|i: int, b: int|
                    0 <= i < allocator@.len() && 0 <= b < allocator@[i].slots.len() implies !hits(
                    *p,
                    allocator@[i],
                    b,
                ) by {
                    if allocator@[i].dev_idx == p.dev {
                        assert(dev_at(allocator@, p.dev, i));
                    }
                }
            }
            return;
        },
        Some(d) => d,
    };
    assert(allocator@[d as int] == allocator.devs@[d as int]@);
    let b: u64 = sector_to_bucket(allocator.devs[d].bucket_size, p.offset * SECTORS_PER_BLOCK);
    proof {
        assert forall|i: int, x: int|
            0 <= i < allocator@.len() && #[trigger] hits(*p, allocator@[i], x) implies i == d && x
            == b by {
            assert(dev_at(allocator@, p.dev, i));
            lemma_dev_index(allocator@, p.dev, i);
        }
    }
    if b < allocator.devs[d].slots.len() as u64 {
        let row: &mut Vec<bool> = &mut marks[d];
        row.set(b as usize, true);
    }
    proof {
        assert forall|i: int, x: int|
            0 <= i < allocator@.len() && 0 <= x < allocator@[i].slots.len() implies #[trigger] marks@[i]@[x]
            == (m0[i]@[x] || hits(*p, allocator@[i], x)) by {}
    }
}

/// Sets the flags of the buckets that the entries refer to.
fn flag_entries(marks: &mut Vec<Vec<bool>>, allocator: &BchAllocator, entries: &Vec<KeyEntry>, Ghost(
    c,
): Ghost<Seq<EntryView>>)
    requires
        allocator.wf(),
        table_of(old(marks)@, allocator@, c),
    ensures
        table_of(final(marks)@, allocator@, c + keys(entries@)),
{
    let ghost s = keys(entries@);
    let ghost devs = allocator@;
    let mut i: usize = 0;
    assert(c + s.subrange(0, 0) =~= c);
    while i < entries.len()
        invariant
            i <= entries.len(),
            s == keys(entries@),
            devs == allocator@,
            allocator.wf(),
            table_of(marks@, devs, c + s.subrange(0, i as int)),
        decreases entries.len() - i,
    {
        let ptrs: Vec<ExtentPtr> = entries[i].value.for_each_ptr();
        let ghost e = s[i as int];
        let ghost m0 = marks@;
        assert(e.value.ptrs() == ptrs@);
        let mut j: usize = 0;
        while j < ptrs.len()
            invariant
                j <= ptrs.len(),
                e.value.ptrs() == ptrs@,
                devs == allocator@,
                allocator.wf(),
                table_fits(marks@, devs),
                forall|d: int, b: int|
                    0 <= d < devs.len() && 0 <= b < devs[d].slots.len()
                        ==> #[trigger] marks@[d]@[b] == (m0[d]@[b] || exists|k: int|
                        0 <= k < j && hits(#[trigger] ptrs@[k], devs[d], b)),
            decreases ptrs.len() - j,
        {
            let ghost m1 = marks@;
            flag_ptr(marks, allocator, &ptrs[j]);
            proof {
                assert forall|d: int, b: int|
                    0 <= d < devs.len() && 0 <= b < devs[d].slots.len() implies #[trigger] marks@[d]@[b]
                    == (m0[d]@[b] || exists|k: int|
                    0 <= k < j + 1 && hits(#[trigger] ptrs@[k], devs[d], b)) by {
                    assert(m1[d]@[b] == (m0[d]@[b] || exists|k: int|
                        0 <= k < j && hits(#[trigger] ptrs@[k], devs[d], b)));
                    if hits(ptrs@[j as int], devs[d], b) {
                        assert(0 <= j < j + 1);
                    }
                }
            }
            j += 1;
        }
        proof {
            let t = c + s.subrange(0, i as int);
            let u = c + s.subrange(0, i + 1);
            assert(u =~= t.push(e));
            assert forall|d: int, b: int|
                0 <= d < devs.len() && 0 <= b < devs[d].slots.len() implies #[trigger] marks@[d]@[b]
                == referenced(u, devs[d], b) by {
                assert(m0[d]@[b] == referenced(t, devs[d], b));
                lemma_referenced_push(t, e, devs[d], b);
                assert(marks@[d]@[b] == (m0[d]@[b] || entry_hits(e, devs[d], b)));
            }
        }
        i += 1;
    }
    assert(s.subrange(0, s.len() as int) =~= s);
}

proof fn lemma_referenced_push(c: Seq<EntryView>, e: EntryView, dev: DevView, b: int)
    ensures
        referenced(c.push(e), dev, b) <==> referenced(c, dev, b) || entry_hits(e, dev, b),
{
    let u = c.push(e);
    if referenced(c, dev, b) {
        let i = choose|i: int| 0 <= i < c.len() && entry_hits(#[trigger] c[i], dev, b);
        assert(u[i] == c[i]);
    }
    if entry_hits(e, dev, b) {
        assert(u[c.len() as int] == e);
    }
    if referenced(u, dev, b) {
        let i = choose|i: int| 0 <= i < u.len() && entry_hits(#[trigger] u[i], dev, b);
        if i < c.len() {
            assert(c[i] == u[i]);
        }
    }
}

/// The flags of the buckets that the entries of trees refer to: those of one tree, or of all.
pub(crate) fn reference_table(vol: &BchVol, allocator: &BchAllocator, first: u8, count: u8) -> (r:
    Vec<Vec<bool>>)
    requires
        vol.wf(),
        allocator.wf(),
        first + count <= NR_BTREE_IDS,
    ensures
        table_of(r@, allocator@, contents_of(*vol, first as int, count as nat)),
{
    let mut marks: Vec<Vec<bool>> = empty_table(allocator);
    let mut k: u8 = 0;
    while k < count
        invariant
            vol.wf(),
            allocator.wf(),
            k <= count,
            first + count <= NR_BTREE_IDS,
            table_of(marks@, allocator@, contents_of(*vol, first as int, k as nat)),
        decreases count - k,
    {
        let entries: Vec<KeyEntry> = vol.btrees[(first + k) as usize].for_each_btree_key_entry();
        let ghost c = contents_of(*vol, first as int, k as nat);
        flag_entries(&mut marks, allocator, &entries, Ghost(c));
        k += 1;
    }
    marks
}

/// The entries of `count` trees from `first` on.
pub open spec fn contents_of(vol: BchVol, first: int, count: nat) -> Seq<EntryView>
    decreases count,
{
    if count == 0 {
        Seq::empty()
    } else {
        contents_of(vol, first, (count - 1) as nat) + vol.btrees@[first + count - 1].contents()
    }
}

/// What is known of a bucket that data refers to.
pub open spec fn gen_marked(slot: BucketSlot) -> BucketSlot {
    BucketSlot {
        gc: GcBucket {
            gen: slot.gen,
            gen_valid: true,
            data_type: BchDataType::User.num(),
            ..slot.gc
        },
        ..slot
    }
}

/// Marks the buckets that the extents refer to, and notes that the pass is done as of
/// `journal_seq`.
pub fn bch2_gc_gen(
    vol: &BchVol,
    allocator: &mut BchAllocator,
    gc: &mut BtreeGc,
    journal_seq: u64,
) -> (r: Result<(), StorageError>)
    requires
        vol.wf(),
        old(allocator).wf(),
    ensures
        r is Ok,
        final(allocator).wf(),
        *final(gc) == (BtreeGc {
            pos: GcPos { phase: GcPhase::Btree, btree: 0, level: 0, pos: 0, journal_seq },
            ..*old(gc)
        }),
        final(allocator)@.len() == old(allocator)@.len(),
        forall|d: int|
            0 <= d < old(allocator)@.len() ==> {
                let o = old(allocator)@[d];
                let n = #[trigger] final(allocator)@[d];
                &&& n.dev_idx == o.dev_idx
                &&& n.bucket_size == o.bucket_size
                &&& n.slots.len() == o.slots.len()
                &&& forall|b: int|
                    0 <= b < o.slots.len() ==> #[trigger] n.slots[b] == if referenced(
                        vol.tree(BtreeId::Extents).contents(),
                        o,
                        b,
                    ) {
                        gen_marked(o.slots[b])
                    } else {
                        o.slots[b]
                    }
            },
{
    let ghost c = vol.tree(BtreeId::Extents).contents();
    let ghost devs = allocator@;
    let marks: Vec<Vec<bool>> = reference_table(vol, allocator, 0, 1);
    proof {
        reveal_with_fuel(contents_of, 2);
        assert(contents_of(*vol, 0, 1) =~= c);
    }
    let mut d: usize = 0;
    while d < allocator.devs.len()
        invariant
            allocator.wf(),
            devs == old(allocator)@,
            table_of(marks@, devs, c),
            d <= allocator@.len(),
            allocator@.len() == devs.len(),
            forall|i: int|
                0 <= i < devs.len() ==> {
                    let n = #[trigger] allocator@[i];
                    &&& n.dev_idx == devs[i].dev_idx
                    &&& n.bucket_size == devs[i].bucket_size
                    &&& n.slots.len() == devs[i].slots.len()
                    &&& forall|b: int|
                        0 <= b < n.slots.len() ==> #[trigger] n.slots[b] == if i < d && referenced(
                            c,
                            devs[i],
                            b,
                        ) {
                            gen_marked(devs[i].slots[b])
                        } else {
                            devs[i].slots[b]
                        }
                },
        decreases allocator.devs.len() - d,
    {
        let ghost a1 = allocator@;
        let n: usize = marks[d].len();
        let mut b: usize = 0;
        while b < n
            invariant
                allocator.wf(),
                table_of(marks@, devs, c),
                d < devs.len(),
                n == devs[d as int].slots.len(),
                b <= n,
                a1.len() == devs.len(),
                a1[d as int].slots == devs[d as int].slots,
                allocator@.len() == devs.len(),
                allocator@ == a1.update(d as int, allocator@[d as int]),
                allocator@[d as int].dev_idx == a1[d as int].dev_idx,
                allocator@[d as int].bucket_size == a1[d as int].bucket_size,
                allocator@[d as int].slots.len() == n,
                forall|x: int|
                    0 <= x < n ==> #[trigger] allocator@[d as int].slots[x] == if x < b
                        && referenced(c, devs[d as int], x) {
                        gen_marked(devs[d as int].slots[x])
                    } else {
                        devs[d as int].slots[x]
                    },
            decreases n - b,
        {
            assert(marks@[d as int]@[b as int] == referenced(c, devs[d as int], b as int));
            if marks[d][b] {
                assert(allocator@[d as int] == allocator.devs@[d as int]@);
                let mut slot: BucketSlot = allocator.devs[d].slots[b];
                slot.gc.gen = slot.gen;
                slot.gc.gen_valid = true;
                slot.gc.data_type = BchDataType::User.to_raw();
                allocator.put_slot(d, b, slot);
            }
            b += 1;
        }
        d += 1;
    }
    gc.pos = GcPos { phase: GcPhase::Btree, btree: 0, level: 0, pos: 0, journal_seq };
    Ok(())
}

/// The marking so far: the buckets, whether a stale copy was met, and what stopped it.
#[verifier::ext_equal]
pub struct Marking {
    pub devs: Seq<DevView>,
    pub stale: bool,
    pub fault: Option<StorageError>,
}

/// What a pointer of an entry stands for.
pub open spec fn ptr_type(v: ValueView, p: ExtentPtr) -> BchDataType {
    if v is BtreePtr {
        BchDataType::Btree
    } else if p.cached {
        BchDataType::Cached
    } else {
        BchDataType::User
    }
}

/// A bucket with a good reference, before its sectors are counted.
pub open spec fn ref_noted(slot: BucketSlot, t: BchDataType) -> BucketSlot {
    BucketSlot {
        bucket: Bucket { state: t, ..slot.bucket },
        gc: GcBucket { gen: slot.gen, gen_valid: true, data_type: t.num(), ..slot.gc },
        ..slot
    }
}

/// The sectors that the references to a bucket count so far, of the kind of the pointer.
pub open spec fn counted(gc: GcBucket, cached: bool) -> u32 {
    if cached {
        gc.cached_sectors
    } else {
        gc.dirty_sectors
    }
}

/// The same with another count.
pub open spec fn recounted(gc: GcBucket, cached: bool, n: u32) -> GcBucket {
    if cached {
        GcBucket { cached_sectors: n, ..gc }
    } else {
        GcBucket { dirty_sectors: n, ..gc }
    }
}

/// What a bucket holds by the references counted so far.
pub open spec fn counted_type(gc: GcBucket, t: BchDataType) -> BchDataType {
    if gc.dirty_sectors > 0 {
        bucket_data_type(t)
    } else if gc.cached_sectors > 0 {
        BchDataType::Cached
    } else {
        t
    }
}

/// A bucket after a reference of `blocks` blocks, and what is wrong with the reference.
pub open spec fn slot_marked(slot: BucketSlot, p: ExtentPtr, t: BchDataType, blocks: u32) -> (
    BucketSlot,
    bool,
    Option<StorageError>,
) {
    match ref_check(slot.gen, p.gen, p.cached, t, data_type_of(slot.gc.data_type)) {
        RefCheck::Bad => (slot, false, Some(StorageError::InvalidData)),
        RefCheck::StaleCached => (slot, true, None),
        RefCheck::Current => {
            let s = ref_noted(slot, t);
            let n = counted(s.gc, p.cached) + blocks * SECTORS_PER_BLOCK;
            if blocks == 0 {
                (s, false, None)
            } else if n > u32::MAX {
                (
                    BucketSlot { gc: recounted(s.gc, p.cached, 0), ..s },
                    false,
                    Some(StorageError::InvalidData),
                )
            } else {
                let gc = recounted(s.gc, p.cached, n as u32);
                let state = counted_type(gc, t);
                (
                    BucketSlot {
                        bucket: Bucket { state, ..s.bucket },
                        gc: GcBucket { data_type: state.num(), ..gc },
                        ..s
                    },
                    false,
                    None,
                )
            }
        },
    }
}

/// The marking after one more pointer.
pub open spec fn ptr_marked(st: Marking, v: ValueView, p: ExtentPtr) -> Marking {
    if st.fault is Some || !ptr_counts(p) {
        st
    } else {
        match dev_index(st.devs, p.dev) {
            None => Marking { fault: Some(StorageError::NotFound), ..st },
            Some(d) => {
                let b = ptr_bucket(p, st.devs[d].bucket_size);
                if b < st.devs[d].slots.len() {
                    let r = slot_marked(st.devs[d].slots[b], p, ptr_type(v, p), v.blocks());
                    Marking {
                        devs: with_slot(st.devs, d, b, r.0),
                        stale: st.stale || r.1,
                        fault: r.2,
                    }
                } else {
                    st
                }
            },
        }
    }
}

/// The marking after some pointers of an entry.
pub open spec fn ptrs_marked(st: Marking, v: ValueView, ptrs: Seq<ExtentPtr>) -> Marking
    decreases ptrs.len(),
{
    if ptrs.len() == 0 {
        st
    } else {
        ptr_marked(ptrs_marked(st, v, ptrs.drop_last()), v, ptrs.last())
    }
}

/// The marking after some entries; tombstones refer to nothing.
pub open spec fn entries_marked(st: Marking, s: Seq<EntryView>) -> Marking
    decreases s.len(),
{
    if s.len() == 0 {
        st
    } else {
        let before = entries_marked(st, s.drop_last());
        if s.last().key_type == KeyType::Deleted {
            before
        } else {
            ptrs_marked(before, s.last().value, s.last().value.ptrs())
        }
    }
}

/// Marking as it begins.
pub open spec fn unmarked(devs: Seq<DevView>) -> Marking {
    Marking { devs, stale: false, fault: None }
}

/// Notes a reference to a bucket.
fn mark_slot(slot: &mut BucketSlot, p: &ExtentPtr, t: BchDataType, blocks: u32) -> (r: (
    bool,
    Option<StorageError>,
))
    ensures
        (*final(slot), r.0, r.1) == slot_marked(*old(slot), *p, t, blocks),
{
    let current: BchDataType = data_type_or_free(slot.gc.data_type);
    match bucket_ref_update_checks(slot.gen, p.gen, p.cached, t, current) {
        RefCheck::Bad => {
            return (false, Some(StorageError::InvalidData));
        },
        RefCheck::StaleCached => {
            return (true, None);
        },
        RefCheck::Current => {},
    }
    slot.bucket.state = t;
    slot.gc.gen = slot.gen;
    slot.gc.gen_valid = true;
    slot.gc.data_type = t.to_raw();
    if blocks > 0 {
        let sectors: u64 = blocks as u64 * SECTORS_PER_BLOCK;
        let count: u32 = if p.cached {
            slot.gc.cached_sectors
        } else {
            slot.gc.dirty_sectors
        };
        let total: u64 = count as u64 + sectors;
        let over: bool = total > u32::MAX as u64;
        let new_count: u32 = if over {
            0
        } else {
            total as u32
        };
        if p.cached {
            slot.gc.cached_sectors = new_count;
        } else {
            slot.gc.dirty_sectors = new_count;
        }
        if over {
            return (false, Some(StorageError::InvalidData));
        }
        if slot.gc.dirty_sectors > 0 {
            slot.bucket.state = bucket_data_type(t);
        } else if slot.gc.cached_sectors > 0 {
            slot.bucket.state = BchDataType::Cached;
        }
        slot.gc.data_type = slot.bucket.state.to_raw();
    }
    (false, None)
}

/// Notes the references of an entry: the buckets that its pointers lead to are in use, with the
/// sectors of the entry. A stale copy is passed over, and the superblock then no longer says that
/// there are none. A reference that contradicts its bucket stops the marking.
pub fn bch2_gc_mark_key(vol: &mut BchVol, allocator: &mut BchAllocator, entry: &KeyEntry) -> (r:
    Result<(), StorageError>)
    requires
        old(allocator).wf(),
    ensures
        ({
            let st = ptrs_marked(unmarked(old(allocator)@), entry@.value, entry@.value.ptrs());
            &&& final(allocator)@ == st.devs
            &&& r == match st.fault {
                Some(e) => Err::<(), StorageError>(e),
                None => Ok::<(), StorageError>(()),
            }
            &&& *final(vol) == (BchVol {
                no_stale_ptrs: old(vol).no_stale_ptrs && !st.stale,
                ..*old(vol)
            })
        }),
        final(allocator).wf(),
{
    let ghost v = entry@.value;
    let ghost st0 = unmarked(allocator@);
    let blocks: u32 = entry.value.extent_blocks();
    let is_node: bool = match &entry.value {
        KeyValue::BtreePtr(_) => true,
        _ => false,
    };
    let ptrs: Vec<ExtentPtr> = entry.value.for_each_ptr();
    let mut stale: bool = false;
    let mut i: usize = 0;
    assert(ptrs@.take(0) =~= Seq::<ExtentPtr>::empty());
    while i < ptrs.len()
        invariant
            i <= ptrs.len(),
            v == entry@.value,
            ptrs@ == v.ptrs(),
            blocks == v.blocks(),
            is_node == v is BtreePtr,
            allocator.wf(),
            st0 == unmarked(old(allocator)@),
            *vol == *old(vol),
            ptrs_marked(st0, v, ptrs@.take(i as int)) == (Marking {
                devs: allocator@,
                stale,
                fault: None,
            }),
        decreases ptrs.len() - i,
    {
        let p: ExtentPtr = ptrs[i];
        let ghost st = Marking { devs: allocator@, stale, fault: None };
        let ghost next = ptr_marked(st, v, p);
        proof {
            let t = ptrs@.take(i + 1);
            assert(t.drop_last() =~= ptrs@.take(i as int));
            assert(t.last() == p);
        }
        i += 1;
        if p.offset == 0 || p.offset > ADDR48_MAX {
            continue;
        }
        let d: usize = match allocator.device(p.dev) {
            None => {
                proof {
                    lemma_stays_faulty(next, v, ptrs@.take(i as int), ptrs@, st0);
                }
                if stale {
                    vol.no_stale_ptrs = false;
                }
                return Err(StorageError::NotFound);
            },
            Some(d) => d,
        };
        assert(allocator@[d as int] == allocator.devs@[d as int]@);
        let b: u64 = sector_to_bucket(allocator.devs[d].bucket_size, p.offset * SECTORS_PER_BLOCK);
        if b >= allocator.devs[d].slots.len() as u64 {
            continue;
        }
        let t: BchDataType = if is_node {
            BchDataType::Btree
        } else if p.cached {
            BchDataType::Cached
        } else {
            BchDataType::User
        };
        let mut slot: BucketSlot = allocator.devs[d].slots[b as usize];
        let (was_stale, fault): (bool, Option<StorageError>) = mark_slot(&mut slot, &p, t, blocks);
        allocator.put_slot(d, b as usize, slot);
        stale = stale || was_stale;
        if let Some(e) = fault {
            proof {
                lemma_stays_faulty(next, v, ptrs@.take(i as int), ptrs@, st0);
            }
            if stale {
                vol.no_stale_ptrs = false;
            }
            return Err(e);
        }
    }
    assert(ptrs@.take(i as int) =~= ptrs@);
    if stale {
        vol.no_stale_ptrs = false;
    }
    Ok(())
}

/// A marking that was stopped does not go on.
proof fn lemma_stays_faulty(
    st: Marking,
    v: ValueView,
    head: Seq<ExtentPtr>,
    all: Seq<ExtentPtr>,
    st0: Marking,
)
    requires
        head.is_prefix_of(all),
        ptrs_marked(st0, v, head) == st,
        st.fault is Some,
    ensures
        ptrs_marked(st0, v, all) == st,
    decreases all.len(),
{
    if head.len() == all.len() {
        assert(head =~= all);
    } else {
        assert(head.is_prefix_of(all.drop_last()));
        lemma_stays_faulty(st, v, head, all.drop_last(), st0);
    }
}

/// The entries of the leaves of the first `n` trees, from left to right.
pub open spec fn walk_of(vol: BchVol, n: nat) -> Seq<EntryView>
    decreases n,
{
    if n == 0 {
        Seq::empty()
    } else {
        let t = vol.btrees@[n - 1];
        walk_of(vol, (n - 1) as nat) + walk(t.cache@, t.root.node, t.root.node.level as nat)
    }
}

/// Marking entry by entry is marking piece by piece.
proof fn lemma_entries_cat(st: Marking, a: Seq<EntryView>, b: Seq<EntryView>)
    ensures
        entries_marked(st, a + b) == entries_marked(entries_marked(st, a), b),
    decreases b.len(),
{
    if b.len() == 0 {
        assert(a + b =~= a);
    } else {
        lemma_entries_cat(st, a, b.drop_last());
        let c = a + b;
        assert(c.drop_last() =~= a + b.drop_last());
        assert(c.last() == b.last());
    }
}

proof fn lemma_ptrs_faulty(st: Marking, v: ValueView, ptrs: Seq<ExtentPtr>)
    requires
        st.fault is Some,
    ensures
        ptrs_marked(st, v, ptrs) == st,
    decreases ptrs.len(),
{
    if ptrs.len() > 0 {
        lemma_ptrs_faulty(st, v, ptrs.drop_last());
    }
}

proof fn lemma_entries_faulty(st: Marking, s: Seq<EntryView>)
    requires
        st.fault is Some,
    ensures
        entries_marked(st, s) == st,
    decreases s.len(),
{
    if s.len() > 0 {
        lemma_entries_faulty(st, s.drop_last());
        lemma_ptrs_faulty(st, s.last().value, s.last().value.ptrs());
    }
}

/// That a stale copy was met before does not matter to the rest of the marking.
proof fn lemma_ptrs_stale(devs: Seq<DevView>, stale: bool, v: ValueView, ptrs: Seq<ExtentPtr>)
    ensures
        ({
            let a = ptrs_marked(unmarked(devs), v, ptrs);
            let b = ptrs_marked(Marking { devs, stale, fault: None }, v, ptrs);
            b == (Marking { stale: stale || a.stale, ..a })
        }),
    decreases ptrs.len(),
{
    if ptrs.len() > 0 {
        lemma_ptrs_stale(devs, stale, v, ptrs.drop_last());
    }
}

/// Marks what a list of entries refers to.
fn mark_entries(vol: &mut BchVol, allocator: &mut BchAllocator, entries: &Vec<KeyEntry>) -> (r:
    Result<(), StorageError>)
    requires
        old(allocator).wf(),
    ensures
        ({
            let st = entries_marked(unmarked(old(allocator)@), keys(entries@));
            &&& final(allocator)@ == st.devs
            &&& r == match st.fault {
                Some(e) => Err::<(), StorageError>(e),
                None => Ok::<(), StorageError>(()),
            }
            &&& *final(vol) == (BchVol {
                no_stale_ptrs: old(vol).no_stale_ptrs && !st.stale,
                ..*old(vol)
            })
        }),
        final(allocator).wf(),
{
    let ghost s = keys(entries@);
    let ghost st0 = unmarked(allocator@);
    let ghost mut stale = false;
    let mut i: usize = 0;
    assert(s.take(0) =~= Seq::<EntryView>::empty());
    while i < entries.len()
        invariant
            i <= entries.len(),
            s == keys(entries@),
            allocator.wf(),
            st0 == unmarked(old(allocator)@),
            entries_marked(st0, s.take(i as int)) == (Marking {
                devs: allocator@,
                stale,
                fault: None,
            }),
            *vol == (BchVol {
                no_stale_ptrs: old(vol).no_stale_ptrs && !stale,
                ..*old(vol)
            }),
        decreases entries.len() - i,
    {
        let ghost e = s[i as int];
        let ghost devs = allocator@;
        proof {
            let t = s.take(i + 1);
            assert(t.drop_last() =~= s.take(i as int));
            assert(t.last() == e);
            assert(s =~= t + s.skip(i + 1));
            lemma_ptrs_stale(devs, stale, e.value, e.value.ptrs());
        }
        if entries[i].key_type != KeyType::Deleted {
            let ghost one = ptrs_marked(unmarked(devs), e.value, e.value.ptrs());
            let res: Result<(), StorageError> = bch2_gc_mark_key(vol, allocator, &entries[i]);
            proof {
                stale = stale || one.stale;
            }
            if let Err(x) = res {
                proof {
                    let st = entries_marked(st0, s.take(i + 1));
                    lemma_entries_cat(st0, s.take(i + 1), s.skip(i + 1));
                    lemma_entries_faulty(st, s.skip(i + 1));
                }
                return Err(x);
            }
        }
        i += 1;
    }
    assert(s.take(i as int) =~= s);
    Ok(())
}

/// That a stale copy was met before does not matter to the rest of the marking.
proof fn lemma_entries_stale(devs: Seq<DevView>, stale: bool, s: Seq<EntryView>)
    ensures
        ({
            let a = entries_marked(unmarked(devs), s);
            let b = entries_marked(Marking { devs, stale, fault: None }, s);
            b == (Marking { stale: stale || a.stale, ..a })
        }),
    decreases s.len(),
{
    if s.len() > 0 {
        lemma_entries_stale(devs, stale, s.drop_last());
        let a = entries_marked(unmarked(devs), s.drop_last());
        let v = s.last().value;
        if a.fault is Some {
            lemma_ptrs_faulty(a, v, v.ptrs());
            lemma_ptrs_faulty(Marking { stale: stale || a.stale, ..a }, v, v.ptrs());
        } else {
            lemma_ptrs_stale(a.devs, a.stale, v, v.ptrs());
            lemma_ptrs_stale(a.devs, stale || a.stale, v, v.ptrs());
        }
    }
}

/// Checks that all trees hang together, and marks what their entries refer to, tree by tree, up to
/// the first reference that contradicts its bucket.
pub fn bch2_gc_btrees(vol: &mut BchVol, allocator: &mut BchAllocator) -> (r: Result<
    (),
    StorageError,
>)
    requires
        old(vol).btrees@.len() == NR_BTREE_IDS,
        old(allocator).wf(),
    ensures
        final(allocator).wf(),
        !old(vol).topology_ok() ==> {
            &&& r == Err::<(), StorageError>(StorageError::Transaction)
            &&& *final(vol) == *old(vol)
            &&& final(allocator)@ == old(allocator)@
        },
        old(vol).topology_ok() ==> {
            let st = entries_marked(
                unmarked(old(allocator)@),
                walk_of(*old(vol), NR_BTREE_IDS as nat),
            );
            &&& final(allocator)@ == st.devs
            &&& r == match st.fault {
                Some(e) => Err::<(), StorageError>(e),
                None => Ok::<(), StorageError>(()),
            }
            &&& *final(vol) == (BchVol {
                no_stale_ptrs: old(vol).no_stale_ptrs && !st.stale,
                ..*old(vol)
            })
        },
{
    match bch2_check_topology(vol) {
        Err(e) => {
            return Err(e);
        },
        Ok(_) => {},
    }
    let ghost st0 = unmarked(allocator@);
    let ghost v0 = *vol;
    let ghost total = walk_of(v0, NR_BTREE_IDS as nat);
    let ghost mut stale = false;
    let mut k: u8 = 0;
    while k < NR_BTREE_IDS
        invariant
            k <= NR_BTREE_IDS,
            v0 == *old(vol),
            v0.btrees@.len() == NR_BTREE_IDS,
            v0.topology_ok(),
            allocator.wf(),
            st0 == unmarked(old(allocator)@),
            total == walk_of(v0, NR_BTREE_IDS as nat),
            entries_marked(st0, walk_of(v0, k as nat)) == (Marking {
                devs: allocator@,
                stale,
                fault: None,
            }),
            *vol == (BchVol { no_stale_ptrs: v0.no_stale_ptrs && !stale, ..v0 }),
        decreases NR_BTREE_IDS - k,
    {
        let ghost t = v0.btrees@[k as int];
        let ghost w = walk(t.cache@, t.root.node, t.root.node.level as nat);
        let ghost head = walk_of(v0, k as nat);
        let ghost devs = allocator@;
        assert(t.topology_ok());
        let entries: Vec<KeyEntry> = match vol.btrees[k as usize].checked_entries() {
            Err(e) => {
                return Err(e);
            },
            Ok(v) => v,
        };
        proof {
            lemma_walk_prefix(v0, (k + 1) as nat, NR_BTREE_IDS as nat);
            assert(walk_of(v0, (k + 1) as nat) == head + w);
            lemma_entries_cat(st0, head, w);
            lemma_entries_stale(devs, stale, w);
        }
        let ghost one = entries_marked(unmarked(devs), w);
        let res: Result<(), StorageError> = mark_entries(vol, allocator, &entries);
        proof {
            stale = stale || one.stale;
        }
        if let Err(x) = res {
            proof {
                let done = head + w;
                let rest = total.skip(done.len() as int);
                assert(total =~= done + rest);
                lemma_entries_cat(st0, done, rest);
                lemma_entries_faulty(entries_marked(st0, done), rest);
            }
            return Err(x);
        }
        k += 1;
    }
    Ok(())
}

proof fn lemma_walk_prefix(vol: BchVol, a: nat, b: nat)
    requires
        a <= b,
    ensures
        walk_of(vol, a).is_prefix_of(walk_of(vol, b)),
    decreases b,
{
    if a < b {
        lemma_walk_prefix(vol, a, (b - 1) as nat);
        let p = walk_of(vol, a);
        let q = walk_of(vol, (b - 1) as nat);
        let r = walk_of(vol, b);
        assert(r.subrange(0, q.len() as int) =~= q);
        assert(p =~= r.subrange(0, p.len() as int)) by {
            assert(p =~= q.subrange(0, p.len() as int));
        }
    }
}

/// What is marked is what the trees hold: an entry of the nodes of any tree is among those whose
/// references are noted.
#[verifier::spinoff_prover]
#[verifier::rlimit(40)]
pub proof fn law_marking_covers_trees(vol: BchVol, ty: BtreeId, pos: Bpos)
    requires
        vol.wf(),
        vol.tree(ty).tree_get(pos.ord()) is Some,
    ensures
        walk_of(vol, NR_BTREE_IDS as nat).contains(vol.tree(ty).tree_get(pos.ord())->0),
{
    let t = vol.tree(ty);
    let i = ty.num() as int;
    let c = t.contents();
    let w = walk_of(vol, (i + 1) as nat);
    let all = walk_of(vol, NR_BTREE_IDS as nat);
    assert(t == vol.btrees@[i]);
    law_walk_is_contents(t);
    t.lemma_contents();
    lemma_ord(pos, pos);
    let j = lemma_find_some(c, pos.ord());
    let head = walk_of(vol, i as nat);
    assert(w == head + c);
    lemma_walk_prefix(vol, (i + 1) as nat, NR_BTREE_IDS as nat);
    assert(w[head.len() + j] == c[j]);
    assert(all[head.len() + j] == w[head.len() + j]);
}

/// A pointer is to a sector of bucket `b` of a device. Pointers count blocks of 8 sectors; zero, and
/// what does not fit in 48 bits, leads nowhere.
pub open spec fn lies_in(p: ExtentPtr, dev: DevView, b: int) -> bool {
    &&& p.dev == dev.dev_idx
    &&& 1 <= p.offset < 0x1_0000_0000_0000
    &&& b * dev.bucket_size <= 8 * p.offset < (b + 1) * dev.bucket_size
}

/// A bucket is referred to where a pointer of an entry is to one of its sectors.
pub proof fn law_referenced_buckets(c: Seq<EntryView>, dev: DevView, b: int)
    requires
        dev.bucket_size > 0,
    ensures
        referenced(c, dev, b) <==> exists|i: int, j: int|
            0 <= i < c.len() && 0 <= j < c[i].value.ptrs().len() && lies_in(
                #[trigger] c[i].value.ptrs()[j],
                dev,
                b,
            ),
{
    assert forall|i: int, j: int|
        0 <= i < c.len() && 0 <= j < c[i].value.ptrs().len() implies lies_in(
        #[trigger] c[i].value.ptrs()[j],
        dev,
        b,
    ) == hits(c[i].value.ptrs()[j], dev, b) by {
        let p = c[i].value.ptrs()[j];
        let n = dev.bucket_size as int;
        let x = 8 * p.offset;
        law_pointer_bucket(p, dev.bucket_size);
        let k = ptr_bucket(p, dev.bucket_size);
        assert(b * n <= x < (b + 1) * n ==> b == k) by (nonlinear_arith)
            requires
                k * n <= x < (k + 1) * n,
                n > 0,
        ;
    }
    if referenced(c, dev, b) {
        let i = choose|i: int| 0 <= i < c.len() && entry_hits(#[trigger] c[i], dev, b);
        let j = choose|j: int|
            0 <= j < c[i].value.ptrs().len() && hits(#[trigger] c[i].value.ptrs()[j], dev, b);
        assert(lies_in(c[i].value.ptrs()[j], dev, b));
    }
    if exists|i: int, j: int|
        0 <= i < c.len() && 0 <= j < c[i].value.ptrs().len() && lies_in(
            #[trigger] c[i].value.ptrs()[j],
            dev,
            b,
        ) {
        let (i, j) = choose|i: int, j: int|
            0 <= i < c.len() && 0 <= j < c[i].value.ptrs().len() && lies_in(
                #[trigger] c[i].value.ptrs()[j],
                dev,
                b,
            );
        assert(hits(c[i].value.ptrs()[j], dev, b));
        assert(entry_hits(c[i], dev, b));
    }
}

/// What the collector notes of a bucket that an extent refers to: its generation, which from then on
/// counts, and that it holds data. Its counts, its state and the bucket itself stay.
pub proof fn law_gen_mark(slot: BucketSlot)
    ensures
        gen_marked(slot).gc.gen == slot.gen,
        gen_marked(slot).gc.gen_valid,
        gen_marked(slot).gc.data_type == 4,
        gen_marked(slot).gc.dirty_sectors == slot.gc.dirty_sectors,
        gen_marked(slot).gc.cached_sectors == slot.gc.cached_sectors,
        gen_marked(slot).bucket == slot.bucket,
        gen_marked(slot).gen == slot.gen,
        gen_marked(gen_marked(slot)) == gen_marked(slot),
{
}

/// The pointers of a list of entries are marked one list after the other, and deleted entries mark
/// nothing.
pub proof fn law_lists_are_marked_in_turn(st: Marking, s: Seq<EntryView>, t: Seq<EntryView>)
    ensures
        entries_marked(st, s + t) == entries_marked(entries_marked(st, s), t),
        (forall|i: int| 0 <= i < s.len() ==> (#[trigger] s[i]).key_type == KeyType::Deleted)
            ==> entries_marked(st, s) == st,
        st.fault is Some ==> entries_marked(st, s) == st,
    decreases s.len() + t.len(),
{
    if t.len() == 0 {
        assert(s + t =~= s);
    } else {
        law_lists_are_marked_in_turn(st, s, t.drop_last());
        assert((s + t).drop_last() =~= s + t.drop_last());
        assert((s + t).last() == t.last());
    }
    if s.len() > 0 {
        let r = s.drop_last();
        law_lists_are_marked_in_turn(st, r, Seq::empty());
        if forall|i: int| 0 <= i < s.len() ==> (#[trigger] s[i]).key_type == KeyType::Deleted {
            assert forall|i: int| 0 <= i < r.len() implies (#[trigger] r[i]).key_type
                == KeyType::Deleted by {
                assert(r[i] == s[i]);
            }
            assert(s[s.len() - 1].key_type == KeyType::Deleted);
        }
        if st.fault is Some {
            lemma_fault_stays(st, s.last().value, s.last().value.ptrs());
        }
    }
}

proof fn lemma_fault_stays(st: Marking, v: ValueView, ptrs: Seq<ExtentPtr>)
    requires
        st.fault is Some,
    ensures
        ptrs_marked(st, v, ptrs) == st,
    decreases ptrs.len(),
{
    if ptrs.len() > 0 {
        lemma_fault_stays(st, v, ptrs.drop_last());
    }
}

proof fn lemma_contents_of(vol: BchVol, first: int, n: nat, i: int, e: EntryView)
    requires
        first <= i < first + n,
        vol.btrees@[i].contents().contains(e),
    ensures
        contents_of(vol, first, n).contains(e),
    decreases n,
{
    let m = (n - 1) as nat;
    let a = contents_of(vol, first, m);
    let b = vol.btrees@[first + m].contents();
    vstd::seq_lib::lemma_seq_concat_contains_all_elements(a, b, e);
    if i < first + m {
        lemma_contents_of(vol, first, m, i, e);
    }
}

/// The entries of every tree of the volume are looked at when buckets are checked for references.
pub proof fn law_all_trees_are_looked_at(vol: BchVol, ty: BtreeId, e: EntryView)
    requires
        vol.tree(ty).contents().contains(e),
    ensures
        contents_of(vol, 0, 28).contains(e),
{
    lemma_contents_of(vol, 0, 28, ty.num() as int, e);
}

} // verus!
