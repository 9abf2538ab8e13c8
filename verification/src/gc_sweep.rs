//! Sweeping: buckets that nothing refers to become free.

use crate::accounting::{bch2_alloc_key_to_dev_counters, counted_all, record_deltas};
use crate::btree_id::{BtreeId, NR_BTREE_IDS};
use crate::bucket::{
    alloc_bytes, alloc_from, derive_data_type, derived, dev_at, dev_index, devs_ok, law_alloc_entry_roundtrip,
    lemma_dev_index, ptr_bucket, ptr_counts, serialize_alloc_entry, BchAllocEntry, BchAllocator,
    BchDataType, BchDev, Bucket, BucketSlot, DevView, GcBucket, MAX_BUCKET_SIZE, SECTORS_PER_BLOCK,
};
use crate::entries::{keys, put, widths};
use crate::gc_alloc_info::{recorded, records_of};
use crate::gc_mark::{
    entries_marked, law_marking_covers_trees, ptr_marked, ptr_type, ptrs_marked, slot_marked,
    unmarked, walk_of, Marking,
};
use crate::key::{lemma_ord, Bpos, EntryView, ExtentPtr, KeyEntry, KeyType, ValueView};
use crate::shape::top;
use crate::tree::Btree;
use crate::volume::{BchVol, DevCounters};
use crate::writer::StorageError;
use std::collections::HashMap;
use vstd::prelude::*;

verus! {

broadcast use vstd::std_specs::hash::group_hash_axioms;

/// What a sweep did.
#[derive(Debug, PartialEq, Eq)]
pub struct ReclaimStats {
    /// How many buckets were reclaimed.
    pub reclaimed_count: u32,
    /// The buckets that were reclaimed.
    pub reclaimed_buckets: Vec<u64>,
    /// How many buckets were left as they are.
    pub skipped_state: u32,
}

impl Default for ReclaimStats {
    fn default() -> (r: ReclaimStats)
        ensures
            r.reclaimed_count == 0,
            r.reclaimed_buckets@ == Seq::<u64>::empty(),
            r.skipped_state == 0,
    {
        ReclaimStats { reclaimed_count: 0, reclaimed_buckets: Vec::new(), skipped_state: 0 }
    }
}

/// A bucket with metadata, which no sweep touches.
pub open spec fn guarded(s: BucketSlot) -> bool {
    s.bucket.state == BchDataType::Sb || s.bucket.state == BchDataType::Journal || s.bucket.state
        == BchDataType::Btree
}

/// What a bucket without references holds by its own counts.
pub open spec fn rederived(s: BucketSlot) -> BchDataType {
    derived(
        s.bucket.dirty_sectors,
        s.bucket.cached_sectors,
        s.bucket.stripe_sectors,
        0,
        s.gen,
        s.bucket.oldest_gen,
        s.bucket.state,
    )
}

/// A sweep leaves the bucket as it is.
pub open spec fn left_alone(s: BucketSlot) -> bool {
    guarded(s) || (!s.gc.gen_valid && rederived(s) == s.bucket.state)
}

/// A sweep reclaims the bucket: it held data, nothing refers to it, and it is now free or waits for
/// its generations to be collected.
pub open spec fn reclaims(s: BucketSlot) -> bool {
    &&& !left_alone(s)
    &&& !s.gc.gen_valid
    &&& s.bucket.state == BchDataType::User || s.bucket.state == BchDataType::NeedGcGens
    &&& rederived(s) == BchDataType::Free || rederived(s) == BchDataType::NeedGcGens
}

/// The bucket after a sweep: one with references has their counts, one without has the type that
/// its own counts give, and a free one has no place in the journal.
pub open spec fn swept_bucket(s: BucketSlot) -> Bucket {
    if left_alone(s) {
        s.bucket
    } else if s.gc.gen_valid {
        Bucket {
            dirty_sectors: s.gc.dirty_sectors,
            cached_sectors: s.gc.cached_sectors,
            ..s.bucket
        }
    } else if rederived(s) == BchDataType::Free {
        Bucket {
            state: BchDataType::Free,
            journal_seq_nonempty: 0,
            journal_seq_empty: 0,
            ..s.bucket
        }
    } else {
        Bucket { state: rederived(s), ..s.bucket }
    }
}

/// The same with nothing found of it.
pub open spec fn swept(s: BucketSlot) -> BucketSlot {
    BucketSlot { bucket: swept_bucket(s), gc: GcBucket::zero(), gen: s.gen }
}

/// The record of a bucket after a sweep; what a sweep does not know is kept.
pub open spec fn swept_record(s: BucketSlot, kept: Option<BchAllocEntry>) -> BchAllocEntry {
    let b = swept_bucket(s);
    let k = match kept {
        Some(e) => e,
        None => BchAllocEntry::zero(),
    };
    BchAllocEntry {
        journal_seq_nonempty: b.journal_seq_nonempty,
        flags: b.flags as u32,
        gen: s.gen,
        oldest_gen: b.oldest_gen,
        data_type: b.state.num(),
        stripe_redundancy_obsolete: k.stripe_redundancy_obsolete,
        dirty_sectors: b.dirty_sectors,
        cached_sectors: b.cached_sectors,
        io_time_read: k.io_time_read,
        io_time_write: k.io_time_write,
        stripe_refcount: k.stripe_refcount,
        nr_external_backpointers: k.nr_external_backpointers,
        journal_seq_empty: b.journal_seq_empty,
        stripe_sectors: b.stripe_sectors,
        pad: 0,
    }
}

/// A record that a sweep writes.
#[derive(Debug, Clone, Copy, PartialEq, Eq, Structural)]
pub struct Correction {
    pub dev: u8,
    pub bucket_size: u64,
    pub bucket: u64,
    pub before: BchAllocEntry,
    pub after: BchAllocEntry,
}

/// What a sweep comes to.
#[verifier::ext_equal]
pub struct Sweep {
    pub reclaimed: Seq<u64>,
    pub skipped: nat,
    pub corrections: Seq<Correction>,
}

/// A sweep of the first `n` buckets of a device.
pub open spec fn sweep_dev(a: Seq<EntryView>, d: DevView, n: nat) -> Sweep
    decreases n,
{
    if n == 0 {
        Sweep { reclaimed: Seq::empty(), skipped: 0, corrections: Seq::empty() }
    } else {
        let rest = sweep_dev(a, d, (n - 1) as nat);
        let s = d.slots[n - 1];
        let b = (n - 1) as u64;
        if left_alone(s) {
            Sweep { skipped: rest.skipped + 1, ..rest }
        } else {
            let kept = recorded(a, d.dev_idx, b);
            Sweep {
                reclaimed: if reclaims(s) {
                    rest.reclaimed.push(b)
                } else {
                    rest.reclaimed
                },
                skipped: rest.skipped,
                corrections: rest.corrections.push(
                    Correction {
                        dev: d.dev_idx,
                        bucket_size: d.bucket_size,
                        bucket: b,
                        before: match kept {
                            Some(e) => e,
                            None => BchAllocEntry::zero(),
                        },
                        after: swept_record(s, kept),
                    },
                ),
            }
        }
    }
}

/// A sweep of the first `k` devices.
pub open spec fn sweep_devs(a: Seq<EntryView>, devs: Seq<DevView>, k: nat) -> Sweep
    decreases k,
{
    if k == 0 {
        Sweep { reclaimed: Seq::empty(), skipped: 0, corrections: Seq::empty() }
    } else {
        let x = sweep_devs(a, devs, (k - 1) as nat);
        let y = sweep_dev(a, devs[k - 1], devs[k - 1].slots.len());
        Sweep {
            reclaimed: x.reclaimed + y.reclaimed,
            skipped: x.skipped + y.skipped,
            corrections: x.corrections + y.corrections,
        }
    }
}

/// The buckets of the first `k` devices, in number.
pub open spec fn nr_buckets(devs: Seq<DevView>, k: nat) -> nat
    decreases k,
{
    if k == 0 {
        0
    } else {
        nr_buckets(devs, (k - 1) as nat) + devs[k - 1].slots.len()
    }
}

/// References were collected: some bucket has one.
pub open spec fn gc_ready(devs: Seq<DevView>) -> bool {
    exists|d: int, b: int|
        0 <= d < devs.len() && 0 <= b < devs[d].slots.len()
            && #[trigger] devs[d].slots[b].gc.gen_valid
}

/// The entry that holds a record.
pub open spec fn record_entry(c: Correction) -> EntryView {
    EntryView {
        pos: Bpos { inode: c.dev as u64, offset: c.bucket, snapshot: 0 },
        key_type: KeyType::Normal,
        value: ValueView::Raw(alloc_bytes(c.after)),
    }
}

/// The counters after some corrections.
pub open spec fn corrected_counters(c: Seq<DevCounters>, cs: Seq<Correction>) -> Seq<DevCounters>
    decreases cs.len(),
{
    if cs.len() == 0 {
        c
    } else {
        let x = cs.last();
        counted_all(
            corrected_counters(c, cs.drop_last()),
            x.dev,
            record_deltas(x.before, x.after, x.bucket_size),
        )
    }
}

/// The tree of records has room for `n` more of them.
pub open spec fn room_for_records(t: Btree, n: int) -> bool {
    &&& t.root.depth == 0
    &&& !t.root.node.flags.write_blocked
    &&& t.root.node.live_u64s + 11 * n <= t.root.node.cap()
}

/// Corrections of different buckets.
pub open spec fn distinct_buckets(cs: Seq<Correction>) -> bool {
    forall|i: int, j: int|
        0 <= i < j < cs.len() ==> (#[trigger] cs[i]).dev != (#[trigger] cs[j]).dev || cs[i].bucket
            != cs[j].bucket
}

/// The keys of a leaf with `cap` words once records were put in one after the other: each one that
/// there is room for when its turn comes.
pub open spec fn recorded_keys(s: Seq<EntryView>, cap: int, cs: Seq<Correction>) -> Seq<EntryView>
    decreases cs.len(),
{
    if cs.len() == 0 {
        s
    } else {
        let t = recorded_keys(s, cap, cs.drop_last());
        if widths(t) + 11 <= cap {
            put(t, record_entry(cs.last()))
        } else {
            t
        }
    }
}

/// The records of `n` corrections are in the tree, as far as it had room, and nothing else has
/// changed.
pub open spec fn records_in(t: Btree, o: Btree, cs: Seq<Correction>) -> bool {
    &&& t.root.node.keys() == if o.root.depth == 0 && !o.root.node.flags.write_blocked {
        recorded_keys(o.root.node.keys(), o.root.node.cap(), cs)
    } else {
        o.root.node.keys()
    }
    &&& forall|x: int|
        0 <= x < top() ==> #[trigger] t.tree_get(x) == o.tree_get(x) || exists|i: int|
            0 <= i < cs.len() && x == record_entry(#[trigger] cs[i]).pos.ord() && t.tree_get(x)
                == Some(record_entry(cs[i]))
    &&& room_for_records(o, cs.len() as int) ==> forall|i: int|
        0 <= i < cs.len() ==> t.tree_get(record_entry(#[trigger] cs[i]).pos.ord()) == Some(
            record_entry(cs[i]),
        )
}

/// Sweeps one bucket; says whether it was left alone and whether it was reclaimed.
fn sweep_slot(slot: &mut BucketSlot) -> (r: (bool, bool))
    ensures
        final(slot).bucket == swept_bucket(*old(slot)),
        final(slot).gen == old(slot).gen,
        final(slot).gc == old(slot).gc,
        r.0 == left_alone(*old(slot)),
        r.1 == reclaims(*old(slot)),
{
    let state: BchDataType = slot.bucket.state;
    if state == BchDataType::Sb || state == BchDataType::Journal || state == BchDataType::Btree {
        return (true, false);
    }
    if slot.gc.gen_valid {
        slot.bucket.dirty_sectors = slot.gc.dirty_sectors;
        slot.bucket.cached_sectors = slot.gc.cached_sectors;
        return (false, false);
    }
    let new_state: BchDataType = derive_data_type(
        slot.bucket.dirty_sectors,
        slot.bucket.cached_sectors,
        slot.bucket.stripe_sectors,
        0,
        slot.gen,
        slot.bucket.oldest_gen,
        state,
    );
    if new_state == state {
        return (true, false);
    }
    slot.bucket.state = new_state;
    if new_state == BchDataType::Free {
        slot.bucket.journal_seq_nonempty = 0;
        slot.bucket.journal_seq_empty = 0;
    }
    let held: bool = state == BchDataType::User || state == BchDataType::NeedGcGens;
    let freed: bool = new_state == BchDataType::Free || new_state == BchDataType::NeedGcGens;
    (false, held && freed)
}

fn corrected_record(b: &Bucket, gen: u8, kept: &BchAllocEntry) -> (r: BchAllocEntry)
    ensures
        forall|s: BucketSlot, k: Option<BchAllocEntry>| #[trigger]
            swept_record(s, k) == r || !(swept_bucket(s) == *b && s.gen == gen && *kept == match k {
                Some(e) => e,
                None => BchAllocEntry::zero(),
            }),
{
    BchAllocEntry {
        journal_seq_nonempty: b.journal_seq_nonempty,
        flags: b.flags as u32,
        gen,
        oldest_gen: b.oldest_gen,
        data_type: b.state.to_raw(),
        stripe_redundancy_obsolete: kept.stripe_redundancy_obsolete,
        dirty_sectors: b.dirty_sectors,
        cached_sectors: b.cached_sectors,
        io_time_read: kept.io_time_read,
        io_time_write: kept.io_time_write,
        stripe_refcount: kept.stripe_refcount,
        nr_external_backpointers: kept.nr_external_backpointers,
        journal_seq_empty: b.journal_seq_empty,
        stripe_sectors: b.stripe_sectors,
        pad: 0,
    }
}

/// Whether references were collected.
fn refs_collected(allocator: &BchAllocator) -> (r: bool)
    ensures
        r == gc_ready(allocator@),
{
    let ghost devs = allocator@;
    let mut d: usize = 0;
    while d < allocator.devs.len()
        invariant
            devs == allocator@,
            d <= allocator.devs.len(),
            forall|i: int, b: int|
                0 <= i < d && 0 <= b < devs[i].slots.len()
                    ==> !(#[trigger] devs[i].slots[b].gc.gen_valid),
        decreases allocator.devs.len() - d,
    {
        let dev: &BchDev = &allocator.devs[d];
        assert(devs[d as int] == dev@);
        let mut b: usize = 0;
        while b < dev.slots.len()
            invariant
                d < devs.len(),
                devs[d as int] == dev@,
                devs == allocator@,
                b <= dev.slots.len(),
                forall|x: int|
                    0 <= x < b ==> !(#[trigger] devs[d as int].slots[x].gc.gen_valid),
            decreases dev.slots.len() - b,
        {
            if dev.slots[b].gc.gen_valid {
                assert(devs[d as int].slots[b as int].gc.gen_valid);
                return true;
            }
            b += 1;
        }
        d += 1;
    }
    false
}

/// A sweep has no more to say of a device than it has buckets.
proof fn lemma_sweep_size(a: Seq<EntryView>, d: DevView, n: nat)
    ensures
        sweep_dev(a, d, n).reclaimed.len() + sweep_dev(a, d, n).skipped <= n,
        sweep_dev(a, d, n).corrections.len() <= n,
    decreases n,
{
    if n > 0 {
        lemma_sweep_size(a, d, (n - 1) as nat);
    }
}

proof fn lemma_sweeps_size(a: Seq<EntryView>, devs: Seq<DevView>, k: nat)
    ensures
        sweep_devs(a, devs, k).reclaimed.len() + sweep_devs(a, devs, k).skipped <= nr_buckets(
            devs,
            k,
        ),
    decreases k,
{
    if k > 0 {
        lemma_sweeps_size(a, devs, (k - 1) as nat);
        lemma_sweep_size(a, devs[k - 1], devs[k - 1].slots.len());
    }
}

proof fn lemma_more_buckets(devs: Seq<DevView>, a: nat, b: nat)
    requires
        a <= b,
    ensures
        nr_buckets(devs, a) <= nr_buckets(devs, b),
    decreases b,
{
    if a < b {
        lemma_more_buckets(devs, a, (b - 1) as nat);
    }
}

/// Sweeps the buckets of a device and adds what comes of it.
fn sweep_device(
    allocator: &mut BchAllocator,
    d: usize,
    records: &HashMap<u64, BchAllocEntry>,
    stats: &mut ReclaimStats,
    corrections: &mut Vec<Correction>,
    Ghost(a): Ghost<Seq<EntryView>>,
)
    requires
        old(allocator).wf(),
        d < old(allocator)@.len(),
        old(allocator)@[d as int].slots.len() + old(stats).reclaimed_count + old(
            stats,
        ).skipped_state <= u32::MAX,
        old(stats).reclaimed_count == old(stats).reclaimed_buckets@.len(),
        forall|b: u64| #[trigger]
            records@.contains_key(b) <==> recorded(
                a,
                old(allocator)@[d as int].dev_idx,
                b,
            ) is Some,
        forall|b: u64|
            records@.contains_key(b) ==> #[trigger] records@[b] == recorded(
                a,
                old(allocator)@[d as int].dev_idx,
                b,
            )->0,
    ensures
        final(allocator).wf(),
        ({
            let o = old(allocator)@[d as int];
            let x = sweep_dev(a, o, o.slots.len());
            &&& final(allocator)@ == old(allocator)@.update(
                d as int,
                DevView { slots: o.slots.map_values(|s: BucketSlot| swept(s)), ..o },
            )
            &&& final(stats).reclaimed_buckets@ == old(stats).reclaimed_buckets@ + x.reclaimed
            &&& final(stats).reclaimed_count == final(stats).reclaimed_buckets@.len()
            &&& final(stats).skipped_state == old(stats).skipped_state + x.skipped
            &&& final(corrections)@ == old(corrections)@ + x.corrections
        }),
{
    let ghost devs = allocator@;
    let ghost o = devs[d as int];
    let ghost st0 = *stats;
    let ghost c0 = corrections@;
    assert(allocator.devs@[d as int]@ == o);
    let n: usize = allocator.devs[d].slots.len();
    let dev: u8 = allocator.devs[d].dev_idx;
    let bucket_size: u64 = allocator.devs[d].bucket_size;
    let mut b: usize = 0;
    assert(c0 + sweep_dev(a, o, 0).corrections =~= c0);
    assert(st0.reclaimed_buckets@ + sweep_dev(a, o, 0).reclaimed =~= st0.reclaimed_buckets@);
    while b < n
        invariant
            allocator.wf(),
            b <= n,
            n == o.slots.len(),
            devs == old(allocator)@,
            st0 == *old(stats),
            c0 == old(corrections)@,
            d < devs.len(),
            o == devs[d as int],
            dev == o.dev_idx,
            bucket_size == o.bucket_size,
            n + st0.reclaimed_count + st0.skipped_state <= u32::MAX,
            forall|b: u64| #[trigger]
                records@.contains_key(b) <==> recorded(a, dev, b) is Some,
            forall|b: u64|
                records@.contains_key(b) ==> #[trigger] records@[b] == recorded(a, dev, b)->0,
            allocator@.len() == devs.len(),
            allocator@ == devs.update(d as int, allocator@[d as int]),
            allocator@[d as int].dev_idx == o.dev_idx,
            allocator@[d as int].bucket_size == o.bucket_size,
            allocator@[d as int].slots.len() == n,
            forall|x: int|
                0 <= x < n ==> #[trigger] allocator@[d as int].slots[x] == if x < b {
                    swept(o.slots[x])
                } else {
                    o.slots[x]
                },
            st0.reclaimed_count == st0.reclaimed_buckets@.len(),
            stats.reclaimed_buckets@ == st0.reclaimed_buckets@ + sweep_dev(
                a,
                o,
                b as nat,
            ).reclaimed,
            stats.reclaimed_count == stats.reclaimed_buckets@.len(),
            stats.skipped_state == st0.skipped_state + sweep_dev(a, o, b as nat).skipped,
            corrections@ == c0 + sweep_dev(a, o, b as nat).corrections,
        decreases n - b,
    {
        assert(allocator.devs@[d as int]@ == allocator@[d as int]);
        let mut slot: BucketSlot = allocator.devs[d].slots[b];
        let ghost s0 = slot;
        let ghost x0 = sweep_dev(a, o, b as nat);
        let ghost x1 = sweep_dev(a, o, (b + 1) as nat);
        proof {
            assert(s0 == o.slots[b as int]);
            lemma_sweep_size(a, o, (b + 1) as nat);
        }
        let (skipped, reclaimed): (bool, bool) = sweep_slot(&mut slot);
        if skipped {
            stats.skipped_state = stats.skipped_state + 1;
        } else {
            let kept: BchAllocEntry = match records.get(&(b as u64)) {
                Some(e) => *e,
                None => BchAllocEntry::zero(),
            };
            let after: BchAllocEntry = corrected_record(&slot.bucket, slot.gen, &kept);
            if reclaimed {
                stats.reclaimed_count = stats.reclaimed_count + 1;
                stats.reclaimed_buckets.push(b as u64);
            }
            proof {
                assert(swept_record(s0, recorded(a, dev, b as u64)) == after);
            }
            corrections.push(
                Correction { dev, bucket_size, bucket: b as u64, before: kept, after },
            );
            assert(corrections@ =~= c0 + x1.corrections);
        }
        assert(stats.reclaimed_buckets@ =~= st0.reclaimed_buckets@ + x1.reclaimed);
        slot.gc = GcBucket::zero();
        allocator.put_slot(d, b, slot);
        b += 1;
    }
    assert(allocator@[d as int].slots =~= o.slots.map_values(|s: BucketSlot| swept(s)));
    assert(allocator@ =~= devs.update(
        d as int,
        DevView { slots: o.slots.map_values(|s: BucketSlot| swept(s)), ..o },
    ));
}

/// Corrections of a device are of its buckets, in order.
proof fn lemma_corrections(a: Seq<EntryView>, d: DevView, n: nat)
    requires
        n <= u64::MAX,
    ensures
        forall|i: int|
            0 <= i < sweep_dev(a, d, n).corrections.len() ==> {
                let c = #[trigger] sweep_dev(a, d, n).corrections[i];
                c.dev == d.dev_idx && c.bucket < n && c.bucket_size == d.bucket_size
            },
        distinct_buckets(sweep_dev(a, d, n).corrections),
    decreases n,
{
    if n > 0 {
        lemma_corrections(a, d, (n - 1) as nat);
        let x = sweep_dev(a, d, (n - 1) as nat).corrections;
        let y = sweep_dev(a, d, n).corrections;
        assert(forall|i: int| 0 <= i < x.len() ==> #[trigger] y[i] == x[i]);
    }
}

proof fn lemma_all_corrections(a: Seq<EntryView>, devs: Seq<DevView>, k: nat)
    requires
        k <= devs.len(),
        crate::bucket::devs_ok(devs),
        forall|i: int| 0 <= i < devs.len() ==> (#[trigger] devs[i]).slots.len() <= u32::MAX,
    ensures
        distinct_buckets(sweep_devs(a, devs, k).corrections),
        forall|i: int|
            0 <= i < sweep_devs(a, devs, k).corrections.len() ==> {
                let c = #[trigger] sweep_devs(a, devs, k).corrections[i];
                &&& c.bucket_size <= MAX_BUCKET_SIZE
                &&& exists|j: int| 0 <= j < k && c.dev == (#[trigger] devs[j]).dev_idx
            },
    decreases k,
{
    if k > 0 {
        lemma_all_corrections(a, devs, (k - 1) as nat);
        lemma_corrections(a, devs[k - 1], devs[k - 1].slots.len());
        let x = sweep_devs(a, devs, (k - 1) as nat).corrections;
        let y = sweep_dev(a, devs[k - 1], devs[k - 1].slots.len()).corrections;
        let z = sweep_devs(a, devs, k).corrections;
        assert(z == x + y);
        assert forall|i: int| 0 <= i < z.len() implies {
            let c = #[trigger] z[i];
            &&& c.bucket_size <= MAX_BUCKET_SIZE
            &&& exists|j: int| 0 <= j < k && c.dev == (#[trigger] devs[j]).dev_idx
        } by {
            if i < x.len() {
                assert(z[i] == x[i]);
                let j = choose|j: int| 0 <= j < k - 1 && x[i].dev == (#[trigger] devs[j]).dev_idx;
                assert(0 <= j < k);
            } else {
                assert(z[i] == y[i - x.len()]);
                assert(z[i].dev == devs[k - 1].dev_idx);
            }
        }
        assert forall|i: int, j: int| 0 <= i < j < z.len() implies (#[trigger] z[i]).dev != (
        #[trigger] z[j]).dev || z[i].bucket != z[j].bucket by {
            if j < x.len() {
                assert(z[i] == x[i] && z[j] == x[j]);
            } else if i >= x.len() {
                assert(z[i] == y[i - x.len()] && z[j] == y[j - x.len()]);
            } else {
                assert(z[i] == x[i] && z[j] == y[j - x.len()]);
                let p = choose|p: int| 0 <= p < k - 1 && x[i].dev == (#[trigger] devs[p]).dev_idx;
                assert(devs[p].dev_idx != devs[k - 1].dev_idx);
            }
        }
    }
}

/// One more record in the tree.
proof fn lemma_one_more_record(
    o: Btree,
    t: Btree,
    t2: Btree,
    cs: Seq<Correction>,
    c: Correction,
    done: bool,
)
    requires
        records_in(t, o, cs),
        distinct_buckets(cs.push(c)),
        done ==> forall|x: int|
            0 <= x < top() ==> #[trigger] t2.tree_get(x) == if x == record_entry(c).pos.ord() {
                Some(record_entry(c))
            } else {
                t.tree_get(x)
            },
        !done ==> forall|x: int| 0 <= x < top() ==> #[trigger] t2.tree_get(x) == t.tree_get(x),
        room_for_records(o, cs.len() as int + 1) ==> done,
        done == (o.root.depth == 0 && !o.root.node.flags.write_blocked && widths(
            t.root.node.keys(),
        ) + 11 <= o.root.node.cap()),
        t2.root.node.keys() == if done {
            put(t.root.node.keys(), record_entry(c))
        } else {
            t.root.node.keys()
        },
    ensures
        records_in(t2, o, cs.push(c)),
{
    let u = cs.push(c);
    let e = record_entry(c);
    assert(u.drop_last() =~= cs);
    lemma_ord(e.pos, e.pos);
    assert forall|x: int| 0 <= x < top() implies #[trigger] t2.tree_get(x) == o.tree_get(x)
        || exists|i: int|
        0 <= i < u.len() && x == record_entry(#[trigger] u[i]).pos.ord() && t2.tree_get(x) == Some(
            record_entry(u[i]),
        ) by {
        if done && x == e.pos.ord() {
            assert(u[cs.len() as int] == c);
        } else {
            assert(t2.tree_get(x) == t.tree_get(x));
            if t.tree_get(x) != o.tree_get(x) {
                let i = choose|i: int|
                    0 <= i < cs.len() && x == record_entry(#[trigger] cs[i]).pos.ord()
                        && t.tree_get(x) == Some(record_entry(cs[i]));
                assert(u[i] == cs[i]);
            }
        }
    }
    if room_for_records(o, u.len() as int) {
        assert(room_for_records(o, cs.len() as int));
        assert forall|i: int| 0 <= i < u.len() implies t2.tree_get(
            record_entry(#[trigger] u[i]).pos.ord(),
        ) == Some(record_entry(u[i])) by {
            let p = record_entry(u[i]).pos;
            lemma_ord(p, e.pos);
            lemma_ord(p, p);
            if i < cs.len() {
                assert(u[i] == cs[i]);
                assert(u[i].dev != u[cs.len() as int].dev || u[i].bucket
                    != u[cs.len() as int].bucket);
                assert(p != e.pos);
            }
        }
    }
}

/// Writes the records and counts the changes.
fn write_corrections(vol: &mut BchVol, corrections: &Vec<Correction>)
    requires
        old(vol).wf(),
        distinct_buckets(corrections@),
        forall|i: int|
            0 <= i < corrections@.len() ==> (#[trigger] corrections@[i]).bucket_size
                <= MAX_BUCKET_SIZE,
    ensures
        final(vol).wf(),
        records_in(
            final(vol).tree(BtreeId::Alloc),
            old(vol).tree(BtreeId::Alloc),
            corrections@,
        ),
        final(vol).btrees@ == old(vol).btrees@.update(
            BtreeId::Alloc.num() as int,
            final(vol).tree(BtreeId::Alloc),
        ),
        final(vol).counters@ == corrected_counters(old(vol).counters@, corrections@),
        final(vol).btree_foreground_merge_threshold == old(vol).btree_foreground_merge_threshold,
        final(vol).no_stale_ptrs == old(vol).no_stale_ptrs,
{
    let ghost v0 = *vol;
    let ghost t0 = vol.tree(BtreeId::Alloc);
    let ghost cs = corrections@;
    let mut i: usize = 0;
    assert(cs.take(0) =~= Seq::<Correction>::empty());
    while i < corrections.len()
        invariant
            i <= corrections.len(),
            cs == corrections@,
            distinct_buckets(cs),
            forall|i: int|
                0 <= i < cs.len() ==> (#[trigger] cs[i]).bucket_size <= MAX_BUCKET_SIZE,
            v0 == *old(vol),
            t0 == v0.tree(BtreeId::Alloc),
            vol.wf(),
            v0.wf(),
            records_in(vol.tree(BtreeId::Alloc), t0, cs.take(i as int)),
            vol.btrees@ == v0.btrees@.update(
                BtreeId::Alloc.num() as int,
                vol.tree(BtreeId::Alloc),
            ),
            vol.counters@ == corrected_counters(v0.counters@, cs.take(i as int)),
            vol.btree_foreground_merge_threshold == v0.btree_foreground_merge_threshold,
            vol.no_stale_ptrs == v0.no_stale_ptrs,
            vol.tree(BtreeId::Alloc).root.depth == t0.root.depth,
            vol.tree(BtreeId::Alloc).root.node.flags.write_blocked
                == t0.root.node.flags.write_blocked,
            vol.tree(BtreeId::Alloc).root.node.node_size == t0.root.node.node_size,
            vol.tree(BtreeId::Alloc).root.node.live_u64s <= t0.root.node.live_u64s + 11 * i,
        decreases corrections.len() - i,
    {
        let c: Correction = corrections[i];
        proof {
            let u = cs.take(i + 1);
            assert(u.drop_last() =~= cs.take(i as int));
            assert(u =~= cs.take(i as int).push(c));
            assert(u.last() == c);
            assert(distinct_buckets(u)) by {
                assert forall|p: int, q: int| 0 <= p < q < u.len() implies (#[trigger] u[p]).dev
                    != (#[trigger] u[q]).dev || u[p].bucket != u[q].bucket by {
                    assert(u[p] == cs[p] && u[q] == cs[q]);
                }
            }
            law_alloc_entry_roundtrip(c.after);
        }
        bch2_alloc_key_to_dev_counters(
            &mut vol.counters,
            c.dev,
            c.bucket_size,
            &c.before,
            &c.after,
        );
        let bytes: Vec<u8> = serialize_alloc_entry(&c.after);
        let pos: Bpos = Bpos { inode: c.dev as u64, offset: c.bucket, snapshot: 0 };
        let e: KeyEntry = KeyEntry::raw(pos, KeyType::Normal, bytes);
        let ghost ev = e@;
        assert(ev == record_entry(c));
        let t: &mut Btree = vol.btree_mut(BtreeId::Alloc);
        let ghost t1 = *t;
        let done: bool = t.bch2_btree_bset_insert_key_wrapper(e, 0);
        let ghost t2 = *t;
        proof {
            lemma_ord(pos, pos);
            assert(ev.u64s() == 11);
            assert(room_for_records(t0, i + 1) ==> done);
            lemma_one_more_record(t0, t1, t2, cs.take(i as int), c, done);
        }
        i += 1;
    }
    assert(cs.take(i as int) =~= cs);
}

/// Sweeps all buckets, once references were collected. Buckets with metadata are left alone.
/// Buckets with references get the counts of these. Others get the type that their own counts
/// give: those that held data and hold none any more are reclaimed. The records of all buckets but
/// those left alone are written, and nothing is kept of the references.
pub fn bch2_gc_sweep(vol: &mut BchVol, allocator: &mut BchAllocator) -> (r: Result<
    ReclaimStats,
    StorageError,
>)
    requires
        old(vol).wf(),
        old(allocator).wf(),
        nr_buckets(old(allocator)@, old(allocator)@.len()) <= u32::MAX,
    ensures
        final(vol).wf(),
        final(allocator).wf(),
        r is Ok,
        !gc_ready(old(allocator)@) ==> {
            &&& *final(vol) == *old(vol)
            &&& final(allocator)@ == old(allocator)@
            &&& r->Ok_0.reclaimed_count == 0
            &&& r->Ok_0.reclaimed_buckets@ == Seq::<u64>::empty()
            &&& r->Ok_0.skipped_state == 0
        },
        gc_ready(old(allocator)@) ==> {
            let devs = old(allocator)@;
            let x = sweep_devs(old(vol).tree(BtreeId::Alloc).contents(), devs, devs.len());
            &&& r->Ok_0.reclaimed_buckets@ == x.reclaimed
            &&& r->Ok_0.reclaimed_count == x.reclaimed.len()
            &&& r->Ok_0.skipped_state == x.skipped
            &&& final(allocator)@ == devs.map_values(
                |d: DevView|
                    DevView { slots: d.slots.map_values(|s: BucketSlot| swept(s)), ..d },
            )
            &&& records_in(
                final(vol).tree(BtreeId::Alloc),
                old(vol).tree(BtreeId::Alloc),
                x.corrections,
            )
            &&& final(vol).btrees@ == old(vol).btrees@.update(
                BtreeId::Alloc.num() as int,
                final(vol).tree(BtreeId::Alloc),
            )
            &&& final(vol).counters@ == corrected_counters(old(vol).counters@, x.corrections)
            &&& final(vol).btree_foreground_merge_threshold
                == old(vol).btree_foreground_merge_threshold
            &&& final(vol).no_stale_ptrs == old(vol).no_stale_ptrs
        },
{
    let mut stats: ReclaimStats = ReclaimStats::default();
    if !refs_collected(allocator) {
        return Ok(stats);
    }
    let ghost devs = allocator@;
    let ghost a = vol.tree(BtreeId::Alloc).contents();
    let records: Vec<KeyEntry> = vol.btree(BtreeId::Alloc).for_each_btree_key_entry();
    let mut corrections: Vec<Correction> = Vec::new();
    let ghost f = |d: DevView|
        DevView { slots: d.slots.map_values(|s: BucketSlot| swept(s)), ..d };
    let mut d: usize = 0;
    while d < allocator.devs.len()
        invariant
            *vol == *old(vol),
            vol.wf(),
            a == keys(records@),
            devs == old(allocator)@,
            allocator.wf(),
            d <= allocator@.len(),
            allocator@.len() == devs.len(),
            f == (|d: DevView|
                DevView { slots: d.slots.map_values(|s: BucketSlot| swept(s)), ..d }),
            nr_buckets(devs, devs.len()) <= u32::MAX,
            forall|i: int|
                0 <= i < devs.len() ==> #[trigger] allocator@[i] == if i < d {
                    f(devs[i])
                } else {
                    devs[i]
                },
            stats.reclaimed_buckets@ == sweep_devs(a, devs, d as nat).reclaimed,
            stats.reclaimed_count == stats.reclaimed_buckets@.len(),
            stats.skipped_state == sweep_devs(a, devs, d as nat).skipped,
            corrections@ == sweep_devs(a, devs, d as nat).corrections,
        decreases devs.len() - d,
    {
        proof {
            lemma_sweeps_size(a, devs, d as nat);
            lemma_more_buckets(devs, (d + 1) as nat, devs.len());
            assert(allocator.devs@[d as int]@ == allocator@[d as int]);
            assert(allocator@[d as int] == devs[d as int]);
        }
        let map: HashMap<u64, BchAllocEntry> = records_of(&records, allocator.devs[d].dev_idx);
        sweep_device(allocator, d, &map, &mut stats, &mut corrections, Ghost(a));
        d += 1;
    }
    assert(allocator@ =~= devs.map_values(f));
    proof {
        assert forall|i: int| 0 <= i < devs.len() implies (#[trigger] devs[i]).slots.len()
            <= u32::MAX by {
            lemma_more_buckets(devs, (i + 1) as nat, devs.len());
        }
        lemma_all_corrections(a, devs, devs.len());
    }
    write_corrections(vol, &corrections);
    Ok(stats)
}

/// A sweep never touches a bucket with metadata, but for what was found of references to it.
pub proof fn law_sweep_guards_metadata(s: BucketSlot)
    requires
        s.bucket.state == BchDataType::Sb || s.bucket.state == BchDataType::Journal
            || s.bucket.state == BchDataType::Btree,
    ensures
        swept(s).bucket == s.bucket,
        swept(s).gen == s.gen,
        !reclaims(s),
{
}

/// A sweep never reclaims a bucket that something refers to, and leaves its type.
pub proof fn law_sweep_keeps_referenced(s: BucketSlot)
    requires
        s.gc.gen_valid,
    ensures
        !reclaims(s),
        swept(s).bucket.state == s.bucket.state,
{
}

/// A bucket of user data without references and without sectors becomes free, or waits for its
/// generations to be collected.
pub proof fn law_sweep_reclaims_unreferenced(s: BucketSlot)
    requires
        s.bucket.state == BchDataType::User,
        !s.gc.gen_valid,
        s.bucket.dirty_sectors == 0,
        s.bucket.cached_sectors == 0,
        s.bucket.stripe_sectors == 0,
    ensures
        reclaims(s),
        swept(s).bucket.state == BchDataType::Free || swept(s).bucket.state
            == BchDataType::NeedGcGens,
{
}

/// After a sweep nothing is left to sweep: no reference is known, so the next sweep does nothing.
pub proof fn law_sweep_consumes_marks(devs: Seq<DevView>)
    ensures
        !gc_ready(
            devs.map_values(
                |d: DevView|
                    DevView { slots: d.slots.map_values(|s: BucketSlot| swept(s)), ..d },
            ),
        ),
{
}

/// A reference to the bucket is known, in the generation that the bucket is of.
pub open spec fn marked_now(slot: BucketSlot) -> bool {
    slot.gc.gen_valid && slot.gc.gen == slot.gen
}

/// Devices, buckets and their generations are the same, and references that were known still are.
pub open spec fn marks_kept(a: Seq<DevView>, b: Seq<DevView>) -> bool {
    &&& b.len() == a.len()
    &&& forall|d: int|
        0 <= d < a.len() ==> {
            &&& (#[trigger] b[d]).dev_idx == a[d].dev_idx
            &&& b[d].bucket_size == a[d].bucket_size
            &&& b[d].slots.len() == a[d].slots.len()
        }
    &&& forall|d: int, x: int|
        0 <= d < a.len() && 0 <= x < a[d].slots.len() ==> {
            &&& (#[trigger] b[d].slots[x]).gen == a[d].slots[x].gen
            &&& marked_now(a[d].slots[x]) ==> marked_now(b[d].slots[x])
        }
}

proof fn lemma_marks_kept(a: Seq<DevView>, b: Seq<DevView>, c: Seq<DevView>)
    requires
        marks_kept(a, b),
        marks_kept(b, c),
    ensures
        marks_kept(a, c),
{
    assert forall|d: int| 0 <= d < a.len() implies {
        &&& (#[trigger] c[d]).dev_idx == a[d].dev_idx
        &&& c[d].bucket_size == a[d].bucket_size
        &&& c[d].slots.len() == a[d].slots.len()
    } by {
        assert(b[d].dev_idx == a[d].dev_idx);
    }
    assert forall|d: int, x: int| 0 <= d < a.len() && 0 <= x < a[d].slots.len() implies {
        &&& (#[trigger] c[d].slots[x]).gen == a[d].slots[x].gen
        &&& marked_now(a[d].slots[x]) ==> marked_now(c[d].slots[x])
    } by {
        assert(b[d].slots.len() == a[d].slots.len());
        assert(b[d].slots[x].gen == a[d].slots[x].gen);
    }
}

/// A pointer that is marked takes no reference away, and its own is known then.
proof fn lemma_ptr_kept(st: Marking, v: ValueView, p: ExtentPtr)
    requires
        devs_ok(st.devs),
    ensures
        marks_kept(st.devs, ptr_marked(st, v, p).devs),
        devs_ok(ptr_marked(st, v, p).devs),
        ptr_marked(st, v, p).fault is None ==> st.fault is None,
        st.stale ==> ptr_marked(st, v, p).stale,
        forall|d: int|
            #![trigger st.devs[d]]
            ptr_marked(st, v, p).fault is None && ptr_counts(p) && (!p.cached || !ptr_marked(
                st,
                v,
                p,
            ).stale) && 0 <= d < st.devs.len() && st.devs[d].dev_idx == p.dev && ptr_bucket(
                p,
                st.devs[d].bucket_size,
            ) < st.devs[d].slots.len() ==> marked_now(
                ptr_marked(st, v, p).devs[d].slots[ptr_bucket(p, st.devs[d].bucket_size)],
            ),
{
    let n = ptr_marked(st, v, p);
    if st.fault is None && ptr_counts(p) {
        match dev_index(st.devs, p.dev) {
            None => {},
            Some(d) => {
                assert(dev_at(st.devs, p.dev, d));
                let b = ptr_bucket(p, st.devs[d].bucket_size);
                if b < st.devs[d].slots.len() {
                    vstd::arithmetic::div_mod::lemma_div_pos_is_pos(
                        p.offset * SECTORS_PER_BLOCK,
                        st.devs[d].bucket_size as int,
                    );
                    assert(n.devs[d].slots[b] == slot_marked(
                        st.devs[d].slots[b],
                        p,
                        ptr_type(v, p),
                        v.blocks(),
                    ).0);
                }
            },
        }
        assert forall|d: int|
            #![trigger st.devs[d]]
            0 <= d < st.devs.len() && st.devs[d].dev_idx == p.dev implies dev_index(
            st.devs,
            p.dev,
        ) == Some(d) by {
            assert(dev_at(st.devs, p.dev, d));
            lemma_dev_index(st.devs, p.dev, d);
        }
    }
}

proof fn lemma_ptrs_kept(st: Marking, v: ValueView, ptrs: Seq<ExtentPtr>)
    requires
        devs_ok(st.devs),
    ensures
        marks_kept(st.devs, ptrs_marked(st, v, ptrs).devs),
        devs_ok(ptrs_marked(st, v, ptrs).devs),
        ptrs_marked(st, v, ptrs).fault is None ==> st.fault is None,
        st.stale ==> ptrs_marked(st, v, ptrs).stale,
    decreases ptrs.len(),
{
    if ptrs.len() > 0 {
        let mid = ptrs_marked(st, v, ptrs.drop_last());
        lemma_ptrs_kept(st, v, ptrs.drop_last());
        lemma_ptr_kept(mid, v, ptrs.last());
        lemma_marks_kept(st.devs, mid.devs, ptrs_marked(st, v, ptrs).devs);
    }
}

/// The bucket that a pointer leads to, of those on device `d`.
pub open spec fn leads_to(devs: Seq<DevView>, p: ExtentPtr, d: int, b: int) -> bool {
    &&& 0 <= d < devs.len()
    &&& devs[d].dev_idx == p.dev
    &&& b == ptr_bucket(p, devs[d].bucket_size)
    &&& 0 <= b < devs[d].slots.len()
}

proof fn lemma_one_marked(st: Marking, v: ValueView, ptrs: Seq<ExtentPtr>, j: int, d: int, b: int)
    requires
        devs_ok(st.devs),
        0 <= j < ptrs.len(),
        ptr_counts(ptrs[j]),
        leads_to(st.devs, ptrs[j], d, b),
        ({
            let n = ptrs_marked(st, v, ptrs);
            n.fault is None && (!ptrs[j].cached || !n.stale)
        }),
    ensures
        marked_now(ptrs_marked(st, v, ptrs).devs[d].slots[b]),
    decreases ptrs.len(),
{
    let mid = ptrs_marked(st, v, ptrs.drop_last());
    lemma_ptrs_kept(st, v, ptrs.drop_last());
    lemma_ptr_kept(mid, v, ptrs.last());
    assert(mid.devs[d].dev_idx == st.devs[d].dev_idx);
    if j < ptrs.len() - 1 {
        assert(ptrs.drop_last()[j] == ptrs[j]);
        lemma_one_marked(st, v, ptrs.drop_last(), j, d, b);
    }
}

proof fn lemma_entries_kept(st: Marking, s: Seq<EntryView>)
    requires
        devs_ok(st.devs),
    ensures
        marks_kept(st.devs, entries_marked(st, s).devs),
        devs_ok(entries_marked(st, s).devs),
        entries_marked(st, s).fault is None ==> st.fault is None,
        st.stale ==> entries_marked(st, s).stale,
    decreases s.len(),
{
    if s.len() > 0 {
        let mid = entries_marked(st, s.drop_last());
        lemma_entries_kept(st, s.drop_last());
        if s.last().key_type != KeyType::Deleted {
            lemma_ptrs_kept(mid, s.last().value, s.last().value.ptrs());
            lemma_marks_kept(st.devs, mid.devs, entries_marked(st, s).devs);
        }
    }
}

/// Mark and sweep spare what is in use: once all entries are marked without fault, the bucket that
/// a pointer of a live entry leads to is marked in the generation that it is of, is not reclaimed
/// and keeps its type. A cached copy may be stale, and does not count then.
pub proof fn law_references_survive(
    devs: Seq<DevView>,
    s: Seq<EntryView>,
    i: int,
    j: int,
    d: int,
    b: int,
)
    requires
        devs_ok(devs),
        entries_marked(unmarked(devs), s).fault is None,
        0 <= i < s.len(),
        s[i].key_type != KeyType::Deleted,
        0 <= j < s[i].value.ptrs().len(),
        ptr_counts(s[i].value.ptrs()[j]),
        !s[i].value.ptrs()[j].cached || !entries_marked(unmarked(devs), s).stale,
        leads_to(devs, s[i].value.ptrs()[j], d, b),
    ensures
        ({
            let slot = entries_marked(unmarked(devs), s).devs[d].slots[b];
            &&& slot.gc.gen_valid
            &&& slot.gc.gen == slot.gen == devs[d].slots[b].gen
            &&& !reclaims(slot)
            &&& swept(slot).bucket.state == slot.bucket.state
        }),
    decreases s.len(),
{
    let st = unmarked(devs);
    let mid = entries_marked(st, s.drop_last());
    let e = s.last();
    lemma_entries_kept(st, s.drop_last());
    assert(mid.devs[d].dev_idx == devs[d].dev_idx);
    if e.key_type != KeyType::Deleted {
        lemma_ptrs_kept(mid, e.value, e.value.ptrs());
    }
    if i == s.len() - 1 {
        lemma_one_marked(mid, e.value, e.value.ptrs(), j, d, b);
    } else {
        assert(s.drop_last()[i] == s[i]);
        law_references_survive(devs, s.drop_last(), i, j, d, b);
        assert(marked_now(mid.devs[d].slots[b]));
    }
    lemma_entries_kept(st, s);
    assert(entries_marked(st, s).devs[d].slots[b].gen == devs[d].slots[b].gen);
}

/// Marking leaves nothing out: once all trees are marked without fault, the bucket that a pointer
/// of a live entry of any tree leads to is marked as referred to, in the generation that the bucket
/// is of, and a sweep spares it. A cached copy may be stale, and does not count then.
pub proof fn law_live_references_are_marked(
    vol: BchVol,
    devs: Seq<DevView>,
    ty: BtreeId,
    pos: Bpos,
    j: int,
    d: int,
    b: int,
)
    requires
        vol.wf(),
        devs_ok(devs),
        entries_marked(unmarked(devs), walk_of(vol, NR_BTREE_IDS as nat)).fault is None,
        vol.tree(ty).tree_get(pos.ord()) is Some,
        ({
            let e = vol.tree(ty).tree_get(pos.ord())->0;
            let st = entries_marked(unmarked(devs), walk_of(vol, NR_BTREE_IDS as nat));
            &&& e.key_type != KeyType::Deleted
            &&& 0 <= j < e.value.ptrs().len()
            &&& ptr_counts(e.value.ptrs()[j])
            &&& !e.value.ptrs()[j].cached || !st.stale
            &&& leads_to(devs, e.value.ptrs()[j], d, b)
        }),
    ensures
        ({
            let st = entries_marked(unmarked(devs), walk_of(vol, NR_BTREE_IDS as nat));
            let slot = st.devs[d].slots[b];
            &&& slot.gc.gen_valid
            &&& slot.gc.gen == slot.gen == devs[d].slots[b].gen
            &&& !reclaims(slot)
        }),
{
    let s = walk_of(vol, NR_BTREE_IDS as nat);
    let e = vol.tree(ty).tree_get(pos.ord())->0;
    law_marking_covers_trees(vol, ty, pos);
    let i = choose|i: int| 0 <= i < s.len() && s[i] == e;
    law_references_survive(devs, s, i, j, d, b);
}

/// A pointer that leads elsewhere leaves the bucket as it is.
proof fn lemma_elsewhere(st: Marking, v: ValueView, ptrs: Seq<ExtentPtr>, d: int, b: int)
    requires
        devs_ok(st.devs),
        0 <= d < st.devs.len(),
        0 <= b < st.devs[d].slots.len(),
        forall|j: int|
            0 <= j < ptrs.len() && ptr_counts(#[trigger] ptrs[j]) ==> !leads_to(
                st.devs,
                ptrs[j],
                d,
                b,
            ),
    ensures
        ptrs_marked(st, v, ptrs).devs[d].slots[b] == st.devs[d].slots[b],
    decreases ptrs.len(),
{
    if ptrs.len() > 0 {
        let head = ptrs.drop_last();
        let mid = ptrs_marked(st, v, head);
        let p = ptrs.last();
        assert forall|j: int|
            0 <= j < head.len() && ptr_counts(#[trigger] head[j]) implies !leads_to(
            st.devs,
            head[j],
            d,
            b,
        ) by {
            assert(head[j] == ptrs[j]);
        }
        lemma_elsewhere(st, v, head, d, b);
        lemma_ptrs_kept(st, v, head);
        assert(p == ptrs[ptrs.len() - 1]);
        if mid.fault is None && ptr_counts(p) {
            match dev_index(mid.devs, p.dev) {
                None => {},
                Some(x) => {
                    assert(dev_at(mid.devs, p.dev, x));
                    assert(mid.devs[d].bucket_size == st.devs[d].bucket_size);
                },
            }
        }
    }
}

/// Marking touches nothing else: a bucket that no pointer of the entries marked leads to is left
/// as it was.
pub proof fn law_other_buckets_stay(devs: Seq<DevView>, s: Seq<EntryView>, d: int, b: int)
    requires
        devs_ok(devs),
        0 <= d < devs.len(),
        0 <= b < devs[d].slots.len(),
        forall|i: int, j: int|
            0 <= i < s.len() && s[i].key_type != KeyType::Deleted && 0 <= j
                < s[i].value.ptrs().len() && ptr_counts(s[i].value.ptrs()[j]) ==> !leads_to(
                devs,
                #[trigger] s[i].value.ptrs()[j],
                d,
                b,
            ),
    ensures
        entries_marked(unmarked(devs), s).devs[d].slots[b] == devs[d].slots[b],
    decreases s.len(),
{
    let st = unmarked(devs);
    if s.len() > 0 {
        let head = s.drop_last();
        let e = s.last();
        let mid = entries_marked(st, head);
        assert forall|i: int, j: int|
            0 <= i < head.len() && head[i].key_type != KeyType::Deleted && 0 <= j
                < head[i].value.ptrs().len() && ptr_counts(
                head[i].value.ptrs()[j],
            ) implies !leads_to(devs, #[trigger] head[i].value.ptrs()[j], d, b) by {
            assert(head[i] == s[i]);
            assert(!leads_to(devs, s[i].value.ptrs()[j], d, b));
        }
        law_other_buckets_stay(devs, head, d, b);
        lemma_entries_kept(st, head);
        if e.key_type != KeyType::Deleted {
            let ptrs = e.value.ptrs();
            assert(mid.devs[d].dev_idx == devs[d].dev_idx);
            assert forall|j: int|
                0 <= j < ptrs.len() && ptr_counts(#[trigger] ptrs[j]) implies !leads_to(
                mid.devs,
                ptrs[j],
                d,
                b,
            ) by {
                assert(!leads_to(devs, s[s.len() - 1].value.ptrs()[j], d, b));
            }
            lemma_elsewhere(mid, e.value, ptrs, d, b);
        }
    }
}

/// Marking all trees leaves a bucket alone that no pointer of their entries leads to.
pub proof fn law_unnamed_buckets_stay(vol: BchVol, devs: Seq<DevView>, d: int, b: int)
    requires
        devs_ok(devs),
        0 <= d < devs.len(),
        0 <= b < devs[d].slots.len(),
        ({
            let s = walk_of(vol, NR_BTREE_IDS as nat);
            forall|i: int, j: int|
                0 <= i < s.len() && s[i].key_type != KeyType::Deleted && 0 <= j
                    < s[i].value.ptrs().len() && ptr_counts(s[i].value.ptrs()[j]) ==> !leads_to(
                    devs,
                    #[trigger] s[i].value.ptrs()[j],
                    d,
                    b,
                )
        }),
    ensures
        entries_marked(unmarked(devs), walk_of(vol, NR_BTREE_IDS as nat)).devs[d].slots[b]
            == devs[d].slots[b],
{
    law_other_buckets_stay(devs, walk_of(vol, NR_BTREE_IDS as nat), d, b);
}

/// The sectors, of those that are copies or of the others, that replicas of `blocks` blocks take in
/// bucket `b` of device `d`: eight for each block of a replica that lies there and is of the bucket's
/// generation.
pub open spec fn sectors_there(
    devs: Seq<DevView>,
    blocks: u32,
    ptrs: Seq<ExtentPtr>,
    d: int,
    b: int,
    cached: bool,
) -> int
    decreases ptrs.len(),
{
    if ptrs.len() == 0 {
        0
    } else {
        let p = ptrs.last();
        let rest = sectors_there(devs, blocks, ptrs.drop_last(), d, b, cached);
        if ptr_counts(p) && leads_to(devs, p, d, b) && p.gen == devs[d].slots[b].gen && p.cached
            == cached {
            rest + 8 * blocks
        } else {
            rest
        }
    }
}

/// The same of all entries that are no tombstones.
pub open spec fn all_sectors_there(
    devs: Seq<DevView>,
    s: Seq<EntryView>,
    d: int,
    b: int,
    cached: bool,
) -> int
    decreases s.len(),
{
    if s.len() == 0 {
        0
    } else {
        let e = s.last();
        let rest = all_sectors_there(devs, s.drop_last(), d, b, cached);
        if e.key_type == KeyType::Deleted {
            rest
        } else {
            rest + sectors_there(devs, e.value.blocks(), e.value.ptrs(), d, b, cached)
        }
    }
}

/// What lies in a bucket does not depend on marks.
proof fn lemma_same_sectors(
    devs: Seq<DevView>,
    devs2: Seq<DevView>,
    blocks: u32,
    ptrs: Seq<ExtentPtr>,
    d: int,
    b: int,
    cached: bool,
)
    requires
        marks_kept(devs, devs2),
        0 <= d < devs.len(),
        0 <= b < devs[d].slots.len(),
    ensures
        sectors_there(devs2, blocks, ptrs, d, b, cached) == sectors_there(
            devs,
            blocks,
            ptrs,
            d,
            b,
            cached,
        ),
    decreases ptrs.len(),
{
    if ptrs.len() > 0 {
        lemma_same_sectors(devs, devs2, blocks, ptrs.drop_last(), d, b, cached);
        assert(devs2[d].dev_idx == devs[d].dev_idx);
        assert(devs2[d].slots[b].gen == devs[d].slots[b].gen);
    }
}

proof fn lemma_ptr_counted(st: Marking, v: ValueView, p: ExtentPtr, d: int, b: int)
    requires
        devs_ok(st.devs),
        0 <= d < st.devs.len(),
        0 <= b < st.devs[d].slots.len(),
        ptr_marked(st, v, p).fault is None,
    ensures
        ({
            let x = st.devs[d].slots[b].gc;
            let y = ptr_marked(st, v, p).devs[d].slots[b].gc;
            let there = ptr_counts(p) && leads_to(st.devs, p, d, b) && p.gen
                == st.devs[d].slots[b].gen;
            &&& y.dirty_sectors == x.dirty_sectors + if there && !p.cached {
                8 * v.blocks()
            } else {
                0
            }
            &&& y.cached_sectors == x.cached_sectors + if there && p.cached {
                8 * v.blocks()
            } else {
                0
            }
        }),
{
    if ptr_counts(p) {
        match dev_index(st.devs, p.dev) {
            None => {
                if leads_to(st.devs, p, d, b) {
                    assert(dev_at(st.devs, p.dev, d));
                }
            },
            Some(x) => {
                assert(dev_at(st.devs, p.dev, x));
                if st.devs[d].dev_idx == p.dev {
                    assert(dev_at(st.devs, p.dev, d));
                    lemma_dev_index(st.devs, p.dev, d);
                }
                let slot = st.devs[d].slots[b];
                let t = ptr_type(v, p);
                crate::bucket::law_pointer_checks(
                    slot.gen,
                    p.gen,
                    p.cached,
                    t,
                    crate::bucket::data_type_of(slot.gc.data_type),
                );
                if exists|n: int|
                    1 <= n <= 96 && #[trigger] crate::bucket::later_gen(p.gen, n) == slot.gen {
                    let n = choose|n: int|
                        1 <= n <= 96 && #[trigger] crate::bucket::later_gen(p.gen, n) == slot.gen;
                    assert(p.gen != slot.gen);
                }
            },
        }
    }
}

proof fn lemma_ptrs_counted(st: Marking, v: ValueView, ptrs: Seq<ExtentPtr>, d: int, b: int)
    requires
        devs_ok(st.devs),
        0 <= d < st.devs.len(),
        0 <= b < st.devs[d].slots.len(),
        ptrs_marked(st, v, ptrs).fault is None,
    ensures
        ({
            let x = st.devs[d].slots[b].gc;
            let y = ptrs_marked(st, v, ptrs).devs[d].slots[b].gc;
            &&& y.dirty_sectors == x.dirty_sectors + sectors_there(
                st.devs,
                v.blocks(),
                ptrs,
                d,
                b,
                false,
            )
            &&& y.cached_sectors == x.cached_sectors + sectors_there(
                st.devs,
                v.blocks(),
                ptrs,
                d,
                b,
                true,
            )
        }),
    decreases ptrs.len(),
{
    if ptrs.len() > 0 {
        let mid = ptrs_marked(st, v, ptrs.drop_last());
        let p = ptrs.last();
        lemma_ptrs_kept(st, v, ptrs.drop_last());
        lemma_ptr_kept(mid, v, p);
        lemma_ptrs_counted(st, v, ptrs.drop_last(), d, b);
        lemma_ptr_counted(mid, v, p, d, b);
        assert(mid.devs[d].dev_idx == st.devs[d].dev_idx);
        assert(mid.devs[d].slots[b].gen == st.devs[d].slots[b].gen);
    }
}

/// Marking counts what lies in a bucket, all of it and nothing twice: once all entries are marked
/// without fault, a bucket's sectors are those counted before and eight for each block of each
/// replica that lies there in the bucket's generation; copies are counted apart.
pub proof fn law_marking_counts_sectors(devs: Seq<DevView>, s: Seq<EntryView>, d: int, b: int)
    requires
        devs_ok(devs),
        entries_marked(unmarked(devs), s).fault is None,
        0 <= d < devs.len(),
        0 <= b < devs[d].slots.len(),
    ensures
        ({
            let x = devs[d].slots[b].gc;
            let y = entries_marked(unmarked(devs), s).devs[d].slots[b].gc;
            &&& y.dirty_sectors == x.dirty_sectors + all_sectors_there(devs, s, d, b, false)
            &&& y.cached_sectors == x.cached_sectors + all_sectors_there(devs, s, d, b, true)
        }),
    decreases s.len(),
{
    if s.len() > 0 {
        let st = unmarked(devs);
        let head = s.drop_last();
        let e = s.last();
        let mid = entries_marked(st, head);
        lemma_entries_kept(st, head);
        assert(mid.devs[d].slots.len() == devs[d].slots.len()) by {
            assert(mid.devs[d].dev_idx == devs[d].dev_idx);
        }
        if e.key_type != KeyType::Deleted {
            let ptrs = e.value.ptrs();
            lemma_ptrs_kept(mid, e.value, ptrs);
            law_marking_counts_sectors(devs, head, d, b);
            lemma_ptrs_counted(mid, e.value, ptrs, d, b);
            lemma_same_sectors(devs, mid.devs, e.value.blocks(), ptrs, d, b, false);
            lemma_same_sectors(devs, mid.devs, e.value.blocks(), ptrs, d, b, true);
        } else {
            law_marking_counts_sectors(devs, head, d, b);
        }
    }
}

/// A good reference makes its bucket one of its kind: of nodes where it is to a node, of copies where
/// there are copies in it and nothing else, and of user data where there is any. What is found of the
/// bucket says the same, and is of the bucket's generation.
pub proof fn law_reference_tells_the_type(slot: BucketSlot, v: ValueView, p: ExtentPtr)
    requires
        p.gen == slot.gen,
        slot_marked(slot, p, ptr_type(v, p), v.blocks()).2 is None,
    ensures
        ({
            let n = slot_marked(slot, p, ptr_type(v, p), v.blocks()).0;
            &&& n.gc.gen_valid
            &&& n.gc.gen == n.gen == slot.gen
            &&& n.gc.data_type == n.bucket.state.num()
            &&& v is BtreePtr ==> n.bucket.state == BchDataType::Btree || (n.gc.dirty_sectors == 0
                && n.gc.cached_sectors > 0)
            &&& !(v is BtreePtr) && !p.cached ==> n.bucket.state == BchDataType::User
            &&& !(v is BtreePtr) && p.cached && v.blocks() > 0 ==> n.bucket.state
                == if n.gc.dirty_sectors > 0 {
                BchDataType::User
            } else {
                BchDataType::Cached
            }
            &&& n.bucket == (Bucket { state: n.bucket.state, ..slot.bucket })
        }),
{
    crate::bucket::law_pointer_checks(
        slot.gen,
        p.gen,
        p.cached,
        ptr_type(v, p),
        crate::bucket::data_type_of(slot.gc.data_type),
    );
}

/// A pointer that is at fault stops the marking with its bucket as it was; a stale one to a copy is
/// noted and leaves its bucket alone too.
pub proof fn law_bad_references_change_nothing(slot: BucketSlot, v: ValueView, p: ExtentPtr)
    requires
        p.gen != slot.gen,
    ensures
        ({
            let r = slot_marked(slot, p, ptr_type(v, p), v.blocks());
            &&& r.0 == slot
            &&& r.1 ==> p.cached && r.2 is None
            &&& !p.cached ==> r.2 is Some
            &&& r.1 || r.2 is Some
        }),
{
    let c = crate::bucket::data_type_of(slot.gc.data_type);
    crate::bucket::law_pointer_checks(slot.gen, p.gen, p.cached, ptr_type(v, p), c);
}

/// Marking stops where a device is not known, and passes over a pointer that leads nowhere.
pub proof fn law_marking_needs_the_device(st: Marking, v: ValueView, p: ExtentPtr)
    requires
        st.fault is None,
    ensures
        !(1 <= p.offset < 0x1_0000_0000_0000) ==> ptr_marked(st, v, p) == st,
        1 <= p.offset < 0x1_0000_0000_0000 && (forall|d: int|
            0 <= d < st.devs.len() ==> (#[trigger] st.devs[d]).dev_idx != p.dev) ==> ptr_marked(
            st,
            v,
            p,
        ).fault == Some(StorageError::NotFound) && ptr_marked(st, v, p).devs == st.devs,
{
    if exists|i: int| dev_at(st.devs, p.dev, i) {
        let i = choose|i: int| dev_at(st.devs, p.dev, i);
        assert(dev_at(st.devs, p.dev, i));
        assert(st.devs[i].dev_idx == p.dev);
    }
}

/// A sweep takes over what the marking counted: a bucket that something refers to, and that is not
/// one of metadata, has exactly the sectors that were counted for it, and is else as it was.
pub proof fn law_sweep_takes_the_counts(s: BucketSlot)
    requires
        s.gc.gen_valid,
        s.bucket.state != BchDataType::Sb,
        s.bucket.state != BchDataType::Journal,
        s.bucket.state != BchDataType::Btree,
    ensures
        swept(s).bucket.dirty_sectors == s.gc.dirty_sectors,
        swept(s).bucket.cached_sectors == s.gc.cached_sectors,
        swept(s).bucket.state == s.bucket.state,
        swept(s).bucket.stripe_sectors == s.bucket.stripe_sectors,
        swept(s).bucket.oldest_gen == s.bucket.oldest_gen,
        swept(s).bucket.journal_seq_nonempty == s.bucket.journal_seq_nonempty,
        swept(s).bucket.journal_seq_empty == s.bucket.journal_seq_empty,
        swept(s).bucket.flags == s.bucket.flags,
        swept(s).gen == s.gen,
        !left_alone(s),
{
}

/// A bucket that nothing refers to, and that is not one of metadata, keeps its counts and becomes what
/// these say it is. One that becomes free has no place in the journal any more.
pub proof fn law_sweep_of_unreferenced(s: BucketSlot)
    requires
        !s.gc.gen_valid,
        s.bucket.state != BchDataType::Sb,
        s.bucket.state != BchDataType::Journal,
        s.bucket.state != BchDataType::Btree,
    ensures
        ({
            let n = swept(s).bucket;
            let near = exists|i: int|
                0 <= i < 96 && #[trigger] crate::bucket::later_gen(s.bucket.oldest_gen, i) == s.gen;
            &&& n.dirty_sectors == s.bucket.dirty_sectors
            &&& n.cached_sectors == s.bucket.cached_sectors
            &&& n.stripe_sectors == s.bucket.stripe_sectors
            &&& n.oldest_gen == s.bucket.oldest_gen
            &&& n.flags == s.bucket.flags
            &&& s.bucket.dirty_sectors > 0 ==> crate::bucket::same_kind(n.state, s.bucket.state)
            &&& s.bucket.dirty_sectors == 0 ==> n.state == if s.bucket.stripe_sectors > 0 {
                BchDataType::Unstriped
            } else if s.bucket.cached_sectors > 0 {
                BchDataType::Cached
            } else if near {
                BchDataType::Free
            } else {
                BchDataType::NeedGcGens
            }
            &&& n.state != s.bucket.state && n.state == BchDataType::Free ==> n.journal_seq_nonempty
                == 0 && n.journal_seq_empty == 0
            &&& n.state == s.bucket.state ==> n == s.bucket
            &&& n.state != BchDataType::Free ==> n.journal_seq_nonempty
                == s.bucket.journal_seq_nonempty && n.journal_seq_empty
                == s.bucket.journal_seq_empty
            &&& reclaims(s) <==> (s.bucket.state == BchDataType::User || s.bucket.state
                == BchDataType::NeedGcGens) && (n.state == BchDataType::Free || n.state
                == BchDataType::NeedGcGens) && n.state != s.bucket.state
        }),
        swept(s).gen == s.gen,
{
    crate::bucket::law_counts_tell_the_type(
        s.bucket.dirty_sectors,
        s.bucket.cached_sectors,
        s.bucket.stripe_sectors,
        0,
        s.gen,
        s.bucket.oldest_gen,
        s.bucket.state,
    );
}

/// The record that a sweep writes says what the bucket is then, and keeps what only the record knows.
pub proof fn law_swept_record_is_the_bucket(s: BucketSlot, kept: Option<BchAllocEntry>)
    ensures
        ({
            let n = swept(s);
            let r = swept_record(s, kept);
            &&& r.dirty_sectors == n.bucket.dirty_sectors
            &&& r.cached_sectors == n.bucket.cached_sectors
            &&& r.stripe_sectors == n.bucket.stripe_sectors
            &&& r.data_type == n.bucket.state.num()
            &&& r.gen == n.gen
            &&& r.oldest_gen == n.bucket.oldest_gen
            &&& r.journal_seq_nonempty == n.bucket.journal_seq_nonempty
            &&& r.journal_seq_empty == n.bucket.journal_seq_empty
            &&& r.flags == n.bucket.flags
            &&& kept matches Some(k) ==> {
                &&& r.io_time_read == k.io_time_read
                &&& r.io_time_write == k.io_time_write
                &&& r.stripe_refcount == k.stripe_refcount
                &&& r.nr_external_backpointers == k.nr_external_backpointers
                &&& r.stripe_redundancy_obsolete == k.stripe_redundancy_obsolete
            }
            &&& kept is None ==> {
                &&& r.io_time_read == 0
                &&& r.io_time_write == 0
                &&& r.stripe_refcount == 0
                &&& r.nr_external_backpointers == 0
                &&& r.stripe_redundancy_obsolete == 0
            }
            &&& r.pad == 0
        }),
{
}

proof fn lemma_correction_there(a: Seq<EntryView>, d: DevView, n: nat, b: int) -> (i: int)
    requires
        0 <= b < n <= d.slots.len(),
        n <= u64::MAX,
        !left_alone(d.slots[b]),
    ensures
        0 <= i < sweep_dev(a, d, n).corrections.len(),
        sweep_dev(a, d, n).corrections[i].dev == d.dev_idx,
        sweep_dev(a, d, n).corrections[i].bucket == b,
        sweep_dev(a, d, n).corrections[i].bucket_size == d.bucket_size,
        sweep_dev(a, d, n).corrections[i].before == match recorded(a, d.dev_idx, b as u64) {
            Some(e) => e,
            None => BchAllocEntry::zero(),
        },
        sweep_dev(a, d, n).corrections[i].after == swept_record(
            d.slots[b],
            recorded(a, d.dev_idx, b as u64),
        ),
    decreases n,
{
    let rest = sweep_dev(a, d, (n - 1) as nat);
    if b == n - 1 {
        rest.corrections.len() as int
    } else {
        lemma_correction_there(a, d, (n - 1) as nat, b)
    }
}

proof fn lemma_correction_kept(a: Seq<EntryView>, devs: Seq<DevView>, k: nat, d: int, i: int) -> (j:
    int)
    requires
        0 <= d < k <= devs.len(),
        0 <= i < sweep_dev(a, devs[d], devs[d].slots.len()).corrections.len(),
    ensures
        0 <= j < sweep_devs(a, devs, k).corrections.len(),
        sweep_devs(a, devs, k).corrections[j] == sweep_dev(
            a,
            devs[d],
            devs[d].slots.len(),
        ).corrections[i],
    decreases k,
{
    let x = sweep_devs(a, devs, (k - 1) as nat).corrections;
    if d == k - 1 {
        x.len() + i
    } else {
        lemma_correction_kept(a, devs, (k - 1) as nat, d, i)
    }
}

/// The record of a bucket that a sweep has changed says afterwards what the marking counted: where the
/// tree of records has room, what is read back from it has the sectors counted for the bucket.
pub proof fn law_records_take_the_counts(
    t: Btree,
    o: Btree,
    a: Seq<EntryView>,
    devs: Seq<DevView>,
    d: int,
    b: int,
)
    requires
        0 <= d < devs.len(),
        0 <= b < devs[d].slots.len() <= u64::MAX,
        devs[d].slots[b].gc.gen_valid,
        devs[d].slots[b].bucket.state != BchDataType::Sb,
        devs[d].slots[b].bucket.state != BchDataType::Journal,
        devs[d].slots[b].bucket.state != BchDataType::Btree,
        records_in(t, o, sweep_devs(a, devs, devs.len()).corrections),
        room_for_records(o, sweep_devs(a, devs, devs.len()).corrections.len() as int),
    ensures
        ({
            let pos = Bpos { inode: devs[d].dev_idx as u64, offset: b as u64, snapshot: 0 };
            let slot = devs[d].slots[b];
            &&& t.tree_get(pos.ord()) matches Some(e) && {
                let r = alloc_from(e.value->Raw_0);
                &&& e.pos == pos
                &&& e.key_type == KeyType::Normal
                &&& e.value is Raw
                &&& r.dirty_sectors == slot.gc.dirty_sectors
                &&& r.cached_sectors == slot.gc.cached_sectors
                &&& r.gen == slot.gen
                &&& r.data_type == slot.bucket.state.num()
            }
        }),
{
    let i = lemma_correction_there(a, devs[d], devs[d].slots.len(), b);
    let j = lemma_correction_kept(a, devs, devs.len(), d, i);
    let cs = sweep_devs(a, devs, devs.len()).corrections;
    law_alloc_entry_roundtrip(cs[j].after);
    assert(t.tree_get(record_entry(cs[j]).pos.ord()) == Some(record_entry(cs[j])));
}

/// A reference of its bucket's generation is at fault just where the bucket was found to hold data of
/// another kind, or where the sectors would be too many to count.
pub proof fn law_current_reference_faults(slot: BucketSlot, v: ValueView, p: ExtentPtr)
    requires
        p.gen == slot.gen,
    ensures
        ({
            let t = if v is BtreePtr {
                BchDataType::Btree
            } else if p.cached {
                BchDataType::Cached
            } else {
                BchDataType::User
            };
            let current = crate::bucket::data_type_of(slot.gc.data_type);
            let fits = current == BchDataType::Free || current == BchDataType::NeedGcGens || current
                == BchDataType::NeedDiscard || crate::bucket::same_kind(current, t);
            let before = if p.cached {
                slot.gc.cached_sectors
            } else {
                slot.gc.dirty_sectors
            };
            let r = slot_marked(slot, p, ptr_type(v, p), v.blocks());
            &&& r.2 is Some <==> !fits || (v.blocks() > 0 && before + 8 * v.blocks() > u32::MAX)
            &&& r.2 is Some ==> r.2 == Some(StorageError::InvalidData)
            &&& !fits ==> r.0 == slot
            &&& !r.1
        }),
{
    crate::bucket::law_pointer_checks(
        slot.gen,
        p.gen,
        p.cached,
        ptr_type(v, p),
        crate::bucket::data_type_of(slot.gc.data_type),
    );
    if exists|n: int| 1 <= n <= 96 && #[trigger] crate::bucket::later_gen(p.gen, n) == slot.gen {
        let n = choose|n: int|
            1 <= n <= 96 && #[trigger] crate::bucket::later_gen(p.gen, n) == slot.gen;
        assert(false);
    }
}

/// Every bucket of a device is either left alone or corrected, and only corrected ones are reclaimed.
pub proof fn law_sweep_takes_every_bucket(a: Seq<EntryView>, d: DevView, n: nat, b: int)
    requires
        n <= d.slots.len() <= u64::MAX,
        0 <= b < n,
    ensures
        ({
            let x = sweep_dev(a, d, n);
            &&& x.skipped + x.corrections.len() == n
            &&& x.reclaimed.len() <= x.corrections.len()
            &&& x.reclaimed.contains(b as u64) <==> reclaims(d.slots[b])
            &&& left_alone(d.slots[b]) <==> !exists|i: int|
                0 <= i < x.corrections.len() && (#[trigger] x.corrections[i]).bucket == b
        }),
{
    lemma_sweep_counts(a, d, n);
    lemma_sweep_of(a, d, n, b);
}

proof fn lemma_sweep_counts(a: Seq<EntryView>, d: DevView, n: nat)
    ensures
        ({
            let x = sweep_dev(a, d, n);
            &&& x.skipped + x.corrections.len() == n
            &&& x.reclaimed.len() <= x.corrections.len()
        }),
    decreases n,
{
    if n > 0 {
        lemma_sweep_counts(a, d, (n - 1) as nat);
    }
}

proof fn lemma_sweep_below(a: Seq<EntryView>, d: DevView, n: nat)
    requires
        n <= u64::MAX,
    ensures
        ({
            let x = sweep_dev(a, d, n);
            &&& forall|i: int|
                0 <= i < x.corrections.len() ==> (#[trigger] x.corrections[i]).bucket < n
            &&& forall|i: int| 0 <= i < x.reclaimed.len() ==> #[trigger] x.reclaimed[i] < n
        }),
    decreases n,
{
    if n > 0 {
        let m = (n - 1) as nat;
        lemma_sweep_below(a, d, m);
        let x = sweep_dev(a, d, n);
        let y = sweep_dev(a, d, m);
        assert forall|i: int| 0 <= i < x.corrections.len() implies (
        #[trigger] x.corrections[i]).bucket < n by {
            if i < y.corrections.len() {
                assert(x.corrections[i] == y.corrections[i]);
            }
        }
        assert forall|i: int| 0 <= i < x.reclaimed.len() implies #[trigger] x.reclaimed[i] < n by {
            if i < y.reclaimed.len() {
                assert(x.reclaimed[i] == y.reclaimed[i]);
            }
        }
    }
}

proof fn lemma_sweep_of(a: Seq<EntryView>, d: DevView, n: nat, b: int)
    requires
        n <= u64::MAX,
        0 <= b < n,
    ensures
        ({
            let x = sweep_dev(a, d, n);
            &&& x.reclaimed.contains(b as u64) <==> reclaims(d.slots[b])
            &&& left_alone(d.slots[b]) <==> !exists|i: int|
                0 <= i < x.corrections.len() && (#[trigger] x.corrections[i]).bucket == b
        }),
    decreases n,
{
    let m = (n - 1) as nat;
    let x = sweep_dev(a, d, n);
    let y = sweep_dev(a, d, m);
    let s = d.slots[m as int];
    lemma_sweep_below(a, d, m);
    if b < m {
        lemma_sweep_of(a, d, m, b);
        if y.reclaimed.contains(b as u64) {
            let i = choose|i: int| 0 <= i < y.reclaimed.len() && y.reclaimed[i] == b as u64;
            assert(x.reclaimed[i] == b as u64);
        }
        if x.reclaimed.contains(b as u64) {
            let i = choose|i: int| 0 <= i < x.reclaimed.len() && x.reclaimed[i] == b as u64;
            assert(y.reclaimed[i] == b as u64);
        }
        if exists|i: int| 0 <= i < y.corrections.len() && (#[trigger] y.corrections[i]).bucket == b {
            let i = choose|i: int|
                0 <= i < y.corrections.len() && (#[trigger] y.corrections[i]).bucket == b;
            assert(x.corrections[i].bucket == b);
        }
        if exists|i: int| 0 <= i < x.corrections.len() && (#[trigger] x.corrections[i]).bucket == b {
            let i = choose|i: int|
                0 <= i < x.corrections.len() && (#[trigger] x.corrections[i]).bucket == b;
            assert(y.corrections[i].bucket == b);
        }
    } else {
        if !left_alone(s) {
            assert(x.corrections[y.corrections.len() as int].bucket == b);
            if reclaims(s) {
                assert(x.reclaimed[y.reclaimed.len() as int] == b as u64);
            }
        }
    }
}

/// The counters follow each correction, from the record that was there to the one that takes its
/// place.
pub proof fn law_counters_follow_corrections(c: Seq<DevCounters>, cs: Seq<Correction>, x: Correction)
    ensures
        corrected_counters(c, cs.push(x)) == counted_all(
            corrected_counters(c, cs),
            x.dev,
            record_deltas(x.before, x.after, x.bucket_size),
        ),
        corrected_counters(c, Seq::empty()) == c,
{
    assert(cs.push(x).drop_last() =~= cs);
}

/// The record of a bucket stands under its device and its number.
pub proof fn law_place_of_record(c: Correction)
    ensures
        record_entry(c).pos.inode == c.dev,
        record_entry(c).pos.offset == c.bucket,
        record_entry(c).pos.snapshot == 0,
        record_entry(c).key_type == KeyType::Normal,
        record_entry(c).value is Raw && alloc_from(record_entry(c).value->Raw_0) == c.after,
{
    law_alloc_entry_roundtrip(c.after);
}

} // verus!
