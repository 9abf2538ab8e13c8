//! Checks of the allocation records against the buckets and against the freespace keys.

use crate::btree_id::BtreeId;
use crate::bucket::{
    alloc_freespace_bucket_idx, alloc_freespace_genbits, alloc_freespace_pos_genbits, alloc_from,
    alloc_gc_gen, deserialize_alloc_entry, dev_index, gc_gen, genbits, pos_bucket, pos_genbits,
    BchAllocEntry, BchAllocator, BchDataType, BchDev, BucketSlot, DevView, ALLOC_ENTRY_BYTES,
};
use crate::entries::keys;
use crate::key::{EntryView, KeyEntry, KeyType, KeyValue};
use crate::volume::BchVol;
use crate::writer::StorageError;
use std::collections::HashMap;
use vstd::prelude::*;

verus! {

broadcast use vstd::std_specs::hash::group_hash_axioms;

/// Flags of a record that the buckets in memory stand for.
pub const RECORD_FLAGS: u32 = 32;

/// Something about the records that does not fit.
#[derive(Debug, Clone, Copy, PartialEq, Eq, Structural)]
pub enum AllocIssue {
    /// A record cannot be read.
    BadRecord { bucket: u64 },
    /// A record says something else than the bucket.
    Mismatch { dev: u8, bucket: u64, recorded: BchAllocEntry, actual: BchAllocEntry },
    /// A bucket has no record.
    NoRecord { dev: u8, bucket: u64 },
    /// A free bucket has no freespace key of its generation.
    NoFreespace { dev: u8, bucket: u64, genbits: u64 },
    /// A free bucket has a freespace key of another generation.
    StaleFreespace { dev: u8, bucket: u64, genbits: u64, expected: u64 },
    /// A bucket that is not free has a freespace key.
    FreespaceInUse { dev: u8, bucket: u64, genbits: u64 },
    /// There is a record, and no bucket.
    NoBucket { dev: u8, bucket: u64, recorded: BchAllocEntry },
    /// A record is of another generation than the bucket.
    GenMismatch { dev: u8, bucket: u64, recorded_gen: u8, actual_gen: u8 },
}

/// A record of some bucket.
pub open spec fn is_record(e: EntryView) -> bool {
    e.key_type == KeyType::Normal && e.value is Raw && e.value->Raw_0.len() == ALLOC_ENTRY_BYTES
}

/// The record of bucket `b` of a device.
pub open spec fn record_for(e: EntryView, dev: u8, b: u64) -> bool {
    is_record(e) && e.pos.inode == dev && e.pos.offset == b
}

/// What is recorded of a bucket: the last record of it.
pub open spec fn recorded(s: Seq<EntryView>, dev: u8, b: u64) -> Option<BchAllocEntry>
    decreases s.len(),
{
    if s.len() == 0 {
        None
    } else if record_for(s.last(), dev, b) {
        Some(alloc_from(s.last().value->Raw_0))
    } else {
        recorded(s.drop_last(), dev, b)
    }
}

/// The record that a bucket should have.
pub open spec fn actual(s: BucketSlot) -> BchAllocEntry {
    BchAllocEntry {
        journal_seq_nonempty: s.bucket.journal_seq_nonempty,
        flags: RECORD_FLAGS,
        gen: s.gen,
        oldest_gen: s.bucket.oldest_gen,
        data_type: s.bucket.state.num(),
        stripe_redundancy_obsolete: 0,
        dirty_sectors: s.bucket.dirty_sectors,
        cached_sectors: s.bucket.cached_sectors,
        io_time_read: 0,
        io_time_write: 0,
        stripe_refcount: 0,
        nr_external_backpointers: 0,
        journal_seq_empty: s.bucket.journal_seq_empty,
        stripe_sectors: s.bucket.stripe_sectors,
        pad: 0,
    }
}

/// The generation bits that the freespace key of a free bucket should have.
pub open spec fn expected_bits(s: BucketSlot) -> u64 {
    genbits(gc_gen(0, s.bucket.oldest_gen) as u8)
}

/// A freespace key of bucket `b` of a device.
pub open spec fn free_key(e: EntryView, dev: u8, b: u64) -> bool {
    e.key_type == KeyType::Normal && e.pos.inode % 256 == dev && pos_bucket(e.pos) == b
}

/// There is a freespace key of a bucket with these generation bits.
pub open spec fn has_free_key(f: Seq<EntryView>, dev: u8, b: u64, bits: u64) -> bool {
    exists|i: int|
        0 <= i < f.len() && free_key(#[trigger] f[i], dev, b) && pos_genbits(f[i].pos) == bits
}

/// Something does not fit about the freespace keys of a bucket of the device.
pub open spec fn freespace_issue(f: Seq<EntryView>, d: DevView, x: AllocIssue) -> bool {
    match x {
        AllocIssue::StaleFreespace { dev, bucket, genbits, expected } => {
            &&& dev == d.dev_idx
            &&& bucket < d.slots.len()
            &&& d.slots[bucket as int].bucket.state == BchDataType::Free
            &&& has_free_key(f, dev, bucket, genbits)
            &&& expected == expected_bits(d.slots[bucket as int])
            &&& genbits != expected
        },
        AllocIssue::FreespaceInUse { dev, bucket, genbits } => {
            &&& dev == d.dev_idx
            &&& bucket < d.slots.len()
            &&& d.slots[bucket as int].bucket.state != BchDataType::Free
            &&& has_free_key(f, dev, bucket, genbits)
        },
        _ => false,
    }
}

/// Something does not fit about one of the first `n` buckets of the device.
pub open spec fn bucket_issue(
    a: Seq<EntryView>,
    f: Seq<EntryView>,
    d: DevView,
    n: int,
    x: AllocIssue,
) -> bool {
    match x {
        AllocIssue::Mismatch { dev, bucket, recorded: r, actual: t } => {
            &&& dev == d.dev_idx
            &&& bucket < n
            &&& recorded(a, dev, bucket) == Some(r)
            &&& t == actual(d.slots[bucket as int])
            &&& r != t
        },
        AllocIssue::NoRecord { dev, bucket } => {
            &&& dev == d.dev_idx
            &&& bucket < n
            &&& recorded(a, dev, bucket) is None
        },
        AllocIssue::NoFreespace { dev, bucket, genbits } => {
            &&& dev == d.dev_idx
            &&& bucket < n
            &&& d.slots[bucket as int].bucket.state == BchDataType::Free
            &&& genbits == expected_bits(d.slots[bucket as int])
            &&& !has_free_key(f, dev, bucket, genbits)
        },
        AllocIssue::GenMismatch { dev, bucket, recorded_gen: g, actual_gen: t } => {
            &&& dev == d.dev_idx
            &&& bucket < n
            &&& recorded(a, dev, bucket) is Some
            &&& recorded(a, dev, bucket)->0.gen == g
            &&& t == d.slots[bucket as int].gen
            &&& g != t
        },
        _ => false,
    }
}

/// A record cannot be read.
pub open spec fn bad_record(e: EntryView) -> bool {
    e.key_type == KeyType::Normal && e.value is Raw && e.value->Raw_0.len() != ALLOC_ENTRY_BYTES
}

/// One of the records cannot be read.
pub open spec fn record_issue(a: Seq<EntryView>, x: AllocIssue) -> bool {
    match x {
        AllocIssue::BadRecord { bucket } => exists|i: int|
            0 <= i < a.len() && bad_record(#[trigger] a[i]) && a[i].pos.offset == bucket,
        _ => false,
    }
}

/// There is such a bucket.
pub open spec fn has_bucket(devs: Seq<DevView>, dev: u8, b: u64) -> bool {
    match dev_index(devs, dev) {
        Some(d) => b < devs[d].slots.len(),
        None => false,
    }
}

/// A record is of a bucket that is not there.
pub open spec fn orphan_issue(a: Seq<EntryView>, devs: Seq<DevView>, x: AllocIssue) -> bool {
    match x {
        AllocIssue::NoBucket { dev, bucket, recorded: r } => {
            &&& recorded(a, dev, bucket) == Some(r)
            &&& !has_bucket(devs, dev, bucket)
        },
        _ => false,
    }
}

/// Something does not fit about one of the first `k` devices.
pub open spec fn device_issue(
    a: Seq<EntryView>,
    f: Seq<EntryView>,
    devs: Seq<DevView>,
    k: int,
    x: AllocIssue,
) -> bool {
    exists|d: int|
        0 <= d < k && (freespace_issue(f, #[trigger] devs[d], x) || bucket_issue(
            a,
            f,
            devs[d],
            devs[d].slots.len() as int,
            x,
        ))
}

/// The report on records that cannot be read: one line for each.
pub open spec fn bad_records(a: Seq<EntryView>) -> Seq<AllocIssue>
    decreases a.len(),
{
    if a.len() == 0 {
        Seq::empty()
    } else if bad_record(a.last()) {
        bad_records(a.drop_last()).push(AllocIssue::BadRecord { bucket: a.last().pos.offset })
    } else {
        bad_records(a.drop_last())
    }
}

/// The generation bits of the freespace keys of a bucket, in the order of the keys.
pub open spec fn bits_of(f: Seq<EntryView>, dev: u8, b: u64) -> Seq<u64>
    decreases f.len(),
{
    if f.len() == 0 {
        Seq::empty()
    } else if free_key(f.last(), dev, b) {
        bits_of(f.drop_last(), dev, b).push(pos_genbits(f.last().pos))
    } else {
        bits_of(f.drop_last(), dev, b)
    }
}

/// What does not fit about a freespace key of bucket `b`, if anything.
pub open spec fn key_issue(d: DevView, b: u64, bits: u64) -> Option<AllocIssue> {
    let dev = d.dev_idx;
    let slot = d.slots[b as int];
    if slot.bucket.state != BchDataType::Free {
        Some(AllocIssue::FreespaceInUse { dev, bucket: b, genbits: bits })
    } else if bits != expected_bits(slot) {
        Some(
            AllocIssue::StaleFreespace {
                dev,
                bucket: b,
                genbits: bits,
                expected: expected_bits(slot),
            },
        )
    } else {
        None
    }
}

/// The report on the freespace keys of bucket `b`: one line for each key that does not fit.
pub open spec fn stale_keys(d: DevView, b: u64, bits: Seq<u64>) -> Seq<AllocIssue>
    decreases bits.len(),
{
    if bits.len() == 0 {
        Seq::empty()
    } else {
        match key_issue(d, b, bits.last()) {
            Some(x) => stale_keys(d, b, bits.drop_last()).push(x),
            None => stale_keys(d, b, bits.drop_last()),
        }
    }
}

/// The report on bucket `b` of a device and on its record, generations aside.
pub open spec fn bucket_head(a: Seq<EntryView>, f: Seq<EntryView>, d: DevView, b: u64) -> Seq<
    AllocIssue,
> {
    let dev = d.dev_idx;
    let slot = d.slots[b as int];
    let at = actual(slot);
    let on_record = match recorded(a, dev, b) {
        None => seq![AllocIssue::NoRecord { dev, bucket: b }],
        Some(r) => if r != at {
            seq![AllocIssue::Mismatch { dev, bucket: b, recorded: r, actual: at }]
        } else {
            Seq::empty()
        },
    };
    if slot.bucket.state == BchDataType::Free && !has_free_key(f, dev, b, expected_bits(slot)) {
        on_record.push(
            AllocIssue::NoFreespace { dev, bucket: b, genbits: expected_bits(slot) },
        )
    } else {
        on_record
    }
}

/// The report on bucket `b` of a device: on the bucket and its record first, then on its freespace
/// keys.
pub open spec fn lines_of(a: Seq<EntryView>, f: Seq<EntryView>, d: DevView, b: u64) -> Seq<
    AllocIssue,
> {
    bucket_head(a, f, d, b) + stale_keys(d, b, bits_of(f, d.dev_idx, b))
}

/// The report on the first `n` buckets of a device.
pub open spec fn bucket_lines(
    a: Seq<EntryView>,
    f: Seq<EntryView>,
    d: DevView,
    n: nat,
) -> Seq<AllocIssue>
    decreases n,
{
    if n == 0 {
        Seq::empty()
    } else {
        bucket_lines(a, f, d, (n - 1) as nat) + lines_of(a, f, d, (n - 1) as u64)
    }
}

/// The report on the first `k` devices.
pub open spec fn device_lines(
    a: Seq<EntryView>,
    f: Seq<EntryView>,
    devs: Seq<DevView>,
    k: nat,
) -> Seq<AllocIssue>
    decreases k,
{
    if k == 0 {
        Seq::empty()
    } else {
        let d = devs[k - 1];
        device_lines(a, f, devs, (k - 1) as nat) + bucket_lines(a, f, d, d.slots.len())
    }
}

/// The report on the generations of the first `n` buckets of a device.
pub open spec fn gen_lines(a: Seq<EntryView>, d: DevView, n: nat) -> Seq<AllocIssue>
    decreases n,
{
    if n == 0 {
        Seq::empty()
    } else {
        let t = gen_lines(a, d, (n - 1) as nat);
        let bucket = (n - 1) as u64;
        let actual_gen = d.slots[n - 1].gen;
        match recorded(a, d.dev_idx, bucket) {
            Some(r) => if r.gen != actual_gen {
                t.push(
                    AllocIssue::GenMismatch {
                        dev: d.dev_idx,
                        bucket,
                        recorded_gen: r.gen,
                        actual_gen,
                    },
                )
            } else {
                t
            },
            None => t,
        }
    }
}

/// The report on the generations of the buckets of the first `k` devices.
pub open spec fn all_gen_lines(a: Seq<EntryView>, devs: Seq<DevView>, k: nat) -> Seq<AllocIssue>
    decreases k,
{
    if k == 0 {
        Seq::empty()
    } else {
        let d = devs[k - 1];
        all_gen_lines(a, devs, (k - 1) as nat) + gen_lines(a, d, d.slots.len())
    }
}

/// The whole report: on records that cannot be read, on the buckets, on records without a bucket,
/// and at the end on generations.
pub open spec fn report_of(a: Seq<EntryView>, f: Seq<EntryView>, devs: Seq<DevView>) -> Seq<
    AllocIssue,
> {
    bad_records(a) + device_lines(a, f, devs, devs.len()) + all_orphan_lines(a, devs, 256)
        + all_gen_lines(a, devs, devs.len())
}

/// The report on the first `n` records of the device: one line for each bucket that is recorded and
/// not there.
pub open spec fn orphan_lines(a: Seq<EntryView>, devs: Seq<DevView>, dev: u8, n: nat) -> Seq<
    AllocIssue,
>
    decreases n,
{
    if n == 0 {
        Seq::empty()
    } else {
        let t = orphan_lines(a, devs, dev, (n - 1) as nat);
        let b = a[n - 1].pos.offset;
        if record_for(a[n - 1], dev, b) && !has_bucket(devs, dev, b) && !met(a, n - 1, dev, b) {
            t.push(AllocIssue::NoBucket { dev, bucket: b, recorded: recorded(a, dev, b)->0 })
        } else {
            t
        }
    }
}

/// The report on the records of buckets of the devices below `k` that are not there.
pub open spec fn all_orphan_lines(a: Seq<EntryView>, devs: Seq<DevView>, k: nat) -> Seq<AllocIssue>
    decreases k,
{
    if k == 0 {
        Seq::empty()
    } else {
        all_orphan_lines(a, devs, (k - 1) as nat) + orphan_lines(
            a,
            devs,
            (k - 1) as u8,
            a.len(),
        )
    }
}

fn report(out: &mut Vec<AllocIssue>, y: AllocIssue)
    ensures
        final(out)@ == old(out)@.push(y),
        forall|x: AllocIssue| #[trigger]
            final(out)@.contains(x) <==> old(out)@.contains(x) || x == y,
{
    let ghost o = out@;
    out.push(y);
    proof {
        assert forall|x: AllocIssue| #[trigger] out@.contains(x) <==> o.contains(x) || x == y by {
            if o.contains(x) {
                let i = choose|i: int| 0 <= i < o.len() && o[i] == x;
                assert(out@[i] == x);
            }
            if x == y {
                assert(out@[o.len() as int] == x);
            }
            if out@.contains(x) {
                let i = choose|i: int| 0 <= i < out@.len() && out@[i] == x;
                if i < o.len() {
                    assert(o[i] == x);
                }
            }
        }
    }
}

/// Reports the records that cannot be read.
fn check_records(out: &mut Vec<AllocIssue>, records: &Vec<KeyEntry>)
    ensures
        forall|x: AllocIssue| #[trigger]
            final(out)@.contains(x) <==> old(out)@.contains(x) || record_issue(keys(records@), x),
        final(out)@ == old(out)@ + bad_records(keys(records@)),
{
    let ghost a = keys(records@);
    let ghost o = out@;
    let mut i: usize = 0;
    while i < records.len()
        invariant
            i <= records.len(),
            a == keys(records@),
            o == old(out)@,
            out@ == o + bad_records(a.take(i as int)),
            forall|x: AllocIssue| #[trigger]
                out@.contains(x) <==> o.contains(x) || record_issue(a.take(i as int), x),
        decreases records.len() - i,
    {
        let e: &KeyEntry = &records[i];
        let ghost t = a.take(i as int);
        let ghost u = a.take(i + 1);
        proof {
            assert(u =~= t.push(a[i as int]));
            assert(u.drop_last() =~= t);
            assert(a[i as int] == e@);
            assert forall|x: AllocIssue| #[trigger] record_issue(u, x) <==> record_issue(t, x)
                || bad_record(e@) && x == (AllocIssue::BadRecord { bucket: e.pos.offset }) by {
                if record_issue(t, x) {
                    let j = choose|j: int|
                        0 <= j < t.len() && bad_record(#[trigger] t[j]) && t[j].pos.offset
                            == x->BadRecord_bucket;
                    assert(u[j] == t[j]);
                }
                if bad_record(e@) && x == (AllocIssue::BadRecord { bucket: e.pos.offset }) {
                    assert(u[i as int] == e@);
                }
                if record_issue(u, x) {
                    let j = choose|j: int|
                        0 <= j < u.len() && bad_record(#[trigger] u[j]) && u[j].pos.offset
                            == x->BadRecord_bucket;
                    if j < i {
                        assert(t[j] == u[j]);
                    }
                }
            }
        }
        if e.key_type == KeyType::Normal {
            if let KeyValue::Raw(bytes) = &e.value {
                if bytes.len() != ALLOC_ENTRY_BYTES {
                    report(out, AllocIssue::BadRecord { bucket: e.pos.offset });
                }
            }
        }
        assert(out@ =~= o + bad_records(u));
        i += 1;
    }
    assert(a.take(i as int) =~= a);
}

/// What is recorded of the buckets of a device.
pub(crate) fn records_of(records: &Vec<KeyEntry>, dev: u8) -> (r: HashMap<u64, BchAllocEntry>)
    ensures
        forall|b: u64| #[trigger]
            r@.contains_key(b) <==> recorded(keys(records@), dev, b) is Some,
        forall|b: u64|
            r@.contains_key(b) ==> #[trigger] r@[b] == recorded(keys(records@), dev, b)->0,
{
    let ghost a = keys(records@);
    let mut map: HashMap<u64, BchAllocEntry> = HashMap::new();
    let mut i: usize = 0;
    assert(a.take(0) =~= Seq::<EntryView>::empty());
    while i < records.len()
        invariant
            i <= records.len(),
            a == keys(records@),
            forall|b: u64| #[trigger]
                map@.contains_key(b) <==> recorded(a.take(i as int), dev, b) is Some,
            forall|b: u64|
                map@.contains_key(b) ==> #[trigger] map@[b] == recorded(
                    a.take(i as int),
                    dev,
                    b,
                )->0,
        decreases records.len() - i,
    {
        let e: &KeyEntry = &records[i];
        proof {
            let u = a.take(i + 1);
            assert(u.drop_last() =~= a.take(i as int));
            assert(u.last() == e@);
        }
        if e.key_type == KeyType::Normal && e.pos.inode == dev as u64 {
            if let KeyValue::Raw(bytes) = &e.value {
                if let Some(rec) = deserialize_alloc_entry(bytes) {
                    assert(record_for(e@, dev, e.pos.offset));
                    map.insert(e.pos.offset, rec);
                }
            }
        }
        i += 1;
    }
    assert(a.take(i as int) =~= a);
    map
}

fn actual_record(s: &BucketSlot) -> (r: BchAllocEntry)
    ensures
        r == actual(*s),
{
    BchAllocEntry {
        journal_seq_nonempty: s.bucket.journal_seq_nonempty,
        flags: RECORD_FLAGS,
        gen: s.gen,
        oldest_gen: s.bucket.oldest_gen,
        data_type: s.bucket.state.to_raw(),
        stripe_redundancy_obsolete: 0,
        dirty_sectors: s.bucket.dirty_sectors,
        cached_sectors: s.bucket.cached_sectors,
        io_time_read: 0,
        io_time_write: 0,
        stripe_refcount: 0,
        nr_external_backpointers: 0,
        journal_seq_empty: s.bucket.journal_seq_empty,
        stripe_sectors: s.bucket.stripe_sectors,
        pad: 0,
    }
}

fn expected_genbits(s: &BucketSlot) -> (r: u64)
    ensures
        r == expected_bits(*s),
{
    alloc_freespace_genbits(alloc_gc_gen(0, s.bucket.oldest_gen))
}

proof fn lemma_free_push(f: Seq<EntryView>, e: EntryView, dev: u8, b: u64, bits: u64)
    ensures
        has_free_key(f.push(e), dev, b, bits) <==> has_free_key(f, dev, b, bits) || free_key(
            e,
            dev,
            b,
        ) && pos_genbits(e.pos) == bits,
{
    let u = f.push(e);
    if has_free_key(f, dev, b, bits) {
        let i = choose|i: int|
            0 <= i < f.len() && free_key(#[trigger] f[i], dev, b) && pos_genbits(f[i].pos) == bits;
        assert(u[i] == f[i]);
    }
    if free_key(e, dev, b) && pos_genbits(e.pos) == bits {
        assert(u[f.len() as int] == e);
    }
    if has_free_key(u, dev, b, bits) {
        let i = choose|i: int|
            0 <= i < u.len() && free_key(#[trigger] u[i], dev, b) && pos_genbits(u[i].pos) == bits;
        if i < f.len() {
            assert(f[i] == u[i]);
        }
    }
}

/// The generation bits of the freespace keys of the buckets of a device, by bucket.
fn bits_by_bucket(free: &Vec<KeyEntry>, dev: &BchDev) -> (r: Vec<Vec<u64>>)
    ensures
        r@.len() == dev.slots@.len(),
        forall|b: int|
            0 <= b < r@.len() ==> (#[trigger] r@[b])@ == bits_of(
                keys(free@),
                dev.dev_idx,
                b as u64,
            ),
{
    let ghost f = keys(free@);
    let n: usize = dev.slots.len();
    let mut groups: Vec<Vec<u64>> = Vec::new();
    while groups.len() < n
        invariant
            groups@.len() <= n,
            forall|b: int| 0 <= b < groups@.len() ==> (#[trigger] groups@[b])@.len() == 0,
        decreases n - groups.len(),
    {
        groups.push(Vec::new());
    }
    let mut i: usize = 0;
    proof {
        assert forall|b: int| 0 <= b < n implies (#[trigger] groups@[b])@ == bits_of(
            f.take(0),
            dev.dev_idx,
            b as u64,
        ) by {
            assert(groups@[b]@ =~= Seq::<u64>::empty());
        }
    }
    while i < free.len()
        invariant
            i <= free.len(),
            f == keys(free@),
            n == dev.slots@.len(),
            groups@.len() == n,
            forall|b: int|
                0 <= b < n ==> (#[trigger] groups@[b])@ == bits_of(
                    f.take(i as int),
                    dev.dev_idx,
                    b as u64,
                ),
        decreases free.len() - i,
    {
        let e: &KeyEntry = &free[i];
        let bucket: u64 = alloc_freespace_bucket_idx(&e.pos);
        let bits: u64 = alloc_freespace_pos_genbits(&e.pos);
        let ghost g0 = groups@;
        proof {
            assert(f[i as int] == e@);
            assert(f.take(i + 1).drop_last() =~= f.take(i as int));
            assert(f.take(i + 1).last() == e@);
        }
        if e.key_type == KeyType::Normal && e.pos.inode % 256 == dev.dev_idx as u64 && bucket
            < n as u64 {
            groups[bucket as usize].push(bits);
            proof {
                assert forall|b: int| 0 <= b < n implies (#[trigger] groups@[b])@ == bits_of(
                    f.take(i + 1),
                    dev.dev_idx,
                    b as u64,
                ) by {
                    assert(g0[b]@ == bits_of(f.take(i as int), dev.dev_idx, b as u64));
                }
            }
        } else {
            proof {
                assert forall|b: int| 0 <= b < n implies (#[trigger] groups@[b])@ == bits_of(
                    f.take(i + 1),
                    dev.dev_idx,
                    b as u64,
                ) by {
                    assert(!free_key(e@, dev.dev_idx, b as u64));
                }
            }
        }
        i += 1;
    }
    assert(f.take(i as int) =~= f);
    groups
}

/// A key is there if its bits are among those of its bucket.
proof fn lemma_bits(f: Seq<EntryView>, dev: u8, b: u64, bits: u64)
    ensures
        bits_of(f, dev, b).contains(bits) <==> has_free_key(f, dev, b, bits),
    decreases f.len(),
{
    if f.len() > 0 {
        let t = f.drop_last();
        let s = bits_of(t, dev, b);
        lemma_bits(t, dev, b, bits);
        lemma_free_push(t, f.last(), dev, b, bits);
        assert(f =~= t.push(f.last()));
        lemma_push_contains(s, pos_genbits(f.last().pos), bits);
    }
}

proof fn lemma_push_contains<T>(s: Seq<T>, y: T, x: T)
    ensures
        s.push(y).contains(x) <==> s.contains(x) || x == y,
{
    let t = s.push(y);
    if s.contains(x) {
        let i = choose|i: int| 0 <= i < s.len() && s[i] == x;
        assert(t[i] == x);
    }
    if x == y {
        assert(t[s.len() as int] == x);
    }
    if t.contains(x) {
        let i = choose|i: int| 0 <= i < t.len() && t[i] == x;
        if i < s.len() {
            assert(s[i] == x);
        }
    }
}

proof fn lemma_cat_contains<T>(s: Seq<T>, t: Seq<T>, x: T)
    ensures
        (s + t).contains(x) <==> s.contains(x) || t.contains(x),
{
    let u = s + t;
    if s.contains(x) {
        let i = choose|i: int| 0 <= i < s.len() && s[i] == x;
        assert(u[i] == x);
    }
    if t.contains(x) {
        let i = choose|i: int| 0 <= i < t.len() && t[i] == x;
        assert(u[i + s.len()] == x);
    }
    if u.contains(x) {
        let i = choose|i: int| 0 <= i < u.len() && u[i] == x;
        if i < s.len() {
            assert(s[i] == x);
        } else {
            assert(t[i - s.len()] == x);
        }
    }
}

/// Reports on the freespace keys of a bucket that should not be there.
fn check_freespace(
    out: &mut Vec<AllocIssue>,
    bits: &Vec<u64>,
    slot: &BucketSlot,
    dev: u8,
    bucket: u64,
    Ghost(d): Ghost<DevView>,
)
    requires
        d.dev_idx == dev,
        d.slots[bucket as int] == *slot,
    ensures
        final(out)@ == old(out)@ + stale_keys(d, bucket, bits@),
{
    let ghost o = out@;
    let expected: u64 = expected_genbits(slot);
    let mut i: usize = 0;
    assert(out@ =~= o + stale_keys(d, bucket, bits@.take(0)));
    while i < bits.len()
        invariant
            i <= bits.len(),
            o == old(out)@,
            d.dev_idx == dev,
            d.slots[bucket as int] == *slot,
            expected == expected_bits(*slot),
            out@ == o + stale_keys(d, bucket, bits@.take(i as int)),
        decreases bits.len() - i,
    {
        let g: u64 = bits[i];
        proof {
            assert(bits@.take(i + 1).drop_last() =~= bits@.take(i as int));
            assert(bits@.take(i + 1).last() == g);
        }
        if slot.bucket.state != BchDataType::Free {
            out.push(AllocIssue::FreespaceInUse { dev, bucket, genbits: g });
        } else if g != expected {
            out.push(AllocIssue::StaleFreespace { dev, bucket, genbits: g, expected });
        }
        assert(out@ =~= o + stale_keys(d, bucket, bits@.take(i + 1)));
        i += 1;
    }
    assert(bits@.take(i as int) =~= bits@);
}

/// Whether the bits are among those of a bucket.
fn has_bits(bits: &Vec<u64>, g: u64) -> (r: bool)
    ensures
        r == bits@.contains(g),
{
    let mut i: usize = 0;
    while i < bits.len()
        invariant
            i <= bits.len(),
            forall|j: int| 0 <= j < i ==> bits@[j] != g,
        decreases bits.len() - i,
    {
        if bits[i] == g {
            return true;
        }
        i += 1;
    }
    false
}

/// Reports what does not fit about the buckets of the device, generations aside.
fn check_buckets(
    out: &mut Vec<AllocIssue>,
    records: &HashMap<u64, BchAllocEntry>,
    bits: &Vec<Vec<u64>>,
    dev: &BchDev,
    Ghost(a): Ghost<Seq<EntryView>>,
    Ghost(f): Ghost<Seq<EntryView>>,
)
    requires
        forall|b: u64| #[trigger]
            records@.contains_key(b) <==> recorded(a, dev.dev_idx, b) is Some,
        forall|b: u64|
            records@.contains_key(b) ==> #[trigger] records@[b] == recorded(a, dev.dev_idx, b)->0,
        bits@.len() == dev.slots@.len(),
        forall|b: int|
            0 <= b < bits@.len() ==> (#[trigger] bits@[b])@ == bits_of(f, dev.dev_idx, b as u64),
    ensures
        final(out)@ == old(out)@ + bucket_lines(a, f, dev@, dev.slots@.len()),
{
    let ghost o = out@;
    let mut b: usize = 0;
    while b < dev.slots.len()
        invariant
            b <= dev.slots.len(),
            o == old(out)@,
            forall|b: u64| #[trigger]
                records@.contains_key(b) <==> recorded(a, dev.dev_idx, b) is Some,
            forall|b: u64|
                records@.contains_key(b) ==> #[trigger] records@[b] == recorded(
                    a,
                    dev.dev_idx,
                    b,
                )->0,
            bits@.len() == dev.slots@.len(),
            forall|b: int|
                0 <= b < bits@.len() ==> (#[trigger] bits@[b])@ == bits_of(
                    f,
                    dev.dev_idx,
                    b as u64,
                ),
            out@ == o + bucket_lines(a, f, dev@, b as nat),
        decreases dev.slots.len() - b,
    {
        let slot: BucketSlot = dev.slots[b];
        let bucket: u64 = b as u64;
        let at: BchAllocEntry = actual_record(&slot);
        let expected: u64 = expected_genbits(&slot);
        let ghost before = out@;
        proof {
            assert(dev@.slots[b as int] == slot);
            lemma_bits(f, dev.dev_idx, bucket, expected);
        }
        match records.get(&bucket) {
            Some(r) => {
                if *r != at {
                    out.push(
                        AllocIssue::Mismatch {
                            dev: dev.dev_idx,
                            bucket,
                            recorded: *r,
                            actual: at,
                        },
                    );
                }
            },
            None => {
                out.push(AllocIssue::NoRecord { dev: dev.dev_idx, bucket });
            },
        }
        if slot.bucket.state == BchDataType::Free && !has_bits(&bits[b], expected) {
            out.push(AllocIssue::NoFreespace { dev: dev.dev_idx, bucket, genbits: expected });
        }
        assert(out@ =~= before + bucket_head(a, f, dev@, bucket));
        check_freespace(out, &bits[b], &slot, dev.dev_idx, bucket, Ghost(dev@));
        assert(out@ =~= o + (bucket_lines(a, f, dev@, b as nat) + lines_of(a, f, dev@, bucket)));
        b += 1;
    }
}

/// Reports the records of buckets of the device that are of another generation.
fn check_gens(
    out: &mut Vec<AllocIssue>,
    records: &HashMap<u64, BchAllocEntry>,
    dev: &BchDev,
    Ghost(a): Ghost<Seq<EntryView>>,
)
    requires
        forall|b: u64| #[trigger]
            records@.contains_key(b) <==> recorded(a, dev.dev_idx, b) is Some,
        forall|b: u64|
            records@.contains_key(b) ==> #[trigger] records@[b] == recorded(a, dev.dev_idx, b)->0,
    ensures
        final(out)@ == old(out)@ + gen_lines(a, dev@, dev.slots@.len()),
{
    let ghost o = out@;
    let mut b: usize = 0;
    while b < dev.slots.len()
        invariant
            b <= dev.slots.len(),
            o == old(out)@,
            forall|b: u64| #[trigger]
                records@.contains_key(b) <==> recorded(a, dev.dev_idx, b) is Some,
            forall|b: u64|
                records@.contains_key(b) ==> #[trigger] records@[b] == recorded(
                    a,
                    dev.dev_idx,
                    b,
                )->0,
            out@ == o + gen_lines(a, dev@, b as nat),
        decreases dev.slots.len() - b,
    {
        let bucket: u64 = b as u64;
        let actual_gen: u8 = dev.slots[b].gen;
        assert(dev@.slots[b as int].gen == actual_gen);
        if let Some(r) = records.get(&bucket) {
            if r.gen != actual_gen {
                out.push(
                    AllocIssue::GenMismatch {
                        dev: dev.dev_idx,
                        bucket,
                        recorded_gen: r.gen,
                        actual_gen,
                    },
                );
            }
        }
        assert(out@ =~= o + gen_lines(a, dev@, (b + 1) as nat));
        b += 1;
    }
}

proof fn lemma_stale_keys(d: DevView, b: u64, bits: Seq<u64>, x: AllocIssue)
    ensures
        stale_keys(d, b, bits).contains(x) <==> exists|g: u64| #[trigger]
            bits.contains(g) && key_issue(d, b, g) == Some(x),
    decreases bits.len(),
{
    if bits.len() > 0 {
        let t = bits.drop_last();
        let l = bits.last();
        assert(bits =~= t.push(l));
        lemma_stale_keys(d, b, t, x);
        assert forall|g: u64| #[trigger] bits.contains(g) <==> t.contains(g) || g == l by {
            lemma_push_contains(t, l, g);
        }
        if let Some(y) = key_issue(d, b, l) {
            lemma_push_contains(stale_keys(d, b, t), y, x);
        }
        if key_issue(d, b, l) == Some(x) {
            assert(bits.contains(l));
        }
        if exists|g: u64| #[trigger] t.contains(g) && key_issue(d, b, g) == Some(x) {
            let g = choose|g: u64| #[trigger] t.contains(g) && key_issue(d, b, g) == Some(x);
            assert(bits.contains(g));
        }
    }
}

/// The line is on a freespace key of one of the first `n` buckets.
spec fn on_key_below(x: AllocIssue, n: int) -> bool {
    match x {
        AllocIssue::StaleFreespace { bucket, .. } => bucket < n,
        AllocIssue::FreespaceInUse { bucket, .. } => bucket < n,
        _ => false,
    }
}

proof fn lemma_bucket_lines(
    a: Seq<EntryView>,
    f: Seq<EntryView>,
    d: DevView,
    n: nat,
    x: AllocIssue,
)
    requires
        n <= d.slots.len() <= u64::MAX,
    ensures
        bucket_lines(a, f, d, n).contains(x) <==> (freespace_issue(f, d, x) && on_key_below(
            x,
            n as int,
        )) || (bucket_issue(a, f, d, n as int, x) && !(x is GenMismatch)),
    decreases n,
{
    if n > 0 {
        let p = bucket_lines(a, f, d, (n - 1) as nat);
        let b = (n - 1) as u64;
        let dev = d.dev_idx;
        let slot = d.slots[b as int];
        let head = bucket_head(a, f, d, b);
        let tail = stale_keys(d, b, bits_of(f, dev, b));
        lemma_bucket_lines(a, f, d, (n - 1) as nat, x);
        lemma_cat_contains(p, lines_of(a, f, d, b), x);
        lemma_cat_contains(head, tail, x);
        lemma_stale_keys(d, b, bits_of(f, dev, b), x);
        assert forall|g: u64| #[trigger] bits_of(f, dev, b).contains(g) <==> has_free_key(
            f,
            dev,
            b,
            g,
        ) by {
            lemma_bits(f, dev, b, g);
        }
        let on_record = match recorded(a, dev, b) {
            None => seq![AllocIssue::NoRecord { dev, bucket: b }],
            Some(r) => if r != actual(slot) {
                seq![AllocIssue::Mismatch { dev, bucket: b, recorded: r, actual: actual(slot) }]
            } else {
                Seq::empty()
            },
        };
        let i3 = AllocIssue::NoFreespace { dev, bucket: b, genbits: expected_bits(slot) };
        lemma_push_contains(on_record, i3, x);
        assert(on_record.contains(x) <==> on_record.len() > 0 && on_record[0] == x);
        match x {
            AllocIssue::StaleFreespace { genbits, .. } => {
                if freespace_issue(f, d, x) && x->StaleFreespace_bucket == b {
                    assert(bits_of(f, dev, b).contains(genbits));
                }
            },
            AllocIssue::FreespaceInUse { genbits, .. } => {
                if freespace_issue(f, d, x) && x->FreespaceInUse_bucket == b {
                    assert(bits_of(f, dev, b).contains(genbits));
                }
            },
            _ => {},
        }
    }
}

proof fn lemma_gen_lines(a: Seq<EntryView>, f: Seq<EntryView>, d: DevView, n: nat, x: AllocIssue)
    requires
        n <= d.slots.len() <= u64::MAX,
    ensures
        gen_lines(a, d, n).contains(x) <==> bucket_issue(a, f, d, n as int, x) && x is GenMismatch,
    decreases n,
{
    if n > 0 {
        let t = gen_lines(a, d, (n - 1) as nat);
        lemma_gen_lines(a, f, d, (n - 1) as nat, x);
        if let Some(r) = recorded(a, d.dev_idx, (n - 1) as u64) {
            let y = AllocIssue::GenMismatch {
                dev: d.dev_idx,
                bucket: (n - 1) as u64,
                recorded_gen: r.gen,
                actual_gen: d.slots[n - 1].gen,
            };
            lemma_push_contains(t, y, x);
        }
    }
}

/// The reports on the devices tell all that does not fit about them.
proof fn lemma_device_lines(
    a: Seq<EntryView>,
    f: Seq<EntryView>,
    devs: Seq<DevView>,
    k: nat,
    x: AllocIssue,
)
    requires
        k <= devs.len(),
        forall|i: int| 0 <= i < devs.len() ==> (#[trigger] devs[i]).slots.len() <= u64::MAX,
    ensures
        device_lines(a, f, devs, k).contains(x) || all_gen_lines(a, devs, k).contains(x)
            <==> device_issue(a, f, devs, k as int, x),
    decreases k,
{
    if k > 0 {
        let d = devs[k - 1];
        let n = d.slots.len();
        lemma_device_lines(a, f, devs, (k - 1) as nat, x);
        lemma_cat_contains(
            device_lines(a, f, devs, (k - 1) as nat),
            bucket_lines(a, f, d, n),
            x,
        );
        lemma_cat_contains(all_gen_lines(a, devs, (k - 1) as nat), gen_lines(a, d, n), x);
        lemma_bucket_lines(a, f, d, n, x);
        lemma_gen_lines(a, f, d, n, x);
        assert(bucket_lines(a, f, d, n).contains(x) || gen_lines(a, d, n).contains(x)
            <==> freespace_issue(f, d, x) || bucket_issue(a, f, d, n as int, x));
        if device_issue(a, f, devs, k - 1, x) {
            let j = choose|j: int|
                0 <= j < k - 1 && (freespace_issue(f, #[trigger] devs[j], x) || bucket_issue(
                    a,
                    f,
                    devs[j],
                    devs[j].slots.len() as int,
                    x,
                ));
            assert(0 <= j < k);
        }
    }
}

/// A record of a bucket is found where there is one.
proof fn lemma_recorded_at(a: Seq<EntryView>, dev: u8, b: u64)
    ensures
        recorded(a, dev, b) is Some <==> exists|i: int|
            0 <= i < a.len() && record_for(#[trigger] a[i], dev, b),
    decreases a.len(),
{
    if a.len() > 0 {
        let t = a.drop_last();
        lemma_recorded_at(t, dev, b);
        if record_for(a.last(), dev, b) {
            assert(record_for(a[a.len() - 1], dev, b));
        }
        if exists|i: int| 0 <= i < a.len() && record_for(#[trigger] a[i], dev, b) {
            let i = choose|i: int| 0 <= i < a.len() && record_for(#[trigger] a[i], dev, b);
            if i < t.len() {
                assert(t[i] == a[i]);
            }
        }
        if exists|i: int| 0 <= i < t.len() && record_for(#[trigger] t[i], dev, b) {
            let i = choose|i: int| 0 <= i < t.len() && record_for(#[trigger] t[i], dev, b);
            assert(a[i] == t[i]);
        }
    }
}

/// Reports the records of buckets of one device that are not there.
fn check_orphans(
    out: &mut Vec<AllocIssue>,
    records: &Vec<KeyEntry>,
    allocator: &BchAllocator,
    dev: u8,
)
    requires
        allocator.wf(),
    ensures
        forall|x: AllocIssue| #[trigger]
            final(out)@.contains(x) <==> old(out)@.contains(x) || (orphan_issue(
                keys(records@),
                allocator@,
                x,
            ) && x->NoBucket_dev == dev),
        final(out)@ == old(out)@ + orphan_lines(
            keys(records@),
            allocator@,
            dev,
            keys(records@).len(),
        ),
{
    let ghost a = keys(records@);
    let ghost o = out@;
    let mut map: HashMap<u64, BchAllocEntry> = records_of(records, dev);
    let n: u64 = match allocator.device(dev) {
        None => 0,
        Some(d) => {
            assert(allocator@[d as int] == allocator.devs@[d as int]@);
            allocator.devs[d].slots.len() as u64
        },
    };
    let mut i: usize = 0;
    while i < records.len()
        invariant
            i <= records.len(),
            a == keys(records@),
            o == old(out)@,
            forall|b: u64| #[trigger]
                map@.contains_key(b) <==> recorded(a, dev, b) is Some && (b < n || !met(
                    a,
                    i as int,
                    dev,
                    b,
                )),
            out@ == o + orphan_lines(a, allocator@, dev, i as nat),
            forall|b: u64|
                map@.contains_key(b) ==> #[trigger] map@[b] == recorded(a, dev, b)->0,
            n == match dev_index(allocator@, dev) {
                Some(d) => allocator@[d].slots.len() as int,
                None => 0,
            },
            forall|x: AllocIssue| #[trigger]
                out@.contains(x) <==> o.contains(x) || (orphan_issue(a, allocator@, x)
                    && x->NoBucket_dev == dev && met(a, i as int, dev, x->NoBucket_bucket)),
        decreases records.len() - i,
    {
        let e: &KeyEntry = &records[i];
        proof {
            assert(a[i as int] == e@);
            assert forall|b: u64| #[trigger] met(a, i + 1, dev, b) <==> met(a, i as int, dev, b)
                || record_for(e@, dev, b) by {
                if record_for(e@, dev, b) {
                    assert(record_for(a[i as int], dev, b));
                }
            }
        }
        let is_rec: bool = if e.key_type == KeyType::Normal && e.pos.inode == dev as u64 {
            match &e.value {
                KeyValue::Raw(bytes) => bytes.len() == ALLOC_ENTRY_BYTES,
                _ => false,
            }
        } else {
            false
        };
        if is_rec && e.pos.offset >= n {
            proof {
                assert(record_for(a[i as int], dev, e.pos.offset));
                lemma_recorded_at(a, dev, e.pos.offset);
            }
            if let Some(r) = map.remove(&e.pos.offset) {
                report(out, AllocIssue::NoBucket { dev, bucket: e.pos.offset, recorded: r });
            }
        }
        assert(out@ =~= o + orphan_lines(a, allocator@, dev, (i + 1) as nat));
        i += 1;
    }
    proof {
        assert forall|x: AllocIssue|
            orphan_issue(a, allocator@, x) && x->NoBucket_dev == dev implies #[trigger] met(
            a,
            a.len() as int,
            dev,
            x->NoBucket_bucket,
        ) by {
            lemma_recorded_at(a, dev, x->NoBucket_bucket);
        }
    }
}

/// One of the first `n` entries is a record of the bucket.
pub open spec fn met(a: Seq<EntryView>, n: int, dev: u8, b: u64) -> bool {
    exists|i: int| 0 <= i < n && record_for(#[trigger] a[i], dev, b)
}

/// Checks the allocation records against the buckets and against the freespace keys, and reports
/// all that does not fit: a record that cannot be read, differs from its bucket or is of a bucket
/// that is not there; a bucket without record; a free bucket without its freespace key; and
/// freespace keys of other generations, or of buckets that are not free.
pub fn bch2_check_alloc_info(vol: &BchVol, allocator: &BchAllocator) -> (r: Result<
    Vec<AllocIssue>,
    StorageError,
>)
    requires
        vol.wf(),
        allocator.wf(),
    ensures
        r is Ok,
        ({
            let a = vol.tree(BtreeId::Alloc).contents();
            let f = vol.tree(BtreeId::Freespace).contents();
            let devs = allocator@;
            &&& r->Ok_0@ == report_of(a, f, devs)
            &&& forall|x: AllocIssue| #[trigger]
                r->Ok_0@.contains(x) <==> record_issue(a, x) || device_issue(
                    a,
                    f,
                    devs,
                    devs.len() as int,
                    x,
                ) || orphan_issue(a, devs, x)
        }),
{
    let ghost a = vol.tree(BtreeId::Alloc).contents();
    let ghost f = vol.tree(BtreeId::Freespace).contents();
    let ghost devs = allocator@;
    let records: Vec<KeyEntry> = vol.btree(BtreeId::Alloc).for_each_btree_key_entry();
    let free: Vec<KeyEntry> = vol.btree(BtreeId::Freespace).for_each_btree_key_entry();
    let mut out: Vec<AllocIssue> = Vec::new();
    check_records(&mut out, &records);
    let ghost bad = bad_records(a);
    assert(out@ =~= bad);
    let mut d: usize = 0;
    assert(out@ =~= bad + device_lines(a, f, devs, 0));
    while d < allocator.devs.len()
        invariant
            allocator.wf(),
            devs == allocator@,
            a == keys(records@),
            f == keys(free@),
            d <= allocator.devs.len(),
            out@ == bad + device_lines(a, f, devs, d as nat),
        decreases allocator.devs.len() - d,
    {
        let dev: &BchDev = &allocator.devs[d];
        assert(devs[d as int] == dev@);
        let map: HashMap<u64, BchAllocEntry> = records_of(&records, dev.dev_idx);
        let bits: Vec<Vec<u64>> = bits_by_bucket(&free, dev);
        check_buckets(&mut out, &map, &bits, dev, Ghost(a), Ghost(f));
        assert(out@ =~= bad + device_lines(a, f, devs, (d + 1) as nat));
        d += 1;
    }
    let ghost head = out@;
    proof {
        assert forall|x: AllocIssue| #[trigger] bad.contains(x) <==> record_issue(a, x) by {}
    }
    assert(out@ =~= head + all_orphan_lines(a, devs, 0));
    let mut k: u16 = 0;
    while k < 256
        invariant
            k <= 256,
            allocator.wf(),
            devs == allocator@,
            a == keys(records@),
            out@ == head + all_orphan_lines(a, devs, k as nat),
            forall|x: AllocIssue| #[trigger]
                out@.contains(x) <==> head.contains(x) || (orphan_issue(a, devs, x)
                    && x->NoBucket_dev < k),
        decreases 256 - k,
    {
        check_orphans(&mut out, &records, allocator, k as u8);
        assert(out@ =~= head + all_orphan_lines(a, devs, (k + 1) as nat));
        k += 1;
    }
    let ghost most = out@;
    let mut e: usize = 0;
    assert(out@ =~= most + all_gen_lines(a, devs, 0));
    while e < allocator.devs.len()
        invariant
            allocator.wf(),
            devs == allocator@,
            a == keys(records@),
            e <= allocator.devs.len(),
            out@ == most + all_gen_lines(a, devs, e as nat),
        decreases allocator.devs.len() - e,
    {
        let dev: &BchDev = &allocator.devs[e];
        assert(devs[e as int] == dev@);
        let map: HashMap<u64, BchAllocEntry> = records_of(&records, dev.dev_idx);
        check_gens(&mut out, &map, dev, Ghost(a));
        assert(out@ =~= most + all_gen_lines(a, devs, (e + 1) as nat));
        e += 1;
    }
    proof {
        let n = devs.len();
        assert forall|i: int| 0 <= i < devs.len() implies (#[trigger] devs[i]).slots.len()
            <= u64::MAX by {
            assert(devs[i] == allocator.devs@[i]@);
            assert(allocator.devs@[i].slots.len() == devs[i].slots.len());
        }
        assert forall|x: AllocIssue| #[trigger] out@.contains(x) <==> record_issue(a, x)
            || device_issue(a, f, devs, n as int, x) || orphan_issue(a, devs, x) by {
            lemma_cat_contains(most, all_gen_lines(a, devs, n), x);
            lemma_cat_contains(bad, device_lines(a, f, devs, n), x);
            lemma_device_lines(a, f, devs, n, x);
        }
    }
    Ok(out)
}

/// A record is at fault where it differs from its bucket in the generations, the type, a count of
/// sectors or a place in the journal, or where one of its other fields is not as a fresh record has
/// it. A bucket is at fault without a record, and a record with another generation than its bucket's
/// is reported for that too.
pub proof fn law_records_are_checked_in_full(
    a: Seq<EntryView>,
    f: Seq<EntryView>,
    d: DevView,
    b: u64,
    r: BchAllocEntry,
    t: BchAllocEntry,
)
    requires
        b < d.slots.len(),
        recorded(a, d.dev_idx, b) == Some(r),
    ensures
        ({
            let s = d.slots[b as int];
            let n = d.slots.len() as int;
            let dev = d.dev_idx;
            let same = {
                &&& t.gen == s.gen
                &&& t.oldest_gen == s.bucket.oldest_gen
                &&& t.data_type == s.bucket.state.num()
                &&& t.dirty_sectors == s.bucket.dirty_sectors
                &&& t.cached_sectors == s.bucket.cached_sectors
                &&& t.stripe_sectors == s.bucket.stripe_sectors
                &&& t.journal_seq_nonempty == s.bucket.journal_seq_nonempty
                &&& t.journal_seq_empty == s.bucket.journal_seq_empty
                &&& t.flags == 32
                &&& t.stripe_redundancy_obsolete == 0
                &&& t.io_time_read == 0
                &&& t.io_time_write == 0
                &&& t.stripe_refcount == 0
                &&& t.nr_external_backpointers == 0
                &&& t.pad == 0
            };
            &&& bucket_issue(
                a,
                f,
                d,
                n,
                (AllocIssue::Mismatch { dev, bucket: b, recorded: r, actual: t }),
            ) <==> same && r != t
            &&& !bucket_issue(a, f, d, n, (AllocIssue::NoRecord { dev, bucket: b }))
            &&& r.gen != s.gen ==> bucket_issue(
                a,
                f,
                d,
                n,
                (AllocIssue::GenMismatch {
                    dev,
                    bucket: b,
                    recorded_gen: r.gen,
                    actual_gen: s.gen,
                }),
            )
        }),
{
}

/// A free bucket has a freespace key at its number, with the upper half of how far its oldest
/// generation is back in the top byte; every other freespace key at its number is at fault, and so is
/// each one at the number of a bucket that is not free.
pub proof fn law_freespace_is_checked(
    a: Seq<EntryView>,
    f: Seq<EntryView>,
    d: DevView,
    b: u64,
    i: int,
)
    requires
        b < d.slots.len() <= 0x100_0000_0000_0000,
        0 <= i < f.len(),
        f[i].key_type == KeyType::Normal,
        f[i].pos.inode % 256 == d.dev_idx,
        f[i].pos.offset % 0x100_0000_0000_0000 == b,
    ensures
        ({
            let s = d.slots[b as int];
            let n = d.slots.len() as int;
            let dev = d.dev_idx;
            let back = if s.bucket.oldest_gen == 0 {
                0
            } else {
                256 - s.bucket.oldest_gen
            };
            let bits = (f[i].pos.offset - b) as u64;
            let right = (back / 16 * 0x100_0000_0000_0000) as u64;
            if s.bucket.state == BchDataType::Free {
                &&& bits == right ==> !bucket_issue(
                    a,
                    f,
                    d,
                    n,
                    (AllocIssue::NoFreespace { dev, bucket: b, genbits: right }),
                )
                &&& bits != right ==> freespace_issue(
                    f,
                    d,
                    (AllocIssue::StaleFreespace { dev, bucket: b, genbits: bits, expected: right }),
                )
            } else {
                freespace_issue(
                    f,
                    d,
                    (AllocIssue::FreespaceInUse { dev, bucket: b, genbits: bits }),
                )
            }
        }),
{
    let s = d.slots[b as int];
    let o = s.bucket.oldest_gen;
    let back = if o == 0 {
        0int
    } else {
        256 - o
    };
    assert(gc_gen(0, o) == back);
    assert(expected_bits(s) == (back / 16 * 0x100_0000_0000_0000) as u64);
    assert(free_key(f[i], d.dev_idx, b));
    assert(pos_genbits(f[i].pos) == (f[i].pos.offset - b) as u64);
}

/// A free bucket without any freespace key at its number is reported.
pub proof fn law_missing_freespace_is_found(
    a: Seq<EntryView>,
    f: Seq<EntryView>,
    d: DevView,
    b: u64,
)
    requires
        b < d.slots.len(),
        d.slots[b as int].bucket.state == BchDataType::Free,
        forall|i: int|
            0 <= i < f.len() ==> (#[trigger] f[i]).pos.offset % 0x100_0000_0000_0000 != b,
    ensures
        exists|g: u64|
            bucket_issue(
                a,
                f,
                d,
                d.slots.len() as int,
                #[trigger] missing_key(d.dev_idx, b, g),
            ),
{
    let g = expected_bits(d.slots[b as int]);
    assert(bucket_issue(a, f, d, d.slots.len() as int, missing_key(d.dev_idx, b, g)));
}

pub open spec fn missing_key(dev: u8, bucket: u64, genbits: u64) -> AllocIssue {
    AllocIssue::NoFreespace { dev, bucket, genbits }
}

/// What is recorded of a bucket is the last record of 64 bytes at its device and number; a value of
/// another length is no record.
pub proof fn law_last_record_counts(s: Seq<EntryView>, e: EntryView, dev: u8, b: u64)
    ensures
        e.key_type == KeyType::Normal && e.value is Raw && e.value->Raw_0.len() == 64
            && e.pos.inode == dev && e.pos.offset == b ==> recorded(s.push(e), dev, b) == Some(
            alloc_from(e.value->Raw_0),
        ),
        e.pos.inode != dev || e.pos.offset != b || !(e.value is Raw) || e.value->Raw_0.len() != 64
            || e.key_type != KeyType::Normal ==> recorded(s.push(e), dev, b) == recorded(s, dev, b),
        recorded(Seq::empty(), dev, b) is None,
        e.key_type == KeyType::Normal && e.value is Raw ==> (bad_record(e) <==> e.value->Raw_0.len()
            != 64),
{
    assert(s.push(e).drop_last() =~= s);
}

/// The report is complete: what is at fault with a bucket or a freespace key of any device stands in
/// it, and so does a value that is no record and a record for which there is no bucket.
pub proof fn law_report_is_complete(
    a: Seq<EntryView>,
    f: Seq<EntryView>,
    devs: Seq<DevView>,
    d: int,
    i: int,
    x: AllocIssue,
)
    ensures
        0 <= d < devs.len() && (bucket_issue(a, f, devs[d], devs[d].slots.len() as int, x)
            || freespace_issue(f, devs[d], x)) ==> device_issue(a, f, devs, devs.len() as int, x),
        0 <= i < a.len() && a[i].key_type == KeyType::Normal && a[i].value is Raw
            && a[i].value->Raw_0.len() != 64 ==> record_issue(
            a,
            (AllocIssue::BadRecord { bucket: a[i].pos.offset }),
        ),
        forall|dev: u8, b: u64, r: BchAllocEntry|
            recorded(a, dev, b) == Some(r) && (forall|j: int|
                0 <= j < devs.len() ==> (#[trigger] devs[j]).dev_idx != dev)
                ==> #[trigger] orphan_issue(a, devs, missing_bucket(dev, b, r)),
{
    if 0 <= i < a.len() && a[i].key_type == KeyType::Normal && a[i].value is Raw
        && a[i].value->Raw_0.len() != 64 {
        assert(bad_record(a[i]));
    }
    assert forall|dev: u8, b: u64, r: BchAllocEntry|
        recorded(a, dev, b) == Some(r) && (forall|j: int|
            0 <= j < devs.len() ==> (#[trigger] devs[j]).dev_idx != dev) implies #[trigger]
        orphan_issue(a, devs, missing_bucket(dev, b, r)) by {
        assert(dev_index(devs, dev) is None);
    }
}

pub open spec fn missing_bucket(dev: u8, bucket: u64, recorded: BchAllocEntry) -> AllocIssue {
    AllocIssue::NoBucket { dev, bucket, recorded }
}

} // verus!
