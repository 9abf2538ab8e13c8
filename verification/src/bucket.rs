//! Buckets of devices: what they hold, and what is recorded of them.

use crate::bytes::{
    byte_limit, le_bytes, lemma_le_bound, lemma_le_bytes, lemma_le_one, lemma_limits, num_at,
    push_le, read_le,
};
use crate::key::{Bpos, ExtentPtr};
use vstd::prelude::*;

verus! {

/// Sectors of a block.
pub const SECTORS_PER_BLOCK: u64 = 8;

/// Blocks of a bucket of the usual size.
pub const BLOCKS_PER_BUCKET: u64 = 256;

/// The largest block address that a pointer can hold.
pub const ADDR48_MAX: u64 = 0xFFFF_FFFF_FFFF;

/// A bucket may not be reused once it is this many generations ahead of its oldest pointer.
pub const BUCKET_GC_GEN_MAX: u8 = 96;

/// Length of an allocation record.
pub const ALLOC_ENTRY_BYTES: usize = 64;

/// What a bucket holds.
#[derive(Debug, Clone, Copy, PartialEq, Eq, Hash, Structural)]
pub enum BchDataType {
    Free,
    Sb,
    Journal,
    Btree,
    User,
    Cached,
    Parity,
    Stripe,
    NeedGcGens,
    NeedDiscard,
    Unstriped,
}

impl BchDataType {
    /// The number on disk.
    pub open spec fn num(self) -> u8 {
        match self {
            BchDataType::Free => 0,
            BchDataType::Sb => 1,
            BchDataType::Journal => 2,
            BchDataType::Btree => 3,
            BchDataType::User => 4,
            BchDataType::Cached => 5,
            BchDataType::Parity => 6,
            BchDataType::Stripe => 7,
            BchDataType::NeedGcGens => 8,
            BchDataType::NeedDiscard => 9,
            BchDataType::Unstriped => 10,
        }
    }

    pub fn to_raw(self) -> (r: u8)
        ensures
            r == self.num(),
    {
        match self {
            BchDataType::Free => 0,
            BchDataType::Sb => 1,
            BchDataType::Journal => 2,
            BchDataType::Btree => 3,
            BchDataType::User => 4,
            BchDataType::Cached => 5,
            BchDataType::Parity => 6,
            BchDataType::Stripe => 7,
            BchDataType::NeedGcGens => 8,
            BchDataType::NeedDiscard => 9,
            BchDataType::Unstriped => 10,
        }
    }

    /// The type with a number.
    pub fn from_raw(v: u8) -> (r: Option<BchDataType>)
        ensures
            r is Some <==> v <= 10,
            r is Some ==> r->0.num() == v,
    {
        match v {
            0 => Some(BchDataType::Free),
            1 => Some(BchDataType::Sb),
            2 => Some(BchDataType::Journal),
            3 => Some(BchDataType::Btree),
            4 => Some(BchDataType::User),
            5 => Some(BchDataType::Cached),
            6 => Some(BchDataType::Parity),
            7 => Some(BchDataType::Stripe),
            8 => Some(BchDataType::NeedGcGens),
            9 => Some(BchDataType::NeedDiscard),
            10 => Some(BchDataType::Unstriped),
            _ => None,
        }
    }

    /// A bucket of this type is in use.
    pub open spec fn in_use(self) -> bool {
        self != BchDataType::Free && self != BchDataType::NeedDiscard
    }

    /// A bucket of this type holds nothing.
    pub open spec fn is_empty(self) -> bool {
        self == BchDataType::Free || self == BchDataType::NeedGcGens || self
            == BchDataType::NeedDiscard
    }
}

/// The type of the bucket that data of a type goes to: cached and striped data is user data.
#[verifier::allow_in_spec]
pub fn bucket_data_type(t: BchDataType) -> BchDataType
    returns
        (if t == BchDataType::Cached || t == BchDataType::Stripe {
            BchDataType::User
        } else {
            t
        }),
{
    if t == BchDataType::Cached || t == BchDataType::Stripe {
        BchDataType::User
    } else {
        t
    }
}

/// How far a bucket is ahead of its oldest pointer; generations wrap around.
pub open spec fn gc_gen(gen: u8, oldest_gen: u8) -> int {
    (gen - oldest_gen) % 256
}

pub fn alloc_gc_gen(gen: u8, oldest_gen: u8) -> (r: u8)
    ensures
        r == gc_gen(gen, oldest_gen),
{
    gen.wrapping_sub(oldest_gen)
}

/// What a bucket holds by its sector counts; `hint` tells kinds of data apart.
pub open spec fn derived(
    dirty_sectors: u32,
    cached_sectors: u32,
    stripe_sectors: u32,
    stripe_refcount: u32,
    gen: u8,
    oldest_gen: u8,
    hint: BchDataType,
) -> BchDataType {
    if stripe_refcount > 0 {
        if hint == BchDataType::Parity {
            hint
        } else {
            BchDataType::Stripe
        }
    } else if dirty_sectors > 0 {
        bucket_data_type(hint)
    } else if stripe_sectors > 0 {
        BchDataType::Unstriped
    } else if cached_sectors > 0 {
        BchDataType::Cached
    } else if gc_gen(gen, oldest_gen) >= BUCKET_GC_GEN_MAX {
        BchDataType::NeedGcGens
    } else {
        BchDataType::Free
    }
}

pub fn derive_data_type(
    dirty_sectors: u32,
    cached_sectors: u32,
    stripe_sectors: u32,
    stripe_refcount: u32,
    gen: u8,
    oldest_gen: u8,
    hint: BchDataType,
) -> (r: BchDataType)
    ensures
        r == derived(
            dirty_sectors,
            cached_sectors,
            stripe_sectors,
            stripe_refcount,
            gen,
            oldest_gen,
            hint,
        ),
{
    if stripe_refcount > 0 {
        if hint == BchDataType::Parity {
            hint
        } else {
            BchDataType::Stripe
        }
    } else if dirty_sectors > 0 {
        bucket_data_type(hint)
    } else if stripe_sectors > 0 {
        BchDataType::Unstriped
    } else if cached_sectors > 0 {
        BchDataType::Cached
    } else if alloc_gc_gen(gen, oldest_gen) >= BUCKET_GC_GEN_MAX {
        BchDataType::NeedGcGens
    } else {
        BchDataType::Free
    }
}

/// What a pointer into a bucket comes to.
#[derive(Debug, Clone, Copy, PartialEq, Eq, Structural)]
pub enum RefCheck {
    /// The pointer is good.
    Current,
    /// The pointer is to a copy that is gone; that is no fault.
    StaleCached,
    /// The pointer and the bucket contradict each other.
    Bad,
}

/// A pointer is good where its generation is that of the bucket and the bucket holds nothing else
/// than such data. It is at fault where it is ahead of the bucket, too far behind, or behind
/// without being cached.
pub open spec fn ref_check(
    gen: u8,
    ptr_gen: u8,
    ptr_cached: bool,
    ptr_type: BchDataType,
    current: BchDataType,
) -> RefCheck {
    let behind = gc_gen(gen, ptr_gen);
    if behind >= 128 || behind > BUCKET_GC_GEN_MAX {
        RefCheck::Bad
    } else if behind > 0 {
        if ptr_cached {
            RefCheck::StaleCached
        } else {
            RefCheck::Bad
        }
    } else if !current.is_empty() && bucket_data_type(current) != bucket_data_type(ptr_type) {
        RefCheck::Bad
    } else {
        RefCheck::Current
    }
}

pub fn bucket_ref_update_checks(
    gen: u8,
    ptr_gen: u8,
    ptr_cached: bool,
    ptr_type: BchDataType,
    current: BchDataType,
) -> (r: RefCheck)
    ensures
        r == ref_check(gen, ptr_gen, ptr_cached, ptr_type, current),
{
    let behind: u8 = alloc_gc_gen(gen, ptr_gen);
    if behind >= 128 || behind > BUCKET_GC_GEN_MAX {
        return RefCheck::Bad;
    }
    if behind > 0 {
        return if ptr_cached {
            RefCheck::StaleCached
        } else {
            RefCheck::Bad
        };
    }
    let holds_nothing: bool = current == BchDataType::Free || current == BchDataType::NeedGcGens
        || current == BchDataType::NeedDiscard;
    if !holds_nothing && bucket_data_type(current) != bucket_data_type(ptr_type) {
        RefCheck::Bad
    } else {
        RefCheck::Current
    }
}

/// What is known of a bucket at run time.
#[derive(Debug, Clone, Copy, PartialEq, Eq, Structural)]
pub struct Bucket {
    pub state: BchDataType,
    pub dirty_sectors: u32,
    pub cached_sectors: u32,
    pub stripe_sectors: u32,
    pub oldest_gen: u8,
    pub journal_seq_nonempty: u64,
    pub journal_seq_empty: u64,
    pub flags: u8,
}

/// What a walk over all references found of a bucket.
#[derive(Debug, Clone, Copy, PartialEq, Eq, Structural)]
pub struct GcBucket {
    pub gen: u8,
    pub gen_valid: bool,
    pub data_type: u8,
    pub dirty_sectors: u32,
    pub cached_sectors: u32,
}

impl GcBucket {
    /// Nothing was found.
    #[verifier::allow_in_spec]
    pub fn zero() -> GcBucket
        returns
            (GcBucket {
                gen: 0,
                gen_valid: false,
                data_type: 0,
                dirty_sectors: 0,
                cached_sectors: 0,
            }),
    {
        GcBucket { gen: 0, gen_valid: false, data_type: 0, dirty_sectors: 0, cached_sectors: 0 }
    }
}

/// A bucket with its generation.
#[derive(Debug, Clone, Copy, PartialEq, Eq, Structural)]
pub struct BucketSlot {
    pub bucket: Bucket,
    pub gc: GcBucket,
    pub gen: u8,
}

impl BucketSlot {
    /// A bucket that was never used.
    #[verifier::allow_in_spec]
    pub fn fresh() -> BucketSlot
        returns
            (BucketSlot {
                bucket: Bucket {
                    state: BchDataType::Free,
                    dirty_sectors: 0,
                    cached_sectors: 0,
                    stripe_sectors: 0,
                    oldest_gen: 0,
                    journal_seq_nonempty: 0,
                    journal_seq_empty: 0,
                    flags: 0,
                },
                gc: GcBucket::zero(),
                gen: 0,
            }),
    {
        BucketSlot {
            bucket: Bucket {
                state: BchDataType::Free,
                dirty_sectors: 0,
                cached_sectors: 0,
                stripe_sectors: 0,
                oldest_gen: 0,
                journal_seq_nonempty: 0,
                journal_seq_empty: 0,
                flags: 0,
            },
            gc: GcBucket::zero(),
            gen: 0,
        }
    }
}

/// A device and its buckets.
#[derive(Debug)]
pub struct BchDev {
    pub dev_idx: u8,
    /// Sectors of a bucket.
    pub bucket_size: u64,
    pub slots: Vec<BucketSlot>,
}

/// The mathematical content of a `BchDev`.
#[verifier::ext_equal]
pub struct DevView {
    pub dev_idx: u8,
    pub bucket_size: u64,
    pub slots: Seq<BucketSlot>,
}

impl View for BchDev {
    type V = DevView;

    open spec fn view(&self) -> DevView {
        DevView { dev_idx: self.dev_idx, bucket_size: self.bucket_size, slots: self.slots@ }
    }
}

/// The devices of a volume, with their buckets.
#[derive(Debug)]
pub struct BchAllocator {
    pub devs: Vec<BchDev>,
}

impl View for BchAllocator {
    type V = Seq<DevView>;

    open spec fn view(&self) -> Seq<DevView> {
        self.devs@.map_values(|d: BchDev| d@)
    }
}

/// Sectors of the largest bucket.
pub const MAX_BUCKET_SIZE: u64 = 0xFFFF_FFFF;

/// Every device is there once, and its buckets have a size.
pub open spec fn devs_ok(s: Seq<DevView>) -> bool {
    &&& forall|i: int| 0 <= i < s.len() ==> 0 < (#[trigger] s[i]).bucket_size <= MAX_BUCKET_SIZE
    &&& forall|i: int, j: int|
        0 <= i < j < s.len() ==> (#[trigger] s[i]).dev_idx != (#[trigger] s[j]).dev_idx
}

/// Device `dev` is at place `i`.
pub open spec fn dev_at(s: Seq<DevView>, dev: u8, i: int) -> bool {
    0 <= i < s.len() && s[i].dev_idx == dev
}

/// The place of a device.
pub open spec fn dev_index(s: Seq<DevView>, dev: u8) -> Option<int> {
    if exists|i: int| dev_at(s, dev, i) {
        Some(choose|i: int| dev_at(s, dev, i))
    } else {
        None
    }
}

pub proof fn lemma_dev_index(s: Seq<DevView>, dev: u8, i: int)
    requires
        devs_ok(s),
        dev_at(s, dev, i),
    ensures
        dev_index(s, dev) == Some(i),
{
    let j = choose|j: int| dev_at(s, dev, j);
    assert(dev_at(s, dev, j));
    assert(s[i].dev_idx == s[j].dev_idx);
}

impl BchAllocator {
    pub open spec fn wf(&self) -> bool {
        devs_ok(self@)
    }

    /// No device yet.
    pub fn new() -> (r: BchAllocator)
        ensures
            r@ == Seq::<DevView>::empty(),
            r.wf(),
    {
        let r: BchAllocator = BchAllocator { devs: Vec::new() };
        assert(r@ =~= Seq::<DevView>::empty());
        r
    }

    /// The place of a device.
    pub fn device(&self, dev: u8) -> (r: Option<usize>)
        requires
            self.wf(),
        ensures
            match r {
                Some(i) => dev_index(self@, dev) == Some(i as int) && i < self.devs@.len()
                    && self.devs@[i as int].dev_idx == dev,
                None => dev_index(self@, dev) is None,
            },
    {
        let mut i: usize = 0;
        while i < self.devs.len()
            invariant
                self.wf(),
                i <= self.devs.len(),
                forall|j: int| 0 <= j < i ==> (#[trigger] self@[j]).dev_idx != dev,
            decreases self.devs.len() - i,
        {
            if self.devs[i].dev_idx == dev {
                proof {
                    assert(self@[i as int] == self.devs@[i as int]@);
                    lemma_dev_index(self@, dev, i as int);
                }
                return Some(i);
            }
            assert(self@[i as int] == self.devs@[i as int]@);
            i += 1;
        }
        None
    }

    /// Adds a device of `nbuckets` unused buckets; fails where a device of that number is there.
    pub fn add_device(&mut self, dev_idx: u8, bucket_size: u64, nbuckets: usize) -> (r: bool)
        requires
            old(self).wf(),
            0 < bucket_size <= MAX_BUCKET_SIZE,
        ensures
            final(self).wf(),
            r == (dev_index(old(self)@, dev_idx) is None),
            !r ==> *final(self) == *old(self),
            r ==> final(self)@ == old(self)@.push(
                DevView {
                    dev_idx,
                    bucket_size,
                    slots: Seq::new(nbuckets as nat, |i: int| BucketSlot::fresh()),
                },
            ),
    {
        if self.device(dev_idx).is_some() {
            return false;
        }
        let mut slots: Vec<BucketSlot> = Vec::new();
        let mut i: usize = 0;
        while i < nbuckets
            invariant
                i <= nbuckets,
                slots@ == Seq::new(i as nat, |j: int| BucketSlot::fresh()),
            decreases nbuckets - i,
        {
            slots.push(BucketSlot::fresh());
            i += 1;
            assert(slots@ =~= Seq::new(i as nat, |j: int| BucketSlot::fresh()));
        }
        let ghost s0 = self@;
        let ghost d = DevView {
            dev_idx,
            bucket_size,
            slots: Seq::new(nbuckets as nat, |i: int| BucketSlot::fresh()),
        };
        self.devs.push(BchDev { dev_idx, bucket_size, slots });
        proof {
            assert(self@ =~= s0.push(d));
            assert forall|i: int| 0 <= i < s0.len() implies (#[trigger] s0[i]).dev_idx
                != dev_idx by {
                if s0[i].dev_idx == dev_idx {
                    assert(dev_at(s0, dev_idx, i));
                }
            }
            let s = self@;
            assert(forall|i: int| 0 <= i < s0.len() ==> #[trigger] s[i] == s0[i]);
        }
        true
    }
}

/// `s` with another slot at place `b` of device `d`.
pub open spec fn with_slot(s: Seq<DevView>, d: int, b: int, slot: BucketSlot) -> Seq<DevView> {
    s.update(d, DevView { slots: s[d].slots.update(b, slot), ..s[d] })
}

impl BchAllocator {
    /// Replaces what is known of a bucket.
    pub fn put_slot(&mut self, d: usize, b: usize, slot: BucketSlot)
        requires
            old(self).wf(),
            d < old(self)@.len(),
            b < old(self)@[d as int].slots.len(),
        ensures
            final(self).wf(),
            final(self)@ == with_slot(old(self)@, d as int, b as int, slot),
    {
        let ghost s0 = self@;
        assert(s0[d as int] == self.devs@[d as int]@);
        let dev: &mut BchDev = &mut self.devs[d];
        dev.slots.set(b, slot);
        proof {
            let s = self@;
            assert(s =~= with_slot(s0, d as int, b as int, slot));
            assert(forall|i: int|
                0 <= i < s.len() ==> (#[trigger] s[i]).dev_idx == s0[i].dev_idx && s[i].bucket_size
                    == s0[i].bucket_size);
        }
    }
}

/// The type with a number; an unknown number stands for a free bucket.
pub open spec fn data_type_of(v: u8) -> BchDataType {
    if v == 1 {
        BchDataType::Sb
    } else if v == 2 {
        BchDataType::Journal
    } else if v == 3 {
        BchDataType::Btree
    } else if v == 4 {
        BchDataType::User
    } else if v == 5 {
        BchDataType::Cached
    } else if v == 6 {
        BchDataType::Parity
    } else if v == 7 {
        BchDataType::Stripe
    } else if v == 8 {
        BchDataType::NeedGcGens
    } else if v == 9 {
        BchDataType::NeedDiscard
    } else if v == 10 {
        BchDataType::Unstriped
    } else {
        BchDataType::Free
    }
}

/// The type with a number; an unknown number stands for a free bucket.
pub fn data_type_or_free(v: u8) -> (r: BchDataType)
    ensures
        r == data_type_of(v),
{
    match BchDataType::from_raw(v) {
        Some(t) => t,
        None => BchDataType::Free,
    }
}

/// The bucket that a sector is in.
pub fn sector_to_bucket(bucket_size: u64, sector: u64) -> (r: u64)
    requires
        bucket_size > 0,
    ensures
        r == sector / bucket_size,
{
    sector / bucket_size
}

/// A pointer that leads somewhere.
pub open spec fn ptr_counts(p: ExtentPtr) -> bool {
    0 < p.offset <= ADDR48_MAX
}

/// The bucket that a pointer leads to.
pub open spec fn ptr_bucket(p: ExtentPtr, bucket_size: u64) -> int {
    p.offset * SECTORS_PER_BLOCK / bucket_size as int
}

/// What is recorded of a bucket.
#[derive(Debug, Clone, Copy, PartialEq, Eq, Structural)]
pub struct BchAllocEntry {
    pub journal_seq_nonempty: u64,
    pub flags: u32,
    pub gen: u8,
    pub oldest_gen: u8,
    pub data_type: u8,
    pub stripe_redundancy_obsolete: u8,
    pub dirty_sectors: u32,
    pub cached_sectors: u32,
    pub io_time_read: u64,
    pub io_time_write: u64,
    pub stripe_refcount: u32,
    pub nr_external_backpointers: u32,
    pub journal_seq_empty: u64,
    pub stripe_sectors: u32,
    pub pad: u32,
}

impl BchAllocEntry {
    /// The record of a bucket of which nothing is known.
    #[verifier::allow_in_spec]
    pub fn zero() -> BchAllocEntry
        returns
            (BchAllocEntry {
                journal_seq_nonempty: 0,
                flags: 0,
                gen: 0,
                oldest_gen: 0,
                data_type: 0,
                stripe_redundancy_obsolete: 0,
                dirty_sectors: 0,
                cached_sectors: 0,
                io_time_read: 0,
                io_time_write: 0,
                stripe_refcount: 0,
                nr_external_backpointers: 0,
                journal_seq_empty: 0,
                stripe_sectors: 0,
                pad: 0,
            }),
    {
        BchAllocEntry {
            journal_seq_nonempty: 0,
            flags: 0,
            gen: 0,
            oldest_gen: 0,
            data_type: 0,
            stripe_redundancy_obsolete: 0,
            dirty_sectors: 0,
            cached_sectors: 0,
            io_time_read: 0,
            io_time_write: 0,
            stripe_refcount: 0,
            nr_external_backpointers: 0,
            journal_seq_empty: 0,
            stripe_sectors: 0,
            pad: 0,
        }
    }
}

/// A record as bytes.
pub open spec fn alloc_bytes(e: BchAllocEntry) -> Seq<u8> {
    le_bytes(e.journal_seq_nonempty as nat, 8) + le_bytes(e.flags as nat, 4) + le_bytes(
        e.gen as nat,
        1,
    ) + le_bytes(e.oldest_gen as nat, 1) + le_bytes(e.data_type as nat, 1) + le_bytes(
        e.stripe_redundancy_obsolete as nat,
        1,
    ) + le_bytes(e.dirty_sectors as nat, 4) + le_bytes(e.cached_sectors as nat, 4) + le_bytes(
        e.io_time_read as nat,
        8,
    ) + le_bytes(e.io_time_write as nat, 8) + le_bytes(e.stripe_refcount as nat, 4) + le_bytes(
        e.nr_external_backpointers as nat,
        4,
    ) + le_bytes(e.journal_seq_empty as nat, 8) + le_bytes(e.stripe_sectors as nat, 4) + le_bytes(
        e.pad as nat,
        4,
    )
}

/// The record that bytes hold.
pub open spec fn alloc_from(s: Seq<u8>) -> BchAllocEntry {
    BchAllocEntry {
        journal_seq_nonempty: num_at(s, 0, 8) as u64,
        flags: num_at(s, 8, 4) as u32,
        gen: s[12],
        oldest_gen: s[13],
        data_type: s[14],
        stripe_redundancy_obsolete: s[15],
        dirty_sectors: num_at(s, 16, 4) as u32,
        cached_sectors: num_at(s, 20, 4) as u32,
        io_time_read: num_at(s, 24, 8) as u64,
        io_time_write: num_at(s, 32, 8) as u64,
        stripe_refcount: num_at(s, 40, 4) as u32,
        nr_external_backpointers: num_at(s, 44, 4) as u32,
        journal_seq_empty: num_at(s, 48, 8) as u64,
        stripe_sectors: num_at(s, 56, 4) as u32,
        pad: num_at(s, 60, 4) as u32,
    }
}

/// Writes a record.
pub fn serialize_alloc_entry(e: &BchAllocEntry) -> (r: Vec<u8>)
    ensures
        r@ == alloc_bytes(*e),
{
    let mut v: Vec<u8> = Vec::new();
    push_le(&mut v, e.journal_seq_nonempty, 8);
    push_le(&mut v, e.flags as u64, 4);
    push_le(&mut v, e.gen as u64, 1);
    push_le(&mut v, e.oldest_gen as u64, 1);
    push_le(&mut v, e.data_type as u64, 1);
    push_le(&mut v, e.stripe_redundancy_obsolete as u64, 1);
    push_le(&mut v, e.dirty_sectors as u64, 4);
    push_le(&mut v, e.cached_sectors as u64, 4);
    push_le(&mut v, e.io_time_read, 8);
    push_le(&mut v, e.io_time_write, 8);
    push_le(&mut v, e.stripe_refcount as u64, 4);
    push_le(&mut v, e.nr_external_backpointers as u64, 4);
    push_le(&mut v, e.journal_seq_empty, 8);
    push_le(&mut v, e.stripe_sectors as u64, 4);
    push_le(&mut v, e.pad as u64, 4);
    assert(v@ =~= alloc_bytes(*e));
    v
}

fn read_u32(data: &Vec<u8>, at: usize) -> (r: u32)
    requires
        at + 4 <= data.len(),
    ensures
        r == num_at(data@, at as int, 4) as u32,
        r == num_at(data@, at as int, 4),
{
    let x: u64 = read_le(data, at, 4);
    proof {
        lemma_le_bound(data@.subrange(at as int, at + 4));
        lemma_limits();
    }
    x as u32
}

/// Reads a record; only one of the right length is taken.
pub fn deserialize_alloc_entry(data: &Vec<u8>) -> (r: Option<BchAllocEntry>)
    ensures
        r is Some <==> data@.len() == ALLOC_ENTRY_BYTES,
        r is Some ==> r->0 == alloc_from(data@),
{
    if data.len() != ALLOC_ENTRY_BYTES {
        return None;
    }
    Some(
        BchAllocEntry {
            journal_seq_nonempty: read_le(data, 0, 8),
            flags: read_u32(data, 8),
            gen: data[12],
            oldest_gen: data[13],
            data_type: data[14],
            stripe_redundancy_obsolete: data[15],
            dirty_sectors: read_u32(data, 16),
            cached_sectors: read_u32(data, 20),
            io_time_read: read_le(data, 24, 8),
            io_time_write: read_le(data, 32, 8),
            stripe_refcount: read_u32(data, 40),
            nr_external_backpointers: read_u32(data, 44),
            journal_seq_empty: read_le(data, 48, 8),
            stripe_sectors: read_u32(data, 56),
            pad: read_u32(data, 60),
        },
    )
}

/// The part of `s` from `at` on is `t`, and `t` stands for `x`.
proof fn lemma_field(s: Seq<u8>, at: int, x: nat, n: nat)
    requires
        0 <= at,
        at + n <= s.len(),
        s.subrange(at, at + n) == le_bytes(x, n),
        x < byte_limit(n),
    ensures
        num_at(s, at, n as int) == x,
        n == 1 ==> s[at] == x,
{
    lemma_le_bytes(x, n);
    if n == 1 {
        lemma_le_one(s.subrange(at, at + n));
        assert(s.subrange(at, at + n)[0] == s[at]);
    }
}

/// A record that was written reads back as it was.
pub proof fn law_alloc_entry_roundtrip(e: BchAllocEntry)
    ensures
        alloc_bytes(e).len() == ALLOC_ENTRY_BYTES,
        alloc_from(alloc_bytes(e)) == e,
{
    let s = alloc_bytes(e);
    lemma_limits();
    lemma_le_bytes(e.journal_seq_nonempty as nat, 8);
    lemma_le_bytes(e.flags as nat, 4);
    lemma_le_bytes(e.gen as nat, 1);
    lemma_le_bytes(e.oldest_gen as nat, 1);
    lemma_le_bytes(e.data_type as nat, 1);
    lemma_le_bytes(e.stripe_redundancy_obsolete as nat, 1);
    lemma_le_bytes(e.dirty_sectors as nat, 4);
    lemma_le_bytes(e.cached_sectors as nat, 4);
    lemma_le_bytes(e.io_time_read as nat, 8);
    lemma_le_bytes(e.io_time_write as nat, 8);
    lemma_le_bytes(e.stripe_refcount as nat, 4);
    lemma_le_bytes(e.nr_external_backpointers as nat, 4);
    lemma_le_bytes(e.journal_seq_empty as nat, 8);
    lemma_le_bytes(e.stripe_sectors as nat, 4);
    lemma_le_bytes(e.pad as nat, 4);
    assert(s.subrange(0, 8) =~= le_bytes(e.journal_seq_nonempty as nat, 8));
    assert(s.subrange(8, 12) =~= le_bytes(e.flags as nat, 4));
    assert(s.subrange(12, 13) =~= le_bytes(e.gen as nat, 1));
    assert(s.subrange(13, 14) =~= le_bytes(e.oldest_gen as nat, 1));
    assert(s.subrange(14, 15) =~= le_bytes(e.data_type as nat, 1));
    assert(s.subrange(15, 16) =~= le_bytes(e.stripe_redundancy_obsolete as nat, 1));
    assert(s.subrange(16, 20) =~= le_bytes(e.dirty_sectors as nat, 4));
    assert(s.subrange(20, 24) =~= le_bytes(e.cached_sectors as nat, 4));
    assert(s.subrange(24, 32) =~= le_bytes(e.io_time_read as nat, 8));
    assert(s.subrange(32, 40) =~= le_bytes(e.io_time_write as nat, 8));
    assert(s.subrange(40, 44) =~= le_bytes(e.stripe_refcount as nat, 4));
    assert(s.subrange(44, 48) =~= le_bytes(e.nr_external_backpointers as nat, 4));
    assert(s.subrange(48, 56) =~= le_bytes(e.journal_seq_empty as nat, 8));
    assert(s.subrange(56, 60) =~= le_bytes(e.stripe_sectors as nat, 4));
    assert(s.subrange(60, 64) =~= le_bytes(e.pad as nat, 4));
    lemma_field(s, 0, e.journal_seq_nonempty as nat, 8);
    lemma_field(s, 8, e.flags as nat, 4);
    lemma_field(s, 12, e.gen as nat, 1);
    lemma_field(s, 13, e.oldest_gen as nat, 1);
    lemma_field(s, 14, e.data_type as nat, 1);
    lemma_field(s, 15, e.stripe_redundancy_obsolete as nat, 1);
    lemma_field(s, 16, e.dirty_sectors as nat, 4);
    lemma_field(s, 20, e.cached_sectors as nat, 4);
    lemma_field(s, 24, e.io_time_read as nat, 8);
    lemma_field(s, 32, e.io_time_write as nat, 8);
    lemma_field(s, 40, e.stripe_refcount as nat, 4);
    lemma_field(s, 44, e.nr_external_backpointers as nat, 4);
    lemma_field(s, 48, e.journal_seq_empty as nat, 8);
    lemma_field(s, 56, e.stripe_sectors as nat, 4);
    lemma_field(s, 60, e.pad as nat, 4);
}

/// The bits of a generation that a freespace key holds, in the highest byte.
pub open spec fn genbits(gc_gen: u8) -> u64 {
    ((gc_gen as int / 16) * 0x100_0000_0000_0000) as u64
}

pub fn alloc_freespace_genbits(gc_gen: u8) -> (r: u64)
    ensures
        r == genbits(gc_gen),
        r == gc_gen as int / 16 * 0x100_0000_0000_0000,
{
    (gc_gen / 16) as u64 * 0x100_0000_0000_0000
}

/// The generation bits of a freespace key.
pub open spec fn pos_genbits(pos: Bpos) -> u64 {
    (pos.offset - pos.offset % 0x100_0000_0000_0000) as u64
}

pub fn alloc_freespace_pos_genbits(pos: &Bpos) -> (r: u64)
    ensures
        r == pos_genbits(*pos),
{
    pos.offset - pos.offset % 0x100_0000_0000_0000
}

/// The bucket of a freespace key.
pub open spec fn pos_bucket(pos: Bpos) -> u64 {
    pos.offset % 0x100_0000_0000_0000
}

pub fn alloc_freespace_bucket_idx(pos: &Bpos) -> (r: u64)
    ensures
        r == pos_bucket(*pos),
{
    pos.offset % 0x100_0000_0000_0000
}

/// What a pointer is in relation to its bucket: good where it is of the bucket's generation and the
/// bucket holds nothing, or data of the same kind, where copies and stripes count as user data; stale
/// where it is to a copy and up to 96 generations behind; at fault in every other case.
pub proof fn law_pointer_checks(
    gen: u8,
    ptr_gen: u8,
    cached: bool,
    t: BchDataType,
    current: BchDataType,
)
    ensures
        ({
            let r = ref_check(gen, ptr_gen, cached, t, current);
            let behind = exists|n: int| 1 <= n <= 96 && #[trigger] later_gen(ptr_gen, n) == gen;
            let holds_nothing = current == BchDataType::Free || current == BchDataType::NeedGcGens
                || current == BchDataType::NeedDiscard;
            &&& r == RefCheck::Current <==> ptr_gen == gen && (holds_nothing || same_kind(
                current,
                t,
            ))
            &&& r == RefCheck::StaleCached <==> cached && behind
        }),
{
    let b = gc_gen(gen, ptr_gen);
    if 1 <= b <= 96 {
        assert(later_gen(ptr_gen, b) == gen);
    }
    assert forall|n: int| 1 <= n <= 96 && #[trigger] later_gen(ptr_gen, n) == gen implies b == n by {}
}

/// The generation `n` after another; they wrap around.
pub open spec fn later_gen(gen: u8, n: int) -> int {
    (gen + n) % 256
}

/// Two types of data go to the same buckets.
pub open spec fn same_kind(a: BchDataType, b: BchDataType) -> bool {
    let user = |t: BchDataType|
        t == BchDataType::User || t == BchDataType::Cached || t == BchDataType::Stripe;
    a == b || user(a) && user(b)
}

/// The bucket that a pointer leads to is the one that its first sector lies in, of eight to a block.
/// A pointer leads somewhere where its block has a number of up to 48 bits.
pub proof fn law_pointer_bucket(p: ExtentPtr, bucket_size: u64)
    requires
        bucket_size > 0,
    ensures
        ({
            let b = ptr_bucket(p, bucket_size);
            b * bucket_size <= 8 * p.offset < (b + 1) * bucket_size
        }),
        ptr_counts(p) <==> 1 <= p.offset < 0x1_0000_0000_0000,
{
    let x = 8 * p.offset;
    let n = bucket_size as int;
    vstd::arithmetic::div_mod::lemma_fundamental_div_mod(x, n);
    let b = x / n;
    assert(ptr_bucket(p, bucket_size) == b);
    assert(b * n <= x < (b + 1) * n) by (nonlinear_arith)
        requires
            x == n * b + x % n,
            0 <= x % n < n,
    ;
}

/// A bucket is what the most binding of its counts says: a stripe, then data by its kind, then
/// sectors of a stripe to come, then copies. One without any waits for its generations to be
/// collected once these are 96 apart, and is free else.
pub proof fn law_counts_tell_the_type(
    dirty: u32,
    cached: u32,
    stripe: u32,
    refs: u32,
    gen: u8,
    oldest: u8,
    hint: BchDataType,
)
    ensures
        ({
            let t = derived(dirty, cached, stripe, refs, gen, oldest, hint);
            &&& refs > 0 ==> t == if hint == BchDataType::Parity {
                BchDataType::Parity
            } else {
                BchDataType::Stripe
            }
            &&& refs == 0 && dirty > 0 ==> same_kind(t, hint) && t != BchDataType::Cached && t
                != BchDataType::Stripe
            &&& refs == 0 && dirty == 0 && stripe > 0 ==> t == BchDataType::Unstriped
            &&& refs == 0 && dirty == 0 && stripe == 0 && cached > 0 ==> t == BchDataType::Cached
            &&& refs == 0 && dirty == 0 && stripe == 0 && cached == 0 ==> {
                let near = exists|n: int| 0 <= n < 96 && #[trigger] later_gen(oldest, n) == gen;
                t == if near {
                    BchDataType::Free
                } else {
                    BchDataType::NeedGcGens
                }
            }
        }),
{
    let b = gc_gen(gen, oldest);
    if b < 96 {
        assert(later_gen(oldest, b) == gen);
    }
    assert forall|n: int| 0 <= n < 96 && #[trigger] later_gen(oldest, n) == gen implies b == n by {}
}

/// The number of a type tells it from all others, and leads back to it.
pub proof fn law_type_numbers(t: BchDataType, v: u8)
    ensures
        data_type_of(t.num()) == t,
        t.num() <= 10,
        v <= 10 ==> data_type_of(v).num() == v,
        v > 10 ==> data_type_of(v) == BchDataType::Free,
        BchDataType::Free.num() == 0,
        BchDataType::Sb.num() == 1,
        BchDataType::Journal.num() == 2,
        BchDataType::Btree.num() == 3,
        BchDataType::User.num() == 4,
        BchDataType::Cached.num() == 5,
        BchDataType::Parity.num() == 6,
        BchDataType::Stripe.num() == 7,
        BchDataType::NeedGcGens.num() == 8,
        BchDataType::NeedDiscard.num() == 9,
        BchDataType::Unstriped.num() == 10,
{
}

/// The generation bits of a freespace key are the upper half of the byte, in the top byte of the
/// offset; with the bucket they make up the offset.
pub proof fn law_freespace_offset(gc_gen: u8, pos: Bpos)
    ensures
        genbits(gc_gen) as int * 16 <= gc_gen as int * 0x100_0000_0000_0000,
        gc_gen as int * 0x100_0000_0000_0000 < (genbits(gc_gen) as int + 0x100_0000_0000_0000) * 16,
        genbits(gc_gen) as int % 0x100_0000_0000_0000 == 0,
        pos_genbits(pos) as int + pos_bucket(pos) as int == pos.offset,
        pos_bucket(pos) < 0x100_0000_0000_0000,
        pos_genbits(pos) as int % 0x100_0000_0000_0000 == 0,
{
    let g = gc_gen as int / 16;
    assert(genbits(gc_gen) == g * 0x100_0000_0000_0000);
}

/// A record takes 64 bytes: the first place in the journal, the flags, the two generations, the type
/// and a byte of no use, the dirty and the cached sectors, two times, two counts, the second place in
/// the journal, the sectors of a stripe and a filler, in this order and without gaps.
pub proof fn law_record_layout(e: BchAllocEntry)
    ensures
        ({
            let s = alloc_bytes(e);
            &&& s.len() == 64
            &&& s.subrange(0, 8) == le_bytes(e.journal_seq_nonempty as nat, 8)
            &&& s.subrange(8, 12) == le_bytes(e.flags as nat, 4)
            &&& s[12] == e.gen
            &&& s[13] == e.oldest_gen
            &&& s[14] == e.data_type
            &&& s[15] == e.stripe_redundancy_obsolete
            &&& s.subrange(16, 20) == le_bytes(e.dirty_sectors as nat, 4)
            &&& s.subrange(20, 24) == le_bytes(e.cached_sectors as nat, 4)
            &&& s.subrange(24, 32) == le_bytes(e.io_time_read as nat, 8)
            &&& s.subrange(32, 40) == le_bytes(e.io_time_write as nat, 8)
            &&& s.subrange(40, 44) == le_bytes(e.stripe_refcount as nat, 4)
            &&& s.subrange(44, 48) == le_bytes(e.nr_external_backpointers as nat, 4)
            &&& s.subrange(48, 56) == le_bytes(e.journal_seq_empty as nat, 8)
            &&& s.subrange(56, 60) == le_bytes(e.stripe_sectors as nat, 4)
            &&& s.subrange(60, 64) == le_bytes(e.pad as nat, 4)
        }),
{
    let s = alloc_bytes(e);
    lemma_le_bytes(e.journal_seq_nonempty as nat, 8);
    lemma_le_bytes(e.flags as nat, 4);
    reveal_with_fuel(le_bytes, 2);
    lemma_le_bytes(e.dirty_sectors as nat, 4);
    lemma_le_bytes(e.cached_sectors as nat, 4);
    lemma_le_bytes(e.io_time_read as nat, 8);
    lemma_le_bytes(e.io_time_write as nat, 8);
    lemma_le_bytes(e.stripe_refcount as nat, 4);
    lemma_le_bytes(e.nr_external_backpointers as nat, 4);
    lemma_le_bytes(e.journal_seq_empty as nat, 8);
    lemma_le_bytes(e.stripe_sectors as nat, 4);
    lemma_le_bytes(e.pad as nat, 4);
    lemma_le_bytes(e.gen as nat, 1);
    lemma_le_bytes(e.oldest_gen as nat, 1);
    lemma_le_bytes(e.data_type as nat, 1);
    lemma_le_bytes(e.stripe_redundancy_obsolete as nat, 1);
    assert(s.subrange(0, 8) =~= le_bytes(e.journal_seq_nonempty as nat, 8));
    assert(s.subrange(8, 12) =~= le_bytes(e.flags as nat, 4));
    assert(s.subrange(16, 20) =~= le_bytes(e.dirty_sectors as nat, 4));
    assert(s.subrange(20, 24) =~= le_bytes(e.cached_sectors as nat, 4));
    assert(s.subrange(24, 32) =~= le_bytes(e.io_time_read as nat, 8));
    assert(s.subrange(32, 40) =~= le_bytes(e.io_time_write as nat, 8));
    assert(s.subrange(40, 44) =~= le_bytes(e.stripe_refcount as nat, 4));
    assert(s.subrange(44, 48) =~= le_bytes(e.nr_external_backpointers as nat, 4));
    assert(s.subrange(48, 56) =~= le_bytes(e.journal_seq_empty as nat, 8));
    assert(s.subrange(56, 60) =~= le_bytes(e.stripe_sectors as nat, 4));
    assert(s.subrange(60, 64) =~= le_bytes(e.pad as nat, 4));
}

/// A fresh bucket is free and holds nothing, and no reference to it counts.
pub proof fn law_fresh_bucket()
    ensures
        BucketSlot::fresh().bucket.state == BchDataType::Free,
        BucketSlot::fresh().bucket.dirty_sectors == 0,
        BucketSlot::fresh().bucket.cached_sectors == 0,
        BucketSlot::fresh().bucket.stripe_sectors == 0,
        !BucketSlot::fresh().gc.gen_valid,
        BucketSlot::fresh().gen == 0,
{
}

/// What is known of one bucket is replaced without a change to any other.
pub proof fn law_one_bucket_is_replaced(
    s: Seq<DevView>,
    d: int,
    b: int,
    slot: BucketSlot,
    e: int,
    x: int,
)
    requires
        0 <= d < s.len(),
        0 <= b < s[d].slots.len(),
        0 <= e < s.len(),
        0 <= x < s[e].slots.len(),
    ensures
        with_slot(s, d, b, slot)[e].slots[x] == if e == d && x == b {
            slot
        } else {
            s[e].slots[x]
        },
        with_slot(s, d, b, slot)[e].dev_idx == s[e].dev_idx,
        with_slot(s, d, b, slot)[e].bucket_size == s[e].bucket_size,
        with_slot(s, d, b, slot)[e].slots.len() == s[e].slots.len(),
{
}

} // verus!
