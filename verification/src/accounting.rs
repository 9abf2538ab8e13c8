//! Counters of what the buckets of the devices hold.

use crate::bucket::{BchAllocEntry, MAX_BUCKET_SIZE};
use crate::volume::DevCounters;
use vstd::prelude::*;

verus! {

/// A change of the counters of a kind of data.
#[derive(Debug, Clone, Copy, PartialEq, Eq, Structural)]
pub struct CounterDelta {
    pub data_type: u8,
    pub buckets: i64,
    pub sectors: i64,
    pub fragmented: i64,
}

/// Sectors in use by a record.
pub open spec fn sectors_of(e: BchAllocEntry) -> int {
    e.dirty_sectors + e.cached_sectors + e.stripe_sectors
}

/// Sectors of a bucket in use that nothing uses.
pub open spec fn fragmented_of(e: BchAllocEntry, bucket_size: u64) -> int {
    let n = sectors_of(e);
    if n == 0 || n >= bucket_size {
        0
    } else {
        bucket_size - n
    }
}

fn sectors(e: &BchAllocEntry) -> (r: i64)
    ensures
        r == sectors_of(*e),
{
    e.dirty_sectors as i64 + e.cached_sectors as i64 + e.stripe_sectors as i64
}

fn fragmented(e: &BchAllocEntry, bucket_size: u64) -> (r: i64)
    requires
        bucket_size <= MAX_BUCKET_SIZE,
    ensures
        r == fragmented_of(*e, bucket_size),
{
    let n: i64 = sectors(e);
    if n == 0 || n >= bucket_size as i64 {
        0
    } else {
        bucket_size as i64 - n
    }
}

/// How the counters of a device change where one record of a bucket replaces another.
pub open spec fn record_deltas(old: BchAllocEntry, new: BchAllocEntry, bucket_size: u64) -> Seq<
    CounterDelta,
> {
    if old.data_type != new.data_type {
        seq![
            CounterDelta {
                data_type: new.data_type,
                buckets: 1,
                sectors: sectors_of(new) as i64,
                fragmented: fragmented_of(new, bucket_size) as i64,
            },
            CounterDelta {
                data_type: old.data_type,
                buckets: -1i64 as i64,
                sectors: (-sectors_of(old)) as i64,
                fragmented: (-fragmented_of(old, bucket_size)) as i64,
            },
        ]
    } else if sectors_of(old) != sectors_of(new) {
        seq![
            CounterDelta {
                data_type: new.data_type,
                buckets: 0,
                sectors: (sectors_of(new) - sectors_of(old)) as i64,
                fragmented: (fragmented_of(new, bucket_size) - fragmented_of(old, bucket_size)) as i64,
            },
        ]
    } else {
        Seq::empty()
    }
}

/// `i` is the place of the first counters of a kind of data on a device, or the end.
pub open spec fn counters_at(c: Seq<DevCounters>, dev: u8, data_type: u8, i: int) -> bool {
    &&& 0 <= i <= c.len()
    &&& forall|j: int|
        0 <= j < i ==> !((#[trigger] c[j]).dev == dev && c[j].data_type == data_type)
    &&& i < c.len() ==> c[i].dev == dev && c[i].data_type == data_type
}

/// The counters after one change.
pub open spec fn counted_once(c: Seq<DevCounters>, dev: u8, d: CounterDelta) -> Seq<DevCounters> {
    let i = choose|i: int| counters_at(c, dev, d.data_type, i);
    if i < c.len() {
        c.update(
            i,
            DevCounters {
                buckets: c[i].buckets.wrapping_add(d.buckets),
                sectors: c[i].sectors.wrapping_add(d.sectors),
                fragmented: c[i].fragmented.wrapping_add(d.fragmented),
                ..c[i]
            },
        )
    } else {
        c.push(
            DevCounters {
                dev,
                data_type: d.data_type,
                buckets: d.buckets,
                sectors: d.sectors,
                fragmented: d.fragmented,
            },
        )
    }
}

/// The counters after some changes.
pub open spec fn counted_all(c: Seq<DevCounters>, dev: u8, ds: Seq<CounterDelta>) -> Seq<
    DevCounters,
>
    decreases ds.len(),
{
    if ds.len() == 0 {
        c
    } else {
        counted_once(counted_all(c, dev, ds.drop_last()), dev, ds.last())
    }
}

proof fn lemma_place(c: Seq<DevCounters>, dev: u8, data_type: u8, i: int)
    requires
        counters_at(c, dev, data_type, i),
    ensures
        (choose|k: int| counters_at(c, dev, data_type, k)) == i,
{
    let k = choose|k: int| counters_at(c, dev, data_type, k);
    assert(counters_at(c, dev, data_type, k));
    if k < i {
        assert(c[k].dev == dev);
    }
    if i < k {
        assert(c[i].dev == dev);
    }
}

/// Adds a change to the counters of a device.
fn apply_delta(c: &mut Vec<DevCounters>, dev: u8, d: &CounterDelta)
    ensures
        final(c)@ == counted_once(old(c)@, dev, *d),
{
    let ghost c0 = c@;
    let mut i: usize = 0;
    while i < c.len() && !(c[i].dev == dev && c[i].data_type == d.data_type)
        invariant
            i <= c.len(),
            c@ == c0,
            forall|j: int|
                0 <= j < i ==> !((#[trigger] c0[j]).dev == dev && c0[j].data_type == d.data_type),
        decreases c.len() - i,
    {
        i += 1;
    }
    proof {
        lemma_place(c0, dev, d.data_type, i as int);
    }
    if i < c.len() {
        let o: DevCounters = c[i];
        c.set(
            i,
            DevCounters {
                dev: o.dev,
                data_type: o.data_type,
                buckets: o.buckets.wrapping_add(d.buckets),
                sectors: o.sectors.wrapping_add(d.sectors),
                fragmented: o.fragmented.wrapping_add(d.fragmented),
            },
        );
    } else {
        c.push(
            DevCounters {
                dev,
                data_type: d.data_type,
                buckets: d.buckets,
                sectors: d.sectors,
                fragmented: d.fragmented,
            },
        );
    }
}

/// Counts that one record of a bucket replaces another.
pub fn bch2_alloc_key_to_dev_counters(
    c: &mut Vec<DevCounters>,
    dev: u8,
    bucket_size: u64,
    old_rec: &BchAllocEntry,
    new_rec: &BchAllocEntry,
)
    requires
        bucket_size <= MAX_BUCKET_SIZE,
    ensures
        final(c)@ == counted_all(old(c)@, dev, record_deltas(*old_rec, *new_rec, bucket_size)),
{
    let ghost ds = record_deltas(*old_rec, *new_rec, bucket_size);
    let ghost c0 = c@;
    let os: i64 = sectors(old_rec);
    let ns: i64 = sectors(new_rec);
    let of: i64 = fragmented(old_rec, bucket_size);
    let nf: i64 = fragmented(new_rec, bucket_size);
    proof {
        reveal_with_fuel(counted_all, 3);
    }
    if old_rec.data_type != new_rec.data_type {
        apply_delta(
            c,
            dev,
            &CounterDelta {
                data_type: new_rec.data_type,
                buckets: 1,
                sectors: ns,
                fragmented: nf,
            },
        );
        apply_delta(
            c,
            dev,
            &CounterDelta {
                data_type: old_rec.data_type,
                buckets: -1,
                sectors: -os,
                fragmented: -of,
            },
        );
        proof {
            assert(ds.drop_last() =~= seq![ds[0]]);
            assert(ds.drop_last().drop_last() =~= Seq::<CounterDelta>::empty());
        }
    } else if os != ns {
        apply_delta(
            c,
            dev,
            &CounterDelta {
                data_type: new_rec.data_type,
                buckets: 0,
                sectors: ns - os,
                fragmented: nf - of,
            },
        );
        proof {
            assert(ds.drop_last() =~= Seq::<CounterDelta>::empty());
        }
    }
}

/// What is counted of a kind of data on a device.
pub open spec fn counter_of(c: Seq<DevCounters>, dev: u8, data_type: u8) -> DevCounters
    decreases c.len(),
{
    if c.len() == 0 {
        DevCounters { dev, data_type, buckets: 0, sectors: 0, fragmented: 0 }
    } else if c[0].dev == dev && c[0].data_type == data_type {
        c[0]
    } else {
        counter_of(c.drop_first(), dev, data_type)
    }
}

proof fn lemma_counter_at(c: Seq<DevCounters>, dev: u8, data_type: u8, i: int)
    requires
        counters_at(c, dev, data_type, i),
    ensures
        i < c.len() ==> counter_of(c, dev, data_type) == c[i],
        i == c.len() ==> counter_of(c, dev, data_type) == (DevCounters {
            dev,
            data_type,
            buckets: 0,
            sectors: 0,
            fragmented: 0,
        }),
    decreases c.len(),
{
    if c.len() > 0 {
        if i > 0 {
            assert(!(c[0].dev == dev && c[0].data_type == data_type));
            let t = c.drop_first();
            assert forall|j: int| 0 <= j < i - 1 implies !((#[trigger] t[j]).dev == dev
                && t[j].data_type == data_type) by {
                assert(t[j] == c[j + 1]);
            }
            lemma_counter_at(t, dev, data_type, i - 1);
        }
    }
}

proof fn lemma_has_place(c: Seq<DevCounters>, dev: u8, data_type: u8) -> (i: int)
    ensures
        counters_at(c, dev, data_type, i),
    decreases c.len(),
{
    if c.len() == 0 {
        0
    } else {
        let j = lemma_has_place(c.drop_last(), dev, data_type);
        let t = c.drop_last();
        assert forall|x: int| 0 <= x < j implies !((#[trigger] c[x]).dev == dev && c[x].data_type
            == data_type) by {
            assert(t[x] == c[x]);
        }
        if j < t.len() {
            assert(t[j] == c[j]);
            j
        } else if c.last().dev == dev && c.last().data_type == data_type {
            j
        } else {
            j + 1
        }
    }
}

/// A change is added to the counters that it is for, and leaves all others.
pub proof fn law_change_is_counted_once(
    c: Seq<DevCounters>,
    dev: u8,
    d: CounterDelta,
    dev2: u8,
    data_type: u8,
)
    ensures
        ({
            let x = counter_of(c, dev2, data_type);
            let y = counter_of(counted_once(c, dev, d), dev2, data_type);
            if dev2 == dev && data_type == d.data_type {
                &&& y.buckets == x.buckets.wrapping_add(d.buckets)
                &&& y.sectors == x.sectors.wrapping_add(d.sectors)
                &&& y.fragmented == x.fragmented.wrapping_add(d.fragmented)
            } else {
                y == x
            }
        }),
{
    let i = lemma_has_place(c, dev, d.data_type);
    lemma_place(c, dev, d.data_type, i);
    let n = counted_once(c, dev, d);
    let k = lemma_has_place(c, dev2, data_type);
    lemma_counter_at(c, dev2, data_type, k);
    assert(forall|j: int| 0 <= j < c.len() && j != i ==> #[trigger] n[j] == c[j]);
    if dev2 == dev && data_type == d.data_type {
        lemma_counter_at(c, dev, data_type, i);
        assert(counters_at(n, dev, data_type, i));
        lemma_counter_at(n, dev, data_type, i);
    } else {
        let k2 = if k == c.len() && i == c.len() {
            k + 1
        } else {
            k
        };
        assert forall|j: int| 0 <= j < k2 implies !((#[trigger] n[j]).dev == dev2 && n[j].data_type
            == data_type) by {
            if j < c.len() {
                assert(!(c[j].dev == dev2 && c[j].data_type == data_type));
            }
        }
        assert(counters_at(n, dev2, data_type, k2));
        lemma_counter_at(n, dev2, data_type, k2);
    }
}

/// The counters of a device say what its records say: where one record of a bucket replaces another,
/// its bucket, its sectors and what it leaves unused move from the counters of the old kind to those of
/// the new one, and no other counters change. A bucket leaves unused what is beyond its sectors, as
/// long as it has any.
pub proof fn law_counters_follow_records(
    c: Seq<DevCounters>,
    dev: u8,
    old_rec: BchAllocEntry,
    new_rec: BchAllocEntry,
    bucket_size: u64,
    dev2: u8,
    t: u8,
)
    requires
        bucket_size <= MAX_BUCKET_SIZE,
    ensures
        ({
            let x = counter_of(c, dev2, t);
            let y = counter_of(
                counted_all(c, dev, record_deltas(old_rec, new_rec, bucket_size)),
                dev2,
                t,
            );
            let o = old_rec.dirty_sectors + old_rec.cached_sectors + old_rec.stripe_sectors;
            let n = new_rec.dirty_sectors + new_rec.cached_sectors + new_rec.stripe_sectors;
            let of = if 0 < o < bucket_size {
                bucket_size - o
            } else {
                0
            };
            let nf = if 0 < n < bucket_size {
                bucket_size - n
            } else {
                0
            };
            if dev2 != dev || (t != old_rec.data_type && t != new_rec.data_type) {
                y == x
            } else if old_rec.data_type == new_rec.data_type {
                &&& y.buckets == x.buckets
                &&& y.sectors == x.sectors.wrapping_add((n - o) as i64)
                &&& y.fragmented == x.fragmented.wrapping_add((nf - of) as i64)
            } else if t == new_rec.data_type {
                &&& y.buckets == x.buckets.wrapping_add(1)
                &&& y.sectors == x.sectors.wrapping_add(n as i64)
                &&& y.fragmented == x.fragmented.wrapping_add(nf as i64)
            } else {
                &&& y.buckets == x.buckets.wrapping_add(-1i64)
                &&& y.sectors == x.sectors.wrapping_add((-o) as i64)
                &&& y.fragmented == x.fragmented.wrapping_add((-of) as i64)
            }
        }),
{
    let ds = record_deltas(old_rec, new_rec, bucket_size);
    reveal_with_fuel(counted_all, 3);
    if ds.len() == 2 {
        assert(ds.drop_last() =~= seq![ds[0]]);
        assert(ds.drop_last().drop_last() =~= Seq::<CounterDelta>::empty());
        let mid = counted_once(c, dev, ds[0]);
        law_change_is_counted_once(c, dev, ds[0], dev2, t);
        law_change_is_counted_once(mid, dev, ds[1], dev2, t);
    } else if ds.len() == 1 {
        assert(ds.drop_last() =~= Seq::<CounterDelta>::empty());
        law_change_is_counted_once(c, dev, ds[0], dev2, t);
    }
}

} // verus!
