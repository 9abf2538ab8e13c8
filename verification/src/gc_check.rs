//! Checks of what is recorded of the buckets against what they are used for.

use crate::btree_id::NR_BTREE_IDS;
use crate::bucket::{
    dev_at, dev_index, devs_ok, lemma_dev_index, BchAllocator, BchDataType, BchDev, BucketSlot,
    DevView,
};
use crate::gc_mark::{
    contents_of, law_referenced_buckets, lies_in, reference_table, referenced, table_of,
};
use crate::key::EntryView;
use crate::volume::BchVol;
use crate::writer::StorageError;
use vstd::prelude::*;

verus! {

/// A bucket that is in use, though nothing refers to it.
#[derive(Debug, Clone, Copy, PartialEq, Eq, Structural)]
pub struct AllocLeak {
    pub dev: u8,
    pub bucket: u64,
    pub state: BchDataType,
}

/// The leaks among the first `n` buckets of a device.
pub open spec fn leaks_dev(dev: DevView, c: Seq<EntryView>, n: nat) -> Seq<AllocLeak>
    decreases n,
{
    if n == 0 {
        Seq::empty()
    } else {
        let rest = leaks_dev(dev, c, (n - 1) as nat);
        let state = dev.slots[n - 1].bucket.state;
        if state.in_use() && !referenced(c, dev, n - 1) {
            rest.push(AllocLeak { dev: dev.dev_idx, bucket: (n - 1) as u64, state })
        } else {
            rest
        }
    }
}

/// The leaks of the first `k` devices.
pub open spec fn leaks_of(devs: Seq<DevView>, c: Seq<EntryView>, k: nat) -> Seq<AllocLeak>
    decreases k,
{
    if k == 0 {
        Seq::empty()
    } else {
        leaks_of(devs, c, (k - 1) as nat) + leaks_dev(
            devs[k - 1],
            c,
            devs[k - 1].slots.len(),
        )
    }
}

/// Lists the buckets that are in use though no entry of any tree refers to them, in the order of
/// devices and buckets.
pub fn bch2_check_allocations(vol: &BchVol, allocator: &BchAllocator) -> (r: Result<
    Vec<AllocLeak>,
    StorageError,
>)
    requires
        vol.wf(),
        allocator.wf(),
    ensures
        r is Ok,
        r->Ok_0@ == leaks_of(
            allocator@,
            contents_of(*vol, 0, NR_BTREE_IDS as nat),
            allocator@.len(),
        ),
{
    let ghost c = contents_of(*vol, 0, NR_BTREE_IDS as nat);
    let ghost devs = allocator@;
    let marks: Vec<Vec<bool>> = reference_table(vol, allocator, 0, NR_BTREE_IDS);
    let mut out: Vec<AllocLeak> = Vec::new();
    let mut d: usize = 0;
    while d < allocator.devs.len()
        invariant
            devs == allocator@,
            table_of(marks@, devs, c),
            d <= allocator.devs.len(),
            out@ == leaks_of(devs, c, d as nat),
        decreases allocator.devs.len() - d,
    {
        let dev: &BchDev = &allocator.devs[d];
        assert(devs[d as int] == dev@);
        let ghost before = out@;
        let mut b: usize = 0;
        assert(before + leaks_dev(dev@, c, 0) =~= before);
        while b < dev.slots.len()
            invariant
                d < devs.len(),
                devs[d as int] == dev@,
                table_of(marks@, devs, c),
                b <= dev.slots.len(),
                out@ == before + leaks_dev(dev@, c, b as nat),
            decreases dev.slots.len() - b,
        {
            let state: BchDataType = dev.slots[b].bucket.state;
            assert(marks@[d as int]@[b as int] == referenced(c, devs[d as int], b as int));
            let ghost o1 = out@;
            if state != BchDataType::Free && state != BchDataType::NeedDiscard && !marks[d][b] {
                out.push(AllocLeak { dev: dev.dev_idx, bucket: b as u64, state });
            }
            assert(out@ =~= before + leaks_dev(dev@, c, (b + 1) as nat));
            b += 1;
        }
        d += 1;
    }
    Ok(out)
}

/// Which buckets of a device were in use.
#[derive(Debug)]
pub struct DevStates {
    pub dev_idx: u8,
    pub states: Vec<Option<BchDataType>>,
}

/// Which buckets were in use, and for what.
#[derive(Debug)]
pub struct AllocSnapshot {
    pub devs: Vec<DevStates>,
}

/// What a bucket is in use for.
pub open spec fn use_of(slot: BucketSlot) -> Option<BchDataType> {
    if slot.bucket.state.in_use() {
        Some(slot.bucket.state)
    } else {
        None
    }
}

/// What a bucket of a device is in use for; a bucket that is not there is not in use.
pub open spec fn use_at(devs: Seq<DevView>, dev: u8, b: u64) -> Option<BchDataType> {
    match dev_index(devs, dev) {
        Some(d) => if b < devs[d].slots.len() {
            use_of(devs[d].slots[b as int])
        } else {
            None
        },
        None => None,
    }
}

impl AllocSnapshot {
    /// Device `dev` is at place `i`.
    pub open spec fn dev_at(self, dev: u8, i: int) -> bool {
        0 <= i < self.devs@.len() && self.devs@[i].dev_idx == dev
    }

    pub open spec fn wf(self) -> bool {
        forall|i: int, j: int|
            0 <= i < j < self.devs@.len() ==> (#[trigger] self.devs@[i]).dev_idx != (
            #[trigger] self.devs@[j]).dev_idx
    }

    /// What a bucket was in use for.
    pub open spec fn used(self, dev: u8, b: u64) -> Option<BchDataType> {
        if exists|i: int| self.dev_at(dev, i) {
            let i = choose|i: int| self.dev_at(dev, i);
            if b < self.devs@[i].states@.len() {
                self.devs@[i].states@[b as int]
            } else {
                None
            }
        } else {
            None
        }
    }

    proof fn lemma_used(self, dev: u8, b: u64, i: int)
        requires
            self.wf(),
            self.dev_at(dev, i),
        ensures
            self.used(dev, b) == if b < self.devs@[i].states@.len() {
                self.devs@[i].states@[b as int]
            } else {
                None::<BchDataType>
            },
    {
        let j = choose|j: int| self.dev_at(dev, j);
        assert(self.dev_at(dev, j));
        assert(self.devs@[i].dev_idx == self.devs@[j].dev_idx);
    }

    /// The place of a device.
    fn device(&self, dev: u8) -> (r: Option<usize>)
        requires
            self.wf(),
        ensures
            match r {
                Some(i) => self.dev_at(dev, i as int),
                None => forall|i: int| !self.dev_at(dev, i),
            },
    {
        let mut i: usize = 0;
        while i < self.devs.len()
            invariant
                i <= self.devs.len(),
                forall|j: int| 0 <= j < i ==> !self.dev_at(dev, j),
            decreases self.devs.len() - i,
        {
            if self.devs[i].dev_idx == dev {
                return Some(i);
            }
            i += 1;
        }
        None
    }
}

/// Notes which buckets are in use, and for what.
pub fn bch2_gc_alloc_start(allocator: &BchAllocator) -> (r: AllocSnapshot)
    requires
        allocator.wf(),
    ensures
        r.wf(),
        forall|dev: u8, b: u64| #[trigger] r.used(dev, b) == use_at(allocator@, dev, b),
{
    let ghost devs = allocator@;
    let mut out: Vec<DevStates> = Vec::new();
    let mut d: usize = 0;
    while d < allocator.devs.len()
        invariant
            devs == allocator@,
            d <= allocator.devs.len(),
            out@.len() == d,
            forall|i: int|
                0 <= i < d ==> {
                    &&& (#[trigger] out@[i]).dev_idx == devs[i].dev_idx
                    &&& out@[i].states@.len() == devs[i].slots.len()
                    &&& forall|b: int|
                        0 <= b < devs[i].slots.len() ==> #[trigger] out@[i].states@[b] == use_of(
                            devs[i].slots[b],
                        )
                },
        decreases allocator.devs.len() - d,
    {
        let dev: &BchDev = &allocator.devs[d];
        assert(devs[d as int] == dev@);
        let mut states: Vec<Option<BchDataType>> = Vec::new();
        let mut b: usize = 0;
        while b < dev.slots.len()
            invariant
                b <= dev.slots.len(),
                states@.len() == b,
                forall|x: int| 0 <= x < b ==> #[trigger] states@[x] == use_of(dev.slots@[x]),
            decreases dev.slots.len() - b,
        {
            let state: BchDataType = dev.slots[b].bucket.state;
            if state != BchDataType::Free && state != BchDataType::NeedDiscard {
                states.push(Some(state));
            } else {
                states.push(None);
            }
            b += 1;
        }
        out.push(DevStates { dev_idx: dev.dev_idx, states });
        d += 1;
    }
    let r: AllocSnapshot = AllocSnapshot { devs: out };
    proof {
        assert forall|i: int, j: int| 0 <= i < j < r.devs@.len() implies (
        #[trigger] r.devs@[i]).dev_idx != (#[trigger] r.devs@[j]).dev_idx by {
            assert(devs[i].dev_idx != devs[j].dev_idx);
        }
        assert forall|dev: u8, b: u64| #[trigger] r.used(dev, b) == use_at(devs, dev, b) by {
            if exists|i: int| r.dev_at(dev, i) {
                let i = choose|i: int| r.dev_at(dev, i);
                assert(r.devs@[i].dev_idx == devs[i].dev_idx);
                assert(dev_at(devs, dev, i));
                lemma_dev_index(devs, dev, i);
                r.lemma_used(dev, b, i);
            } else {
                assert forall|i: int| !dev_at(devs, dev, i) by {
                    if dev_at(devs, dev, i) {
                        assert(r.devs@[i].dev_idx == devs[i].dev_idx);
                        assert(r.dev_at(dev, i));
                    }
                }
            }
        }
    }
    r
}

/// A change of what a bucket is in use for.
#[derive(Debug, Clone, Copy, PartialEq, Eq, Structural)]
pub struct AllocChange {
    pub dev: u8,
    pub bucket: u64,
    /// What the bucket was in use for.
    pub was: Option<BchDataType>,
    /// What the bucket is in use for.
    pub is: Option<BchDataType>,
}

/// `c` is the change of its bucket since the snapshot.
pub open spec fn is_change(devs: Seq<DevView>, snap: AllocSnapshot, c: AllocChange) -> bool {
    &&& c.was == snap.used(c.dev, c.bucket)
    &&& c.is == use_at(devs, c.dev, c.bucket)
    &&& c.was != c.is
}

fn report_change(out: &mut Vec<AllocChange>, y: AllocChange)
    ensures
        forall|x: AllocChange| #[trigger]
            final(out)@.contains(x) <==> old(out)@.contains(x) || x == y,
        old(out)@.no_duplicates() && !old(out)@.contains(y) ==> final(out)@.no_duplicates(),
{
    let ghost o = out@;
    out.push(y);
    proof {
        assert forall|x: AllocChange| #[trigger] out@.contains(x) <==> o.contains(x) || x == y by {
            if o.contains(x) {
                let i = choose|i: int| 0 <= i < o.len() && o[i] == x;
                assert(out@[i] == x);
            }
            if x == y {
                assert(out@[o.len() as int] == x);
            }
            if out@.contains(x) {
                let i = choose|i: int| 0 <= i < out@.len() && out@[i] == x;
                if i < o.len() {
                    assert(o[i] == x);
                }
            }
        }
    }
}

/// Lists the buckets whose use has changed since the snapshot: those that are no longer in use,
/// those that came into use, and those that are in use for something else.
pub fn bch2_gc_alloc_done(allocator: &BchAllocator, snapshot: AllocSnapshot) -> (r: Result<
    Vec<AllocChange>,
    StorageError,
>)
    requires
        allocator.wf(),
        snapshot.wf(),
    ensures
        r is Ok,
        forall|c: AllocChange| #[trigger]
            r->Ok_0@.contains(c) <==> is_change(allocator@, snapshot, c),
        r->Ok_0@.no_duplicates(),
{
    let ghost devs = allocator@;
    let mut out: Vec<AllocChange> = Vec::new();
    let mut d: usize = 0;
    while d < allocator.devs.len()
        invariant
            devs == allocator@,
            allocator.wf(),
            snapshot.wf(),
            d <= allocator.devs.len(),
            out@.no_duplicates(),
            forall|c: AllocChange| #[trigger]
                out@.contains(c) <==> is_change(devs, snapshot, c) && present(devs, c, d as int, 0),
        decreases allocator.devs.len() - d,
    {
        let dev: &BchDev = &allocator.devs[d];
        assert(devs[d as int] == dev@);
        let place: Option<usize> = snapshot.device(dev.dev_idx);
        proof {
            assert(dev_at(devs, dev.dev_idx, d as int));
            lemma_dev_index(devs, dev.dev_idx, d as int);
        }
        let mut b: usize = 0;
        while b < dev.slots.len()
            invariant
                devs == allocator@,
                allocator.wf(),
                snapshot.wf(),
                d < devs.len(),
                devs[d as int] == dev@,
                dev_index(devs, dev.dev_idx) == Some(d as int),
                match place {
                    Some(i) => snapshot.dev_at(dev.dev_idx, i as int),
                    None => forall|i: int| !snapshot.dev_at(dev.dev_idx, i),
                },
                b <= dev.slots.len(),
                out@.no_duplicates(),
                forall|c: AllocChange| #[trigger]
                    out@.contains(c) <==> is_change(devs, snapshot, c) && present(
                        devs,
                        c,
                        d as int,
                        b as int,
                    ),
            decreases dev.slots.len() - b,
        {
            let state: BchDataType = dev.slots[b].bucket.state;
            let is: Option<BchDataType> = if state != BchDataType::Free && state
                != BchDataType::NeedDiscard {
                Some(state)
            } else {
                None
            };
            let was: Option<BchDataType> = match place {
                None => None,
                Some(i) => {
                    proof {
                        snapshot.lemma_used(dev.dev_idx, b as u64, i as int);
                    }
                    if b < snapshot.devs[i].states.len() {
                        snapshot.devs[i].states[b]
                    } else {
                        None
                    }
                },
            };
            let ghost c = AllocChange { dev: dev.dev_idx, bucket: b as u64, was, is };
            let ghost o1 = out@;
            proof {
                assert(is == use_at(devs, dev.dev_idx, b as u64));
                assert(was == snapshot.used(dev.dev_idx, b as u64));
                assert forall|x: AllocChange|
                    is_change(devs, snapshot, x) && present(
                        devs,
                        x,
                        d as int,
                        b + 1,
                    ) implies #[trigger] present(devs, x, d as int, b as int) || x == c by {}
            }
            let changed: bool = match (was, is) {
                (None, None) => false,
                (Some(x), Some(y)) => x != y,
                _ => true,
            };
            if changed {
                report_change(&mut out, AllocChange { dev: dev.dev_idx, bucket: b as u64, was, is });
            }
            b += 1;
        }
        d += 1;
        proof {
            assert forall|x: AllocChange|
                is_change(devs, snapshot, x) implies present(devs, x, d as int, 0) == #[trigger] present(
            devs, x, d - 1, dev.slots@.len() as int) by {}
        }
    }
    let mut i: usize = 0;
    while i < snapshot.devs.len()
        invariant
            devs == allocator@,
            allocator.wf(),
            snapshot.wf(),
            i <= snapshot.devs.len(),
            out@.no_duplicates(),
            forall|c: AllocChange| #[trigger]
                out@.contains(c) <==> is_change(devs, snapshot, c) && (present(
                    devs,
                    c,
                    devs.len() as int,
                    0,
                ) || noted(snapshot, c, i as int, 0)),
        decreases snapshot.devs.len() - i,
    {
        let old_dev: &DevStates = &snapshot.devs[i];
        let first: usize = match allocator.device(old_dev.dev_idx) {
            None => 0,
            Some(d) => {
                assert(devs[d as int] == allocator.devs@[d as int]@);
                allocator.devs[d].slots.len()
            },
        };
        let mut b: usize = 0;
        while b < old_dev.states.len()
            invariant
                devs == allocator@,
                allocator.wf(),
                snapshot.wf(),
                i < snapshot.devs@.len(),
                *old_dev == snapshot.devs@[i as int],
                first == match dev_index(devs, old_dev.dev_idx) {
                    Some(d) => devs[d].slots.len() as int,
                    None => 0,
                },
                b <= old_dev.states.len(),
                out@.no_duplicates(),
                forall|c: AllocChange| #[trigger]
                    out@.contains(c) <==> is_change(devs, snapshot, c) && (present(
                        devs,
                        c,
                        devs.len() as int,
                        0,
                    ) || noted(snapshot, c, i as int, b as int)),
            decreases old_dev.states.len() - b,
        {
            let was: Option<BchDataType> = old_dev.states[b];
            let ghost c = AllocChange {
                dev: old_dev.dev_idx,
                bucket: b as u64,
                was,
                is: use_at(devs, old_dev.dev_idx, b as u64),
            };
            proof {
                assert(snapshot.dev_at(old_dev.dev_idx, i as int));
                snapshot.lemma_used(old_dev.dev_idx, b as u64, i as int);
                assert forall|x: AllocChange|
                    is_change(devs, snapshot, x) && noted(
                        snapshot,
                        x,
                        i as int,
                        b + 1,
                    ) implies #[trigger] noted(snapshot, x, i as int, b as int) || x == c by {}
                if b < first {
                    let d = dev_index(devs, old_dev.dev_idx)->0;
                    lemma_found(devs, old_dev.dev_idx);
                    assert(present(devs, c, devs.len() as int, 0));
                }
            }
            if b >= first && was.is_some() {
                report_change(
                    &mut out,
                    AllocChange { dev: old_dev.dev_idx, bucket: b as u64, was, is: None },
                );
            }
            b += 1;
        }
        i += 1;
        proof {
            assert forall|x: AllocChange|
                is_change(devs, snapshot, x) implies noted(snapshot, x, i as int, 0)
                == #[trigger] noted(snapshot, x, i - 1, old_dev.states@.len() as int) by {
                if noted(snapshot, x, i as int, 0) && !noted(
                    snapshot,
                    x,
                    i - 1,
                    old_dev.states@.len() as int,
                ) {
                    let j = choose|j: int| 0 <= j < i && #[trigger] snapshot.dev_at(x.dev, j)
                        && x.bucket < snapshot.devs@[j].states@.len();
                    assert(j == i - 1);
                }
            }
        }
    }
    proof {
        assert forall|c: AllocChange| is_change(devs, snapshot, c) implies present(
            devs,
            c,
            devs.len() as int,
            0,
        ) || noted(snapshot, c, snapshot.devs@.len() as int, 0) by {
            if c.is is Some {
                lemma_found(devs, c.dev);
            } else {
                let j = choose|j: int| snapshot.dev_at(c.dev, j);
                assert(snapshot.dev_at(c.dev, j));
                snapshot.lemma_used(c.dev, c.bucket, j);
            }
        }
    }
    Ok(out)
}

proof fn lemma_found(devs: Seq<DevView>, dev: u8)
    ensures
        dev_index(devs, dev) is Some ==> dev_at(devs, dev, dev_index(devs, dev)->0),
{
}

/// The bucket of a change is one of a device before `d`, or one before `b` of device `d`.
spec fn present(devs: Seq<DevView>, c: AllocChange, d: int, b: int) -> bool {
    match dev_index(devs, c.dev) {
        Some(i) => c.bucket < devs[i].slots.len() && (i < d || i == d && c.bucket < b),
        None => false,
    }
}

/// The bucket of a change is noted of a device before `i`, or before `b` of device `i`.
spec fn noted(snap: AllocSnapshot, c: AllocChange, i: int, b: int) -> bool {
    ||| exists|j: int|
        0 <= j < i && #[trigger] snap.dev_at(c.dev, j) && c.bucket < snap.devs@[j].states@.len()
    ||| snap.dev_at(c.dev, i) && c.bucket < b && c.bucket < snap.devs@[i].states@.len()
}

/// A leak is a bucket in use, so neither free nor waiting for its discard, with no pointer of any
/// entry to one of its sectors; each stands in the report, with its device and its state.
pub proof fn law_leaks(devs: Seq<DevView>, c: Seq<EntryView>, l: AllocLeak)
    requires
        forall|d: int|
            0 <= d < devs.len() ==> (#[trigger] devs[d]).bucket_size > 0 && devs[d].slots.len()
                <= u64::MAX,
    ensures
        leaks_of(devs, c, devs.len()).contains(l) <==> exists|d: int| #[trigger]
            leaks(devs, c, d, l),
{
    lemma_leaks(devs, c, devs.len(), l);
}

/// Leak `l` is a bucket of device `d`.
pub open spec fn leaks(devs: Seq<DevView>, c: Seq<EntryView>, d: int, l: AllocLeak) -> bool {
    &&& 0 <= d < devs.len()
    &&& l.dev == devs[d].dev_idx
    &&& l.bucket < devs[d].slots.len()
    &&& l.state == devs[d].slots[l.bucket as int].bucket.state
    &&& l.state != BchDataType::Free
    &&& l.state != BchDataType::NeedDiscard
    &&& forall|i: int, j: int|
        0 <= i < c.len() && 0 <= j < c[i].value.ptrs().len() ==> !lies_in(
            #[trigger] c[i].value.ptrs()[j],
            devs[d],
            l.bucket as int,
        )
}

proof fn lemma_leaks_dev(dev: DevView, c: Seq<EntryView>, n: nat, l: AllocLeak)
    requires
        n <= u64::MAX + 1,
        n <= dev.slots.len(),
    ensures
        leaks_dev(dev, c, n).contains(l) <==> l.dev == dev.dev_idx && l.bucket < n && l.state
            == dev.slots[l.bucket as int].bucket.state && l.state != BchDataType::Free && l.state
            != BchDataType::NeedDiscard && !referenced(c, dev, l.bucket as int),
    decreases n,
{
    if n > 0 {
        let m = (n - 1) as nat;
        lemma_leaks_dev(dev, c, m, l);
        let rest = leaks_dev(dev, c, m);
        let whole = leaks_dev(dev, c, n);
        let state = dev.slots[m as int].bucket.state;
        let y = AllocLeak { dev: dev.dev_idx, bucket: m as u64, state };
        assert(m as u64 == m);
        if state.in_use() && !referenced(c, dev, m as int) {
            assert(whole == rest.push(y));
            assert(whole.last() == y);
            assert forall|i: int| 0 <= i < rest.len() implies whole[i] == rest[i] by {}
            if rest.contains(l) {
                let i = choose|i: int| 0 <= i < rest.len() && rest[i] == l;
                assert(whole[i] == l);
            }
            if whole.contains(l) && l != y {
                let i = choose|i: int| 0 <= i < whole.len() && whole[i] == l;
                assert(rest[i] == l);
            }
        }
    }
}

proof fn lemma_leaks(devs: Seq<DevView>, c: Seq<EntryView>, k: nat, l: AllocLeak)
    requires
        k <= devs.len(),
        forall|d: int|
            0 <= d < devs.len() ==> (#[trigger] devs[d]).bucket_size > 0 && devs[d].slots.len()
                <= u64::MAX,
    ensures
        leaks_of(devs, c, k).contains(l) <==> exists|d: int| d < k && #[trigger] leaks(
            devs,
            c,
            d,
            l,
        ),
    decreases k,
{
    if k > 0 {
        let m = (k - 1) as nat;
        lemma_leaks(devs, c, m, l);
        let dev = devs[m as int];
        let a = leaks_of(devs, c, m);
        let b = leaks_dev(dev, c, dev.slots.len());
        vstd::seq_lib::lemma_seq_concat_contains_all_elements(a, b, l);
        lemma_leaks_dev(dev, c, dev.slots.len(), l);
        law_referenced_buckets(c, dev, l.bucket as int);
        assert(b.contains(l) <==> leaks(devs, c, m as int, l));
        if exists|d: int| d < k && #[trigger] leaks(devs, c, d, l) {
            let d = choose|d: int| d < k && #[trigger] leaks(devs, c, d, l);
            if d < m {
                assert(d < m && leaks(devs, c, d, l));
            }
        }
    }
}

/// A bucket is in use in every state but free and waiting for its discard; a bucket that no device
/// has is not.
pub proof fn law_buckets_in_use(devs: Seq<DevView>, d: int, b: int, dev: u8)
    requires
        0 <= d < devs.len(),
        0 <= b < devs[d].slots.len() <= u64::MAX,
        devs_ok(devs),
    ensures
        ({
            let s = devs[d].slots[b].bucket.state;
            use_at(devs, devs[d].dev_idx, b as u64) == if s == BchDataType::Free || s
                == BchDataType::NeedDiscard {
                None
            } else {
                Some(s)
            }
        }),
        use_at(devs, devs[d].dev_idx, devs[d].slots.len() as u64) is None,
        (forall|i: int| 0 <= i < devs.len() ==> (#[trigger] devs[i]).dev_idx != dev) ==> use_at(
            devs,
            dev,
            b as u64,
        ) is None,
{
    assert(dev_at(devs, devs[d].dev_idx, d));
    lemma_dev_index(devs, devs[d].dev_idx, d);
}

} // verus!
