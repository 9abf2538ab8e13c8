//! Layers of sorted records: later layers hide earlier ones.

use crate::bset_walk::{gives, gives_back, lemma_gives_step, lemma_gives_step_back};
use crate::key::{lemma_ord, Bpos, BtreeEntry};
use crate::writer::StorageError;
use vstd::prelude::*;

verus! {

/// Layers of a node.
pub const MAX_BSETS: usize = 3;

/// Bytes that one point of the search index covers.
pub const BSET_CACHELINE: usize = 256;

/// Records of a layer at most.
pub const BSET_ENTRY_LIMIT: usize = 512;

/// Records that one point of the search index covers.
pub const AUX_STEP: usize = 10;

/// The type of records that point at nodes.
pub const ENTRY_TYPE_BTREE_PTR: u8 = 5;

/// One layer of records.
#[derive(Debug)]
pub struct Bset {
    pub seq: u64,
    pub journal_seq: u64,
    pub flags: u32,
    pub version: u16,
    pub entries: Vec<BtreeEntry>,
}

/// Records in strictly ascending order.
pub open spec fn in_order(s: Seq<BtreeEntry>) -> bool {
    forall|i: int, j: int|
        0 <= i < j < s.len() ==> (#[trigger] s[i]).pos.ord() < (#[trigger] s[j]).pos.ord()
}

/// `i` records stand before rank `k`.
pub open spec fn before_at(s: Seq<BtreeEntry>, k: int, i: int) -> bool {
    &&& 0 <= i <= s.len()
    &&& forall|j: int| 0 <= j < i ==> (#[trigger] s[j]).pos.ord() < k
    &&& forall|j: int| i <= j < s.len() ==> (#[trigger] s[j]).pos.ord() >= k
}

/// How many records stand before rank `k`.
pub open spec fn before(s: Seq<BtreeEntry>, k: int) -> int {
    choose|i: int| before_at(s, k, i)
}

/// There is a record at rank `k`.
pub open spec fn there(s: Seq<BtreeEntry>, k: int) -> bool {
    exists|i: int| 0 <= i < s.len() && (#[trigger] s[i]).pos.ord() == k
}

proof fn lemma_before(s: Seq<BtreeEntry>, k: int, i: int)
    requires
        in_order(s),
        before_at(s, k, i),
    ensures
        before(s, k) == i,
        there(s, k) <==> i < s.len() && s[i].pos.ord() == k,
{
    let b = before(s, k);
    assert(before_at(s, k, b));
    if b < i {
        assert(s[b].pos.ord() < k);
    }
    if i < b {
        assert(s[i].pos.ord() < k);
    }
    if there(s, k) {
        let j = choose|j: int| 0 <= j < s.len() && (#[trigger] s[j]).pos.ord() == k;
        if j > i {
            assert(s[i].pos.ord() < s[j].pos.ord());
        }
    }
}

impl Bset {
    pub open spec fn wf(self) -> bool {
        in_order(self.entries@)
    }

    /// No records yet.
    pub open spec fn blank(self, seq: u64) -> bool {
        &&& self.entries@ == Seq::<BtreeEntry>::empty()
        &&& self.seq == seq
        &&& self.journal_seq == 0
        &&& self.flags == 0
        &&& self.version == 0
    }

    pub fn new(seq: u64) -> (r: Bset)
        ensures
            r.wf(),
            r.blank(seq),
    {
        Bset { seq, journal_seq: 0, flags: 0, version: 0, entries: Vec::new() }
    }

    pub fn with_capacity(seq: u64, cap: usize) -> (r: Bset)
        ensures
            r.wf(),
            r.blank(seq),
    {
        Bset { seq, journal_seq: 0, flags: 0, version: 0, entries: Vec::with_capacity(cap) }
    }

    pub fn is_empty(&self) -> (r: bool)
        ensures
            r == (self.entries@.len() == 0),
    {
        self.entries.len() == 0
    }

    pub fn len(&self) -> (r: usize)
        ensures
            r == self.entries@.len(),
    {
        self.entries.len()
    }

    /// The place of the record at `pos`, or else the place where it would go.
    pub fn search_idx(&self, pos: &Bpos) -> (r: Result<usize, usize>)
        requires
            self.wf(),
        ensures
            match r {
                Ok(i) => there(self.entries@, pos.ord()) && i == before(
                    self.entries@,
                    pos.ord(),
                ) && i < self.entries@.len() && self.entries@[i as int].pos == *pos,
                Err(i) => !there(self.entries@, pos.ord()) && i == before(
                    self.entries@,
                    pos.ord(),
                ) && i <= self.entries@.len(),
            },
    {
        let ghost s = self.entries@;
        let ghost k = pos.ord();
        let mut lo: usize = 0;
        let mut hi: usize = self.entries.len();
        while lo < hi
            invariant
                self.wf(),
                s == self.entries@,
                k == pos.ord(),
                lo <= hi <= s.len(),
                forall|j: int| 0 <= j < lo ==> (#[trigger] s[j]).pos.ord() < k,
                forall|j: int| hi <= j < s.len() ==> (#[trigger] s[j]).pos.ord() >= k,
            decreases hi - lo,
        {
            let mid: usize = lo + (hi - lo) / 2;
            proof {
                lemma_ord(s[mid as int].pos, *pos);
            }
            if self.entries[mid].pos.precedes(pos) {
                assert forall|j: int| 0 <= j < mid + 1 implies (#[trigger] s[j]).pos.ord() < k by {
                    if j < mid {
                        assert(s[j].pos.ord() < s[mid as int].pos.ord());
                    }
                }
                lo = mid + 1;
            } else {
                assert forall|j: int| mid <= j < s.len() implies (#[trigger] s[j]).pos.ord()
                    >= k by {
                    if j > mid {
                        assert(s[mid as int].pos.ord() < s[j].pos.ord());
                    }
                }
                hi = mid;
            }
        }
        proof {
            assert(before_at(s, k, lo as int));
            lemma_before(s, k, lo as int);
            if lo < s.len() {
                lemma_ord(s[lo as int].pos, *pos);
            }
        }
        if lo < self.entries.len() && self.entries[lo].pos == *pos {
            Ok(lo)
        } else {
            Err(lo)
        }
    }

    /// The record at `pos`.
    pub fn get(&self, pos: &Bpos) -> (r: Option<&BtreeEntry>)
        requires
            self.wf(),
        ensures
            r is Some <==> there(self.entries@, pos.ord()),
            r is Some ==> *r->0 == self.entries@[before(self.entries@, pos.ord())],
    {
        match self.search_idx(pos) {
            Ok(i) => Some(&self.entries[i]),
            Err(_) => None,
        }
    }

    /// The record at `pos`, to change it.
    pub fn get_mut(&mut self, pos: &Bpos) -> (r: Option<&mut BtreeEntry>)
        requires
            old(self).wf(),
        ensures
            *final(self) == (Bset { entries: final(self).entries, ..*old(self) }),
            match r {
                Some(e) => {
                    let i = before(old(self).entries@, pos.ord());
                    &&& there(old(self).entries@, pos.ord())
                    &&& *e == old(self).entries@[i]
                    &&& final(self).entries@ == old(self).entries@.update(i, *final(e))
                },
                None => !there(old(self).entries@, pos.ord()) && final(self).entries@ == old(
                    self,
                ).entries@,
            },
    {
        match self.search_idx(pos) {
            Ok(i) => Some(&mut self.entries[i]),
            Err(_) => None,
        }
    }

    /// Adds a record, in place of one at the same position.
    pub fn insert(&mut self, entry: BtreeEntry) -> (r: Result<(), StorageError>)
        requires
            old(self).wf(),
        ensures
            r is Ok,
            final(self).wf(),
            *final(self) == (Bset { entries: final(self).entries, ..*old(self) }),
            ({
                let s = old(self).entries@;
                let i = before(s, entry.pos.ord());
                final(self).entries@ == if there(s, entry.pos.ord()) {
                    s.update(i, entry)
                } else {
                    s.insert(i, entry)
                }
            }),
    {
        let ghost s = self.entries@;
        let ghost k = entry.pos.ord();
        match self.search_idx(&entry.pos) {
            Ok(i) => {
                self.entries.set(i, entry);
                let ghost t = self.entries@;
                assert forall|a: int, b: int| 0 <= a < b < t.len() implies (
                #[trigger] t[a]).pos.ord() < (#[trigger] t[b]).pos.ord() by {
                    assert(s[a].pos.ord() < s[b].pos.ord());
                }
            },
            Err(i) => {
                proof {
                    lemma_gap(s, k);
                }
                self.entries.insert(i, entry);
                let ghost t = self.entries@;
                assert forall|a: int, b: int| 0 <= a < b < t.len() implies (
                #[trigger] t[a]).pos.ord() < (#[trigger] t[b]).pos.ord() by {
                    let x = if a < i {
                        a
                    } else {
                        a - 1
                    };
                    let y = if b < i {
                        b
                    } else {
                        b - 1
                    };
                    if a != i && b != i {
                        assert(s[x].pos.ord() < s[y].pos.ord());
                    }
                }
            },
        }
        Ok(())
    }

    /// Takes the record at `pos` away; whether there was one.
    pub fn delete(&mut self, pos: &Bpos) -> (r: bool)
        requires
            old(self).wf(),
        ensures
            final(self).wf(),
            r == there(old(self).entries@, pos.ord()),
            *final(self) == (Bset { entries: final(self).entries, ..*old(self) }),
            final(self).entries@ == if r {
                old(self).entries@.remove(before(old(self).entries@, pos.ord()))
            } else {
                old(self).entries@
            },
    {
        let ghost s = self.entries@;
        match self.search_idx(pos) {
            Ok(i) => {
                self.entries.remove(i);
                let ghost t = self.entries@;
                assert forall|a: int, b: int| 0 <= a < b < t.len() implies (
                #[trigger] t[a]).pos.ord() < (#[trigger] t[b]).pos.ord() by {
                    let x = if a < i {
                        a
                    } else {
                        a + 1
                    };
                    let y = if b < i {
                        b
                    } else {
                        b + 1
                    };
                    assert(s[x].pos.ord() < s[y].pos.ord());
                }
                true
            },
            Err(_) => false,
        }
    }

    pub fn clear(&mut self)
        ensures
            final(self).wf(),
            final(self).entries@ == Seq::<BtreeEntry>::empty(),
            *final(self) == (Bset { entries: final(self).entries, ..*old(self) }),
    {
        self.entries.clear();
    }

    /// The first record after `pos`.
    pub fn search_successor(&self, pos: &Bpos) -> (r: Option<&BtreeEntry>)
        requires
            self.wf(),
        ensures
            ({
                let s = self.entries@;
                let i = before(s, pos.ord() + 1);
                &&& before_at(s, pos.ord() + 1, i)
                &&& r is Some <==> i < s.len()
                &&& r is Some ==> *r->0 == s[i]
            }),
    {
        let ghost s = self.entries@;
        match self.search_idx(pos) {
            Ok(i) => {
                proof {
                    assert(s[i as int].pos.ord() == pos.ord());
                    assert(before_at(s, pos.ord() + 1, i + 1)) by {
                        assert forall|j: int| 0 <= j < i + 1 implies (#[trigger] s[j]).pos.ord()
                            < pos.ord() + 1 by {
                            if j < i {
                                assert(s[j].pos.ord() < s[i as int].pos.ord());
                            }
                        }
                        assert forall|j: int| i + 1 <= j < s.len() implies (
                        #[trigger] s[j]).pos.ord() >= pos.ord() + 1 by {
                            assert(s[i as int].pos.ord() < s[j].pos.ord());
                        }
                    }
                    lemma_before(s, pos.ord() + 1, i + 1);
                }
                if i < self.entries.len() - 1 {
                    Some(&self.entries[i + 1])
                } else {
                    None
                }
            },
            Err(i) => {
                proof {
                    lemma_gap(s, pos.ord());
                    assert(before_at(s, pos.ord() + 1, i as int));
                    lemma_before(s, pos.ord() + 1, i as int);
                }
                if i < self.entries.len() {
                    Some(&self.entries[i])
                } else {
                    None
                }
            },
        }
    }

    /// The last record before `pos`.
    pub fn search_predecessor(&self, pos: &Bpos) -> (r: Option<&BtreeEntry>)
        requires
            self.wf(),
        ensures
            ({
                let s = self.entries@;
                let i = before(s, pos.ord());
                &&& before_at(s, pos.ord(), i)
                &&& r is Some <==> i > 0
                &&& r is Some ==> *r->0 == s[i - 1]
            }),
    {
        proof {
            lemma_before_exists(self.entries@, pos.ord());
        }
        let i: usize = match self.search_idx(pos) {
            Ok(i) => i,
            Err(i) => i,
        };
        if i > 0 {
            Some(&self.entries[i - 1])
        } else {
            None
        }
    }

    pub fn first_entry(&self) -> (r: Option<&BtreeEntry>)
        ensures
            r is Some <==> self.entries@.len() > 0,
            r is Some ==> *r->0 == self.entries@[0],
    {
        if self.entries.len() > 0 {
            Some(&self.entries[0])
        } else {
            None
        }
    }

    pub fn last_entry(&self) -> (r: Option<&BtreeEntry>)
        ensures
            r is Some <==> self.entries@.len() > 0,
            r is Some ==> *r->0 == self.entries@[self.entries@.len() - 1],
    {
        if self.entries.len() > 0 {
            Some(&self.entries[self.entries.len() - 1])
        } else {
            None
        }
    }
}

/// There is always a place.
pub proof fn lemma_before_exists(s: Seq<BtreeEntry>, k: int)
    requires
        in_order(s),
    ensures
        before_at(s, k, before(s, k)),
    decreases s.len(),
{
    if s.len() == 0 {
        assert(before_at(s, k, 0));
    } else {
        let t = s.drop_last();
        assert(in_order(t)) by {
            assert forall|i: int, j: int| 0 <= i < j < t.len() implies (#[trigger] t[i]).pos.ord()
                < (#[trigger] t[j]).pos.ord() by {
                assert(s[i].pos.ord() < s[j].pos.ord());
            }
        }
        lemma_before_exists(t, k);
        let b = before(t, k);
        if s.last().pos.ord() < k {
            assert(before_at(s, k, s.len() as int)) by {
                assert forall|j: int| 0 <= j < s.len() implies (#[trigger] s[j]).pos.ord() < k by {
                    if j < s.len() - 1 {
                        assert(s[j].pos.ord() < s[s.len() - 1].pos.ord());
                    }
                }
            }
        } else {
            assert(before_at(s, k, b)) by {
                assert forall|j: int| 0 <= j < b implies (#[trigger] s[j]).pos.ord() < k by {
                    assert(t[j] == s[j]);
                }
                assert forall|j: int| b <= j < s.len() implies (#[trigger] s[j]).pos.ord()
                    >= k by {
                    if j < t.len() {
                        assert(t[j] == s[j]);
                    }
                }
            }
        }
    }
}

/// Where there is no record at a rank, those before and those after leave it out.
proof fn lemma_gap(s: Seq<BtreeEntry>, k: int)
    requires
        in_order(s),
        !there(s, k),
    ensures
        ({
            let i = before(s, k);
            &&& before_at(s, k, i)
            &&& forall|j: int| i <= j < s.len() ==> (#[trigger] s[j]).pos.ord() > k
        }),
{
    lemma_before_exists(s, k);
    let i = before(s, k);
    assert forall|j: int| i <= j < s.len() implies (#[trigger] s[j]).pos.ord() > k by {
        if s[j].pos.ord() == k {
            assert(there(s, k));
        }
    }
}

/// How a layer is searched.
#[derive(Debug, Clone, Copy, PartialEq, Eq, Hash, Structural)]
pub enum BsetAuxTreeType {
    /// The layer is too small for an index.
    NoAuxTree,
    /// The index is read only.
    RoAuxTree,
    /// The index of the layer that is written to.
    RwAuxTree,
}

/// A point of a search index.
#[derive(Debug, Clone, Copy, PartialEq, Eq, Structural)]
pub struct RwAuxEntry {
    pub entry_idx: u16,
    pub pos: Bpos,
}

/// A layer with its search index.
#[derive(Debug)]
pub struct BsetTree {
    pub bset: Bset,
    pub aux_type: BsetAuxTreeType,
    pub rw_aux: Vec<RwAuxEntry>,
    pub data_offset: u16,
    pub end_offset: u16,
}

/// The points of the index of a layer.
pub open spec fn aux_points(s: Seq<BtreeEntry>) -> Seq<RwAuxEntry> {
    Seq::new(
        ((s.len() + AUX_STEP - 1) / AUX_STEP as int) as nat,
        |k: int| RwAuxEntry { entry_idx: (k * AUX_STEP) as u16, pos: s[k * AUX_STEP].pos },
    )
}

/// The index that a layer of `n` records has.
pub open spec fn aux_type_for(n: nat) -> BsetAuxTreeType {
    if n > 256 {
        BsetAuxTreeType::RwAuxTree
    } else if n > 64 {
        BsetAuxTreeType::RoAuxTree
    } else {
        BsetAuxTreeType::NoAuxTree
    }
}

impl BsetTree {
    /// The records are in order.
    pub open spec fn wf(self) -> bool {
        self.bset.wf()
    }

    pub fn new(seq: u64) -> (r: BsetTree)
        ensures
            r.wf(),
            r.bset.blank(seq),
            r.aux_type == BsetAuxTreeType::NoAuxTree,
            r.rw_aux@ == Seq::<RwAuxEntry>::empty(),
            r.data_offset == 0 && r.end_offset == 0,
    {
        BsetTree {
            bset: Bset::new(seq),
            aux_type: BsetAuxTreeType::NoAuxTree,
            rw_aux: Vec::new(),
            data_offset: 0,
            end_offset: 0,
        }
    }

    pub fn with_capacity(seq: u64, cap: usize) -> (r: BsetTree)
        ensures
            r.wf(),
            r.bset.blank(seq),
            r.aux_type == BsetAuxTreeType::NoAuxTree,
            r.rw_aux@ == Seq::<RwAuxEntry>::empty(),
            r.data_offset == 0 && r.end_offset == 0,
    {
        BsetTree {
            bset: Bset::with_capacity(seq, cap),
            aux_type: BsetAuxTreeType::NoAuxTree,
            rw_aux: Vec::new(),
            data_offset: 0,
            end_offset: 0,
        }
    }

    pub fn is_empty(&self) -> (r: bool)
        ensures
            r == (self.bset.entries@.len() == 0),
    {
        self.bset.is_empty()
    }

    pub fn len(&self) -> (r: usize)
        ensures
            r == self.bset.entries@.len(),
    {
        self.bset.len()
    }
}

/// An iterator over several layers at once: a place in each of the first `nr`.
#[derive(Debug, Clone, Copy, PartialEq, Eq)]
pub struct BtreeNodeIter {
    pub indices: [u16; 3],
    pub nr: u8,
}

/// The first `nr` layers are fine.
pub open spec fn layers_wf(sets: Seq<BsetTree>, nr: int) -> bool {
    sets.len() == MAX_BSETS && forall|i: int| 0 <= i < nr ==> (#[trigger] sets[i]).wf()
}

/// The first `nr` layers are fine, and their records not too many to be numbered.
pub open spec fn layers_ok(sets: Seq<BsetTree>, nr: int) -> bool {
    &&& layers_wf(sets, nr)
    &&& forall|i: int| 0 <= i < nr ==> (#[trigger] sets[i]).bset.entries@.len() <= u16::MAX
}

/// Layer `i` has a record to give, from place `at[i]` on.
pub open spec fn has_at(sets: Seq<BsetTree>, at: Seq<u16>, nr: int, i: int) -> bool {
    0 <= i < nr && at[i] < sets[i].bset.entries@.len()
}

/// The record that layer `i` has to give.
pub open spec fn rec_at(sets: Seq<BsetTree>, at: Seq<u16>, i: int) -> BtreeEntry {
    sets[i].bset.entries@[at[i] as int]
}

/// Layer `i` has the first record; of several at one position the earliest layer has it.
pub open spec fn first_at(sets: Seq<BsetTree>, at: Seq<u16>, nr: int, i: int) -> bool {
    &&& has_at(sets, at, nr, i)
    &&& forall|j: int| #[trigger]
        has_at(sets, at, nr, j) ==> {
            &&& rec_at(sets, at, i).pos.ord() <= rec_at(sets, at, j).pos.ord()
            &&& j < i ==> rec_at(sets, at, i).pos.ord() < rec_at(sets, at, j).pos.ord()
        }
}

/// Layer `i` has the last record; of several at one position the earliest layer has it.
pub open spec fn last_at(sets: Seq<BsetTree>, at: Seq<u16>, nr: int, i: int) -> bool {
    &&& has_at(sets, at, nr, i)
    &&& forall|j: int| #[trigger]
        has_at(sets, at, nr, j) ==> {
            &&& rec_at(sets, at, i).pos.ord() >= rec_at(sets, at, j).pos.ord()
            &&& j < i ==> rec_at(sets, at, i).pos.ord() > rec_at(sets, at, j).pos.ord()
        }
}

/// The layer that has the first record.
pub open spec fn first_layer(sets: Seq<BsetTree>, at: Seq<u16>, nr: int) -> Option<int> {
    if exists|i: int| first_at(sets, at, nr, i) {
        Some(choose|i: int| first_at(sets, at, nr, i))
    } else {
        None
    }
}

/// The layer that has the last record.
pub open spec fn last_layer(sets: Seq<BsetTree>, at: Seq<u16>, nr: int) -> Option<int> {
    if exists|i: int| last_at(sets, at, nr, i) {
        Some(choose|i: int| last_at(sets, at, nr, i))
    } else {
        None
    }
}

/// Records that layer `i` has still to give.
pub open spec fn left_of(sets: Seq<BsetTree>, at: Seq<u16>, nr: int, i: int) -> int {
    if has_at(sets, at, nr, i) {
        sets[i].bset.entries@.len() - at[i]
    } else {
        0
    }
}

/// Records that layer `i` has still to give backwards.
pub open spec fn back_of(sets: Seq<BsetTree>, at: Seq<u16>, nr: int, i: int) -> int {
    if has_at(sets, at, nr, i) {
        at[i] + 1
    } else {
        0
    }
}

/// The places after a step in layer `i`.
pub open spec fn moved(at: Seq<u16>, i: int) -> Seq<u16> {
    at.update(i, (at[i] + 1) as u16)
}

/// The places after a step back in layer `i`; nothing is left of a layer once its first record was
/// given.
pub open spec fn moved_back(at: Seq<u16>, i: int) -> Seq<u16> {
    at.update(
        i,
        if at[i] > 0 {
            (at[i] - 1) as u16
        } else {
            u16::MAX
        },
    )
}

/// A record that is passed over.
pub open spec fn passed_over(e: BtreeEntry, skip_ptrs: bool) -> bool {
    skip_ptrs && e.entry_type == ENTRY_TYPE_BTREE_PTR
}

/// The next record that is not passed over, with its layer, and the places after it.
pub open spec fn next_rec(sets: Seq<BsetTree>, at: Seq<u16>, nr: int, skip_ptrs: bool) -> (
    Option<(int, BtreeEntry)>,
    Seq<u16>,
)
    decreases
            left_of(sets, at, nr, 0) + left_of(sets, at, nr, 1) + left_of(sets, at, nr, 2),
    when layers_ok(sets, nr) && at.len() == MAX_BSETS && nr <= MAX_BSETS
    via next_rec_ends
{
    match first_layer(sets, at, nr) {
        None => (None, at),
        Some(i) => {
            let e = rec_at(sets, at, i);
            if passed_over(e, skip_ptrs) {
                next_rec(sets, moved(at, i), nr, skip_ptrs)
            } else {
                (Some((i, e)), moved(at, i))
            }
        },
    }
}

#[via_fn]
proof fn next_rec_ends(sets: Seq<BsetTree>, at: Seq<u16>, nr: int, skip_ptrs: bool) {
    if let Some(i) = first_layer(sets, at, nr) {
        assert(first_at(sets, at, nr, i));
        assert(sets[i].wf());
        lemma_step(sets, at, nr, i);
    }
}

pub(crate) proof fn lemma_step(sets: Seq<BsetTree>, at: Seq<u16>, nr: int, i: int)
    requires
        layers_ok(sets, nr),
        at.len() == MAX_BSETS,
        nr <= MAX_BSETS,
        has_at(sets, at, nr, i),
    ensures
        ({
            let t = moved(at, i);
            left_of(sets, t, nr, 0) + left_of(sets, t, nr, 1) + left_of(sets, t, nr, 2) < left_of(
                sets,
                at,
                nr,
                0,
            ) + left_of(sets, at, nr, 1) + left_of(sets, at, nr, 2)
        }),
{
    let t = moved(at, i);
    assert(sets[i].wf());
    assert(left_of(sets, t, nr, i) == left_of(sets, at, nr, i) - 1);
    assert(forall|j: int| 0 <= j < 3 && j != i ==> t[j] == at[j]);
    assert(i == 0 || i == 1 || i == 2);
}

/// The last record that is not passed over, with its layer, and the places before it.
pub open spec fn prev_rec(sets: Seq<BsetTree>, at: Seq<u16>, nr: int, skip_ptrs: bool) -> (
    Option<(int, BtreeEntry)>,
    Seq<u16>,
)
    decreases
            back_of(sets, at, nr, 0) + back_of(sets, at, nr, 1) + back_of(sets, at, nr, 2),
    when layers_ok(sets, nr) && at.len() == MAX_BSETS && nr <= MAX_BSETS
    via prev_rec_ends
{
    match last_layer(sets, at, nr) {
        None => (None, at),
        Some(i) => {
            let e = rec_at(sets, at, i);
            if passed_over(e, skip_ptrs) {
                prev_rec(sets, moved_back(at, i), nr, skip_ptrs)
            } else {
                (Some((i, e)), moved_back(at, i))
            }
        },
    }
}

#[via_fn]
proof fn prev_rec_ends(sets: Seq<BsetTree>, at: Seq<u16>, nr: int, skip_ptrs: bool) {
    if let Some(i) = last_layer(sets, at, nr) {
        assert(last_at(sets, at, nr, i));
        lemma_step_back(sets, at, nr, i);
    }
}

pub(crate) proof fn lemma_step_back(sets: Seq<BsetTree>, at: Seq<u16>, nr: int, i: int)
    requires
        layers_ok(sets, nr),
        at.len() == MAX_BSETS,
        nr <= MAX_BSETS,
        has_at(sets, at, nr, i),
    ensures
        ({
            let t = moved_back(at, i);
            back_of(sets, t, nr, 0) + back_of(sets, t, nr, 1) + back_of(sets, t, nr, 2) < back_of(
                sets,
                at,
                nr,
                0,
            ) + back_of(sets, at, nr, 1) + back_of(sets, at, nr, 2)
        }),
{
    let t = moved_back(at, i);
    assert(sets[i].wf());
    assert(back_of(sets, t, nr, i) == back_of(sets, at, nr, i) - 1);
    assert(forall|j: int| 0 <= j < 3 && j != i ==> t[j] == at[j]);
    assert(i == 0 || i == 1 || i == 2);
}

proof fn lemma_first_layer(sets: Seq<BsetTree>, at: Seq<u16>, nr: int, i: int)
    requires
        first_at(sets, at, nr, i),
    ensures
        first_layer(sets, at, nr) == Some(i),
{
    let k = choose|k: int| first_at(sets, at, nr, k);
    assert(first_at(sets, at, nr, k));
    assert(has_at(sets, at, nr, k) && has_at(sets, at, nr, i));
}

proof fn lemma_last_layer(sets: Seq<BsetTree>, at: Seq<u16>, nr: int, i: int)
    requires
        last_at(sets, at, nr, i),
    ensures
        last_layer(sets, at, nr) == Some(i),
{
    let k = choose|k: int| last_at(sets, at, nr, k);
    assert(last_at(sets, at, nr, k));
    assert(has_at(sets, at, nr, k) && has_at(sets, at, nr, i));
}

impl BtreeNodeIter {
    pub fn new() -> (r: BtreeNodeIter)
        ensures
            r.indices@ == seq![0u16, 0u16, 0u16],
            r.nr == 0,
    {
        BtreeNodeIter { indices: [0, 0, 0], nr: 0 }
    }

    /// Sends the iterator to the first records at or after `pos`.
    pub fn init(&mut self, sets: &[BsetTree; 3], nsets: u8, pos: &Bpos)
        requires
            layers_ok(sets@, nsets as int),
            nsets <= MAX_BSETS,
        ensures
            final(self).nr == nsets,
            forall|i: int|
                0 <= i < MAX_BSETS ==> #[trigger] final(self).indices@[i] == if i < nsets {
                    before(sets@[i].bset.entries@, pos.ord())
                } else {
                    old(self).indices@[i] as int
                },
    {
        self.nr = nsets;
        let mut i: usize = 0;
        while i < nsets as usize
            invariant
                layers_ok(sets@, nsets as int),
                i <= nsets <= MAX_BSETS,
                self.nr == nsets,
                forall|j: int|
                    0 <= j < MAX_BSETS ==> #[trigger] self.indices@[j] == if j < i {
                        before(sets@[j].bset.entries@, pos.ord())
                    } else {
                        old(self).indices@[j] as int
                    },
            decreases nsets - i,
        {
            assert(sets@[i as int].wf());
            let idx: usize = match sets[i].bset.search_idx(pos) {
                Ok(x) => x,
                Err(x) => x,
            };
            self.indices[i] = idx as u16;
            i += 1;
        }
    }

    /// Sends the iterator to the last records before `pos`, to go backwards; nothing is left of a
    /// layer without any.
    pub fn init_reverse(&mut self, sets: &[BsetTree; 3], nsets: u8, pos: &Bpos)
        requires
            layers_ok(sets@, nsets as int),
            nsets <= MAX_BSETS,
        ensures
            final(self).nr == nsets,
            forall|i: int|
                0 <= i < MAX_BSETS ==> #[trigger] final(self).indices@[i] == if i < nsets {
                    let s = sets@[i].bset.entries@;
                    if before(s, pos.ord()) > 0 {
                        before(s, pos.ord()) - 1
                    } else {
                        s.len() as int
                    }
                } else {
                    old(self).indices@[i] as int
                },
    {
        self.nr = nsets;
        let mut i: usize = 0;
        while i < nsets as usize
            invariant
                layers_ok(sets@, nsets as int),
                i <= nsets <= MAX_BSETS,
                self.nr == nsets,
                forall|j: int|
                    0 <= j < MAX_BSETS ==> #[trigger] self.indices@[j] == if j < i {
                        let s = sets@[j].bset.entries@;
                        if before(s, pos.ord()) > 0 {
                            before(s, pos.ord()) - 1
                        } else {
                            s.len() as int
                        }
                    } else {
                        old(self).indices@[j] as int
                    },
            decreases nsets - i,
        {
            assert(sets@[i as int].wf());
            let idx: usize = match sets[i].bset.search_idx(pos) {
                Ok(x) => x,
                Err(x) => x,
            };
            let place: u16 = if idx > 0 {
                (idx - 1) as u16
            } else {
                sets[i].bset.entries.len() as u16
            };
            self.indices[i] = place;
            i += 1;
        }
    }

    /// The first record that any layer has to give, and the layer.
    pub fn peek<'a>(&self, sets: &'a [BsetTree; 3]) -> (r: Option<(u8, &'a BtreeEntry)>)
        requires
            self.nr <= MAX_BSETS,
        ensures
            match r {
                Some((i, e)) => first_at(sets@, self.indices@, self.nr as int, i as int) && *e
                    == rec_at(sets@, self.indices@, i as int),
                None => forall|i: int| !#[trigger] has_at(
                    sets@,
                    self.indices@,
                    self.nr as int,
                    i,
                ),
            },
    {
        let mut best: Option<u8> = None;
        let mut i: u8 = 0;
        while i < self.nr
            invariant
                i <= self.nr <= MAX_BSETS,
                match best {
                    Some(b) => first_at(sets@, self.indices@, i as int, b as int),
                    None => forall|j: int| !#[trigger] has_at(sets@, self.indices@, i as int, j),
                },
            decreases self.nr - i,
        {
            let idx: usize = self.indices[i as usize] as usize;
            proof {
                assert forall|j: int| #[trigger]
                    has_at(sets@, self.indices@, i + 1, j) <==> has_at(
                        sets@,
                        self.indices@,
                        i as int,
                        j,
                    ) || (j == i && idx < sets@[i as int].bset.entries@.len()) by {}
            }
            if idx < sets[i as usize].bset.entries.len() {
                match best {
                    None => {
                        best = Some(i);
                    },
                    Some(b) => {
                        let e: &BtreeEntry = &sets[i as usize].bset.entries[idx];
                        let f: &BtreeEntry = &sets[b as usize].bset.entries[self.indices[b as usize] as usize];
                        proof {
                            lemma_ord(e.pos, f.pos);
                        }
                        if e.pos.precedes(&f.pos) {
                            best = Some(i);
                        }
                    },
                }
            }
            i += 1;
        }
        match best {
            None => None,
            Some(b) => Some(
                (b, &sets[b as usize].bset.entries[self.indices[b as usize] as usize]),
            ),
        }
    }

    /// The last record that any layer has to give, and the layer.
    fn peek_rev<'a>(&self, sets: &'a [BsetTree; 3]) -> (r: Option<(u8, &'a BtreeEntry)>)
        requires
            self.nr <= MAX_BSETS,
        ensures
            match r {
                Some((i, e)) => last_at(sets@, self.indices@, self.nr as int, i as int) && *e
                    == rec_at(sets@, self.indices@, i as int),
                None => forall|i: int| !#[trigger] has_at(
                    sets@,
                    self.indices@,
                    self.nr as int,
                    i,
                ),
            },
    {
        let mut best: Option<u8> = None;
        let mut i: u8 = 0;
        while i < self.nr
            invariant
                i <= self.nr <= MAX_BSETS,
                match best {
                    Some(b) => last_at(sets@, self.indices@, i as int, b as int),
                    None => forall|j: int| !#[trigger] has_at(sets@, self.indices@, i as int, j),
                },
            decreases self.nr - i,
        {
            let idx: usize = self.indices[i as usize] as usize;
            proof {
                assert forall|j: int| #[trigger]
                    has_at(sets@, self.indices@, i + 1, j) <==> has_at(
                        sets@,
                        self.indices@,
                        i as int,
                        j,
                    ) || (j == i && idx < sets@[i as int].bset.entries@.len()) by {}
            }
            if idx < sets[i as usize].bset.entries.len() {
                match best {
                    None => {
                        best = Some(i);
                    },
                    Some(b) => {
                        let e: &BtreeEntry = &sets[i as usize].bset.entries[idx];
                        let f: &BtreeEntry = &sets[b as usize].bset.entries[self.indices[b as usize] as usize];
                        proof {
                            lemma_ord(f.pos, e.pos);
                        }
                        if f.pos.precedes(&e.pos) {
                            best = Some(i);
                        }
                    },
                }
            }
            i += 1;
        }
        match best {
            None => None,
            Some(b) => Some(
                (b, &sets[b as usize].bset.entries[self.indices[b as usize] as usize]),
            ),
        }
    }

    /// Moves on in one layer.
    pub fn advance(&mut self, set_idx: u8)
        requires
            set_idx < MAX_BSETS,
            old(self).indices@[set_idx as int] < u16::MAX,
        ensures
            final(self).indices@ == moved(old(self).indices@, set_idx as int),
            final(self).nr == old(self).nr,
    {
        let i: usize = set_idx as usize;
        let next: u16 = self.indices[i] + 1;
        self.indices[i] = next;
    }

    /// Gives the next record, in ascending order, and moves on; records that point at nodes are
    /// passed over where that is asked for.
    pub fn next<'a>(&mut self, sets: &'a [BsetTree; 3], skip_ptrs: bool) -> (r: Option<
        (u8, &'a BtreeEntry),
    >)
        requires
            layers_ok(sets@, old(self).nr as int),
            old(self).nr <= MAX_BSETS,
        ensures
            final(self).nr == old(self).nr,
            ({
                let x = next_rec(sets@, old(self).indices@, old(self).nr as int, skip_ptrs);
                &&& final(self).indices@ == x.1
                &&& match r {
                    Some((i, e)) => x.0 == Some((i as int, *e)),
                    None => x.0 is None,
                }
            }),
            gives(sets@, old(self).indices@, old(self).nr as int, skip_ptrs) == match r {
                Some((i, e)) => seq![(i as int, *e)] + gives(
                    sets@,
                    final(self).indices@,
                    old(self).nr as int,
                    skip_ptrs,
                ),
                None => Seq::empty(),
            },
    {
        loop
            invariant
                layers_ok(sets@, self.nr as int),
                self.nr == old(self).nr,
                self.nr <= MAX_BSETS,
                next_rec(sets@, self.indices@, self.nr as int, skip_ptrs) == next_rec(
                    sets@,
                    old(self).indices@,
                    old(self).nr as int,
                    skip_ptrs,
                ),
            decreases
                    left_of(sets@, self.indices@, self.nr as int, 0) + left_of(
                        sets@,
                        self.indices@,
                        self.nr as int,
                        1,
                    ) + left_of(sets@, self.indices@, self.nr as int, 2),
        {
            proof {
                lemma_gives_step(sets@, old(self).indices@, old(self).nr as int, skip_ptrs);
            }
            let ghost at = self.indices@;
            let (i, e): (u8, &BtreeEntry) = match self.peek(sets) {
                None => {
                    proof {
                        if first_layer(sets@, at, self.nr as int) is Some {
                            let k = choose|k: int| first_at(sets@, at, self.nr as int, k);
                            assert(has_at(sets@, at, self.nr as int, k));
                        }
                    }
                    return None;
                },
                Some(p) => p,
            };
            proof {
                lemma_first_layer(sets@, at, self.nr as int, i as int);
                assert(sets@[i as int].wf());
                lemma_step(sets@, at, self.nr as int, i as int);
            }
            self.advance(i);
            if !skip_ptrs || e.entry_type != ENTRY_TYPE_BTREE_PTR {
                return Some((i, e));
            }
        }
    }

    /// Gives the record that the iterator is at, in descending order, and moves back; records that
    /// point at nodes are passed over where that is asked for.
    pub fn prev<'a>(&mut self, sets: &'a [BsetTree; 3], skip_ptrs: bool) -> (r: Option<
        (u8, &'a BtreeEntry),
    >)
        requires
            layers_ok(sets@, old(self).nr as int),
            old(self).nr <= MAX_BSETS,
        ensures
            final(self).nr == old(self).nr,
            ({
                let x = prev_rec(sets@, old(self).indices@, old(self).nr as int, skip_ptrs);
                &&& final(self).indices@ == x.1
                &&& match r {
                    Some((i, e)) => x.0 == Some((i as int, *e)),
                    None => x.0 is None,
                }
            }),
            gives_back(sets@, old(self).indices@, old(self).nr as int, skip_ptrs) == match r {
                Some((i, e)) => seq![(i as int, *e)] + gives_back(
                    sets@,
                    final(self).indices@,
                    old(self).nr as int,
                    skip_ptrs,
                ),
                None => Seq::empty(),
            },
    {
        loop
            invariant
                layers_ok(sets@, self.nr as int),
                self.nr == old(self).nr,
                self.nr <= MAX_BSETS,
                prev_rec(sets@, self.indices@, self.nr as int, skip_ptrs) == prev_rec(
                    sets@,
                    old(self).indices@,
                    old(self).nr as int,
                    skip_ptrs,
                ),
            decreases
                    back_of(sets@, self.indices@, self.nr as int, 0) + back_of(
                        sets@,
                        self.indices@,
                        self.nr as int,
                        1,
                    ) + back_of(sets@, self.indices@, self.nr as int, 2),
        {
            proof {
                lemma_gives_step_back(sets@, old(self).indices@, old(self).nr as int, skip_ptrs);
            }
            let ghost at = self.indices@;
            let (i, e): (u8, &BtreeEntry) = match self.peek_rev(sets) {
                None => {
                    proof {
                        if last_layer(sets@, at, self.nr as int) is Some {
                            let k = choose|k: int| last_at(sets@, at, self.nr as int, k);
                            assert(has_at(sets@, at, self.nr as int, k));
                        }
                    }
                    return None;
                },
                Some(p) => p,
            };
            proof {
                lemma_last_layer(sets@, at, self.nr as int, i as int);
                lemma_step_back(sets@, at, self.nr as int, i as int);
            }
            let place: u16 = self.indices[i as usize];
            let new_place: u16 = if place > 0 {
                place - 1
            } else {
                u16::MAX
            };
            self.indices[i as usize] = new_place;
            if !skip_ptrs || e.entry_type != ENTRY_TYPE_BTREE_PTR {
                return Some((i, e));
            }
        }
    }
}

impl Default for BtreeNodeIter {
    fn default() -> (r: BtreeNodeIter)
        ensures
            r.indices@ == seq![0u16, 0u16, 0u16],
            r.nr == 0,
    {
        BtreeNodeIter::new()
    }
}

/// The place of the record at `pos` in a layer, or else the place where it would go.
pub fn bch2_bset_search(bset: &Bset, pos: &Bpos) -> (r: Result<usize, usize>)
    requires
        bset.wf(),
    ensures
        match r {
            Ok(i) => there(bset.entries@, pos.ord()) && i == before(bset.entries@, pos.ord()),
            Err(i) => !there(bset.entries@, pos.ord()) && i == before(bset.entries@, pos.ord()),
        },
{
    bset.search_idx(pos)
}

/// The record at `pos` in the newest layer that has one, and the layer.
pub fn bch2_bset_search_all<'a>(sets: &'a [BsetTree; 3], nsets: u8, pos: &Bpos) -> (r: Option<
    (u8, &'a BtreeEntry),
>)
    requires
        layers_wf(sets@, nsets as int),
        nsets <= MAX_BSETS,
    ensures
        match r {
            Some((i, e)) => {
                let s = sets@[i as int].bset.entries@;
                &&& i < nsets
                &&& there(s, pos.ord())
                &&& *e == s[before(s, pos.ord())]
                &&& forall|j: int| i < j < nsets ==> !there(
                    (#[trigger] sets@[j]).bset.entries@,
                    pos.ord(),
                )
            },
            None => forall|j: int|
                0 <= j < nsets ==> !there((#[trigger] sets@[j]).bset.entries@, pos.ord()),
        },
{
    let mut i: u8 = nsets;
    while i > 0
        invariant
            layers_wf(sets@, nsets as int),
            i <= nsets <= MAX_BSETS,
            forall|j: int|
                i <= j < nsets ==> !there((#[trigger] sets@[j]).bset.entries@, pos.ord()),
        decreases i,
    {
        i -= 1;
        assert(sets@[i as int].wf());
        if let Ok(idx) = sets[i as usize].bset.search_idx(pos) {
            return Some((i, &sets[i as usize].bset.entries[idx]));
        }
    }
    None
}

/// Adds a record to a layer, in place of one at the same position; a layer that grew is indexed
/// anew.
pub fn bch2_bset_insert(set: &mut BsetTree, entry: BtreeEntry) -> (r: Result<(), StorageError>)
    requires
        old(set).wf(),
    ensures
        r is Ok,
        final(set).wf(),
        ({
            let s = old(set).bset.entries@;
            let t = final(set).bset.entries@;
            let i = before(s, entry.pos.ord());
            &&& t == if there(s, entry.pos.ord()) {
                s.update(i, entry)
            } else {
                s.insert(i, entry)
            }
            &&& there(s, entry.pos.ord()) ==> final(set).rw_aux == old(set).rw_aux
                && final(set).aux_type == old(set).aux_type
            &&& !there(s, entry.pos.ord()) ==> final(set).rw_aux@ == aux_points(t)
                && final(set).aux_type == aux_type_for(t.len())
        }),
        final(set).bset == (Bset { entries: final(set).bset.entries, ..old(set).bset }),
        final(set).data_offset == old(set).data_offset,
        final(set).end_offset == old(set).end_offset,
{
    let old_len: usize = set.bset.entries.len();
    proof {
        lemma_before_exists(set.bset.entries@, entry.pos.ord());
    }
    match set.bset.insert(entry) {
        Err(e) => {
            return Err(e);
        },
        Ok(_) => {},
    }
    if set.bset.entries.len() != old_len {
        rebuild_rw_aux(set);
    }
    Ok(())
}

/// Takes the record at `pos` out of a layer, which is then indexed anew; whether there was one.
pub fn bch2_bset_delete(set: &mut BsetTree, pos: &Bpos) -> (r: bool)
    requires
        old(set).wf(),
    ensures
        final(set).wf(),
        r == there(old(set).bset.entries@, pos.ord()),
        !r ==> final(set).bset.entries@ == old(set).bset.entries@ && final(set).rw_aux == old(
            set,
        ).rw_aux && final(set).aux_type == old(set).aux_type,
        r ==> {
            let s = old(set).bset.entries@;
            let t = final(set).bset.entries@;
            &&& t == s.remove(before(s, pos.ord()))
            &&& final(set).rw_aux@ == aux_points(t)
            &&& final(set).aux_type == aux_type_for(t.len())
        },
        final(set).bset == (Bset { entries: final(set).bset.entries, ..old(set).bset }),
        final(set).data_offset == old(set).data_offset,
        final(set).end_offset == old(set).end_offset,
{
    proof {
        lemma_before_exists(set.bset.entries@, pos.ord());
        if there(set.bset.entries@, pos.ord()) {
            lemma_before(set.bset.entries@, pos.ord(), before(set.bset.entries@, pos.ord()));
        }
    }
    let found: bool = set.bset.delete(pos);
    if found {
        rebuild_rw_aux(set);
    }
    found
}

/// Indexes a layer anew. The points number their records by sixteen bits; in a layer with more
/// records the higher bits are lost.
pub fn rebuild_rw_aux(set: &mut BsetTree)
    ensures
        final(set).bset == old(set).bset,
        final(set).rw_aux@ == aux_points(old(set).bset.entries@),
        final(set).aux_type == aux_type_for(old(set).bset.entries@.len()),
        final(set).data_offset == old(set).data_offset,
        final(set).end_offset == old(set).end_offset,
{
    let ghost s = set.bset.entries@;
    let n: usize = set.bset.entries.len();
    let count: usize = n / AUX_STEP + (if n % AUX_STEP > 0 {
        1
    } else {
        0
    });
    let mut aux: Vec<RwAuxEntry> = Vec::new();
    let mut k: usize = 0;
    while k < count
        invariant
            s == set.bset.entries@,
            *set == *old(set),
            n == s.len(),
            count == (n + AUX_STEP - 1) / AUX_STEP as int,
            k <= count,
            aux@.len() == k,
            forall|j: int|
                0 <= j < k ==> #[trigger] aux@[j] == (RwAuxEntry {
                    entry_idx: (j * AUX_STEP) as u16,
                    pos: s[j * AUX_STEP].pos,
                }),
        decreases count - k,
    {
        assert(k * AUX_STEP < n);
        let i: usize = k * AUX_STEP;
        aux.push(RwAuxEntry { entry_idx: i as u16, pos: set.bset.entries[i].pos });
        k += 1;
    }
    assert(aux@ =~= aux_points(s));
    set.rw_aux = aux;
    set.aux_type = if n > 256 {
        BsetAuxTreeType::RwAuxTree
    } else if n > 64 {
        BsetAuxTreeType::RoAuxTree
    } else {
        BsetAuxTreeType::NoAuxTree
    };
}

/// Points of an index in strictly ascending order.
pub open spec fn points_in_order(s: Seq<RwAuxEntry>) -> bool {
    forall|i: int, j: int|
        0 <= i < j < s.len() ==> (#[trigger] s[i]).pos.ord() < (#[trigger] s[j]).pos.ord()
}

/// `i` points stand before rank `k`.
pub open spec fn points_before(s: Seq<RwAuxEntry>, k: int, i: int) -> bool {
    &&& 0 <= i <= s.len()
    &&& forall|j: int| 0 <= j < i ==> (#[trigger] s[j]).pos.ord() < k
    &&& forall|j: int| i <= j < s.len() ==> (#[trigger] s[j]).pos.ord() >= k
}

/// Where a search for `pos` may start: at the record of the last point before `pos`.
pub fn bset_search_write_set(set: &BsetTree, pos: &Bpos) -> (r: usize)
    requires
        points_in_order(set.rw_aux@),
    ensures
        exists|i: int| #[trigger]
            points_before(set.rw_aux@, pos.ord(), i) && r == if i == 0 {
                0
            } else {
                set.rw_aux@[i - 1].entry_idx as int
            },
{
    let ghost s = set.rw_aux@;
    let mut lo: usize = 0;
    let mut hi: usize = set.rw_aux.len();
    while lo < hi
        invariant
            points_in_order(s),
            s == set.rw_aux@,
            lo <= hi <= s.len(),
            forall|j: int| 0 <= j < lo ==> (#[trigger] s[j]).pos.ord() < pos.ord(),
            forall|j: int| hi <= j < s.len() ==> (#[trigger] s[j]).pos.ord() >= pos.ord(),
        decreases hi - lo,
    {
        let mid: usize = lo + (hi - lo) / 2;
        proof {
            lemma_ord(s[mid as int].pos, *pos);
        }
        if set.rw_aux[mid].pos.precedes(pos) {
            assert forall|j: int| 0 <= j < mid + 1 implies (#[trigger] s[j]).pos.ord()
                < pos.ord() by {
                if j < mid {
                    assert(s[j].pos.ord() < s[mid as int].pos.ord());
                }
            }
            lo = mid + 1;
        } else {
            assert forall|j: int| mid <= j < s.len() implies (#[trigger] s[j]).pos.ord()
                >= pos.ord() by {
                if j > mid {
                    assert(s[mid as int].pos.ord() < s[j].pos.ord());
                }
            }
            hi = mid;
        }
    }
    assert(points_before(s, pos.ord(), lo as int));
    if lo == 0 {
        0
    } else {
        set.rw_aux[lo - 1].entry_idx as usize
    }
}

/// Makes a layer the first, empty one.
pub fn bch2_bset_init_first(set: &mut BsetTree, seq: u64)
    ensures
        final(set).wf(),
        final(set).bset.blank(seq),
        final(set).aux_type == BsetAuxTreeType::NoAuxTree,
        final(set).rw_aux@ == Seq::<RwAuxEntry>::empty(),
        final(set).data_offset == old(set).data_offset,
        final(set).end_offset == old(set).end_offset,
{
    set.bset = Bset::new(seq);
    set.aux_type = BsetAuxTreeType::NoAuxTree;
    set.rw_aux.clear();
}

/// Makes a layer the next, empty one, which is written to.
pub fn bch2_bset_init_next(set: &mut BsetTree, seq: u64, capacity: usize)
    ensures
        final(set).wf(),
        final(set).bset.blank(seq),
        final(set).aux_type == BsetAuxTreeType::RwAuxTree,
        final(set).rw_aux@ == Seq::<RwAuxEntry>::empty(),
        final(set).data_offset == old(set).data_offset,
        final(set).end_offset == old(set).end_offset,
{
    set.bset = Bset::with_capacity(seq, capacity);
    set.aux_type = BsetAuxTreeType::RwAuxTree;
    set.rw_aux.clear();
}

/// What was added to a layer is found there.
pub proof fn law_inserted_is_there(s: Seq<BtreeEntry>, e: BtreeEntry)
    requires
        in_order(s),
    ensures
        ({
            let i = before(s, e.pos.ord());
            let t = if there(s, e.pos.ord()) {
                s.update(i, e)
            } else {
                s.insert(i, e)
            };
            there(t, e.pos.ord()) && 0 <= i < t.len() && t[i] == e
        }),
{
    let k = e.pos.ord();
    let i = before(s, k);
    lemma_before_exists(s, k);
    lemma_before(s, k, i);
    let t = if there(s, k) {
        s.update(i, e)
    } else {
        s.insert(i, e)
    };
    assert(t[i] == e);
}

/// What was taken out of a layer is not there.
pub proof fn law_deleted_is_gone(s: Seq<BtreeEntry>, k: int)
    requires
        in_order(s),
        there(s, k),
    ensures
        !there(s.remove(before(s, k)), k),
{
    let i = before(s, k);
    lemma_before_exists(s, k);
    lemma_before(s, k, i);
    let t = s.remove(i);
    if there(t, k) {
        let j = choose|j: int| 0 <= j < t.len() && (#[trigger] t[j]).pos.ord() == k;
        if j < i {
            assert(t[j] == s[j]);
        } else {
            assert(t[j] == s[j + 1]);
            assert(s[i].pos.ord() < s[j + 1].pos.ord());
        }
    }
}

/// An index leads to a place at or before the record that is searched for.
pub proof fn law_index_starts_early(s: Seq<BtreeEntry>, k: int, i: int)
    requires
        in_order(s),
        points_before(aux_points(s), k, i),
        i > 0,
    ensures
        aux_points(s)[i - 1].entry_idx <= before(s, k),
{
    let p = aux_points(s);
    let j = (i - 1) * AUX_STEP;
    lemma_before_exists(s, k);
    assert(p[i - 1].pos.ord() < k);
    assert(0 <= j < s.len());
    assert(p[i - 1].entry_idx <= j);
    assert(s[j].pos.ord() < k);
    let b = before(s, k);
    if b <= j {
        assert(s[j].pos.ord() >= k);
    }
}

/// Records come out in ascending order: what comes after a step is not before what came with it.
pub proof fn law_next_ascends(sets: Seq<BsetTree>, at: Seq<u16>, nr: int, i: int, j: int)
    requires
        layers_ok(sets, nr),
        at.len() == MAX_BSETS,
        nr <= MAX_BSETS,
        first_at(sets, at, nr, i),
        first_at(sets, moved(at, i), nr, j),
    ensures
        rec_at(sets, at, i).pos.ord() <= rec_at(sets, moved(at, i), j).pos.ord(),
{
    let t = moved(at, i);
    assert(sets[i].wf());
    if j == i {
        let s = sets[i].bset.entries@;
        assert(t[i] == at[i] + 1);
        assert(s[at[i] as int].pos.ord() < s[at[i] + 1].pos.ord());
    } else {
        assert(t[j] == at[j]);
        assert(has_at(sets, t, nr, j));
        assert(has_at(sets, at, nr, j));
    }
}

/// The index of a set has a point for every tenth key, the first one at the first key.
pub proof fn law_index_points(s: Seq<BtreeEntry>, k: int)
    requires
        s.len() <= u16::MAX,
    ensures
        10 * (aux_points(s).len() - 1) < s.len() <= 10 * aux_points(s).len() || s.len() == 0
            && aux_points(s).len() == 0,
        0 <= k < aux_points(s).len() ==> aux_points(s)[k].entry_idx == 10 * k && aux_points(
            s,
        )[k].pos == s[10 * k].pos,
{
}

/// Sets of up to 64 keys need no index; up to 256 it is made once, and beyond kept up to date.
pub proof fn law_index_kinds(n: nat)
    ensures
        n <= 64 <==> aux_type_for(n) == BsetAuxTreeType::NoAuxTree,
        64 < n <= 256 <==> aux_type_for(n) == BsetAuxTreeType::RoAuxTree,
        256 < n <==> aux_type_for(n) == BsetAuxTreeType::RwAuxTree,
{
}

} // verus!
