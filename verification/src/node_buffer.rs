//! A node as bytes: up to three sets of packed keys one behind the other.

use crate::bset::MAX_BSETS;
use crate::bytes::patched;
use crate::key::{lemma_ord, Bpos, KeyType};
use crate::node::{NodeFlags, BSET_HEADER_U64S, DEFAULT_NODE_SIZE, MAX_NODE_SIZE, MIN_NODE_SIZE};
use crate::packed::{
    ascending, cat, cell_at, cell_dead, cell_ok, cell_pos, cells, key_fits, law_packed_roundtrip,
    lemma_cat_offs, lemma_cat_push, lemma_offs, lemma_offs_frame, offs, ord_at, pack_cell,
    packed_cell, read_pos, KEY_BYTES,
};
use crate::sort_iter::{
    bytes_left, in_runs, merge_bytes, merged, run, run_ok, runs_ok, runs_sorted, SortIter,
    SortIterEntry,
};
use crate::writer::StorageError;
use vstd::prelude::*;

verus! {

/// Where a set of keys stands, in words: its header, and behind it its keys.
#[derive(Debug, Clone, Copy, PartialEq, Eq, Structural)]
pub struct BsetRange {
    pub data_offset: u16,
    pub end_offset: u16,
    /// The set has its search index.
    pub indexed: bool,
}

impl BsetRange {
    /// The range of a set that is not in use.
    #[verifier::allow_in_spec]
    pub fn unused() -> BsetRange
        returns
            (BsetRange { data_offset: u16::MAX, end_offset: u16::MAX, indexed: false }),
    {
        BsetRange { data_offset: u16::MAX, end_offset: u16::MAX, indexed: false }
    }

    /// The word at which the keys begin.
    pub open spec fn first(self) -> int {
        self.data_offset + BSET_HEADER_U64S
    }

    pub fn first_key_offset(&self) -> (r: u32)
        ensures
            r == self.first(),
    {
        self.data_offset as u32 + BSET_HEADER_U64S as u32
    }
}

/// A node as bytes.
#[derive(Debug)]
pub struct NodeBuffer {
    pub level: u8,
    pub node_size: u32,
    pub data: Vec<u8>,
    pub sets: [BsetRange; 3],
    /// Sets in use.
    pub nsets: u8,
    /// Keys of the node.
    pub packed_keys: u16,
    /// Words that whiteouts wait for at the end of the node.
    pub whiteout_u64s: u16,
    pub min_key: Bpos,
    pub max_key: Bpos,
    pub sib_u64s: [u16; 2],
    pub journal_seq: u64,
    /// Sectors of the node that are on disk.
    pub written: u16,
    /// Keys of the first set are on disk, so that a deletion of one needs a whiteout.
    pub needs_whiteout: bool,
    pub flags: NodeFlags,
}

/// The format of a packed key is one of those in use.
pub open spec fn format_ok(c: Seq<u8>) -> bool {
    c[1] % 128 <= 1
}

/// Whole packed keys of a known format in strictly ascending order.
pub open spec fn sound(cs: Seq<Seq<u8>>) -> bool {
    &&& forall|i: int| 0 <= i < cs.len() ==> cell_ok(#[trigger] cs[i]) && format_ok(cs[i])
    &&& forall|i: int, j: int|
        0 <= i < j < cs.len() ==> cell_pos(#[trigger] cs[i]).ord() < cell_pos(
            #[trigger] cs[j],
        ).ord()
}

/// Whole packed keys take at least their heads.
pub proof fn lemma_cat_len(cs: Seq<Seq<u8>>)
    requires
        forall|i: int| 0 <= i < cs.len() ==> cell_ok(#[trigger] cs[i]),
    ensures
        cat(cs).len() >= KEY_BYTES * cs.len(),
        cat(cs).len() % 8 == 0,
    decreases cs.len(),
{
    if cs.len() > 0 {
        assert forall|i: int| 0 <= i < cs.drop_last().len() implies cell_ok(
            #[trigger] cs.drop_last()[i],
        ) by {
            assert(cs.drop_last()[i] == cs[i]);
        }
        lemma_cat_len(cs.drop_last());
        assert(cell_ok(cs[cs.len() - 1]));
    }
}

impl NodeBuffer {
    /// The places of the keys of set `i`, unless they do not fill its range.
    pub open spec fn places(self, i: int) -> Option<Seq<int>> {
        offs(self.data@, 8 * self.sets@[i].first(), 8 * self.sets@[i].end_offset)
    }

    /// The keys of set `i`.
    pub open spec fn set_cells(self, i: int) -> Seq<Seq<u8>> {
        cells(self.data@, self.places(i)->0)
    }

    /// The range of set `i` is in the node.
    pub open spec fn range_ok(self, i: int) -> bool {
        &&& 8 * self.sets@[i].data_offset <= self.node_size
        &&& 8 * self.sets@[i].end_offset <= self.node_size
        &&& self.sets@[i].first() <= self.sets@[i].end_offset
    }

    /// Set `i` holds sound keys in a sound range.
    pub open spec fn set_ok(self, i: int) -> bool {
        &&& self.range_ok(i)
        &&& 8 * self.sets@[i].end_offset <= self.data@.len()
        &&& self.places(i) is Some
        &&& sound(self.set_cells(i))
    }

    /// The sets stand one behind the other, and each is sound.
    pub open spec fn laid(self) -> bool {
        &&& 1 <= self.nsets <= MAX_BSETS
        &&& forall|i: int| 0 <= i < self.nsets ==> #[trigger] self.set_ok(i)
        &&& self.nsets > 1 ==> self.sets@[0].end_offset <= self.sets@[1].data_offset
        &&& self.nsets > 2 ==> self.sets@[1].end_offset <= self.sets@[2].data_offset
    }

    /// Set `i` holds whole keys of a known format in a sound range.
    pub open spec fn set_whole(self, i: int) -> bool {
        &&& self.range_ok(i)
        &&& 8 * self.sets@[i].end_offset <= self.data@.len()
        &&& self.places(i) is Some
        &&& forall|j: int|
            0 <= j < self.set_cells(i).len() ==> cell_ok(#[trigger] self.set_cells(i)[j])
                && format_ok(self.set_cells(i)[j])
    }

    /// The sets stand one behind the other, and each holds whole keys, in whatever order.
    pub open spec fn whole(self) -> bool {
        &&& 1 <= self.nsets <= MAX_BSETS
        &&& forall|i: int| 0 <= i < self.nsets ==> #[trigger] self.set_whole(i)
        &&& self.nsets > 1 ==> self.sets@[0].end_offset <= self.sets@[1].data_offset
        &&& self.nsets > 2 ==> self.sets@[1].end_offset <= self.sets@[2].data_offset
    }

    pub open spec fn wf(self) -> bool {
        &&& self.laid()
        &&& MIN_NODE_SIZE <= self.node_size <= MAX_NODE_SIZE
        &&& self.data@.len() == self.node_size
        &&& 512 * self.written <= self.node_size
    }

    /// Some set has the key at place `o`.
    pub open spec fn has_key(self, o: int) -> bool {
        exists|i: int|
            0 <= i < self.nsets && (#[trigger] self.places(i)) is Some && self.places(i)->0.contains(
                o,
            )
    }

    /// The places of all keys.
    pub open spec fn key_places(self) -> spec_fn(int) -> bool {
        |o: int| self.has_key(o)
    }

    /// The keys of the first `n` sets, one set behind the other.
    pub open spec fn all_cells(self, n: int) -> Seq<Seq<u8>>
        decreases n,
    {
        if n <= 0 {
            Seq::empty()
        } else {
            self.all_cells(n - 1) + self.set_cells(n - 1)
        }
    }

    /// `self` and `o` differ at most in their sets of keys.
    pub open spec fn same_head(self, o: NodeBuffer) -> bool {
        &&& self.level == o.level
        &&& self.node_size == o.node_size
        &&& self.min_key == o.min_key
        &&& self.max_key == o.max_key
        &&& self.sib_u64s == o.sib_u64s
        &&& self.journal_seq == o.journal_seq
        &&& self.written == o.written
        &&& self.needs_whiteout == o.needs_whiteout
        &&& self.flags == o.flags
    }

    /// The first `n` sets as runs to merge, those without keys left out.
    pub open spec fn runs(self, n: int) -> Seq<SortIterEntry>
        decreases n,
    {
        if n <= 0 {
            Seq::empty()
        } else {
            let e = self.run_of(n - 1);
            if e.cur < e.end {
                self.runs(n - 1).push(e)
            } else {
                self.runs(n - 1)
            }
        }
    }

    /// Set `i` as a run.
    pub open spec fn run_of(self, i: int) -> SortIterEntry {
        SortIterEntry {
            cur: (8 * self.sets@[i].first()) as u32,
            end: (8 * self.sets@[i].end_offset) as u32,
        }
    }

    /// All keys are in one set at the head of the node: those of `cs`.
    pub open spec fn holds(self, cs: Seq<Seq<u8>>) -> bool {
        &&& self.nsets == 1
        &&& self.sets@ == seq![
            BsetRange {
                data_offset: 0,
                end_offset: (BSET_HEADER_U64S + cat(cs).len() / 8) as u16,
                indexed: true,
            },
            BsetRange::unused(),
            BsetRange::unused(),
        ]
        &&& self.places(0) is Some
        &&& self.set_cells(0) == cs
        &&& self.packed_keys == cs.len()
        &&& self.whiteout_u64s == 0
    }

    /// An empty leaf.
    pub fn new_leaf() -> (r: NodeBuffer)
        ensures
            r.wf(),
            r.whole(),
            r.level == 0,
            r.node_size == DEFAULT_NODE_SIZE,
            r.nsets == 1,
            r.sets@ == seq![
                BsetRange { data_offset: 0, end_offset: BSET_HEADER_U64S, indexed: false },
                BsetRange::unused(),
                BsetRange::unused(),
            ],
            r.set_cells(0) == Seq::<Seq<u8>>::empty(),
            r.packed_keys == 0,
            r.whiteout_u64s == 0,
            r.min_key == Bpos::highest(),
            r.max_key == Bpos::lowest(),
            r.sib_u64s@ == seq![u16::MAX, u16::MAX],
            r.journal_seq == 0,
            r.written == 0,
            !r.needs_whiteout,
            r.flags == NodeFlags::none(),
    {
        let data: Vec<u8> = vec![0u8; DEFAULT_NODE_SIZE as usize];
        let r = NodeBuffer {
            level: 0,
            node_size: DEFAULT_NODE_SIZE,
            data,
            sets: [
                BsetRange { data_offset: 0, end_offset: BSET_HEADER_U64S, indexed: false },
                BsetRange::unused(),
                BsetRange::unused(),
            ],
            nsets: 1,
            packed_keys: 0,
            whiteout_u64s: 0,
            min_key: Bpos::highest(),
            max_key: Bpos::lowest(),
            sib_u64s: [u16::MAX, u16::MAX],
            journal_seq: 0,
            written: 0,
            needs_whiteout: false,
            flags: NodeFlags::none(),
        };
        assert(r.set_cells(0) =~= Seq::<Seq<u8>>::empty());
        assert(r.set_ok(0));
        r
    }
}

/// Runs of sets are as many as the sets at most, and their keys are those of the sets.
pub proof fn lemma_runs(b: NodeBuffer, n: int)
    requires
        0 <= n <= b.nsets <= MAX_BSETS,
        forall|i: int| 0 <= i < n ==> #[trigger] b.range_ok(i),
    ensures
        b.runs(n).len() <= n,
        forall|j: int| 0 <= j < b.runs(n).len() ==> (#[trigger] b.runs(n)[j]).cur < b.runs(n)[j].end,
        runs_ok(b.data@, b.runs(n)) <==> (forall|i: int|
            0 <= i < n ==> (#[trigger] b.places(i)) is Some),
        runs_ok(b.data@, b.runs(n)) ==> (runs_sorted(b.data@, b.runs(n)) <==> (forall|i: int|
            0 <= i < n ==> ascending(b.data@, (#[trigger] b.places(i))->0))),
        runs_ok(b.data@, b.runs(n)) ==> forall|o: int|
            in_runs(b.data@, b.runs(n), o) <==> exists|i: int|
                0 <= i < n && (#[trigger] b.places(i)) is Some && b.places(i)->0.contains(o),
    decreases n,
{
    if n > 0 {
        let d = b.data@;
        let e = b.run_of(n - 1);
        let p = b.runs(n - 1);
        let s = b.runs(n);
        lemma_runs(b, n - 1);
        assert(b.range_ok(n - 1));
        assert(e.cur == 8 * b.sets@[n - 1].first());
        assert(e.end == 8 * b.sets@[n - 1].end_offset);
        let here = b.places(n - 1);
        assert(here == offs(d, e.cur as int, e.end as int));
        if e.cur < e.end {
            assert(s == p.push(e));
            assert(s[s.len() - 1] == e);
            assert(forall|j: int| 0 <= j < p.len() ==> s[j] == p[j]);
            if runs_ok(d, s) {
                assert(run_ok(d, s[s.len() - 1]));
                assert(here is Some);
                assert(runs_ok(d, p)) by {
                    assert forall|j: int| 0 <= j < p.len() implies run_ok(d, #[trigger] p[j]) by {
                        assert(run_ok(d, s[j]));
                    }
                }
                if runs_sorted(d, s) {
                    assert(runs_sorted(d, p)) by {
                        assert forall|j: int| 0 <= j < p.len() implies ascending(
                            d,
                            run(d, #[trigger] p[j]),
                        ) by {
                            assert(ascending(d, run(d, s[j])));
                        }
                    }
                    assert(ascending(d, run(d, s[s.len() - 1])));
                }
                assert forall|o: int| in_runs(d, s, o) implies exists|i: int|
                    0 <= i < n && (#[trigger] b.places(i)) is Some && b.places(i)->0.contains(o) by {
                    let j = choose|j: int| 0 <= j < s.len() && run(d, #[trigger] s[j]).contains(o);
                    if j == s.len() - 1 {
                        assert(b.places(n - 1)->0.contains(o));
                    } else {
                        assert(run(d, p[j]).contains(o));
                        assert(in_runs(d, p, o));
                    }
                }
                assert forall|o: int, i: int|
                    0 <= i < n && (#[trigger] b.places(i)) is Some
                        && #[trigger] b.places(i)->0.contains(o) implies in_runs(d, s, o) by {
                    if i == n - 1 {
                        assert(run(d, s[s.len() - 1]).contains(o));
                    } else {
                        assert(in_runs(d, p, o));
                        let j = choose|j: int|
                            0 <= j < p.len() && run(d, #[trigger] p[j]).contains(o);
                        assert(run(d, s[j]).contains(o));
                    }
                }
            }
        } else {
            assert(s == p);
            assert(here == Some(Seq::<int>::empty()));
            assert forall|o: int, i: int|
                0 <= i < n && (#[trigger] b.places(i)) is Some
                    && #[trigger] b.places(i)->0.contains(o) && runs_ok(d, s) implies in_runs(
                d,
                s,
                o,
            ) by {
                assert(i < n - 1);
            }
            assert(ascending(d, here->0));
        }
    }
}

/// The keys of sets one behind the other fit between the head of the node and the end of the last.
pub proof fn lemma_runs_bytes(b: NodeBuffer, n: int)
    requires
        1 <= n <= b.nsets <= MAX_BSETS,
        forall|i: int| 0 <= i < n ==> #[trigger] b.range_ok(i),
        n > 1 ==> b.sets@[0].end_offset <= b.sets@[1].data_offset,
        n > 2 ==> b.sets@[1].end_offset <= b.sets@[2].data_offset,
    ensures
        bytes_left(b.runs(n)) <= 8 * b.sets@[n - 1].end_offset - 8 * BSET_HEADER_U64S,
    decreases n,
{
    let e = b.run_of(n - 1);
    let p = b.runs(n - 1);
    assert(b.range_ok(n - 1));
    assert(b.runs(0) =~= Seq::empty());
    assert(p.push(e).drop_last() =~= p);
    assert(bytes_left(Seq::<SortIterEntry>::empty()) == 0);
    if n > 1 {
        lemma_runs_bytes(b, n - 1);
        assert(b.range_ok(n - 2));
        assert(n == 2 || n == 3);
    }
    if e.cur < e.end {
        assert(bytes_left(p.push(e)) == bytes_left(p) + (e.end - e.cur));
    }
}

/// Keys that are sound as bytes are ascending at their places.
pub proof fn lemma_sound_ascending(d: Seq<u8>, l: Seq<int>)
    requires
        sound(cells(d, l)),
    ensures
        ascending(d, l),
{
    assert forall|i: int, j: int| 0 <= i < j < l.len() implies ord_at(d, #[trigger] l[i])
        < ord_at(d, #[trigger] l[j]) by {
        assert(cells(d, l)[i] == cell_at(d, l[i]));
        assert(cells(d, l)[j] == cell_at(d, l[j]));
    }
}

impl<'a> SortIter<'a> {
    /// No runs of the node yet.
    pub fn init_from_node(node: &'a NodeBuffer) -> (r: SortIter<'a>)
        ensures
            r.data@ == node.data@,
            r.entries@ == Seq::<SortIterEntry>::empty(),
    {
        SortIter::over(&node.data)
    }

    /// Adds a run for each set with keys.
    pub fn add_all_bsets(&mut self, node: &NodeBuffer)
        requires
            node.nsets <= MAX_BSETS,
            forall|i: int| 0 <= i < node.nsets ==> #[trigger] node.range_ok(i),
            old(self).entries@.len() == 0,
        ensures
            final(self).data@ == old(self).data@,
            final(self).entries@ == node.runs(node.nsets as int),
    {
        let mut i: u8 = 0;
        while i < node.nsets
            invariant
                i <= node.nsets <= MAX_BSETS,
                forall|i: int| 0 <= i < node.nsets ==> #[trigger] node.range_ok(i),
                self.data@ == old(self).data@,
                self.entries@ == node.runs(i as int),
            decreases node.nsets - i,
        {
            proof {
                lemma_runs(*node, i as int);
                assert(node.range_ok(i as int));
            }
            let s: BsetRange = node.sets[i as usize];
            self.add(s.first_key_offset() * 8, s.end_offset as u32 * 8);
            i += 1;
            assert(self.entries@ =~= node.runs(i as int));
        }
    }
}

/// The bytes of a node whose keys are rewritten: behind the header the first `n` bytes of `buf`,
/// and zeros up to `end`.
pub open spec fn rewritten(d: Seq<u8>, buf: Seq<u8>, n: int, end: int) -> Seq<u8> {
    Seq::new(
        d.len(),
        |j: int|
            if 24 <= j < 24 + n {
                buf[j - 24]
            } else if 24 + n <= j < end {
                0
            } else {
                d[j]
            },
    )
}

impl NodeBuffer {
    /// Bytes of the node that may hold keys.
    pub open spec fn room(self) -> int {
        if self.node_size <= self.data@.len() {
            self.node_size as int
        } else {
            self.data@.len() as int
        }
    }

    pub(crate) fn room_bytes(&self) -> (r: usize)
        ensures
            r == self.room(),
    {
        if self.node_size as usize <= self.data.len() {
            self.node_size as usize
        } else {
            self.data.len()
        }
    }

    /// Makes the first `n` bytes of `buf` the keys of the node, `nr` in number, in one set.
    pub(crate) fn install(&mut self, buf: &Vec<u8>, n: usize, nr: usize)
        requires
            n <= buf@.len(),
            n % 8 == 0,
            24 + n <= old(self).room(),
            24 + n <= 8 * u16::MAX,
            nr <= u16::MAX,
        ensures
            final(self).data@ == rewritten(old(self).data@, buf@, n as int, old(self).room()),
            final(self).nsets == 1,
            final(self).sets@ == seq![
                BsetRange {
                    data_offset: 0,
                    end_offset: (BSET_HEADER_U64S + n / 8) as u16,
                    indexed: true,
                },
                BsetRange::unused(),
                BsetRange::unused(),
            ],
            final(self).packed_keys == nr,
            final(self).whiteout_u64s == 0,
            final(self).same_head(*old(self)),
    {
        let end: usize = self.room_bytes();
        let ghost d = self.data@;
        let mut j: usize = 24;
        while j < end
            invariant
                24 <= j <= end,
                end == old(self).room(),
                end <= d.len(),
                24 + n <= end,
                n <= buf.len(),
                d == old(self).data@,
                self.data@.len() == d.len(),
                forall|i: int|
                    0 <= i < d.len() ==> #[trigger] self.data@[i] == if i < j {
                        rewritten(d, buf@, n as int, end as int)[i]
                    } else {
                        d[i]
                    },
                self.nsets == old(self).nsets,
                self.same_head(*old(self)),
            decreases end - j,
        {
            let x: u8 = if j - 24 < n {
                buf[j - 24]
            } else {
                0
            };
            self.data.set(j, x);
            j += 1;
        }
        assert(self.data@ =~= rewritten(d, buf@, n as int, end as int));
        self.sets = [
            BsetRange {
                data_offset: 0,
                end_offset: BSET_HEADER_U64S + (n / 8) as u16,
                indexed: true,
            },
            BsetRange::unused(),
            BsetRange::unused(),
        ];
        self.nsets = 1;
        self.packed_keys = nr as u16;
        self.whiteout_u64s = 0;
    }
}

/// What a rewritten node holds.
pub proof fn lemma_installed(b: NodeBuffer, d: Seq<u8>, buf: Seq<u8>, cs: Seq<Seq<u8>>, end: int)
    requires
        forall|i: int| 0 <= i < cs.len() ==> cell_ok(#[trigger] cs[i]),
        cat(cs).len() <= buf.len(),
        buf.subrange(0, cat(cs).len() as int) == cat(cs),
        24 + cat(cs).len() <= d.len(),
        24 + cat(cs).len() <= end,
        24 + cat(cs).len() <= 8 * u16::MAX,
        end <= b.node_size,
        b.data@ == rewritten(d, buf, cat(cs).len() as int, end),
        b.nsets == 1,
        b.sets@[0] == (BsetRange {
            data_offset: 0,
            end_offset: (BSET_HEADER_U64S + cat(cs).len() / 8) as u16,
            indexed: true,
        }),
    ensures
        b.places(0) is Some,
        b.set_cells(0) == cs,
        sound(cs) ==> b.laid(),
{
    let n = cat(cs).len() as int;
    lemma_cat_len(cs);
    let e = b.data@;
    let p = e.subrange(0, 24);
    let q = e.subrange(24 + n, e.len() as int);
    assert(e =~= p + cat(cs) + q) by {
        assert forall|j: int| 0 <= j < e.len() implies e[j] == (p + cat(cs) + q)[j] by {
            if 24 <= j < 24 + n {
                assert(buf.subrange(0, n)[j - 24] == buf[j - 24]);
            }
        }
    }
    lemma_cat_offs(p, cs, q);
    assert(8 * b.sets@[0].end_offset == 24 + n);
    assert(b.places(0) == offs(e, 24, 24 + n));
    if sound(cs) {
        assert(b.set_ok(0));
    }
}

impl NodeBuffer {
    /// All sets are merged: of several keys at one position the newest stays, and deleted keys
    /// go.
    pub open spec fn compacted(self, o: NodeBuffer) -> bool {
        exists|l: Seq<int>| #[trigger]
            merged(o.data@, o.key_places(), l) && self.holds(cells(o.data@, l))
    }

    /// Merges the keys of all sets into the node's first set, where they fit.
    #[verifier::spinoff_prover]
    #[verifier::rlimit(40)]
    pub(crate) fn merge_sets(&mut self) -> (r: Result<(), StorageError>)
        requires
            1 <= old(self).nsets <= MAX_BSETS,
            forall|i: int| 0 <= i < old(self).nsets ==> #[trigger] old(self).range_ok(i),
            forall|i: int|
                0 <= i < old(self).nsets ==> ((#[trigger] old(self).places(i)) is Some ==> sound(
                    old(self).set_cells(i),
                )),
        ensures
            r is Err ==> r->Err_0 == StorageError::Corruption && *final(self) == *old(self),
            final(self).same_head(*old(self)),
            final(self).data@.len() == old(self).data@.len(),
            (exists|i: int| 0 <= i < old(self).nsets && (#[trigger] old(self).places(i)) is None)
                ==> r is Err,
            (forall|i: int| 0 <= i < old(self).nsets ==> (#[trigger] old(self).places(i)) is Some)
                ==> exists|l: Seq<int>| #[trigger]
                merged(old(self).data@, old(self).key_places(), l) && {
                    let cs = cells(old(self).data@, l);
                    &&& r is Ok <==> 24 + cat(cs).len() <= old(self).room()
                        && cat(cs).len() <= 8 * (u16::MAX - BSET_HEADER_U64S)
                    &&& cat(cs).len() <= bytes_left(old(self).runs(old(self).nsets as int))
                    &&& r is Ok ==> final(self).holds(cs) && sound(cs)
                },
            r is Ok ==> final(self).laid(),
    {
        let size: usize = self.node_size as usize;
        let ghost d = self.data@;
        let ghost rs = self.runs(self.nsets as int);
        let ghost o = *self;
        proof {
            lemma_runs(*self, self.nsets as int);
        }
        let mut buf: Vec<u8> = vec![0u8; size];
        let ghost buf0 = buf@;
        let mut iter = SortIter::init_from_node(self);
        iter.add_all_bsets(self);
        let res = iter.sort_into(&mut buf);
        let ghost whole = forall|i: int| 0 <= i < o.nsets ==> (#[trigger] o.places(i)) is Some;
        let ghost mut l: Seq<int> = Seq::empty();
        proof {
            if whole {
                assert forall|i: int| 0 <= i < o.nsets implies ascending(
                    d,
                    (#[trigger] o.places(i))->0,
                ) by {
                    lemma_sound_ascending(d, o.places(i)->0);
                }
                let k = |x: int| in_runs(d, rs, x);
                assert(k =~= o.key_places());
                l = choose|l: Seq<int>| #[trigger]
                    merged(d, k, l) && {
                        let b = merge_bytes(d, l);
                        &&& b.len() <= bytes_left(rs)
                        &&& res is Ok <==> b.len() <= buf0.len()
                        &&& res is Ok ==> res->Ok_0 == (b.len() as usize, l.len() as usize)
                            && buf@ == patched(buf0, 0, b)
                    };
                lemma_merged_sound(o, l);
                lemma_cat_len(cells(d, l));
            }
        }
        let ghost cs = cells(d, l);
        match res {
            Err(e) => Err(e),
            Ok((n, nr)) => {
                assert(whole);
                assert(buf@.subrange(0, cat(cs).len() as int) =~= cat(cs));
                if n > self.room_bytes() || 24 > self.room_bytes() - n || n > 8 * (u16::MAX
                    - BSET_HEADER_U64S) as usize {
                    return Err(StorageError::Corruption);
                }
                self.install(&buf, n, nr);
                proof {
                    lemma_installed(*self, d, buf@, cs, o.room());
                }
                Ok(())
            },
        }
    }
}

/// What a merge of sound sets gives is sound.
proof fn lemma_merged_sound(o: NodeBuffer, l: Seq<int>)
    requires
        o.nsets <= MAX_BSETS,
        forall|i: int| 0 <= i < o.nsets ==> (#[trigger] o.places(i)) is Some && sound(o.set_cells(i)),
        merged(o.data@, o.key_places(), l),
    ensures
        sound(cells(o.data@, l)),
{
    let d = o.data@;
    let cs = cells(d, l);
    assert forall|i: int| 0 <= i < cs.len() implies cell_ok(#[trigger] cs[i]) && format_ok(
        cs[i],
    ) by {
        let p = l[i];
        assert(o.key_places()(p));
        assert(o.has_key(p));
        let k = choose|k: int|
            0 <= k < o.nsets && (#[trigger] o.places(k)) is Some && o.places(k)->0.contains(p);
        let m = o.places(k)->0;
        let j = choose|j: int| 0 <= j < m.len() && m[j] == p;
        assert(o.set_cells(k)[j] == cell_at(d, p));
    }
    assert forall|i: int, j: int| 0 <= i < j < cs.len() implies cell_pos(#[trigger] cs[i]).ord()
        < cell_pos(#[trigger] cs[j]).ord() by {
        assert(ord_at(d, l[i]) < ord_at(d, l[j]));
    }
}

/// Sets in order hold whole keys.
pub proof fn lemma_laid_whole(b: NodeBuffer)
    requires
        b.laid(),
    ensures
        b.whole(),
{
    assert forall|i: int| 0 <= i < b.nsets implies #[trigger] b.set_whole(i) by {
        assert(b.set_ok(i));
    }
}

pub proof fn lemma_cat_add(a: Seq<Seq<u8>>, b: Seq<Seq<u8>>)
    ensures
        cat(a + b) == cat(a) + cat(b),
    decreases b.len(),
{
    if b.len() == 0 {
        assert(a + b =~= a);
        assert(cat(a) + cat(b) =~= cat(a));
    } else {
        let p = b.drop_last();
        assert((a + b).drop_last() =~= a + p);
        lemma_cat_add(a, p);
        assert(cat(a) + cat(p) + b.last() =~= cat(a) + (cat(p) + b.last()));
    }
}

/// Keys that fill a range take just its bytes.
pub proof fn lemma_cells_len(d: Seq<u8>, cur: int, end: int)
    requires
        cur <= end,
        offs(d, cur, end) is Some,
    ensures
        cat(cells(d, offs(d, cur, end)->0)).len() == end - cur,
    decreases end - cur,
{
    let l = offs(d, cur, end)->0;
    let cs = cells(d, l);
    if cur < end {
        let r = offs(d, cur + 8 * d[cur], end)->0;
        lemma_cells_len(d, cur + 8 * d[cur], end);
        assert(l == seq![cur] + r);
        assert(cs =~= seq![cell_at(d, cur)] + cells(d, r));
        lemma_cat_add(seq![cell_at(d, cur)], cells(d, r));
        lemma_cat_push(Seq::empty(), cell_at(d, cur));
        assert(Seq::<Seq<u8>>::empty().push(cell_at(d, cur)) =~= seq![cell_at(d, cur)]);
    }
}

/// The keys of sets one behind the other take no more than there is between the head of the node
/// and the end of the last set.
pub proof fn lemma_all_cells(b: NodeBuffer, n: int)
    requires
        b.whole(),
        1 <= n <= b.nsets,
    ensures
        cat(b.all_cells(n)).len() <= 8 * b.sets@[n - 1].end_offset - 24,
        forall|i: int| 0 <= i < b.all_cells(n).len() ==> cell_ok(#[trigger] b.all_cells(n)[i]),
    decreases n,
{
    let s = b.sets@[n - 1];
    assert(b.set_whole(n - 1));
    lemma_cells_len(b.data@, 8 * s.first(), 8 * s.end_offset as int);
    assert(b.all_cells(0) =~= Seq::<Seq<u8>>::empty());
    if n > 1 {
        assert(b.set_whole(n - 2));
        lemma_all_cells(b, n - 1);
        assert(n == 2 || n == 3);
    }
    lemma_cat_add(b.all_cells(n - 1), b.set_cells(n - 1));
    let p = b.all_cells(n - 1);
    let r = b.all_cells(n);
    assert forall|i: int| 0 <= i < r.len() implies cell_ok(#[trigger] r[i]) by {
        if i < p.len() {
            assert(r[i] == p[i]);
        } else {
            assert(r[i] == b.set_cells(n - 1)[i - p.len()]);
        }
    }
}

/// A filter leaves whole keys whole, and takes no more bytes.
pub proof fn lemma_filter_whole(cs: Seq<Seq<u8>>, f: spec_fn(Seq<u8>) -> bool)
    requires
        forall|i: int| 0 <= i < cs.len() ==> cell_ok(#[trigger] cs[i]),
    ensures
        forall|i: int| 0 <= i < cs.filter(f).len() ==> cell_ok(#[trigger] cs.filter(f)[i]),
        cat(cs.filter(f)).len() <= cat(cs).len(),
    decreases cs.len(),
{
    reveal(Seq::filter);
    if cs.len() > 0 {
        let p = cs.drop_last();
        let c = cs.last();
        assert(p.push(c) =~= cs);
        assert forall|i: int| 0 <= i < p.len() implies cell_ok(#[trigger] p[i]) by {
            assert(p[i] == cs[i]);
        }
        assert(cell_ok(cs[cs.len() - 1]));
        lemma_filter_whole(p, f);
        lemma_filter_push(p, c, f);
        lemma_cat_push(p.filter(f), c);
        assert forall|i: int| 0 <= i < cs.filter(f).len() implies cell_ok(
            #[trigger] cs.filter(f)[i],
        ) by {
            if i < p.filter(f).len() {
                assert(cs.filter(f)[i] == p.filter(f)[i]);
            }
        }
    }
}

/// Adds the packed key at place `o` to the end of `out`.
pub fn push_key(out: &mut Vec<u8>, data: &Vec<u8>, o: usize)
    requires
        key_fits(data@, o as int, data@.len() as int),
    ensures
        final(out)@ == old(out)@ + cell_at(data@, o as int),
{
    let ghost before = out@;
    let n: usize = 8 * data[o] as usize;
    let mut i: usize = 0;
    while i < n
        invariant
            i <= n,
            n == 8 * data@[o as int],
            o + n <= data.len(),
            out@ == before + data@.subrange(o as int, o + i),
        decreases n - i,
    {
        out.push(data[o + i]);
        i += 1;
        assert(out@ =~= before + data@.subrange(o as int, o + i));
    }
}

/// The next place in a walk over packed keys.
pub proof fn lemma_next_place(d: Seq<u8>, done: Seq<int>, o: int, from: int, end: int)
    requires
        offs(d, from, end) is Some,
        offs(d, o, end) is Some,
        o < end,
        offs(d, from, end)->0 == done + offs(d, o, end)->0,
    ensures
        key_fits(d, o, end),
        offs(d, o + 8 * d[o], end) is Some,
        offs(d, from, end)->0 == done.push(o) + offs(d, o + 8 * d[o], end)->0,
        cells(d, done.push(o)) == cells(d, done).push(cell_at(d, o)),
{
    lemma_offs(d, o, end);
    let r = offs(d, o + 8 * d[o], end)->0;
    assert(offs(d, o, end)->0 == seq![o] + r);
    assert(done + (seq![o] + r) =~= done.push(o) + r);
    assert(cells(d, done.push(o)) =~= cells(d, done).push(cell_at(d, o)));
}

/// `at` is among the places that `v` lists.
pub open spec fn listed(v: Seq<usize>) -> Seq<int> {
    Seq::new(v.len(), |i: int| v[i] as int)
}

/// A key of `l` stands at the position of the key at place `x`, and not before it in the bytes.
#[verifier::opaque]
pub open spec fn covered(d: Seq<u8>, l: Seq<int>, x: int) -> bool {
    exists|i: int| 0 <= i < l.len() && ord_at(d, #[trigger] l[i]) == ord_at(d, x) && x <= l[i]
}

/// The key of `l` that covers the one at place `x`.
proof fn lemma_covered(d: Seq<u8>, l: Seq<int>, x: int) -> (i: int)
    requires
        covered(d, l, x),
    ensures
        0 <= i < l.len(),
        ord_at(d, l[i]) == ord_at(d, x),
        x <= l[i],
{
    reveal(covered);
    choose|i: int| 0 <= i < l.len() && ord_at(d, #[trigger] l[i]) == ord_at(d, x) && x <= l[i]
}

/// `l` are the newest of the keys at the places `k`, in ascending order.
pub open spec fn latest(d: Seq<u8>, k: Seq<int>, l: Seq<int>) -> bool {
    &&& ascending(d, l)
    &&& forall|i: int| 0 <= i < l.len() ==> k.contains(#[trigger] l[i])
    &&& forall|x: int| #[trigger] k.contains(x) ==> covered(d, l, x)
}

/// Keys stay in ascending order when one comes to its place among them.
proof fn lemma_ascending_step(d: Seq<u8>, l: Seq<int>, o: int, j: int, found: bool)
    requires
        ascending(d, l),
        0 <= j <= l.len(),
        forall|i: int| 0 <= i < j ==> ord_at(d, #[trigger] l[i]) < ord_at(d, o),
        forall|i: int| j < i < l.len() ==> ord_at(d, o) < ord_at(d, #[trigger] l[i]),
        found ==> j < l.len(),
        !found && j < l.len() ==> ord_at(d, o) < ord_at(d, l[j]),
    ensures
        found ==> ascending(d, l.update(j, o)),
        !found ==> ascending(d, l.insert(j, o)),
{
    let m = if found {
        l.update(j, o)
    } else {
        l.insert(j, o)
    };
    assert(m[j] == o);
    assert forall|a: int, b: int| 0 <= a < b < m.len() implies ord_at(d, #[trigger] m[a]) < ord_at(
        d,
        #[trigger] m[b],
    ) by {
        let la = if found || a < j {
            a
        } else {
            a - 1
        };
        let lb = if found || b < j {
            b
        } else {
            b - 1
        };
        if a != j {
            assert(m[a] == l[la]);
        }
        if b != j {
            assert(m[b] == l[lb]);
        }
    }
}

/// What was covered stays covered, and the new key is.
proof fn lemma_covered_step(d: Seq<u8>, l: Seq<int>, o: int, j: int, found: bool, x: int)
    requires
        x == o || (x < o && covered(d, l, x)),
        0 <= j <= l.len(),
        found ==> j < l.len() && ord_at(d, l[j]) == ord_at(d, o),
    ensures
        found ==> covered(d, l.update(j, o), x),
        !found ==> covered(d, l.insert(j, o), x),
{
    reveal(covered);
    let m = if found {
        l.update(j, o)
    } else {
        l.insert(j, o)
    };
    assert(m[j] == o);
    if x != o {
        let i = lemma_covered(d, l, x);
        if i < j || (found && i != j) {
            assert(m[i] == l[i]);
        } else if !found {
            assert(m[i + 1] == l[i]);
        } else {
            assert(ord_at(d, m[j]) == ord_at(d, x));
        }
    }
}

/// A key comes to the newest ones: behind all others in the bytes, it is the newest of its
/// position.
proof fn lemma_latest_step(d: Seq<u8>, k: Seq<int>, l: Seq<int>, o: int, j: int, found: bool)
    requires
        latest(d, k, l),
        forall|x: int| #[trigger] k.contains(x) ==> x < o,
        0 <= j <= l.len(),
        forall|i: int| 0 <= i < j ==> ord_at(d, #[trigger] l[i]) < ord_at(d, o),
        forall|i: int| j < i < l.len() ==> ord_at(d, o) < ord_at(d, #[trigger] l[i]),
        found ==> j < l.len() && ord_at(d, l[j]) == ord_at(d, o),
        !found && j < l.len() ==> ord_at(d, o) < ord_at(d, l[j]),
    ensures
        found ==> latest(d, k.push(o), l.update(j, o)),
        !found ==> latest(d, k.push(o), l.insert(j, o)),
{
    let m = if found {
        l.update(j, o)
    } else {
        l.insert(j, o)
    };
    let k2 = k.push(o);
    lemma_ascending_step(d, l, o, j, found);
    assert forall|x: int| #[trigger] k2.contains(x) implies x == o || k.contains(x) by {
        let b = choose|b: int| 0 <= b < k2.len() && k2[b] == x;
        if b < k.len() {
            assert(k[b] == x);
        }
    }
    assert forall|x: int| k.contains(x) || x == o implies #[trigger] k2.contains(x) by {
        if k.contains(x) {
            let b = choose|b: int| 0 <= b < k.len() && k[b] == x;
            assert(k2[b] == x);
        } else {
            assert(k2[k.len() as int] == o);
        }
    }
    assert forall|x: int| #[trigger] k2.contains(x) implies covered(d, m, x) by {
        lemma_covered_step(d, l, o, j, found, x);
    }
    assert forall|i: int| 0 <= i < m.len() implies k2.contains(#[trigger] m[i]) by {
        if i == j {
            assert(m[i] == o);
        } else if found || i < j {
            assert(m[i] == l[i]);
        } else {
            assert(m[i] == l[i - 1]);
        }
    }
}

/// What the newest keys take grows by no more than the new key.
proof fn lemma_latest_bytes(d: Seq<u8>, l: Seq<int>, o: int, j: int, found: bool)
    requires
        0 <= j <= l.len(),
        found ==> j < l.len(),
    ensures
        found ==> cat(cells(d, l.update(j, o))).len() <= cat(cells(d, l)).len() + cell_at(
            d,
            o,
        ).len(),
        !found ==> cat(cells(d, l.insert(j, o))).len() <= cat(cells(d, l)).len() + cell_at(
            d,
            o,
        ).len(),
{
    if found {
        assert(cells(d, l.update(j, o)) =~= cells(d, l).update(j, cell_at(d, o)));
        lemma_cat_update(cells(d, l), j, cell_at(d, o));
    } else {
        assert(cells(d, l.insert(j, o)) =~= cells(d, l).insert(j, cell_at(d, o)));
        lemma_cat_insert(cells(d, l), j, cell_at(d, o));
    }
}

proof fn lemma_cat_insert(cs: Seq<Seq<u8>>, j: int, c: Seq<u8>)
    requires
        0 <= j <= cs.len(),
    ensures
        cat(cs.insert(j, c)).len() == cat(cs).len() + c.len(),
{
    let a = cs.subrange(0, j);
    let b = cs.subrange(j, cs.len() as int);
    assert(cs =~= a + b);
    assert(cs.insert(j, c) =~= a.push(c) + b);
    lemma_cat_add(a, b);
    lemma_cat_add(a.push(c), b);
    lemma_cat_push(a, c);
}

proof fn lemma_cat_update(cs: Seq<Seq<u8>>, j: int, c: Seq<u8>)
    requires
        0 <= j < cs.len(),
    ensures
        cat(cs.update(j, c)).len() <= cat(cs).len() + c.len(),
{
    let a = cs.subrange(0, j);
    let b = cs.subrange(j + 1, cs.len() as int);
    assert(cs =~= a.push(cs[j]) + b);
    assert(cs.update(j, c) =~= a.push(c) + b);
    lemma_cat_add(a.push(cs[j]), b);
    lemma_cat_add(a.push(c), b);
    lemma_cat_push(a, c);
    lemma_cat_push(a, cs[j]);
}

/// Notes the key at place `o`, which stands behind all others, among the newest ones.
fn note_key(data: &Vec<u8>, idx: &mut Vec<usize>, o: usize, Ghost(k): Ghost<Seq<int>>)
    requires
        latest(data@, k, listed(old(idx)@)),
        forall|x: int| #[trigger] k.contains(x) ==> x < o && key_fits(data@, x, data@.len() as int),
        key_fits(data@, o as int, data@.len() as int),
    ensures
        latest(data@, k.push(o as int), listed(final(idx)@)),
        cat(cells(data@, listed(final(idx)@))).len() <= cat(
            cells(data@, listed(old(idx)@)),
        ).len() + cell_at(data@, o as int).len(),
{
    let ghost d = data@;
    let ghost l = listed(idx@);
    let p: Bpos = read_pos(data, o);
    let mut j: usize = idx.len();
    let mut found: bool = false;
    while j > 0 && !found
        invariant
            d == data@,
            l == listed(idx@),
            latest(d, k, l),
            forall|x: int| #[trigger]
                k.contains(x) ==> x < o && key_fits(data@, x, data@.len() as int),
            p.ord() == ord_at(d, o as int),
            j <= idx.len(),
            found ==> j < idx.len() && ord_at(d, l[j as int]) == p.ord(),
            !found && j < idx.len() ==> p.ord() < ord_at(d, l[j as int]),
            forall|i: int| j < i < l.len() ==> p.ord() < ord_at(d, #[trigger] l[i]),
        ensures
            !found ==> forall|i: int| 0 <= i < j ==> ord_at(d, #[trigger] l[i]) < p.ord(),
        decreases j,
    {
        let x: usize = idx[j - 1];
        proof {
            assert(l[j - 1] == x);
            assert(k.contains(l[j - 1]));
        }
        let q: Bpos = read_pos(data, x);
        if q.precedes(&p) {
            break;
        }
        j -= 1;
        if !p.precedes(&q) {
            found = true;
        }
    }
    proof {
        lemma_latest_step(d, k, l, o as int, j as int, found);
        lemma_latest_bytes(d, l, o as int, j as int, found);
    }
    if found {
        idx.set(j, o);
        assert(listed(idx@) =~= l.update(j as int, o as int));
    } else {
        idx.insert(j, o);
        assert(listed(idx@) =~= l.insert(j as int, o as int));
    }
}

impl NodeBuffer {
    /// The places of the keys of the first `n` sets.
    pub open spec fn all_places(self, n: int) -> Seq<int>
        decreases n,
    {
        if n <= 0 {
            Seq::empty()
        } else {
            self.all_places(n - 1) + self.places(n - 1)->0
        }
    }
}

/// The places of the first sets: those of their keys, each before the end of the last of the sets.
proof fn lemma_all_places(b: NodeBuffer, n: int)
    requires
        b.whole(),
        0 <= n <= b.nsets,
    ensures
        b.all_cells(n) == cells(b.data@, b.all_places(n)),
        forall|o: int| #[trigger]
            b.all_places(n).contains(o) ==> key_fits(b.data@, o, b.data@.len() as int) && o < 8
                * b.sets@[n - 1].end_offset,
        forall|o: int|
            b.all_places(n).contains(o) <==> exists|i: int|
                0 <= i < n && (#[trigger] b.places(i)) is Some && b.places(i)->0.contains(o),
    decreases n,
{
    let d = b.data@;
    if n <= 0 {
        assert(b.all_cells(n) =~= cells(d, b.all_places(n)));
    } else {
        lemma_all_places(b, n - 1);
        assert(b.set_whole(n - 1));
        let p = b.all_places(n - 1);
        let q = b.places(n - 1)->0;
        let r = b.all_places(n);
        assert(r == p + q);
        assert(cells(d, r) =~= cells(d, p) + cells(d, q));
        let s = b.sets@[n - 1];
        lemma_offs(d, 8 * s.first(), 8 * s.end_offset as int);
        if n > 1 {
            assert(b.set_whole(n - 2));
            assert(n == 2 || n == 3);
            assert(b.sets@[n - 2].end_offset <= s.data_offset);
        }
        assert forall|o: int| r.contains(o) <==> p.contains(o) || q.contains(o) by {
            if r.contains(o) {
                let i = choose|i: int| 0 <= i < r.len() && r[i] == o;
                if i < p.len() {
                    assert(p[i] == o);
                } else {
                    assert(q[i - p.len()] == o);
                }
            }
            if p.contains(o) {
                let i = choose|i: int| 0 <= i < p.len() && p[i] == o;
                assert(r[i] == o);
            }
            if q.contains(o) {
                let i = choose|i: int| 0 <= i < q.len() && q[i] == o;
                assert(r[i + p.len()] == o);
            }
        }
        assert forall|o: int| #[trigger] r.contains(o) implies key_fits(d, o, d.len() as int) && o
            < 8 * s.end_offset by {
            assert(p.contains(o) || q.contains(o));
            if q.contains(o) {
                let i = choose|i: int| 0 <= i < q.len() && q[i] == o;
                assert(key_fits(d, q[i], 8 * s.end_offset as int));
            }
        }
        assert forall|o: int| r.contains(o) implies exists|i: int|
            0 <= i < n && (#[trigger] b.places(i)) is Some && b.places(i)->0.contains(o) by {
            assert(p.contains(o) || q.contains(o));
            if q.contains(o) {
                assert(b.places(n - 1)->0.contains(o));
            }
        }
        assert forall|o: int, i: int|
            0 <= i < n && (#[trigger] b.places(i)) is Some && #[trigger] b.places(i)->0.contains(
                o,
            ) implies r.contains(o) by {
            if i < n - 1 {
                assert(p.contains(o));
            }
        }
    }
}

impl NodeBuffer {
    /// The newest keys of all positions, in ascending order.
    fn newest_places(&self) -> (r: Vec<usize>)
        requires
            self.whole(),
        ensures
            latest(self.data@, self.all_places(self.nsets as int), listed(r@)),
            cat(cells(self.data@, listed(r@))).len() <= cat(
                self.all_cells(self.nsets as int),
            ).len(),
    {
        let ghost d = self.data@;
        let mut idx: Vec<usize> = Vec::new();
        let mut si: u8 = 0;
        let ghost mut k: Seq<int> = Seq::empty();
        proof {
            assert(cells(d, listed(idx@)) =~= Seq::<Seq<u8>>::empty());
            assert(cells(d, k) =~= Seq::<Seq<u8>>::empty());
        }
        while si < self.nsets
            invariant
                si <= self.nsets,
                self.whole(),
                d == self.data@,
                k == self.all_places(si as int),
                latest(d, k, listed(idx@)),
                cat(cells(d, listed(idx@))).len() <= cat(cells(d, k)).len(),
            decreases self.nsets - si,
        {
            let s: BsetRange = self.sets[si as usize];
            let from: usize = s.first_key_offset() as usize * 8;
            let end: usize = s.end_offset as usize * 8;
            let ghost here = self.places(si as int)->0;
            let ghost base = k;
            let ghost mut done: Seq<int> = Seq::empty();
            proof {
                assert(self.set_whole(si as int));
                lemma_all_places(*self, si as int);
                assert(done + here =~= here);
                assert(base + done =~= base);
                if si > 0 {
                    assert(self.set_whole(si - 1));
                    assert(si == 1 || si == 2);
                    assert(self.sets@[si - 1].end_offset <= s.data_offset);
                }
            }
            let mut o: usize = from;
            while o < end
                invariant
                    d == self.data@,
                    from <= o <= end <= d.len(),
                    offs(d, from as int, end as int) is Some,
                    here == offs(d, from as int, end as int)->0,
                    offs(d, o as int, end as int) is Some,
                    here == done + offs(d, o as int, end as int)->0,
                    k == base + done,
                    forall|x: int| #[trigger]
                        k.contains(x) ==> x < o && key_fits(d, x, d.len() as int),
                    latest(d, k, listed(idx@)),
                    cat(cells(d, listed(idx@))).len() <= cat(cells(d, k)).len(),
                decreases end - o,
            {
                proof {
                    lemma_next_place(d, done, o as int, from as int, end as int);
                }
                note_key(&self.data, &mut idx, o, Ghost(k));
                proof {
                    let c = cell_at(d, o as int);
                    assert(cells(d, k.push(o as int)) =~= cells(d, k).push(c));
                    lemma_cat_push(cells(d, k), c);
                    assert(base + done.push(o as int) =~= k.push(o as int));
                    let k2 = k.push(o as int);
                    assert forall|x: int| #[trigger] k2.contains(x) implies x < o + 8 * d[o as int]
                        && key_fits(d, x, d.len() as int) by {
                        let i = choose|i: int| 0 <= i < k2.len() && k2[i] == x;
                        if i < k.len() {
                            assert(k[i] == x);
                            assert(k.contains(x));
                        }
                    }
                    k = k2;
                    done = done.push(o as int);
                }
                o = o + 8 * self.data[o] as usize;
            }
            proof {
                assert(done =~= here);
            }
            si += 1;
        }
        proof {
            lemma_all_places(*self, self.nsets as int);
        }
        idx
    }

    /// Merges the keys of all sets into one set in ascending order: of several keys at one
    /// position the newest stays, and deleted keys go.
    pub fn compact(&mut self)
        requires
            old(self).whole(),
        ensures
            final(self).compacted(*old(self)),
            final(self).laid(),
            final(self).whole(),
            final(self).same_head(*old(self)),
            final(self).data@.len() == old(self).data@.len(),
    {
        let ghost b = *self;
        let ghost d = self.data@;
        let ghost k = self.all_places(self.nsets as int);
        let idx: Vec<usize> = self.newest_places();
        let ghost all = listed(idx@);
        proof {
            lemma_all_places(b, b.nsets as int);
            lemma_all_cells(b, b.nsets as int);
        }
        let mut out: Vec<u8> = Vec::new();
        let mut n: usize = 0;
        let ghost mut l: Seq<int> = Seq::empty();
        let mut i: usize = 0;
        assert(cells(d, l) =~= Seq::<Seq<u8>>::empty());
        assert(all.subrange(0, 0) =~= Seq::<int>::empty());
        assert(cells(d, all.subrange(0, 0)) =~= Seq::<Seq<u8>>::empty());
        while i < idx.len()
            invariant
                i <= idx.len(),
                d == self.data@,
                *self == b,
                all == listed(idx@),
                latest(d, k, all),
                forall|x: int| #[trigger] k.contains(x) ==> key_fits(d, x, d.len() as int),
                out@ == cat(cells(d, l)),
                n == l.len(),
                n <= i,
                ascending(d, l),
                forall|j: int|
                    0 <= j < l.len() ==> all.contains(#[trigger] l[j]) && !cell_dead(
                        cell_at(d, l[j]),
                    ),
                forall|j: int, x: int|
                    0 <= j < l.len() && i <= x < all.len() ==> ord_at(d, #[trigger] l[j]) < ord_at(
                        d,
                        #[trigger] all[x],
                    ),
                forall|x: int|
                    0 <= x < i && !cell_dead(cell_at(d, #[trigger] all[x])) ==> l.contains(all[x]),
                cat(cells(d, l)).len() <= cat(cells(d, all.subrange(0, i as int))).len(),
            decreases idx.len() - i,
        {
            let o: usize = idx[i];
            let ghost c = cell_at(d, o as int);
            proof {
                assert(all[i as int] == o);
                assert(k.contains(all[i as int]));
                assert(cells(d, all.subrange(0, i + 1)) =~= cells(
                    d,
                    all.subrange(0, i as int),
                ).push(c));
                lemma_cat_push(cells(d, all.subrange(0, i as int)), c);
                assert(cells(d, l.push(o as int)) =~= cells(d, l).push(c));
                lemma_cat_push(cells(d, l), c);
            }
            assert(o + KEY_BYTES <= self.data.len());
            if self.data[o + 2] != 0 {
                push_key(&mut out, &self.data, o);
                n += 1;
                proof {
                    let m = l.push(o as int);
                    assert forall|x: int|
                        0 <= x < i + 1 && !cell_dead(
                            cell_at(d, #[trigger] all[x]),
                        ) implies m.contains(all[x]) by {
                        if x < i {
                            assert(l.contains(all[x]));
                            let j = choose|j: int| 0 <= j < l.len() && l[j] == all[x];
                            assert(m[j] == all[x]);
                        } else {
                            assert(m[l.len() as int] == all[x]);
                        }
                    }
                    l = m;
                }
            }
            i += 1;
        }
        proof {
            assert(all.subrange(0, all.len() as int) =~= all);
            lemma_latest_merged(b, all, l);
            lemma_sound_merged(b, l);
            lemma_cat_len(cells(d, l));
            assert(b.set_whole(b.nsets - 1));
        }
        self.install(&out, out.len(), n);
        proof {
            assert(out@.subrange(0, out@.len() as int) =~= out@);
            lemma_installed(*self, d, out@, cells(d, l), b.room());
        }
    }
}

/// What is live of the newest keys is what a merge leaves.
proof fn lemma_latest_merged(b: NodeBuffer, all: Seq<int>, l: Seq<int>)
    requires
        b.whole(),
        latest(b.data@, b.all_places(b.nsets as int), all),
        ascending(b.data@, l),
        forall|j: int|
            0 <= j < l.len() ==> all.contains(#[trigger] l[j]) && !cell_dead(
                cell_at(b.data@, l[j]),
            ),
        forall|x: int|
            0 <= x < all.len() && !cell_dead(cell_at(b.data@, #[trigger] all[x])) ==> l.contains(
                all[x],
            ),
    ensures
        merged(b.data@, b.key_places(), l),
{
    let d = b.data@;
    let k = b.all_places(b.nsets as int);
    let f = b.key_places();
    lemma_all_places(b, b.nsets as int);
    assert forall|o: int| f(o) <==> k.contains(o) by {
        assert(f(o) == b.has_key(o));
    }
    assert forall|i: int| 0 <= i < all.len() implies crate::sort_iter::newest(
        d,
        f,
        #[trigger] all[i],
    ) by {
        assert(k.contains(all[i]));
        assert(f(all[i]));
        assert forall|x: int| #[trigger] f(x) && ord_at(d, x) == ord_at(d, all[i]) implies x
            <= all[i] by {
            assert(k.contains(x));
            let j = lemma_covered(d, all, x);
            assert(j == i);
        }
    }
    assert forall|i: int| 0 <= i < l.len() implies crate::sort_iter::newest(d, f, #[trigger] l[i])
        && !cell_dead(cell_at(d, l[i])) by {
        let j = choose|j: int| 0 <= j < all.len() && all[j] == l[i];
        assert(crate::sort_iter::newest(d, f, all[j]));
    }
    assert forall|o: int| #[trigger]
        crate::sort_iter::newest(d, f, o) && !cell_dead(cell_at(d, o)) implies l.contains(o) by {
        assert(f(o));
        assert(k.contains(o));
        let j = lemma_covered(d, all, o);
        assert(k.contains(all[j]));
        assert(f(all[j]));
        assert(all[j] == o);
    }
}

/// What a merge gives of whole keys is sound.
proof fn lemma_sound_merged(b: NodeBuffer, l: Seq<int>)
    requires
        b.whole(),
        merged(b.data@, b.key_places(), l),
    ensures
        sound(cells(b.data@, l)),
{
    let d = b.data@;
    let cs = cells(d, l);
    assert forall|i: int| 0 <= i < cs.len() implies cell_ok(#[trigger] cs[i]) && format_ok(
        cs[i],
    ) by {
        let p = l[i];
        assert(b.key_places()(p));
        assert(b.has_key(p));
        let k = choose|k: int|
            0 <= k < b.nsets && (#[trigger] b.places(k)) is Some && b.places(k)->0.contains(p);
        assert(b.set_whole(k));
        let m = b.places(k)->0;
        let j = choose|j: int| 0 <= j < m.len() && m[j] == p;
        assert(b.set_cells(k)[j] == cell_at(d, p));
    }
    assert forall|i: int, j: int| 0 <= i < j < cs.len() implies cell_pos(#[trigger] cs[i]).ord()
        < cell_pos(#[trigger] cs[j]).ord() by {
        assert(ord_at(d, l[i]) < ord_at(d, l[j]));
    }
}

/// The keys before a position.
pub open spec fn before(cs: Seq<Seq<u8>>, p: Bpos) -> Seq<Seq<u8>> {
    cs.filter(|c: Seq<u8>| cell_pos(c).ord() < p.ord())
}

/// The keys after a position.
pub open spec fn after(cs: Seq<Seq<u8>>, p: Bpos) -> Seq<Seq<u8>> {
    cs.filter(|c: Seq<u8>| p.ord() < cell_pos(c).ord())
}

/// The keys with `c` among them, in the place of the one at its position.
pub open spec fn placed(cs: Seq<Seq<u8>>, c: Seq<u8>) -> Seq<Seq<u8>> {
    before(cs, cell_pos(c)).push(c) + after(cs, cell_pos(c))
}

/// Some key stands at a position.
pub open spec fn occupied(cs: Seq<Seq<u8>>, p: Bpos) -> bool {
    exists|i: int| 0 <= i < cs.len() && cell_pos(#[trigger] cs[i]) == p
}

/// A filter of one more key.
pub proof fn lemma_filter_push(cs: Seq<Seq<u8>>, c: Seq<u8>, f: spec_fn(Seq<u8>) -> bool)
    ensures
        cs.push(c).filter(f) == if f(c) {
            cs.filter(f).push(c)
        } else {
            cs.filter(f)
        },
{
    reveal(Seq::filter);
    assert(cs.push(c).drop_last() =~= cs);
}

/// What a filter leaves of sound keys is sound, and it is among them.
pub proof fn lemma_filter_sound(cs: Seq<Seq<u8>>, f: spec_fn(Seq<u8>) -> bool)
    requires
        sound(cs),
    ensures
        sound(cs.filter(f)),
        forall|i: int|
            0 <= i < cs.filter(f).len() ==> f(#[trigger] cs.filter(f)[i]) && cs.contains(
                cs.filter(f)[i],
            ),
        cat(cs.filter(f)).len() <= cat(cs).len(),
    decreases cs.len(),
{
    reveal(Seq::filter);
    if cs.len() > 0 {
        let p = cs.drop_last();
        let c = cs.last();
        assert(p.push(c) =~= cs);
        assert forall|i: int| 0 <= i < p.len() implies cell_ok(#[trigger] p[i]) && format_ok(
            p[i],
        ) by {
            assert(p[i] == cs[i]);
        }
        assert forall|i: int, j: int| 0 <= i < j < p.len() implies cell_pos(#[trigger] p[i]).ord()
            < cell_pos(#[trigger] p[j]).ord() by {
            assert(p[i] == cs[i] && p[j] == cs[j]);
        }
        lemma_filter_sound(p, f);
        lemma_filter_push(p, c, f);
        let g = p.filter(f);
        let h = cs.filter(f);
        lemma_cat_push(g, c);
        assert forall|i: int| 0 <= i < h.len() implies f(#[trigger] h[i]) && cs.contains(h[i])
            && cell_ok(h[i]) && format_ok(h[i]) by {
            if i < g.len() {
                assert(h[i] == g[i]);
                let j = choose|j: int| 0 <= j < p.len() && p[j] == g[i];
                assert(cs[j] == h[i]);
            } else {
                assert(h[i] == cs[cs.len() - 1]);
            }
        }
        assert forall|i: int, j: int| 0 <= i < j < h.len() implies cell_pos(#[trigger] h[i]).ord()
            < cell_pos(#[trigger] h[j]).ord() by {
            assert(h[i] == g[i]);
            if j < g.len() {
                assert(h[j] == g[j]);
            } else {
                let k = choose|k: int| 0 <= k < p.len() && p[k] == g[i];
                assert(cs[k] == h[i]);
                assert(h[j] == cs[cs.len() - 1]);
            }
        }
    }
}

/// Keys stay sound when a sound one is placed among them.
proof fn lemma_placed_sound(cs: Seq<Seq<u8>>, c: Seq<u8>)
    requires
        sound(cs),
        cell_ok(c),
        format_ok(c),
    ensures
        sound(placed(cs, c)),
{
    let p = cell_pos(c);
    lemma_filter_sound(cs, |c: Seq<u8>| cell_pos(c).ord() < p.ord());
    lemma_filter_sound(cs, |c: Seq<u8>| p.ord() < cell_pos(c).ord());
    let a = before(cs, p);
    let b = after(cs, p);
    let r = placed(cs, c);
    assert forall|i: int| 0 <= i < r.len() implies cell_ok(#[trigger] r[i]) && format_ok(r[i]) by {
        if i < a.len() {
            assert(r[i] == a[i]);
        } else if i > a.len() {
            assert(r[i] == b[i - a.len() - 1]);
        }
    }
    assert forall|i: int, j: int| 0 <= i < j < r.len() implies cell_pos(#[trigger] r[i]).ord()
        < cell_pos(#[trigger] r[j]).ord() by {
        if i < a.len() {
            assert(r[i] == a[i]);
        } else if i > a.len() {
            assert(r[i] == b[i - a.len() - 1]);
        }
        if j < a.len() {
            assert(r[j] == a[j]);
        } else if j > a.len() {
            assert(r[j] == b[j - a.len() - 1]);
        }
    }
}

/// What a set of keys becomes by one more key: its bytes, and whether the key took the place of
/// another one.
fn with_key(
    data: &Vec<u8>,
    from: usize,
    end: usize,
    c: &Vec<u8>,
    pos: &Bpos,
) -> (r: (Vec<u8>, bool))
    requires
        offs(data@, from as int, end as int) is Some,
        sound(cells(data@, offs(data@, from as int, end as int)->0)),
        cell_ok(c@),
        cell_pos(c@) == *pos,
        from <= end <= data@.len(),
    ensures
        ({
            let cs = cells(data@, offs(data@, from as int, end as int)->0);
            r.0@ == cat(placed(cs, c@)) && r.1 == occupied(cs, *pos)
        }),
{
    let ghost d = data@;
    let ghost all = offs(d, from as int, end as int)->0;
    let ghost p = *pos;
    let ghost lo = |c: Seq<u8>| cell_pos(c).ord() < p.ord();
    let ghost hi = |c: Seq<u8>| p.ord() < cell_pos(c).ord();
    let mut out: Vec<u8> = Vec::new();
    let mut put: bool = false;
    let mut found: bool = false;
    let mut o: usize = from;
    let ghost mut done: Seq<int> = Seq::empty();
    proof {
        reveal(Seq::filter);
        assert(done + all =~= all);
        assert(cells(d, done) =~= Seq::<Seq<u8>>::empty());
        assert(cat(before(cells(d, done), p)) =~= out@);
    }
    while o < end
        invariant
            d == data@,
            p == *pos,
            from <= o <= end <= d.len(),
            lo == |c: Seq<u8>| cell_pos(c).ord() < p.ord(),
            hi == |c: Seq<u8>| p.ord() < cell_pos(c).ord(),
            offs(d, from as int, end as int) is Some,
            all == offs(d, from as int, end as int)->0,
            sound(cells(d, all)),
            cell_pos(c@) == p,
            offs(d, o as int, end as int) is Some,
            all == done + offs(d, o as int, end as int)->0,
            found == occupied(cells(d, done), p),
            !put ==> out@ == cat(before(cells(d, done), p)) && after(cells(d, done), p).len() == 0,
            put ==> out@ == cat(placed(cells(d, done), c@)) && after(cells(d, done), p).len() > 0
                && done.len() > 0 && p.ord() < cell_pos(cells(d, done).last()).ord(),
        decreases end - o,
    {
        let ghost cs = cells(d, done);
        let ghost here = cell_at(d, o as int);
        proof {
            lemma_next_place(d, done, o as int, from as int, end as int);
            assert(cells(d, all)[done.len() as int] == here);
            if put {
                assert(cells(d, all)[done.len() - 1] == cs.last());
            }
            lemma_filter_push(cs, here, lo);
            lemma_filter_push(cs, here, hi);
        }
        let q: Bpos = read_pos(data, o);
        proof {
            lemma_ord(q, p);
        }
        let ghost was = out@;
        if q.precedes(pos) {
            push_key(&mut out, data, o);
            proof {
                lemma_cat_push(before(cs, p), here);
            }
        } else if pos.precedes(&q) {
            if !put {
                push_all(&mut out, c);
                put = true;
                proof {
                    lemma_cat_push(before(cs, p), c@);
                    assert(placed(cs, c@) =~= before(cs, p).push(c@));
                }
            }
            push_key(&mut out, data, o);
            proof {
                lemma_cat_push(placed(cs, c@), here);
                assert(placed(cs.push(here), c@) =~= placed(cs, c@).push(here));
            }
        } else {
            found = true;
        }
        proof {
            lemma_occupied_push(cs, here, p);
            done = done.push(o as int);
            assert(cells(d, done).last() == here);
        }
        o = o + 8 * data[o] as usize;
    }
    if !put {
        push_all(&mut out, c);
        proof {
            let cs = cells(d, done);
            lemma_cat_push(before(cs, p), c@);
            assert(placed(cs, c@) =~= before(cs, p).push(c@));
        }
    }
    assert(done =~= all);
    (out, found)
}

proof fn lemma_occupied_push(cs: Seq<Seq<u8>>, c: Seq<u8>, p: Bpos)
    ensures
        occupied(cs.push(c), p) <==> occupied(cs, p) || cell_pos(c) == p,
{
    if occupied(cs, p) {
        let i = choose|i: int| 0 <= i < cs.len() && cell_pos(#[trigger] cs[i]) == p;
        assert(cs.push(c)[i] == cs[i]);
    }
    assert(cs.push(c)[cs.len() as int] == c);
    if occupied(cs.push(c), p) {
        let i = choose|i: int| 0 <= i < cs.len() + 1 && cell_pos(#[trigger] cs.push(c)[i]) == p;
        if i < cs.len() {
            assert(cs[i] == cs.push(c)[i]);
        }
    }
}

/// Adds all of `c` to the end of `out`.
fn push_all(out: &mut Vec<u8>, c: &Vec<u8>)
    ensures
        final(out)@ == old(out)@ + c@,
{
    let ghost before = out@;
    let mut i: usize = 0;
    while i < c.len()
        invariant
            i <= c.len(),
            out@ == before + c@.subrange(0, i as int),
        decreases c.len() - i,
    {
        out.push(c[i]);
        i += 1;
        assert(out@ =~= before + c@.subrange(0, i as int));
    }
    assert(c@.subrange(0, c@.len() as int) =~= c@);
}

/// The last set is rewritten in place: it holds what was written, and the other sets are as they
/// were.
proof fn lemma_last_rewritten(o: NodeBuffer, b: NodeBuffer, cs: Seq<Seq<u8>>)
    requires
        o.laid(),
        sound(cs),
        o.fits_last(cs),
        b.node_size == o.node_size,
        b.nsets == o.nsets,
        b.data@ == patched(o.data@, 8 * o.sets@[o.nsets - 1].first(), cat(cs)),
        b.sets@.len() == o.sets@.len(),
        forall|i: int| 0 <= i < o.nsets - 1 ==> b.sets@[i] == o.sets@[i],
        b.sets@[o.nsets - 1].data_offset == o.sets@[o.nsets - 1].data_offset,
        8 * b.sets@[o.nsets - 1].end_offset == 8 * o.sets@[o.nsets - 1].first() + cat(cs).len(),
    ensures
        b.laid(),
        b.set_cells(o.nsets - 1) == cs,
        forall|i: int| 0 <= i < o.nsets - 1 ==> #[trigger] b.set_cells(i) == o.set_cells(i),
{
    let last = o.nsets - 1;
    let from = 8 * o.sets@[last].first();
    let n = cat(cs).len() as int;
    let d = b.data@;
    assert(o.set_ok(last));
    let p = d.subrange(0, from);
    let q = d.subrange(from + n, d.len() as int);
    assert(d =~= p + cat(cs) + q);
    lemma_cat_offs(p, cs, q);
    assert(b.set_ok(last));
    assert forall|i: int| 0 <= i < last implies #[trigger] b.set_ok(i) && b.set_cells(i)
        == o.set_cells(i) by {
        assert(o.set_ok(i));
        assert(o.sets@[i].end_offset <= o.sets@[last].data_offset) by {
            assert(o.set_ok(0) && o.set_ok(1));
        }
        lemma_offs_frame(o.data@, d, 8 * o.sets@[i].first(), 8 * o.sets@[i].end_offset as int);
    }
    assert forall|i: int| 0 <= i < last implies #[trigger] b.set_cells(i) == o.set_cells(i) by {
        assert(b.set_ok(i));
    }
}

impl NodeBuffer {
    /// Room for the keys `cs` in the last set.
    pub open spec fn fits_last(self, cs: Seq<Seq<u8>>) -> bool {
        let end = 8 * self.sets@[self.nsets - 1].first() + cat(cs).len();
        end <= self.room() && end <= 8 * u16::MAX
    }

    /// Places a key with a value of whole words in the last set; a key at the same position in
    /// that set goes. Says whether there was room.
    pub fn insert(&mut self, pos: &Bpos, key_type: KeyType, value: &Vec<u8>) -> (r: bool)
        requires
            old(self).laid(),
            value@.len() % 8 == 0,
            value@.len() <= 2016,
        ensures
            final(self).laid(),
            final(self).whole(),
            final(self).same_head(*old(self)),
            final(self).data@.len() == old(self).data@.len(),
            final(self).nsets == old(self).nsets,
            final(self).whiteout_u64s == old(self).whiteout_u64s,
            !r ==> *final(self) == *old(self),
            ({
                let last = old(self).nsets - 1;
                let cs = old(self).set_cells(last);
                let c = packed_cell(*pos, key_type, value@);
                &&& r == old(self).fits_last(placed(cs, c))
                &&& r ==> final(self).set_cells(last) == placed(cs, c)
                &&& r ==> final(self).packed_keys == if occupied(cs, *pos)
                    || old(self).packed_keys == u16::MAX {
                    old(self).packed_keys as int
                } else {
                    old(self).packed_keys + 1
                }
                &&& forall|i: int|
                    0 <= i < last ==> #[trigger] final(self).set_cells(i) == old(self).set_cells(i)
            }),
    {
        let c: Vec<u8> = pack_cell(pos, key_type, value);
        let last: usize = self.nsets as usize - 1;
        let ghost o = *self;
        let ghost cs = o.set_cells(last as int);
        let s: BsetRange = self.sets[last];
        proof {
            law_packed_roundtrip(*pos, key_type, value@);
            assert(o.set_ok(last as int));
            lemma_placed_sound(cs, c@);
            lemma_cat_len(placed(cs, c@));
        }
        let from: usize = s.first_key_offset() as usize * 8;
        let end: usize = s.end_offset as usize * 8;
        let (out, found) = with_key(&self.data, from, end, &c, pos);
        let room: usize = self.room_bytes();
        if out.len() > room || from > room - out.len() || from + out.len() > 8 * u16::MAX as usize {
            proof {
                lemma_laid_whole(o);
            }
            return false;
        }
        let ghost n = out@.len() as int;
        crate::packed::copy_bytes(&mut self.data, from, &out, 0, out.len());
        assert(out@.subrange(0, n) =~= out@);
        self.sets[last] = BsetRange {
            data_offset: s.data_offset,
            end_offset: ((from + out.len()) / 8) as u16,
            indexed: s.indexed,
        };
        if !found && self.packed_keys < u16::MAX {
            self.packed_keys = self.packed_keys + 1;
        }
        proof {
            lemma_last_rewritten(o, *self, placed(cs, c@));
            lemma_laid_whole(*self);
        }
        true
    }
}

pub proof fn lemma_filter_keeps(cs: Seq<Seq<u8>>, f: spec_fn(Seq<u8>) -> bool, c: Seq<u8>)
    ensures
        cs.filter(f).contains(c) <==> cs.contains(c) && f(c),
{
    if cs.contains(c) && f(c) {
        let i = choose|i: int| 0 <= i < cs.len() && cs[i] == c;
        cs.lemma_filter_contains(f, i);
    }
    if cs.filter(f).contains(c) {
        let i = choose|i: int| 0 <= i < cs.filter(f).len() && cs.filter(f)[i] == c;
        cs.lemma_filter_pred(f, i);
        cs.lemma_filter_contains_rev(f, c);
    }
}

/// A key that is placed among others is there, takes the place of one at its position, and leaves
/// all at other positions.
pub proof fn law_placed_key_is_there(cs: Seq<Seq<u8>>, c: Seq<u8>, x: Seq<u8>)
    ensures
        placed(cs, c).contains(c),
        cell_pos(x) == cell_pos(c) && x != c ==> !placed(cs, c).contains(x),
        cell_pos(x) != cell_pos(c) ==> (placed(cs, c).contains(x) <==> cs.contains(x)),
{
    let p = cell_pos(c);
    let f = |c: Seq<u8>| cell_pos(c).ord() < p.ord();
    let g = |c: Seq<u8>| p.ord() < cell_pos(c).ord();
    let a = before(cs, p);
    let b = after(cs, p);
    let t = placed(cs, c);
    lemma_filter_keeps(cs, f, x);
    lemma_filter_keeps(cs, g, x);
    crate::key::lemma_ord(cell_pos(x), p);
    crate::key::lemma_ord(p, cell_pos(x));
    assert(t[a.len() as int] == c);
    assert(t.contains(x) <==> a.contains(x) || x == c || b.contains(x)) by {
        if a.contains(x) {
            let i = choose|i: int| 0 <= i < a.len() && a[i] == x;
            assert(t[i] == x);
        }
        if b.contains(x) {
            let i = choose|i: int| 0 <= i < b.len() && b[i] == x;
            assert(t[a.len() + 1 + i] == x);
        }
        if t.contains(x) && x != c {
            let i = choose|i: int| 0 <= i < t.len() && t[i] == x;
            if i < a.len() {
                assert(a[i] == x);
            } else {
                assert(b[i - a.len() - 1] == x);
            }
        }
    }
}

} // verus!
