//! What is done to the bytes of a node before and after it is written: its sets are merged for the
//! write, and new sets are opened for keys to come.

use crate::bset::MAX_BSETS;
use crate::bytes::{le_bytes, lemma_le_bytes, num_at, read_le, write_le};
use crate::key::Bpos;
use crate::node::{NodeFlags, BSET_HEADER_U64S};
use crate::node_buffer::{
    format_ok, lemma_cat_len, lemma_installed, lemma_laid_whole, lemma_runs, lemma_runs_bytes,
    lemma_sound_ascending, sound, BsetRange, NodeBuffer,
};
use crate::packed::{
    ascending, cat, cell_at, cell_dead, cell_ok, cell_pos, cells, lemma_offs_frame, ord_at,
    BkeyFormat,
};
use crate::sort_iter::{
    bch2_sort_keys, bytes_left, in_runs, law_merge_unique, lemma_live_in, lemma_pool_in_runs,
    live_keys, merge_bytes, merged, newest, not_descending, pool, runs_ok, runs_sorted, SortIter,
};
use crate::text::{decimal, has_part, has_parts, lemma_parts_grow, push_decimal};
use crate::writer::StorageError;
use vstd::prelude::*;
use vstd::string::StringExecFns;

verus! {

/// Bytes of a block.
pub const BLOCK_SIZE: usize = 4096;

/// Bytes of a sector.
pub const SECTOR_SIZE: usize = 512;

/// Bytes of keys from which on a set that is not written yet gets a successor.
pub const FULL_SET_BYTES: u32 = 4096;

/// Words that have to be left for a successor of a set that is not written yet.
pub const FULL_SET_U64S: u32 = 512;

impl NodeBuffer {
    /// The word at which the next set would begin: behind the last set and behind what is written.
    pub open spec fn next_offset(self) -> int {
        let end = self.sets@[self.nsets - 1].end_offset as int;
        if 64 * self.written > end {
            64 * self.written
        } else {
            end
        }
    }

    /// The words left behind a set that begins at the next offset.
    pub open spec fn words_left(self) -> int {
        self.node_size as int / 8 - (self.next_offset() + BSET_HEADER_U64S + self.whiteout_u64s + 1)
    }

    /// The last set is on disk.
    pub open spec fn last_written(self) -> bool {
        8 * self.sets@[self.nsets - 1].data_offset < 512 * self.written
    }

    /// Where a new set is wanted: if the last one is on disk, where a block is left; else where
    /// the last one is full and there is room for as much again.
    pub open spec fn next_set(self) -> Option<int> {
        let last = self.sets@[self.nsets - 1];
        if self.nsets >= MAX_BSETS {
            None
        } else if self.last_written() {
            if self.written + 8 <= self.node_size as int / 512 {
                Some(self.next_offset())
            } else {
                None
            }
        } else if 8 * (last.end_offset - last.first()) > FULL_SET_BYTES && self.words_left()
            > FULL_SET_U64S {
            Some(self.next_offset())
        } else {
            None
        }
    }

    /// A set at `at` is in the node with its header.
    pub open spec fn header_fits(self, at: int) -> bool {
        8 * (at + BSET_HEADER_U64S) <= self.room() && at + BSET_HEADER_U64S <= u16::MAX
    }

    /// The node `o` with a new set at `at`.
    pub open spec fn opened_at(self, o: NodeBuffer, at: int) -> bool {
        &&& self.same_head(o)
        &&& self.nsets == o.nsets + 1
        &&& self.packed_keys == o.packed_keys
        &&& self.whiteout_u64s == o.whiteout_u64s
        &&& self.sets@ == o.sets@.update(
            o.nsets as int,
            BsetRange {
                data_offset: at as u16,
                end_offset: (at + BSET_HEADER_U64S) as u16,
                indexed: true,
            },
        )
        &&& self.data@ == crate::bytes::patched(
            o.data@,
            8 * at,
            le_bytes(num_at(o.data@, 8 * o.sets@[0].data_offset, 8), 8) + Seq::new(
                16,
                |i: int| 0u8,
            ),
        )
    }

    /// The node `o` with a new set where one is wanted and fits.
    pub open spec fn opened(self, o: NodeBuffer) -> bool {
        match o.next_set() {
            Some(at) => if o.header_fits(at) {
                self.opened_at(o, at)
            } else {
                self == o
            },
            None => self == o,
        }
    }
}

/// Where a new set is wanted for keys to come.
pub fn want_new_bset(node: &NodeBuffer) -> (r: Option<u32>)
    requires
        node.laid(),
    ensures
        match node.next_set() {
            Some(at) => r == Some(at as u32) && at <= u32::MAX,
            None => r is None,
        },
{
    if node.nsets as usize >= MAX_BSETS {
        return None;
    }
    let last: BsetRange = node.sets[node.nsets as usize - 1];
    assert(node.set_ok(node.nsets - 1));
    let behind: u32 = 64 * node.written as u32;
    let at: u32 = if behind > last.end_offset as u32 {
        behind
    } else {
        last.end_offset as u32
    };
    if (last.data_offset as u32) * 8 < 512 * node.written as u32 {
        if node.written as u32 + 8 <= node.node_size / 512 {
            return Some(at);
        }
    } else {
        let used: u32 = at + BSET_HEADER_U64S as u32 + node.whiteout_u64s as u32 + 1;
        let total: u32 = node.node_size / 8;
        let left: u32 = if total > used {
            total - used
        } else {
            0
        };
        if (last.end_offset as u32 - last.first_key_offset()) * 8 > FULL_SET_BYTES && left
            > FULL_SET_U64S {
            return Some(at);
        }
    }
    None
}

/// A new set leaves the others as they are.
pub proof fn lemma_opened_at(b: NodeBuffer, o: NodeBuffer, at: int)
    requires
        o.laid(),
        b.opened_at(o, at),
        o.nsets < MAX_BSETS,
        o.sets@[o.nsets - 1].end_offset <= at,
        o.header_fits(at),
    ensures
        b.laid(),
        b.data@.len() == o.data@.len(),
        b.set_cells(o.nsets as int) == Seq::<Seq<u8>>::empty(),
        forall|i: int| 0 <= i < o.nsets ==> #[trigger] b.set_cells(i) == o.set_cells(i),
{
    let n = o.nsets as int;
    let d = b.data@;
    lemma_le_bytes(num_at(o.data@, 8 * o.sets@[0].data_offset, 8), 8);
    assert(o.set_ok(n - 1));
    assert forall|i: int| 0 <= i < n implies #[trigger] b.set_ok(i) && b.set_cells(i)
        == o.set_cells(i) by {
        assert(o.set_ok(i));
        assert(b.sets@[i] == o.sets@[i]);
        assert(o.sets@[i].end_offset <= at) by {
            assert(o.set_ok(0) && o.set_ok(n - 1));
        }
        lemma_offs_frame(o.data@, d, 8 * o.sets@[i].first(), 8 * o.sets@[i].end_offset as int);
    }
    assert(b.set_cells(n) =~= Seq::<Seq<u8>>::empty());
    assert(b.set_ok(n));
    assert forall|i: int| 0 <= i < n implies #[trigger] b.set_cells(i) == o.set_cells(i) by {
        assert(b.set_ok(i));
    }
}

/// Opens a set without keys at word `at`, unless there is no room for it. Its header has the
/// sequence number of the first set.
fn bset_init_next(node: &mut NodeBuffer, at: u32)
    requires
        old(node).laid(),
        old(node).nsets < MAX_BSETS,
        old(node).sets@[old(node).nsets - 1].end_offset <= at <= 0x40_0000,
    ensures
        if old(node).header_fits(at as int) {
            final(node).opened_at(*old(node), at as int)
        } else {
            *final(node) == *old(node)
        },
{
    let end: u32 = at + BSET_HEADER_U64S as u32;
    if end as usize * 8 > node.room_bytes() || end > u16::MAX as u32 {
        return;
    }
    let n: usize = node.nsets as usize;
    let ghost o = *node;
    let ghost d = node.data@;
    proof {
        assert(o.set_ok(0));
        assert(o.set_ok(n - 1));
    }
    let head: usize = node.sets[0].data_offset as usize * 8;
    let seq_nr: u64 = read_le(&node.data, head, 8);
    let from: usize = at as usize * 8;
    write_le(&mut node.data, from, seq_nr, 8);
    write_le(&mut node.data, from + 8, 0, 8);
    write_le(&mut node.data, from + 16, 0, 8);
    proof {
        let h = num_at(d, 8 * o.sets@[0].data_offset, 8);
        lemma_le_bytes(h, 8);
        lemma_le_bytes(0, 8);
        lemma_zero_bytes(8);
        assert(node.data@ =~= crate::bytes::patched(
            d,
            8 * at as int,
            le_bytes(h, 8) + Seq::new(16, |i: int| 0u8),
        ));
    }
    node.sets[n] = BsetRange { data_offset: at as u16, end_offset: end as u16, indexed: true };
    node.nsets = node.nsets + 1;
}

proof fn lemma_zero_bytes(n: nat)
    ensures
        le_bytes(0, n) == Seq::new(n, |i: int| 0u8),
    decreases n,
{
    if n > 0 {
        lemma_zero_bytes((n - 1) as nat);
    }
    assert(le_bytes(0, n) =~= Seq::new(n, |i: int| 0u8));
}

/// Opens a new set where one is wanted for keys to come.
pub fn bch2_btree_init_next(node: &mut NodeBuffer)
    requires
        old(node).laid(),
    ensures
        final(node).opened(*old(node)),
        final(node).laid(),
        final(node).data@.len() == old(node).data@.len(),
        final(node).set_cells(0) == old(node).set_cells(0),
{
    let ghost o = *node;
    match want_new_bset(node) {
        Some(at) => {
            bset_init_next(node, at);
            proof {
                if o.header_fits(at as int) {
                    lemma_opened_at(*node, o, at as int);
                }
            }
        },
        None => {},
    }
}

impl NodeBuffer {
    /// After a write the keys are merged, unless they are in one set with its index already.
    pub open spec fn wants_merge(self) -> bool {
        self.nsets > 1 || (self.packed_keys > 0 && !self.sets@[0].indexed)
    }

    /// The node with its marks of a finished write taken away.
    pub open spec fn settled_flags(self) -> NodeFlags {
        NodeFlags { just_written: false, need_rewrite: false, ..self.flags }
    }

    /// What a write leaves to do was done to the node `o`: if needed its sets were merged, and
    /// then a new set was opened if one is wanted.
    pub open spec fn cleaned_up(self, o: NodeBuffer) -> bool {
        let p = NodeBuffer { flags: o.settled_flags(), ..o };
        exists|m: NodeBuffer|
            {
                &&& #[trigger] self.opened(m)
                &&& if o.wants_merge() {
                    m.compacted(p) && m.same_head(p) && m.data@.len() == p.data@.len()
                } else {
                    m == p
                }
            }
    }
}

/// Does to a node what a finished write leaves to do: if it has several sets or one without index,
/// they are merged into one; and a new set is opened if one is wanted. Says whether keys were
/// moved. A node that was not just written is left alone.
pub fn bch2_btree_post_write_cleanup(node: &mut NodeBuffer) -> (r: bool)
    requires
        old(node).laid(),
        old(node).flags.just_written ==> old(node).whiteout_u64s == 0,
    ensures
        final(node).laid(),
        final(node).data@.len() == old(node).data@.len(),
        !final(node).flags.just_written,
        !old(node).flags.just_written ==> !r && *final(node) == *old(node),
        old(node).flags.just_written ==> r == old(node).wants_merge() && final(node).cleaned_up(
            *old(node),
        ),
{
    if !node.flags.just_written {
        return false;
    }
    let ghost o = *node;
    node.flags.just_written = false;
    node.flags.need_rewrite = false;
    let ghost p = *node;
    proof {
        assert(p.flags == o.settled_flags());
        assert forall|i: int| 0 <= i < p.nsets implies #[trigger] p.set_ok(i) by {
            assert(o.set_ok(i));
        }
        assert(p.laid());
        lemma_laid_whole(p);
    }
    let moved: bool = if node.nsets > 1 {
        node.compact();
        true
    } else if node.packed_keys > 0 && !node.sets[0].indexed {
        node.compact();
        true
    } else {
        false
    };
    let ghost m = *node;
    bch2_btree_init_next(node);
    assert(node.opened(m));
    moved
}

/// Makes a node ready for keys to come: does what a finished write left to do, and opens a new set
/// if one is wanted.
pub fn bch2_btree_node_prep_for_write(node: &mut NodeBuffer)
    requires
        old(node).laid(),
        old(node).flags.just_written ==> old(node).whiteout_u64s == 0,
    ensures
        final(node).laid(),
        final(node).data@.len() == old(node).data@.len(),
        !final(node).flags.just_written,
        !old(node).flags.just_written ==> final(node).opened(*old(node)),
        old(node).flags.just_written ==> exists|m: NodeBuffer| #[trigger]
            m.cleaned_up(*old(node)) && final(node).opened(m),
{
    let ghost o = *node;
    if node.flags.just_written {
        let _ = bch2_btree_post_write_cleanup(node);
    }
    let ghost m = *node;
    bch2_btree_init_next(node);
    proof {
        if o.flags.just_written {
            assert(m.cleaned_up(o));
        }
    }
}

/// All reads are done when they are asked for: there is nothing to flush.
pub fn bch2_btree_flush_all_reads() -> (r: bool)
    ensures
        r,
{
    true
}

/// All writes are done when they are asked for: there is nothing to flush.
pub fn bch2_btree_flush_all_writes() -> (r: bool)
    ensures
        r,
{
    true
}

impl NodeBuffer {
    /// The keys of all sets of `o` in order, deleted ones left out; of several at one position one
    /// stays.
    pub open spec fn sorted_from(self, o: NodeBuffer) -> bool {
        exists|l: Seq<int>, m: NodeBuffer|
            {
                &&& l.to_multiset() == pool(o.data@, o.runs(o.nsets as int))
                &&& not_descending(o.data@, l)
                &&& m.nsets == 1
                &&& m.places(0) is Some
                &&& m.set_cells(0) == #[trigger] cells(o.data@, live_keys(o.data@, l))
                &&& #[trigger] self.compacted(m)
                &&& ascending(o.data@, live_keys(o.data@, l)) ==> self.holds(
                    cells(o.data@, live_keys(o.data@, l)),
                )
            }
    }
}

/// The keys that are merged for a write are whole.
proof fn lemma_live_whole(o: NodeBuffer, l: Seq<int>)
    requires
        o.laid(),
        l.to_multiset() == pool(o.data@, o.runs(o.nsets as int)),
    ensures
        forall|i: int|
            0 <= i < live_keys(o.data@, l).len() ==> {
                let c = #[trigger] cells(o.data@, live_keys(o.data@, l))[i];
                cell_ok(c) && format_ok(c) && !cell_dead(c)
            },
{
    broadcast use vstd::seq_lib::group_to_multiset_ensures;

    let d = o.data@;
    let rs = o.runs(o.nsets as int);
    let live = live_keys(d, l);
    lemma_live_in(d, l);
    lemma_laid_runs(o);
    assert forall|i: int| 0 <= i < live.len() implies {
        let c = #[trigger] cells(d, live)[i];
        cell_ok(c) && format_ok(c) && !cell_dead(c)
    } by {
        let x = live[i];
        assert(l.contains(x));
        assert(l.to_multiset().count(x) > 0);
        lemma_pool_in_runs(d, rs, x);
        let k = choose|k: int|
            0 <= k < o.nsets && (#[trigger] o.places(k)) is Some && o.places(k)->0.contains(x);
        assert(o.set_ok(k));
        let p = o.places(k)->0;
        let j = choose|j: int| 0 <= j < p.len() && p[j] == x;
        assert(o.set_cells(k)[j] == cell_at(d, x));
    }
}

/// Live keys in strictly ascending order in one set are what a merge gives of them.
proof fn lemma_merged_alone(m: NodeBuffer, l: Seq<int>)
    requires
        m.nsets == 1,
        m.places(0) is Some,
        sound(m.set_cells(0)),
        forall|i: int| 0 <= i < m.set_cells(0).len() ==> !cell_dead(#[trigger] m.set_cells(0)[i]),
        merged(m.data@, m.key_places(), l),
    ensures
        l == m.places(0)->0,
{
    let d = m.data@;
    let p = m.places(0)->0;
    let f = m.key_places();
    lemma_sound_ascending(d, p);
    assert forall|o: int| f(o) <==> p.contains(o) by {
        assert(f(o) == m.has_key(o));
        if p.contains(o) {
            assert(m.places(0)->0.contains(o));
        }
    }
    assert forall|i: int| 0 <= i < p.len() implies newest(d, f, #[trigger] p[i]) && !cell_dead(
        cell_at(d, p[i]),
    ) by {
        assert(p.contains(p[i]));
        assert(m.set_cells(0)[i] == cell_at(d, p[i]));
        assert forall|x: int| #[trigger] f(x) && ord_at(d, x) == ord_at(d, p[i]) implies x
            <= p[i] by {
            let j = choose|j: int| 0 <= j < p.len() && p[j] == x;
            if j < i {
                assert(ord_at(d, p[j]) < ord_at(d, p[i]));
            } else if i < j {
                assert(ord_at(d, p[i]) < ord_at(d, p[j]));
            }
        }
    }
    assert(merged(d, f, p));
    law_merge_unique(d, f, l, p);
}

/// Merges the keys of all sets of a node for a write. A single set is left as it is, unless
/// whiteouts wait.
pub fn sort_node_for_write(node: &mut NodeBuffer) -> (r: Result<(), StorageError>)
    requires
        old(node).laid(),
    ensures
        r is Ok,
        final(node).laid(),
        final(node).same_head(*old(node)),
        final(node).data@.len() == old(node).data@.len(),
        old(node).nsets == 1 && old(node).whiteout_u64s == 0 ==> *final(node) == *old(node),
        old(node).nsets == 1 && old(node).whiteout_u64s > 0 ==> final(node).compacted(*old(node)),
        old(node).nsets > 1 && old(node).runs(old(node).nsets as int).len() == 0 ==> *final(node)
            == *old(node),
        old(node).nsets > 1 && old(node).runs(old(node).nsets as int).len() > 0
            ==> final(node).sorted_from(*old(node)),
{
    let ghost o = *node;
    let ghost d = node.data@;
    let ghost rs = node.runs(node.nsets as int);
    if node.nsets <= 1 {
        if node.whiteout_u64s > 0 {
            proof {
                lemma_laid_whole(o);
            }
            node.compact();
        }
        return Ok(());
    }
    proof {
        lemma_laid_runs(o);
    }
    let mut buf: Vec<u8> = vec![0u8; node.node_size as usize];
    let ghost buf0 = buf@;
    let mut iter = SortIter::init_from_node(node);
    iter.add_all_bsets(node);
    if iter.entries.len() == 0 {
        return Ok(());
    }
    let res = bch2_sort_keys(&mut buf, &mut iter);
    let ghost l = choose|l: Seq<int>|
        {
            let b = #[trigger] merge_bytes(d, live_keys(d, l));
            &&& l.to_multiset() == pool(d, rs)
            &&& not_descending(d, l)
            &&& b.len() <= bytes_left(rs)
            &&& res is Ok <==> b.len() <= buf0.len()
            &&& res is Ok ==> res->Ok_0 == b.len() / 8 && buf@ == crate::bytes::patched(
                buf0,
                0,
                b,
            )
        };
    let ghost cs = cells(d, live_keys(d, l));
    proof {
        lemma_live_whole(o, l);
        lemma_cat_len(cs);
        assert(merge_bytes(d, live_keys(d, l)) == cat(cs));
    }
    match res {
        Err(e) => Err(e),
        Ok(words) => {
            node.install(&buf, words * 8, 0);
            let ghost m = *node;
            proof {
                assert(buf@.subrange(0, cat(cs).len() as int) =~= cat(cs));
                lemma_installed(m, d, buf@, cs, o.room());
                assert(m.set_whole(0));
            }
            node.compact();
            proof {
                if ascending(d, live_keys(d, l)) {
                    assert(sound(cs)) by {
                        assert forall|i: int, j: int| 0 <= i < j < cs.len() implies cell_pos(
                            #[trigger] cs[i],
                        ).ord() < cell_pos(#[trigger] cs[j]).ord() by {
                            let live = live_keys(d, l);
                            assert(ord_at(d, live[i]) < ord_at(d, live[j]));
                        }
                    }
                    let l2 = choose|l2: Seq<int>| #[trigger]
                        merged(m.data@, m.key_places(), l2) && node.holds(cells(m.data@, l2));
                    lemma_merged_alone(m, l2);
                }
                assert(node.compacted(m));
            }
            Ok(())
        },
    }
}

/// The runs of sets in order: sound, sorted, and small enough for one set.
proof fn lemma_laid_runs(o: NodeBuffer)
    requires
        o.laid(),
    ensures
        forall|i: int| 0 <= i < o.nsets ==> #[trigger] o.range_ok(i),
        runs_ok(o.data@, o.runs(o.nsets as int)),
        runs_sorted(o.data@, o.runs(o.nsets as int)),
        bytes_left(o.runs(o.nsets as int)) + 24 <= o.room(),
        bytes_left(o.runs(o.nsets as int)) + 24 <= 8 * u16::MAX,
        forall|j: int|
            0 <= j < o.runs(o.nsets as int).len() ==> (#[trigger] o.runs(o.nsets as int)[j]).cur
                < o.runs(o.nsets as int)[j].end,
        forall|x: int|
            in_runs(o.data@, o.runs(o.nsets as int), x) <==> exists|i: int|
                0 <= i < o.nsets && (#[trigger] o.places(i)) is Some && o.places(i)->0.contains(x),
{
    let n = o.nsets as int;
    assert forall|i: int| 0 <= i < n implies #[trigger] o.range_ok(i) by {
        assert(o.set_ok(i));
    }
    assert forall|i: int| 0 <= i < n implies (#[trigger] o.places(i)) is Some && ascending(
        o.data@,
        o.places(i)->0,
    ) by {
        assert(o.set_ok(i));
        lemma_sound_ascending(o.data@, o.places(i)->0);
    }
    lemma_runs(o, n);
    lemma_runs_bytes(o, n);
    assert(o.set_ok(n - 1));
}

/// The text of a position.
pub open spec fn pos_text(p: Bpos) -> Seq<char> {
    decimal(p.inode as nat) + ":"@ + decimal(p.offset as nat) + ":"@ + decimal(p.snapshot as nat)
}

fn push_pos(text: &mut String, p: &Bpos)
    ensures
        final(text)@ == old(text)@ + pos_text(*p),
{
    let ghost was = text@;
    push_decimal(text, p.inode);
    text.append(":");
    push_decimal(text, p.offset);
    text.append(":");
    push_decimal(text, p.snapshot as u64);
    assert(text@ =~= was + pos_text(*p));
}

/// The text of a node's header.
pub open spec fn header_text(b: NodeBuffer) -> Seq<char> {
    "BtreeNode(level="@ + decimal(b.level as nat) + ", packed_keys="@ + decimal(
        b.packed_keys as nat,
    ) + ", unpacked_keys=0, whiteout="@ + decimal(b.whiteout_u64s as nat) + ", nsets="@ + decimal(
        b.nsets as nat,
    ) + ", min_key="@ + pos_text(b.min_key) + ", max_key="@ + pos_text(b.max_key)
        + ", journal_seq="@ + decimal(b.journal_seq as nat) + ", node_size="@ + decimal(
        b.node_size as nat,
    ) + ", data_len="@ + decimal(b.data@.len()) + ")"@
}

/// The fields of a node as text.
pub fn bch2_btree_node_header_to_text(node: &NodeBuffer) -> (r: String)
    ensures
        r@ == header_text(*node),
{
    let mut text: String = String::new();
    text.append("BtreeNode(level=");
    push_decimal(&mut text, node.level as u64);
    text.append(", packed_keys=");
    push_decimal(&mut text, node.packed_keys as u64);
    text.append(", unpacked_keys=0, whiteout=");
    push_decimal(&mut text, node.whiteout_u64s as u64);
    text.append(", nsets=");
    push_decimal(&mut text, node.nsets as u64);
    text.append(", min_key=");
    push_pos(&mut text, &node.min_key);
    text.append(", max_key=");
    push_pos(&mut text, &node.max_key);
    text.append(", journal_seq=");
    push_decimal(&mut text, node.journal_seq);
    text.append(", node_size=");
    push_decimal(&mut text, node.node_size as u64);
    text.append(", data_len=");
    push_decimal(&mut text, node.data.len() as u64);
    text.append(")");
    assert(text@ =~= header_text(*node));
    text
}

/// No write can be called back: there is none on its way.
pub fn bch2_btree_cancel_all_writes() {
}

/// Formats of keys are the same in all versions.
pub fn compat_bformat(
    _level: u8,
    _btree_id: u32,
    _version: u32,
    _big_endian: u32,
    _write: bool,
    format: &mut BkeyFormat,
)
    ensures
        *final(format) == *old(format),
{
}

/// Positions are the same in all versions.
pub fn compat_bpos(
    _level: u8,
    _btree_id: u32,
    _version: u32,
    _big_endian: u32,
    _write: bool,
    pos: &mut Bpos,
)
    ensures
        *final(pos) == *old(pos),
{
}

/// Where and when a node takes another set: behind the last one, and not in front of what is written
/// already, in sectors of 64 words. There are three at most. Where the last one is written, another is
/// opened as long as a block of eight sectors is left; else only where the last one has more than
/// 4096 bytes of keys and more than 512 words are left behind its header and the whiteouts.
pub proof fn law_when_a_set_opens(b: NodeBuffer)
    requires
        1 <= b.nsets <= b.sets@.len(),
    ensures
        ({
            let last = b.sets@[b.nsets - 1];
            let at = if 64 * b.written > last.end_offset {
                64 * b.written
            } else {
                last.end_offset as int
            };
            let written = 8 * last.data_offset < 512 * b.written;
            let opens = b.nsets < 3 && if written {
                512 * (b.written + 8) <= b.node_size
            } else {
                8 * (last.end_offset - (last.data_offset + 3)) > 4096 && 8 * (at + b.whiteout_u64s
                    + 517) <= b.node_size
            };
            &&& b.next_set() is Some <==> opens
            &&& opens ==> b.next_set()->0 == at
        }),
{
}

/// A set that is opened has a header of three words and no key, under the number of the first one;
/// what the other sets hold stays.
pub proof fn law_opened_set_is_empty(b: NodeBuffer, o: NodeBuffer, at: int, j: int)
    requires
        b.opened_at(o, at),
        0 <= 8 * at,
        8 * (at + 3) <= o.data@.len(),
        at + 3 <= u16::MAX,
        o.nsets < o.sets@.len(),
    ensures
        b.nsets == o.nsets + 1,
        b.sets@[o.nsets as int].data_offset == at,
        b.sets@[o.nsets as int].end_offset == at + 3,
        b.data@.len() == o.data@.len(),
        0 <= j < 8 * at || 8 * (at + 3) <= j < o.data@.len() ==> b.data@[j] == o.data@[j],
        8 * at + 8 <= j < 8 * (at + 3) ==> b.data@[j] == 0,
        b.packed_keys == o.packed_keys,
        b.written == o.written,
{
    let n = num_at(o.data@, 8 * o.sets@[0].data_offset, 8);
    lemma_le_bytes(n, 8);
}

/// The text names the fields of the node's head, each with its value.
pub proof fn law_header_text_has_all_fields(b: NodeBuffer)
    ensures
        has_part(header_text(b), "BtreeNode(level="@ + decimal(b.level as nat)),
        has_part(header_text(b), ", packed_keys="@ + decimal(b.packed_keys as nat)),
        has_part(header_text(b), ", unpacked_keys=0, whiteout="@ + decimal(b.whiteout_u64s as nat)),
        has_part(header_text(b), ", nsets="@ + decimal(b.nsets as nat)),
        has_part(header_text(b), ", min_key="@ + pos_text(b.min_key)),
        has_part(header_text(b), ", max_key="@ + pos_text(b.max_key)),
        has_part(header_text(b), ", journal_seq="@ + decimal(b.journal_seq as nat)),
        has_part(header_text(b), ", node_size="@ + decimal(b.node_size as nat)),
        has_part(header_text(b), ", data_len="@ + decimal(b.data@.len())),
{
    let p: Seq<Seq<char>> = Seq::empty();
    let t: Seq<char> = Seq::empty();
    assert(has_parts(t, p));
    let x0 = "BtreeNode(level="@ + decimal(b.level as nat);
    lemma_parts_grow(t, p, x0);
    let t0 = t + x0;
    let p0 = p.push(x0);
    let x1 = ", packed_keys="@ + decimal(b.packed_keys as nat);
    lemma_parts_grow(t0, p0, x1);
    let t1 = t0 + x1;
    let p1 = p0.push(x1);
    let x2 = ", unpacked_keys=0, whiteout="@ + decimal(b.whiteout_u64s as nat);
    lemma_parts_grow(t1, p1, x2);
    let t2 = t1 + x2;
    let p2 = p1.push(x2);
    let x3 = ", nsets="@ + decimal(b.nsets as nat);
    lemma_parts_grow(t2, p2, x3);
    let t3 = t2 + x3;
    let p3 = p2.push(x3);
    let x4 = ", min_key="@ + pos_text(b.min_key);
    lemma_parts_grow(t3, p3, x4);
    let t4 = t3 + x4;
    let p4 = p3.push(x4);
    let x5 = ", max_key="@ + pos_text(b.max_key);
    lemma_parts_grow(t4, p4, x5);
    let t5 = t4 + x5;
    let p5 = p4.push(x5);
    let x6 = ", journal_seq="@ + decimal(b.journal_seq as nat);
    lemma_parts_grow(t5, p5, x6);
    let t6 = t5 + x6;
    let p6 = p5.push(x6);
    let x7 = ", node_size="@ + decimal(b.node_size as nat);
    lemma_parts_grow(t6, p6, x7);
    let t7 = t6 + x7;
    let p7 = p6.push(x7);
    let x8 = ", data_len="@ + decimal(b.data@.len());
    lemma_parts_grow(t7, p7, x8);
    let t8 = t7 + x8;
    let p8 = p7.push(x8);
    lemma_parts_grow(t8, p8, ")"@);
    let all = p8.push(")"@);
    assert(header_text(b) =~= t8 + ")"@);
    assert(all[0] == x0);
    assert(all[1] == x1);
    assert(all[2] == x2);
    assert(all[3] == x3);
    assert(all[4] == x4);
    assert(all[5] == x5);
    assert(all[6] == x6);
    assert(all[7] == x7);
    assert(all[8] == x8);
}

/// A position is written as its inode, its offset and its snapshot.
pub proof fn law_position_text(p: Bpos)
    ensures
        pos_text(p) == decimal(p.inode as nat) + ":"@ + decimal(p.offset as nat) + ":"@ + decimal(
            p.snapshot as nat,
        ),
{
}

/// After a write the sets of a node are merged where there is more than one, or where the only one has
/// keys and no index; the node counts neither as just written nor as to be written again.
pub proof fn law_cleanup_after_write(b: NodeBuffer)
    ensures
        b.nsets > 1 ==> b.wants_merge(),
        b.nsets <= 1 ==> (b.wants_merge() <==> b.packed_keys > 0 && !b.sets@[0].indexed),
        !b.settled_flags().just_written,
        !b.settled_flags().need_rewrite,
        b.settled_flags().write_in_flight == b.flags.write_in_flight,
        b.settled_flags().read_in_flight == b.flags.read_in_flight,
        b.settled_flags().write_blocked == b.flags.write_blocked,
        b.settled_flags().will_make_reachable == b.flags.will_make_reachable,
{
}

} // verus!
