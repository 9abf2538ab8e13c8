//! What is done to the bytes of a node after it was read: it is checked, its sets are merged, and
//! keys outside its bounds go.

use crate::bset::MAX_BSETS;
use crate::key::{lemma_ord, Bpos, BKEY_U64S};
use crate::node::{sib_estimate, BSET_HEADER_U64S};
use crate::node_buffer::{
    format_ok, lemma_all_cells, lemma_cat_len, lemma_filter_keeps, lemma_filter_push,
    lemma_filter_sound,
    lemma_filter_whole, lemma_installed, lemma_laid_whole, lemma_next_place, lemma_runs_bytes,
    push_key, sound, BsetRange, NodeBuffer,
};
use crate::packed::{
    cat, cell_at, cell_dead, cell_ok, cell_pos, cells, key_fits, lemma_cat_push, offs, read_pos,
};
use crate::sort_iter::{merged, newest};
use crate::writer::StorageError;
use vstd::prelude::*;

verus! {

/// The places of the packed keys from `cur` on, up to `end` or to a key without length, unless one
/// of them is not whole.
pub open spec fn seen(d: Seq<u8>, cur: int, end: int) -> Option<Seq<int>>
    decreases end - cur,
{
    if cur >= end {
        Some(Seq::empty())
    } else if cur + 3 > d.len() {
        None
    } else if d[cur] == 0 {
        Some(Seq::empty())
    } else if !key_fits(d, cur, end) {
        None
    } else {
        match seen(d, cur + 8 * d[cur], end) {
            Some(r) => Some(seq![cur] + r),
            None => None,
        }
    }
}

/// Where whole packed keys fill a range, all of them are seen.
proof fn lemma_seen_whole(d: Seq<u8>, cur: int, end: int)
    requires
        offs(d, cur, end) is Some,
    ensures
        seen(d, cur, end) == offs(d, cur, end),
    decreases end - cur,
{
    if cur < end {
        lemma_seen_whole(d, cur + 8 * d[cur], end);
    }
}

/// What can be read off the head of a packed key.
#[derive(Debug, Clone, Copy, PartialEq, Eq, Structural)]
pub struct PackedKey {
    pub u64s: u8,
    pub format: u8,
    pub key_type: u8,
    pub pos: Bpos,
}

/// The head of a packed key.
pub open spec fn head_of(c: Seq<u8>) -> PackedKey {
    PackedKey { u64s: c[0], format: c[1], key_type: c[2], pos: cell_pos(c) }
}

/// Reads the heads of the packed keys from `start` on, up to `end` or to a key without length.
pub fn iter_bset_packed_keys(data: &Vec<u8>, start: u32, end: u32) -> (r: Result<
    Vec<PackedKey>,
    StorageError,
>)
    ensures
        match seen(data@, start as int, end as int) {
            Some(l) => r is Ok && r->Ok_0@ == Seq::new(
                l.len(),
                |i: int| head_of(cell_at(data@, l[i])),
            ),
            None => r == Err::<Vec<PackedKey>, StorageError>(StorageError::Corruption),
        },
{
    let ghost d = data@;
    let ghost all = seen(d, start as int, end as int);
    let mut out: Vec<PackedKey> = Vec::new();
    let mut o: usize = start as usize;
    let stop: usize = end as usize;
    let ghost mut done: Seq<int> = Seq::empty();
    let ghost mut left = all;
    proof {
        if all is Some {
            assert(done + all->0 =~= all->0);
        }
    }
    while o < stop
        invariant
            d == data@,
            stop == end,
            all == seen(d, start as int, end as int),
            left == seen(d, o as int, end as int),
            all == match left {
                Some(r) => Some(done + r),
                None => None::<Seq<int>>,
            },
            out@ == Seq::new(done.len(), |i: int| head_of(cell_at(d, done[i]))),
        ensures
            all == Some(done),
        decreases stop - o,
    {
        if data.len() < 3 || o > data.len() - 3 {
            return Err(StorageError::Corruption);
        }
        let w: usize = data[o] as usize;
        if w == 0 {
            proof {
                assert(done + left->0 =~= done);
            }
            break;
        }
        if w < BKEY_U64S as usize || 8 * w > data.len() - o || 8 * w > stop - o {
            return Err(StorageError::Corruption);
        }
        let pos: Bpos = read_pos(data, o);
        let h = PackedKey { u64s: data[o], format: data[o + 1], key_type: data[o + 2], pos };
        out.push(h);
        proof {
            let c = cell_at(d, o as int);
            assert(h == head_of(c));
            let next = seen(d, o + 8 * w, end as int);
            if next is Some {
                assert(done + (seq![o as int] + next->0) =~= done.push(o as int) + next->0);
            }
            left = next;
            done = done.push(o as int);
            assert(out@ =~= Seq::new(done.len(), |i: int| head_of(cell_at(d, done[i]))));
        }
        o = o + 8 * w;
        assert(o >= stop ==> done + Seq::<int>::empty() =~= done);
    }
    Ok(out)
}

/// Whether the range of a set is in the node.
pub fn bch2_validate_bset(node: &NodeBuffer, set_idx: usize) -> (r: Result<(), StorageError>)
    ensures
        r is Ok <==> set_idx < MAX_BSETS && node.range_ok(set_idx as int),
        r is Err ==> r->Err_0 == StorageError::Corruption,
{
    if set_idx >= MAX_BSETS {
        return Err(StorageError::Corruption);
    }
    let set: BsetRange = node.sets[set_idx];
    if set.data_offset as u32 * 8 > node.node_size {
        return Err(StorageError::Corruption);
    }
    if set.end_offset as u32 * 8 > node.node_size {
        return Err(StorageError::Corruption);
    }
    if set.first_key_offset() > set.end_offset as u32 {
        return Err(StorageError::Corruption);
    }
    Ok(())
}

impl NodeBuffer {
    /// The keys of set `i` that are seen are sound.
    pub open spec fn keys_valid(self, i: int) -> bool {
        match seen(self.data@, 8 * self.sets@[i].first(), 8 * self.sets@[i].end_offset) {
            Some(l) => sound(cells(self.data@, l)),
            None => false,
        }
    }
}

proof fn lemma_heads(d: Seq<u8>, cur: int, end: int)
    requires
        cur >= 0,
        seen(d, cur, end) is Some,
    ensures
        forall|i: int|
            0 <= i < seen(d, cur, end)->0.len() ==> cell_ok(
                #[trigger] cell_at(d, seen(d, cur, end)->0[i]),
            ),
    decreases end - cur,
{
    if cur < end && d[cur] != 0 {
        let l = seen(d, cur, end)->0;
        let r = seen(d, cur + 8 * d[cur], end)->0;
        lemma_heads(d, cur + 8 * d[cur], end);
        assert(l == seq![cur] + r);
        assert forall|i: int| 0 <= i < l.len() implies cell_ok(#[trigger] cell_at(d, l[i])) by {
            if i > 0 {
                assert(l[i] == r[i - 1]);
            }
        }
    }
}

/// Whether the keys of a set are whole, of a known format and in strictly ascending order.
pub fn bch2_validate_bset_keys(node: &NodeBuffer, set_idx: usize) -> (r: Result<(), StorageError>)
    ensures
        r is Ok <==> set_idx < MAX_BSETS && node.keys_valid(set_idx as int),
        r is Err ==> r->Err_0 == StorageError::Corruption,
{
    if set_idx >= MAX_BSETS {
        return Err(StorageError::Corruption);
    }
    let set: BsetRange = node.sets[set_idx];
    let start: u32 = set.first_key_offset() * 8;
    let end: u32 = set.end_offset as u32 * 8;
    let ghost d = node.data@;
    let ghost all = seen(d, start as int, end as int);
    match iter_bset_packed_keys(&node.data, start, end) {
        Err(e) => Err(e),
        Ok(heads) => {
            let ghost l = all->0;
            let ghost cs = cells(d, l);
            proof {
                lemma_heads(d, start as int, end as int);
                assert(cs.len() == heads@.len());
                assert forall|i: int| 0 <= i < cs.len() implies heads@[i] == head_of(
                    #[trigger] cs[i],
                ) && cell_ok(cs[i]) by {
                    assert(cell_ok(cell_at(d, l[i])));
                }
            }
            let mut i: usize = 0;
            while i < heads.len()
                invariant
                    i <= heads.len(),
                    cs.len() == heads.len(),
                    set_idx < MAX_BSETS,
                    node.keys_valid(set_idx as int) == sound(cs),
                    forall|j: int|
                        0 <= j < cs.len() ==> heads@[j] == head_of(#[trigger] cs[j]) && cell_ok(
                            cs[j],
                        ),
                    forall|j: int| 0 <= j < i ==> format_ok(#[trigger] cs[j]),
                    forall|j: int, k: int|
                        0 <= j < k < i ==> cell_pos(#[trigger] cs[j]).ord() < cell_pos(
                            #[trigger] cs[k],
                        ).ord(),
                decreases heads.len() - i,
            {
                assert(heads@[i as int] == head_of(cs[i as int]));
                if heads[i].format % 128 > 1 {
                    assert(!format_ok(cs[i as int]));
                    return Err(StorageError::Corruption);
                }
                if i > 0 {
                    assert(heads@[i - 1] == head_of(cs[i - 1]));
                    if !heads[i - 1].pos.precedes(&heads[i].pos) {
                        proof {
                            lemma_ord(cell_pos(cs[i - 1]), cell_pos(cs[i as int]));
                        }
                        return Err(StorageError::Corruption);
                    }
                }
                i += 1;
            }
            Ok(())
        },
    }
}

/// The keys between two positions, both included.
pub open spec fn within_bounds(cs: Seq<Seq<u8>>, lo: Bpos, hi: Bpos) -> Seq<Seq<u8>> {
    cs.filter(|c: Seq<u8>| lo.ord() <= cell_pos(c).ord() <= hi.ord())
}

impl NodeBuffer {
    /// The node has keys, and bounds that may leave some of them out.
    pub open spec fn has_bounds(self) -> bool {
        self.packed_keys > 0 && self.min_key.ord() < self.max_key.ord()
    }
}

/// Drops the keys outside the node's bounds and leaves the others, set behind set, in one set.
pub fn bch2_btree_node_drop_keys_outside_node(
    node: &mut NodeBuffer,
) -> (r: Result<(), StorageError>)
    requires
        old(node).laid(),
    ensures
        r is Ok,
        final(node).same_head(*old(node)),
        final(node).data@.len() == old(node).data@.len(),
        !old(node).has_bounds() ==> *final(node) == *old(node),
        old(node).has_bounds() ==> final(node).holds(
            within_bounds(
                old(node).all_cells(old(node).nsets as int),
                old(node).min_key,
                old(node).max_key,
            ),
        ),
        old(node).nsets == 1 ==> final(node).laid(),
{
    let lo: Bpos = node.min_key;
    let hi: Bpos = node.max_key;
    if node.packed_keys == 0 {
        return Ok(());
    }
    if !lo.precedes(&hi) {
        return Ok(());
    }
    let ghost b = *node;
    let ghost d = node.data@;
    let ghost f = |c: Seq<u8>| lo.ord() <= cell_pos(c).ord() <= hi.ord();
    let mut out: Vec<u8> = Vec::new();
    let mut n: usize = 0;
    let mut si: u8 = 0;
    let ghost mut acc: Seq<Seq<u8>> = Seq::empty();
    proof {
        reveal(Seq::filter);
        assert(cat(acc.filter(f)) =~= out@);
    }
    while si < node.nsets
        invariant
            si <= node.nsets,
            b == *node,
            d == node.data@,
            b.laid(),
            f == |c: Seq<u8>| lo.ord() <= cell_pos(c).ord() <= hi.ord(),
            acc == b.all_cells(si as int),
            out@ == cat(acc.filter(f)),
            n == acc.filter(f).len(),
            n <= out.len(),
        decreases node.nsets - si,
    {
        let s: BsetRange = node.sets[si as usize];
        let from: usize = s.first_key_offset() as usize * 8;
        let end: usize = s.end_offset as usize * 8;
        let ghost whole = b.places(si as int)->0;
        let ghost base = acc;
        let ghost mut done: Seq<int> = Seq::empty();
        proof {
            assert(b.set_ok(si as int));
            assert(done + whole =~= whole);
            assert(cells(d, done) =~= Seq::<Seq<u8>>::empty());
            assert(base + cells(d, done) =~= base);
        }
        let mut o: usize = from;
        while o < end
            invariant
                b == *node,
                d == node.data@,
                from <= o <= end <= d.len(),
                offs(d, from as int, end as int) is Some,
                whole == offs(d, from as int, end as int)->0,
                offs(d, o as int, end as int) is Some,
                whole == done + offs(d, o as int, end as int)->0,
                f == |c: Seq<u8>| lo.ord() <= cell_pos(c).ord() <= hi.ord(),
                acc == base + cells(d, done),
                out@ == cat(acc.filter(f)),
                n == acc.filter(f).len(),
                n <= out.len(),
            decreases end - o,
        {
            let ghost c = cell_at(d, o as int);
            proof {
                lemma_next_place(d, done, o as int, from as int, end as int);
                lemma_filter_push(acc, c, f);
                lemma_cat_push(acc.filter(f), c);
                assert(base + cells(d, done).push(c) =~= acc.push(c));
            }
            let p: Bpos = read_pos(&node.data, o);
            proof {
                lemma_ord(p, lo);
                lemma_ord(p, hi);
            }
            if !p.precedes(&lo) && !hi.precedes(&p) {
                push_key(&mut out, &node.data, o);
                assert(n < out.len());
                n += 1;
            }
            proof {
                acc = acc.push(c);
                done = done.push(o as int);
            }
            o = o + 8 * node.data[o] as usize;
        }
        proof {
            assert(done =~= whole);
        }
        si += 1;
    }
    proof {
        lemma_laid_whole(b);
        lemma_all_cells(b, b.nsets as int);
        lemma_filter_whole(acc, f);
        lemma_cat_len(acc.filter(f));
        assert(b.set_ok(b.nsets - 1));
    }
    node.install(&out, out.len(), n);
    proof {
        let cs = acc.filter(f);
        assert(out@.subrange(0, out@.len() as int) =~= out@);
        lemma_installed(*node, d, out@, cs, b.room());
        if b.nsets == 1 {
            assert(b.all_cells(0) =~= Seq::<Seq<u8>>::empty());
            assert(acc =~= b.set_cells(0));
            lemma_filter_sound(acc, f);
        }
    }
    Ok(())
}

/// The words of the keys of a node in one set.
pub open spec fn key_words(b: NodeBuffer) -> int {
    b.sets@[0].end_offset - b.sets@[0].first()
}

impl NodeBuffer {
    /// The sets of a node are in order, as far as each can be seen for itself.
    pub open spec fn valid(self) -> bool {
        &&& self.data@.len() > 0
        &&& self.node_size > 0
        &&& self.sets_valid()
        &&& forall|i: int| 0 <= i < self.nsets ==> (#[trigger] self.places(i)) is Some
    }

    /// The sets are in the node, and the keys of each that are seen are sound.
    pub open spec fn sets_valid(self) -> bool {
        &&& 1 <= self.nsets <= MAX_BSETS
        &&& forall|i: int|
            0 <= i < self.nsets ==> #[trigger] self.range_ok(i) && self.keys_valid(i)
    }

    /// What has become of the node `o` by a read: its keys, those of its sets merged and within
    /// its bounds, are in one set, and the sibling estimates go by the merged keys.
    pub open spec fn read_from(self, o: NodeBuffer, cs: Seq<Seq<u8>>) -> bool {
        let words = cat(cs).len() / 8;
        let kept = if cs.len() > 0 && o.min_key.ord() < o.max_key.ord() {
            within_bounds(cs, o.min_key, o.max_key)
        } else {
            cs
        };
        &&& self.holds(kept)
        &&& self.laid()
        &&& self.data@.len() == o.data@.len()
        &&& self.level == o.level
        &&& self.node_size == o.node_size
        &&& self.min_key == o.min_key
        &&& self.max_key == o.max_key
        &&& self.journal_seq == o.journal_seq
        &&& self.written == o.written
        &&& self.needs_whiteout
        &&& self.sib_u64s@ == seq![
            sib_estimate(words as u32, o.min_key == Bpos::lowest()),
            sib_estimate(words as u32, o.max_key == Bpos::highest()),
        ]
    }
}

/// Estimates anew what the node takes with a sibling.
fn reset_sib_u64s(node: &mut NodeBuffer)
    requires
        old(node).range_ok(0),
    ensures
        final(node).sib_u64s@ == seq![
            sib_estimate(key_words(*old(node)) as u32, old(node).min_key == Bpos::lowest()),
            sib_estimate(key_words(*old(node)) as u32, old(node).max_key == Bpos::highest()),
        ],
        *final(node) == (NodeBuffer { sib_u64s: final(node).sib_u64s, ..*old(node) }),
{
    let words: u16 = (node.sets[0].end_offset as u32 - node.sets[0].first_key_offset()) as u16;
    let left: u16 = if node.min_key == Bpos::lowest() {
        u16::MAX
    } else {
        words
    };
    let right: u16 = if node.max_key == Bpos::highest() {
        u16::MAX
    } else {
        words
    };
    node.sib_u64s = [left, right];
}

/// Sets that stand in order pass all checks.
proof fn lemma_laid_valid(o: NodeBuffer)
    requires
        o.laid(),
        o.data@.len() > 0,
        o.node_size > 0,
    ensures
        o.valid(),
{
    assert forall|i: int| 0 <= i < o.nsets implies #[trigger] o.range_ok(i) && o.keys_valid(i) by {
        assert(o.set_ok(i));
        lemma_seen_whole(o.data@, 8 * o.sets@[i].first(), 8 * o.sets@[i].end_offset as int);
    }
    assert forall|i: int| 0 <= i < o.nsets implies (#[trigger] o.places(i)) is Some by {
        assert(o.set_ok(i));
    }
}

/// Checks the ranges and the keys of all sets.
fn check_sets(node: &NodeBuffer) -> (r: Result<(), StorageError>)
    ensures
        r is Ok <==> node.sets_valid(),
        r is Err ==> r->Err_0 == StorageError::Corruption,
{
    if node.nsets == 0 || node.nsets as usize > MAX_BSETS {
        return Err(StorageError::Corruption);
    }
    let mut i: u8 = 0;
    while i < node.nsets
        invariant
            i <= node.nsets <= MAX_BSETS,
            forall|j: int| 0 <= j < i ==> #[trigger] node.range_ok(j) && node.keys_valid(j),
        decreases node.nsets - i,
    {
        match bch2_validate_bset(node, i as usize) {
            Err(e) => {
                assert(!node.range_ok(i as int));
                return Err(e);
            },
            Ok(_) => {},
        }
        match bch2_validate_bset_keys(node, i as usize) {
            Err(e) => {
                assert(node.range_ok(i as int) ==> !node.keys_valid(i as int));
                return Err(e);
            },
            Ok(_) => {},
        }
        i += 1;
    }
    Ok(())
}

#[verifier::rlimit(30)]
fn read_done_inner(node: &mut NodeBuffer) -> (r: Result<(), StorageError>)
    requires
        old(node).data@.len() > 0,
        old(node).node_size > 0,
    ensures
        final(node).flags == old(node).flags,
        r is Err ==> r->Err_0 == StorageError::Corruption && *final(node) == *old(node),
        !old(node).valid() ==> r is Err,
        old(node).laid() && old(node).data@.len() > 0 && old(node).node_size > 0 ==> r is Ok,
        old(node).valid() ==> exists|l: Seq<int>| #[trigger]
            merged(old(node).data@, old(node).key_places(), l) && {
                let cs = cells(old(node).data@, l);
                &&& r is Ok <==> 24 + cat(cs).len() <= old(node).room() && cat(cs).len() <= 8 * (
                u16::MAX - BSET_HEADER_U64S)
                &&& r is Ok ==> final(node).read_from(*old(node), cs)
            },
{
    let ghost o = *node;
    proof {
        if o.laid() {
            lemma_laid_valid(o);
        }
    }
    match check_sets(node) {
        Err(e) => {
            return Err(e);
        },
        Ok(_) => {},
    }
    proof {
        assert forall|i: int| 0 <= i < o.nsets && (#[trigger] o.places(i)) is Some implies sound(
            o.set_cells(i),
        ) by {
            assert(o.range_ok(i) && o.keys_valid(i));
            lemma_seen_whole(o.data@, 8 * o.sets@[i].first(), 8 * o.sets@[i].end_offset as int);
        }
        if o.laid() {
            lemma_runs_bytes(o, o.nsets as int);
            assert(o.set_ok(o.nsets - 1));
        }
    }
    match node.merge_sets() {
        Err(e) => Err(e),
        Ok(_) => {
            let ghost l = choose|l: Seq<int>| #[trigger]
                merged(o.data@, o.key_places(), l) && {
                    let cs = cells(o.data@, l);
                    &&& 24 + cat(cs).len() <= o.room()
                    &&& cat(cs).len() <= 8 * (u16::MAX - BSET_HEADER_U64S)
                    &&& node.holds(cs) && sound(cs)
                };
            let ghost cs = cells(o.data@, l);
            proof {
                assert(o.valid());
                lemma_cat_len(cs);
                assert(node.set_ok(0));
            }
            node.needs_whiteout = true;
            reset_sib_u64s(node);
            let ghost m = *node;
            proof {
                assert(m.set_ok(0));
                assert(m.laid());
                assert(m.all_cells(0) =~= Seq::<Seq<u8>>::empty());
                assert(m.all_cells(1) =~= m.set_cells(0));
            }
            bch2_btree_node_drop_keys_outside_node(node)
        },
    }
}

/// Takes a node that was read into use: checks its sets, merges them into one and drops keys
/// outside its bounds. Whatever comes of it, the read is over.
pub fn bch2_btree_node_read_done(node: &mut NodeBuffer) -> (r: Result<(), StorageError>)
    ensures
        final(node).flags == (crate::node::NodeFlags {
            read_in_flight: false,
            ..old(node).flags
        }),
        r is Err ==> r->Err_0 == StorageError::Corruption && *final(node) == (NodeBuffer {
            flags: final(node).flags,
            ..*old(node)
        }),
        !old(node).valid() ==> r is Err,
        old(node).laid() && old(node).data@.len() > 0 && old(node).node_size > 0 ==> r is Ok,
        old(node).valid() ==> exists|l: Seq<int>| #[trigger]
            merged(old(node).data@, old(node).key_places(), l) && {
                let cs = cells(old(node).data@, l);
                &&& r is Ok <==> 24 + cat(cs).len() <= old(node).room() && cat(cs).len() <= 8 * (
                u16::MAX - BSET_HEADER_U64S)
                &&& r is Ok ==> final(node).read_from(*old(node), cs)
            },
{
    if node.data.len() == 0 || node.node_size == 0 {
        node.flags.read_in_flight = false;
        return Err(StorageError::Corruption);
    }
    let r = read_done_inner(node);
    let ghost m = *node;
    node.flags.read_in_flight = false;
    proof {
        if r is Ok {
            assert forall|cs: Seq<Seq<u8>>| m.read_from(*old(node), cs) implies #[trigger]
                node.read_from(*old(node), cs) by {
                assert(m.set_ok(0));
                assert(node.set_ok(0));
            }
        }
    }
    r
}

impl NodeBuffer {
    /// Where the key number `nr` of the node stands, and its length, counted from one over all
    /// sets; zeros where there are fewer keys.
    pub fn find_entry_offset(&self, nr: u16) -> (r: (u32, u32))
        requires
            self.whole(),
            nr >= 1,
        ensures
            ({
                let k = self.all_places(self.nsets as int);
                if nr <= k.len() {
                    r.0 == k[nr - 1] && r.1 == cell_at(self.data@, k[nr - 1]).len()
                } else {
                    r == (0u32, 0u32)
                }
            }),
    {
        let ghost d = self.data@;
        let ghost all = self.all_places(self.nsets as int);
        let mut left: u16 = nr;
        let mut si: u8 = 0;
        let ghost mut k: Seq<int> = Seq::empty();
        while si < self.nsets
            invariant
                si <= self.nsets,
                self.whole(),
                d == self.data@,
                all == self.all_places(self.nsets as int),
                k == self.all_places(si as int),
                left >= 1,
                left + k.len() == nr,
            decreases self.nsets - si,
        {
            let s: BsetRange = self.sets[si as usize];
            let from: u32 = s.first_key_offset() * 8;
            let end: u32 = s.end_offset as u32 * 8;
            let ghost here = self.places(si as int)->0;
            let ghost base = k;
            let ghost mut done: Seq<int> = Seq::empty();
            proof {
                assert(self.set_whole(si as int));
                assert(done + here =~= here);
                assert(base + done =~= base);
                lemma_places_prefix(*self, si + 1);
            }
            let mut o: u32 = from;
            while o < end
                invariant
                    d == self.data@,
                    from <= o <= end <= d.len(),
                    offs(d, from as int, end as int) is Some,
                    here == offs(d, from as int, end as int)->0,
                    offs(d, o as int, end as int) is Some,
                    here == done + offs(d, o as int, end as int)->0,
                    k == base + done,
                    base + here == self.all_places(si + 1),
                    all == self.all_places(self.nsets as int),
                    self.all_places(si + 1).len() <= all.len(),
                    forall|i: int|
                        0 <= i < self.all_places(si + 1).len() ==> all[i] == self.all_places(
                            si + 1,
                        )[i],
                    left >= 1,
                    left + k.len() == nr,
                decreases end - o,
            {
                proof {
                    lemma_next_place(d, done, o as int, from as int, end as int);
                    assert((base + here)[k.len() as int] == here[done.len() as int]);
                    assert(here[done.len() as int] == o);
                }
                let w: u32 = self.data[o as usize] as u32;
                if left == 1 {
                    return (o, w * 8);
                }
                left -= 1;
                proof {
                    k = k.push(o as int);
                    done = done.push(o as int);
                    assert(base + done =~= k);
                }
                o = o + 8 * w;
            }
            proof {
                assert(done =~= here);
            }
            si += 1;
        }
        (0, 0)
    }
}

/// The places of the first sets come first.
proof fn lemma_places_prefix(b: NodeBuffer, n: int)
    requires
        0 <= n <= b.nsets,
    ensures
        b.all_places(n).len() <= b.all_places(b.nsets as int).len(),
        forall|i: int|
            0 <= i < b.all_places(n).len() ==> b.all_places(b.nsets as int)[i] == b.all_places(
                n,
            )[i],
    decreases b.nsets - n,
{
    if n < b.nsets {
        lemma_places_prefix(b, n + 1);
        assert forall|i: int| 0 <= i < b.all_places(n).len() implies b.all_places(
            b.nsets as int,
        )[i] == b.all_places(n)[i] by {
            assert(b.all_places(n + 1)[i] == b.all_places(n)[i]);
        }
    }
}

/// What a read leaves of a key: a node that was read has, in ascending order, a key at a position
/// if and only if the newest key of its sets there is live and within its bounds.
pub proof fn law_read_keeps_newest(b: NodeBuffer, o: NodeBuffer, l: Seq<int>, p: Bpos)
    requires
        o.valid(),
        merged(o.data@, o.key_places(), l),
        b.read_from(o, cells(o.data@, l)),
    ensures
        (exists|i: int| 0 <= i < b.set_cells(0).len() && cell_pos(#[trigger] b.set_cells(0)[i])
            == p) <==> (exists|x: int|
            #![trigger newest(o.data@, o.key_places(), x)]
            newest(o.data@, o.key_places(), x) && cell_pos(cell_at(o.data@, x)) == p
                && !cell_dead(cell_at(o.data@, x)) && (o.min_key.ord() < o.max_key.ord()
                ==> o.min_key.ord() <= p.ord() <= o.max_key.ord())),
        sound(b.set_cells(0)),
{
    let d = o.data@;
    let cs = cells(d, l);
    let f = |c: Seq<u8>| o.min_key.ord() <= cell_pos(c).ord() <= o.max_key.ord();
    let bounded = cs.len() > 0 && o.min_key.ord() < o.max_key.ord();
    let kept = if bounded {
        within_bounds(cs, o.min_key, o.max_key)
    } else {
        cs
    };
    assert(b.set_cells(0) == kept);
    assert(b.set_ok(0));
    if exists|i: int| 0 <= i < kept.len() && cell_pos(#[trigger] kept[i]) == p {
        let i = choose|i: int| 0 <= i < kept.len() && cell_pos(#[trigger] kept[i]) == p;
        let c = kept[i];
        if bounded {
            lemma_filter_members(cs, f);
        }
        assert(cs.contains(c));
        let j = choose|j: int| 0 <= j < cs.len() && cs[j] == c;
        assert(newest(d, o.key_places(), l[j]));
    }
    if exists|x: int|
        #![trigger newest(d, o.key_places(), x)]
        newest(d, o.key_places(), x) && cell_pos(cell_at(d, x)) == p && !cell_dead(cell_at(d, x))
            && (o.min_key.ord() < o.max_key.ord() ==> o.min_key.ord() <= p.ord()
            <= o.max_key.ord()) {
        let x = choose|x: int|
            #![trigger newest(d, o.key_places(), x)]
            newest(d, o.key_places(), x) && cell_pos(cell_at(d, x)) == p && !cell_dead(
                cell_at(d, x),
            ) && (o.min_key.ord() < o.max_key.ord() ==> o.min_key.ord() <= p.ord()
                <= o.max_key.ord());
        assert(l.contains(x));
        let j = choose|j: int| 0 <= j < l.len() && l[j] == x;
        assert(cs[j] == cell_at(d, x));
        assert(cs.contains(cs[j]));
        if bounded {
            lemma_filter_members(cs, f);
            assert(f(cs[j]));
            assert(kept.contains(cs[j]));
        }
        let i = choose|i: int| 0 <= i < kept.len() && kept[i] == cs[j];
        assert(cell_pos(kept[i]) == p);
    }
}

/// A filter leaves just those that pass it.
proof fn lemma_filter_members(cs: Seq<Seq<u8>>, f: spec_fn(Seq<u8>) -> bool)
    ensures
        forall|c: Seq<u8>| #[trigger] cs.filter(f).contains(c) <==> cs.contains(c) && f(c),
        forall|i: int|
            0 <= i < cs.filter(f).len() ==> cs.contains(#[trigger] cs.filter(f)[i]) && f(
                cs.filter(f)[i],
            ),
    decreases cs.len(),
{
    reveal(Seq::filter);
    let r = cs.filter(f);
    if cs.len() > 0 {
        let p = cs.drop_last();
        let z = cs.last();
        lemma_filter_members(p, f);
        lemma_filter_push(p, z, f);
        assert(p.push(z) =~= cs);
        assert forall|c: Seq<u8>| cs.contains(c) <==> p.contains(c) || c == z by {
            if p.contains(c) {
                let i = choose|i: int| 0 <= i < p.len() && p[i] == c;
                assert(cs[i] == c);
            }
            if c == z {
                assert(cs[cs.len() - 1] == z);
            }
            if cs.contains(c) {
                let i = choose|i: int| 0 <= i < cs.len() && cs[i] == c;
                if i < p.len() {
                    assert(p[i] == c);
                }
            }
        }
        let q = p.filter(f);
        assert forall|c: Seq<u8>| #[trigger] r.contains(c) <==> cs.contains(c) && f(c) by {
            if f(z) {
                assert(r == q.push(z));
                if r.contains(c) {
                    let i = choose|i: int| 0 <= i < r.len() && r[i] == c;
                    if i < q.len() {
                        assert(q[i] == c);
                        assert(q.contains(c));
                    }
                }
                if q.contains(c) {
                    let i = choose|i: int| 0 <= i < q.len() && q[i] == c;
                    assert(r[i] == c);
                }
                assert(r[q.len() as int] == z);
            } else {
                assert(r == q);
            }
            assert(q.contains(c) <==> p.contains(c) && f(c));
        }
    }
    assert forall|i: int| 0 <= i < r.len() implies cs.contains(#[trigger] r[i]) && f(r[i]) by {
        assert(r.contains(r[i]));
    }
}

/// A read keeps the keys between the bounds of the node, both of these included, and drops those
/// outside.
pub proof fn law_read_within_bounds(cs: Seq<Seq<u8>>, lo: Bpos, hi: Bpos, c: Seq<u8>)
    ensures
        within_bounds(cs, lo, hi).contains(c) <==> cs.contains(c) && lo.ord() <= cell_pos(c).ord()
            && cell_pos(c).ord() <= hi.ord(),
        within_bounds(cs, lo, hi).len() <= cs.len(),
{
    let f = |c: Seq<u8>| lo.ord() <= cell_pos(c).ord() <= hi.ord();
    lemma_filter_keeps(cs, f, c);
    cs.lemma_filter_len(f);
}

/// What a key says of itself stands in its first bytes: its words, its format and its type.
pub proof fn law_head_of_key(c: Seq<u8>)
    ensures
        head_of(c).u64s == c[0],
        head_of(c).format == c[1],
        head_of(c).key_type == c[2],
        head_of(c).pos == cell_pos(c),
{
}

/// Only a node with keys and with a lower bound below its upper one has bounds to go by.
pub proof fn law_bounds_of_node(b: NodeBuffer)
    ensures
        b.has_bounds() <==> b.packed_keys > 0 && b.min_key.ord() < b.max_key.ord(),
{
}

/// A set whose keys lie end to end is read whole; a key of no words ends it early, and one that does
/// not fit makes it corrupt.
pub proof fn law_keys_of_set_are_read(d: Seq<u8>, cur: int, end: int)
    requires
        0 <= cur,
    ensures
        offs(d, cur, end) is Some ==> seen(d, cur, end) == offs(d, cur, end),
        cur < end && cur + 3 <= d.len() && d[cur] == 0 ==> seen(d, cur, end) == Some(
            Seq::<int>::empty(),
        ),
        cur < end && cur + 3 > d.len() ==> seen(d, cur, end) is None,
        cur < end && cur + 3 <= d.len() && d[cur] != 0 && !key_fits(d, cur, end) ==> seen(
            d,
            cur,
            end,
        ) is None,
    decreases end - cur,
{
    if cur < end && offs(d, cur, end) is Some {
        assert(key_fits(d, cur, end));
        law_keys_of_set_are_read(d, cur + 8 * d[cur], end);
    }
}

} // verus!
