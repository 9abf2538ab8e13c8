//! Packed keys: how keys stand in the bytes of a node.
//!
//! A packed key begins with its length in words, its format and its type; snapshot, offset and
//! inode of its position follow after one byte of padding, and then the value.

use crate::bytes::{
    le_bytes, lemma_le_bound, lemma_le_bytes, lemma_limits, num_at, patched, push_le, read_le,
};
use crate::key::{Bpos, KeyType, BKEY_U64S};
use vstd::prelude::*;

verus! {

/// Bytes of a packed key ahead of its value.
pub const KEY_BYTES: usize = 24;

/// The format of keys with their own fields.
pub const KEY_FORMAT_CURRENT: u8 = 1;

/// How the fields of packed keys are laid out.
#[derive(Debug, Clone, Copy)]
pub struct BkeyFormat {
    pub key_u64s: u8,
    pub nr_fields: u8,
    pub bits_per_field: [u8; 6],
    pub field_offset: [u64; 6],
}

/// The bytes of a whole packed key.
pub open spec fn cell_ok(c: Seq<u8>) -> bool {
    c.len() >= KEY_BYTES && c.len() == 8 * c[0]
}

/// The position of a packed key.
pub open spec fn cell_pos(c: Seq<u8>) -> Bpos {
    Bpos {
        inode: num_at(c, 16, 8) as u64,
        offset: num_at(c, 8, 8) as u64,
        snapshot: num_at(c, 4, 4) as u32,
    }
}

/// The number of a type.
pub open spec fn type_num(t: KeyType) -> u8 {
    match t {
        KeyType::Deleted => 0,
        KeyType::Whiteout => 1,
        KeyType::Normal => 2,
        KeyType::Present => 3,
    }
}

pub fn key_type_num(t: KeyType) -> (r: u8)
    ensures
        r == type_num(t),
{
    match t {
        KeyType::Deleted => 0,
        KeyType::Whiteout => 1,
        KeyType::Normal => 2,
        KeyType::Present => 3,
    }
}

/// A packed key that is deleted.
pub open spec fn cell_dead(c: Seq<u8>) -> bool {
    c[2] == 0
}

/// The packed key at place `o`.
pub open spec fn cell_at(d: Seq<u8>, o: int) -> Seq<u8> {
    d.subrange(o, o + 8 * d[o])
}

/// The rank of the packed key at place `o`.
pub open spec fn ord_at(d: Seq<u8>, o: int) -> int {
    cell_pos(cell_at(d, o)).ord()
}

/// There is a whole packed key at place `o`, and it ends by `end`.
pub open spec fn key_fits(d: Seq<u8>, o: int, end: int) -> bool {
    &&& 0 <= o
    &&& o + KEY_BYTES <= d.len()
    &&& d[o] >= BKEY_U64S
    &&& o + 8 * d[o] <= end
    &&& o + 8 * d[o] <= d.len()
}

/// The places of the packed keys from `cur` to `end`, unless they do not fill that range.
pub open spec fn offs(d: Seq<u8>, cur: int, end: int) -> Option<Seq<int>>
    decreases end - cur,
{
    if cur >= end {
        Some(Seq::empty())
    } else if !key_fits(d, cur, end) {
        None
    } else {
        match offs(d, cur + 8 * d[cur], end) {
            Some(r) => Some(seq![cur] + r),
            None => None,
        }
    }
}

/// The packed keys at some places.
pub open spec fn cells(d: Seq<u8>, l: Seq<int>) -> Seq<Seq<u8>> {
    Seq::new(l.len(), |i: int| cell_at(d, l[i]))
}

/// Packed keys one after the other.
pub open spec fn cat(cs: Seq<Seq<u8>>) -> Seq<u8>
    decreases cs.len(),
{
    if cs.len() == 0 {
        Seq::empty()
    } else {
        cat(cs.drop_last()) + cs.last()
    }
}

/// Positions of packed keys in strictly ascending order.
pub open spec fn ascending(d: Seq<u8>, l: Seq<int>) -> bool {
    forall|i: int, j: int|
        0 <= i < j < l.len() ==> ord_at(d, #[trigger] l[i]) < ord_at(d, #[trigger] l[j])
}

/// The places of packed keys are in the range, and each key is whole.
pub proof fn lemma_offs(d: Seq<u8>, cur: int, end: int)
    requires
        offs(d, cur, end) is Some,
    ensures
        forall|i: int|
            0 <= i < offs(d, cur, end)->0.len() ==> {
                let o = #[trigger] offs(d, cur, end)->0[i];
                cur <= o < end && key_fits(d, o, end) && cell_ok(cell_at(d, o))
            },
        cur < end ==> offs(d, cur, end)->0.len() > 0 && offs(d, cur, end)->0[0] == cur,
        cur < end ==> offs(d, cur, end)->0.subrange(1, offs(d, cur, end)->0.len() as int) == offs(
            d,
            cur + 8 * d[cur],
            end,
        )->0 && offs(d, cur + 8 * d[cur], end) is Some && key_fits(d, cur, end),
    decreases end - cur,
{
    if cur < end {
        let l = offs(d, cur, end)->0;
        let r = offs(d, cur + 8 * d[cur], end)->0;
        lemma_offs(d, cur + 8 * d[cur], end);
        assert(l == seq![cur] + r);
        assert(l.subrange(1, l.len() as int) =~= r);
        assert forall|i: int| 0 <= i < l.len() implies {
            let o = #[trigger] l[i];
            cur <= o < end && key_fits(d, o, end) && cell_ok(cell_at(d, o))
        } by {
            if i > 0 {
                assert(l[i] == r[i - 1]);
            }
        }
    }
}

/// What stands outside a range does not matter to the keys in it.
pub proof fn lemma_offs_frame(d: Seq<u8>, e: Seq<u8>, cur: int, end: int)
    requires
        d.len() == e.len(),
        forall|i: int| cur <= i < end && 0 <= i < d.len() ==> d[i] == e[i],
    ensures
        offs(d, cur, end) == offs(e, cur, end),
        offs(d, cur, end) is Some ==> cells(d, offs(d, cur, end)->0) == cells(
            e,
            offs(e, cur, end)->0,
        ),
    decreases end - cur,
{
    if cur < end {
        if key_fits(d, cur, end) {
            lemma_offs_frame(d, e, cur + 8 * d[cur], end);
            if offs(d, cur, end) is Some {
                let l = offs(d, cur, end)->0;
                lemma_offs(d, cur, end);
                assert forall|i: int| 0 <= i < l.len() implies cell_at(d, l[i]) == cell_at(
                    e,
                    l[i],
                ) by {
                    let o = l[i];
                    assert(key_fits(d, o, end));
                    assert(cell_at(d, o) =~= cell_at(e, o));
                }
                assert(cells(d, l) =~= cells(e, l));
            }
        } else if cur >= 0 && cur + KEY_BYTES <= d.len() {
            assert(d[cur] == e[cur]);
        }
    }
}

/// Whole packed keys one after the other read back as they are.
pub proof fn lemma_cat_offs(p: Seq<u8>, cs: Seq<Seq<u8>>, q: Seq<u8>)
    requires
        forall|i: int| 0 <= i < cs.len() ==> cell_ok(#[trigger] cs[i]),
    ensures
        ({
            let d = p + cat(cs) + q;
            let from = p.len() as int;
            let to = (p.len() + cat(cs).len()) as int;
            &&& offs(d, from, to) is Some
            &&& cells(d, offs(d, from, to)->0) == cs
        }),
    decreases cs.len(),
{
    let d = p + cat(cs) + q;
    let from = p.len() as int;
    let to = (p.len() + cat(cs).len()) as int;
    if cs.len() == 0 {
        assert(cells(d, offs(d, from, to)->0) =~= cs);
    } else {
        let c = cs[0];
        let rest = cs.subrange(1, cs.len() as int);
        lemma_cat_first(cs);
        assert(cat(cs) == c + cat(rest));
        lemma_cat_offs(p + c, rest, q);
        assert(p + c + cat(rest) + q =~= d);
        assert(d[from] == c[0]);
        assert(cell_ok(c));
        assert(key_fits(d, from, to));
        assert(from + 8 * d[from] == (p + c).len());
        let r = offs(d, (p + c).len() as int, to)->0;
        let l = offs(d, from, to)->0;
        assert(l == seq![from] + r);
        assert(cell_at(d, from) =~= c);
        assert(cells(d, r) == rest);
        assert(cells(d, l) =~= cs) by {
            assert forall|i: int| 0 <= i < l.len() implies cells(d, l)[i] == cs[i] by {
                if i > 0 {
                    assert(cells(d, r)[i - 1] == rest[i - 1]);
                    assert(l[i] == r[i - 1]);
                }
            }
            assert(r.len() == cells(d, r).len());
        }
    }
}

/// The first packed key comes first.
pub proof fn lemma_cat_first(cs: Seq<Seq<u8>>)
    requires
        cs.len() > 0,
    ensures
        cat(cs) == cs[0] + cat(cs.subrange(1, cs.len() as int)),
    decreases cs.len(),
{
    let rest = cs.subrange(1, cs.len() as int);
    if cs.len() == 1 {
        assert(cs.drop_last() =~= Seq::<Seq<u8>>::empty());
        assert(rest =~= Seq::<Seq<u8>>::empty());
        assert(cat(cs) =~= cs[0] + cat(rest));
    } else {
        let front = cs.drop_last();
        lemma_cat_first(front);
        assert(front.subrange(1, front.len() as int) =~= rest.drop_last());
        assert(rest.last() == cs.last());
        assert(cat(cs) =~= cs[0] + cat(rest));
    }
}

pub proof fn lemma_cat_push(cs: Seq<Seq<u8>>, c: Seq<u8>)
    ensures
        cat(cs.push(c)) == cat(cs) + c,
{
    assert(cs.push(c).drop_last() =~= cs);
}

/// Reads the position of the packed key at place `o`.
pub fn read_pos(data: &Vec<u8>, o: usize) -> (r: Bpos)
    requires
        key_fits(data@, o as int, data@.len() as int),
    ensures
        r == cell_pos(cell_at(data@, o as int)),
        r.ord() == ord_at(data@, o as int),
{
    let ghost d = data@;
    let ghost c = cell_at(d, o as int);
    assert(o + KEY_BYTES <= data.len());
    let inode: u64 = read_le(data, o + 16, 8);
    let offset: u64 = read_le(data, o + 8, 8);
    let snapshot: u64 = read_le(data, o + 4, 4);
    proof {
        assert(c.subrange(16, 24) =~= d.subrange(o + 16, o + 24));
        assert(c.subrange(8, 16) =~= d.subrange(o + 8, o + 16));
        assert(c.subrange(4, 8) =~= d.subrange(o + 4, o + 8));
        lemma_le_bound(d.subrange(o + 4, o + 8));
        lemma_limits();
    }
    Bpos { inode, offset, snapshot: snapshot as u32 }
}

/// Whether the bytes from `cur` to `end` are whole packed keys.
pub fn keys_whole(data: &Vec<u8>, cur: usize, end: usize) -> (r: bool)
    ensures
        r == (offs(data@, cur as int, end as int) is Some),
{
    let mut o: usize = cur;
    while o < end
        invariant
            cur <= o,
            o < end || o <= data.len() || o == cur,
            (offs(data@, cur as int, end as int) is Some) == (offs(
                data@,
                o as int,
                end as int,
            ) is Some),
        decreases end - o,
    {
        if data.len() < KEY_BYTES || o > data.len() - KEY_BYTES {
            return false;
        }
        let w: usize = data[o] as usize;
        if w < BKEY_U64S as usize || 8 * w > data.len() - o || 8 * w > end - o {
            return false;
        }
        o = o + 8 * w;
    }
    true
}

/// The bytes of a packed key.
pub open spec fn packed_cell(pos: Bpos, key_type: KeyType, value: Seq<u8>) -> Seq<u8> {
    seq![(BKEY_U64S as int + value.len() / 8) as u8, KEY_FORMAT_CURRENT, type_num(key_type), 0u8]
        + le_bytes(pos.snapshot as nat, 4) + le_bytes(pos.offset as nat, 8) + le_bytes(
        pos.inode as nat,
        8,
    ) + value
}

/// Packs a key with a value of whole words.
pub fn pack_cell(pos: &Bpos, key_type: KeyType, value: &Vec<u8>) -> (r: Vec<u8>)
    requires
        value@.len() % 8 == 0,
        value@.len() <= 2016,
    ensures
        r@ == packed_cell(*pos, key_type, value@),
{
    let mut c: Vec<u8> = Vec::new();
    c.push(BKEY_U64S + (value.len() / 8) as u8);
    c.push(KEY_FORMAT_CURRENT);
    c.push(key_type_num(key_type));
    c.push(0);
    let ghost head = c@;
    push_le(&mut c, pos.snapshot as u64, 4);
    push_le(&mut c, pos.offset, 8);
    push_le(&mut c, pos.inode, 8);
    let mut i: usize = 0;
    let ghost full = c@;
    while i < value.len()
        invariant
            i <= value.len(),
            c@ == full + value@.subrange(0, i as int),
        decreases value.len() - i,
    {
        c.push(value[i]);
        i += 1;
        assert(c@ =~= full + value@.subrange(0, i as int));
    }
    assert(value@.subrange(0, value@.len() as int) =~= value@);
    assert(c@ =~= packed_cell(*pos, key_type, value@));
    c
}

/// A packed key is whole, and gives back its position and its type.
pub proof fn law_packed_roundtrip(pos: Bpos, key_type: KeyType, value: Seq<u8>)
    requires
        value.len() % 8 == 0,
        value.len() <= 2016,
    ensures
        cell_ok(packed_cell(pos, key_type, value)),
        cell_pos(packed_cell(pos, key_type, value)) == pos,
        packed_cell(pos, key_type, value)[2] == type_num(key_type),
        packed_cell(pos, key_type, value).subrange(24, 24 + value.len() as int) == value,
{
    let c = packed_cell(pos, key_type, value);
    lemma_limits();
    lemma_le_bytes(pos.snapshot as nat, 4);
    lemma_le_bytes(pos.offset as nat, 8);
    lemma_le_bytes(pos.inode as nat, 8);
    assert(c.subrange(4, 8) =~= le_bytes(pos.snapshot as nat, 4));
    assert(c.subrange(8, 16) =~= le_bytes(pos.offset as nat, 8));
    assert(c.subrange(16, 24) =~= le_bytes(pos.inode as nat, 8));
    assert(c.subrange(24, 24 + value.len() as int) =~= value);
}

/// Copies `n` bytes from place `from` of `src` over those at place `to` of `dst`.
pub fn copy_bytes(dst: &mut Vec<u8>, to: usize, src: &Vec<u8>, from: usize, n: usize)
    requires
        to + n <= old(dst)@.len(),
        from + n <= src@.len(),
    ensures
        final(dst)@ == patched(old(dst)@, to as int, src@.subrange(from as int, from + n)),
        final(dst)@.len() == old(dst)@.len(),
{
    let ghost d0 = dst@;
    let ghost t = src@.subrange(from as int, from + n);
    let mut i: usize = 0;
    while i < n
        invariant
            i <= n,
            to + n <= d0.len(),
            from + n <= src.len(),
            dst.len() == d0.len(),
            t == src@.subrange(from as int, from + n),
            forall|j: int|
                0 <= j < d0.len() ==> #[trigger] dst@[j] == if to <= j < to + i {
                    t[j - to]
                } else {
                    d0[j]
                },
        decreases n - i,
    {
        dst.set(to + i, src[from + i]);
        i += 1;
    }
    assert(dst@ =~= patched(d0, to as int, t));
}

/// A cell holds its words in the first byte, the format and the type in the next two, and from the
/// fourth byte on the snapshot, from the eighth the offset, from the sixteenth the inode, the lowest
/// byte first; the value follows from the twenty-fourth on.
pub proof fn law_cell_layout(pos: Bpos, key_type: KeyType, value: Seq<u8>, i: int)
    requires
        value.len() % 8 == 0,
        value.len() <= 8 * 252,
    ensures
        ({
            let c = packed_cell(pos, key_type, value);
            &&& c.len() == 24 + value.len()
            &&& c[0] == 3 + value.len() / 8
            &&& c[1] == 1
            &&& c[2] == match key_type {
                KeyType::Deleted => 0u8,
                KeyType::Whiteout => 1u8,
                KeyType::Normal => 2u8,
                KeyType::Present => 3u8,
            }
            &&& c[3] == 0
            &&& c.subrange(4, 8) == le_bytes(pos.snapshot as nat, 4)
            &&& c.subrange(8, 16) == le_bytes(pos.offset as nat, 8)
            &&& c.subrange(16, 24) == le_bytes(pos.inode as nat, 8)
            &&& 0 <= i < value.len() ==> c[24 + i] == value[i]
            &&& cell_dead(c) <==> key_type == KeyType::Deleted
        }),
{
    lemma_le_bytes(pos.snapshot as nat, 4);
    lemma_le_bytes(pos.offset as nat, 8);
    lemma_le_bytes(pos.inode as nat, 8);
    let c = packed_cell(pos, key_type, value);
    assert(c.subrange(4, 8) =~= le_bytes(pos.snapshot as nat, 4));
    assert(c.subrange(8, 16) =~= le_bytes(pos.offset as nat, 8));
    assert(c.subrange(16, 24) =~= le_bytes(pos.inode as nat, 8));
}

/// The keys of a set lie end to end: the first one at its start, each next one right behind the one
/// before, of at least three words and wholly inside, and the last one up to its end.
pub proof fn law_keys_lie_end_to_end(d: Seq<u8>, cur: int, end: int, i: int)
    requires
        offs(d, cur, end) is Some,
        0 <= cur <= end,
        0 <= i < offs(d, cur, end)->0.len(),
    ensures
        ({
            let l = offs(d, cur, end)->0;
            let behind = l[i] + 8 * d[l[i]];
            &&& l[0] == cur
            &&& d[l[i]] >= 3
            &&& behind <= end
            &&& behind <= d.len()
            &&& i + 1 < l.len() ==> l[i + 1] == behind
            &&& i + 1 == l.len() ==> behind == end
        }),
    decreases end - cur,
{
    lemma_offs(d, cur, end);
    let l = offs(d, cur, end)->0;
    let next = cur + 8 * d[cur];
    let r = offs(d, next, end)->0;
    assert(cur < end);
    assert(key_fits(d, cur, end));
    assert(l == seq![cur] + r);
    if i > 0 {
        law_keys_lie_end_to_end(d, next, end, i - 1);
        assert(l[i] == r[i - 1]);
        if i + 1 < l.len() {
            assert(l[i + 1] == r[i]);
        }
    } else {
        if next < end {
            lemma_offs(d, next, end);
            assert(l[1] == r[0]);
        }
    }
}

/// A key fits where it has three words at least, 24 bytes of head, and ends in time.
pub proof fn law_when_a_key_fits(d: Seq<u8>, o: int, end: int)
    requires
        0 <= o,
    ensures
        key_fits(d, o, end) <==> o + 24 <= d.len() && d[o] >= 3 && o + 8 * d[o] <= end && o + 8
            * d[o] <= d.len(),
{
}

} // verus!
