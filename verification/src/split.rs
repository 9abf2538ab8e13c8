//! Splitting a path of full nodes, from a leaf upwards.

use crate::entries::{
    find, keys, lemma_find_at, lemma_find_some, lemma_lb, lemma_lower_bound, lemma_sorted_sub,
    lemma_widths_split, lower_bound, lower_bound_at, put, sorted, upserted, widths,
};
use crate::key::{extent_entry, lemma_ord, BchVal, Bpos, BtreeKey, EntryView, KeyType};
use crate::node::{balanced_at, lemma_balanced_once, BtreeNode, NodeFlags};
use crate::node_cache::NodeCache;
use crate::shape::{
    at, built_from, changed_only, child, child_hi, child_lo, get, get_kids, kid_has, kid_ok,
    kids_apart, kids_wf, lemma_get_outside, lemma_kid_changed, lemma_kid_split, lemma_kids_cut,
    lemma_kids_frame, lemma_kids_level, lemma_route_cut, lemma_route_is, lemma_route_range,
    lemma_unfold, lemma_widen, lemma_within, lemma_within_level, node_ok, reach, route, sub_wf,
    within,
};
use crate::writer::{
    fails_with, new_written, on_disk, takes_room, writes_kept, BtreeNodeWriter, StorageError,
};
use vstd::prelude::*;

verus! {

/// What a rank holds once `value` was inserted under `key`.
pub open spec fn stored(key: BtreeKey, value: BchVal) -> Option<EntryView> {
    if key.key_type == KeyType::Deleted {
        None
    } else {
        Some(extent_entry(key, value))
    }
}

/// The routing entry for `pos`: the last one at or before it, or else the first.
pub fn route_idx(node: &BtreeNode, pos: &Bpos) -> (r: usize)
    requires
        node.wf(),
        node.keys().len() > 0,
    ensures
        r == route(node.keys(), pos.ord()),
        r < node.keys().len(),
{
    let i: usize = lower_bound(&node.entries, pos);
    let ghost s = node.keys();
    let ghost k = pos.ord();
    if i < node.entries.len() {
        proof {
            lemma_ord(s[i as int].pos, *pos);
        }
        if node.entries[i].pos == *pos {
            proof {
                assert forall|j: int| i < j < s.len() implies (#[trigger] s[j]).pos.ord() > k by {
                    assert(s[i as int].pos.ord() < s[j].pos.ord());
                }
                lemma_route_is(s, k, i as int);
            }
            return i;
        }
    }
    proof {
        let r = if i == 0 {
            0
        } else {
            i - 1
        };
        assert forall|j: int| r < j < s.len() implies (#[trigger] s[j]).pos.ord() > k by {
            if j > i {
                assert(s[i as int].pos.ord() < s[j].pos.ord());
            }
        }
        lemma_route_is(s, k, r);
    }
    if i == 0 {
        0
    } else {
        i - 1
    }
}

/// All entries of `s` lie in `lo..hi`.
pub open spec fn in_range(s: Seq<EntryView>, lo: int, hi: int) -> bool {
    forall|i: int| 0 <= i < s.len() ==> lo <= (#[trigger] s[i]).pos.ord() < hi
}

/// An entry of the range keeps a run in the range.
pub proof fn lemma_upserted_range(
    s: Seq<EntryView>,
    t: Seq<EntryView>,
    e: EntryView,
    lo: int,
    hi: int,
)
    requires
        upserted(s, t, e),
        in_range(s, lo, hi),
        lo <= e.pos.ord() < hi,
    ensures
        in_range(t, lo, hi),
{
    assert forall|i: int| 0 <= i < t.len() implies lo <= (#[trigger] t[i]).pos.ord() < hi by {
        lemma_find_at(t, i);
        let k = t[i].pos.ord();
        if k != e.pos.ord() {
            assert(find(t, k) == find(s, k));
            let j = lemma_find_some(s, k);
        }
    }
}

/// What became of the subtree that a new key was to go to.
pub enum SplitStep {
    /// The leaf could not be split; nothing has changed.
    Refused,
    /// The subtree has taken in the split.
    Done { inserted: bool },
    /// The top of the subtree was split: from `at` on, keys are at `addr`.
    Pushed { at: Bpos, addr: u64, inserted: bool },
}

/// What a rank of the subtree holds after a split that brought in the key of rank `k`.
pub open spec fn after_split(
    was: Option<EntryView>,
    x: int,
    k: int,
    inserted: bool,
    new: Option<EntryView>,
) -> Option<EntryView> {
    if x == k && inserted {
        new
    } else {
        was
    }
}

/// What `split_path` promises of its result.
pub open spec fn split_step_ok(
    m: Map<u64, BtreeNode>,
    m2: Map<u64, BtreeNode>,
    c: u64,
    level: nat,
    lo: int,
    hi: int,
    k: int,
    new: Option<EntryView>,
    r: Result<SplitStep, StorageError>,
) -> bool {
    &&& m2.contains_key(c)
    &&& changed_only(m, m2, c, level)
    &&& built_from(m, c, m2, c, level)
    &&& match r {
        Ok(SplitStep::Refused) => m2 == m,
        Ok(SplitStep::Done { inserted }) => {
            &&& sub_wf(m2, m2[c], level, lo, hi)
            &&& forall|x: int|
                lo <= x < hi ==> #[trigger] get(m2, m2[c], level, x) == after_split(
                    get(m, m[c], level, x),
                    x,
                    k,
                    inserted,
                    new,
                )
        },
        Ok(SplitStep::Pushed { at, addr, inserted }) => {
            &&& m2.contains_key(addr)
            &&& !m.contains_key(addr)
            &&& sub_wf(m2, m2[c], level, lo, at.ord())
            &&& sub_wf(m2, m2[addr], level, at.ord(), hi)
            &&& built_from(m, c, m2, addr, level)
            &&& forall|a: u64|
                !(#[trigger] reach(m2, c, level, a) && #[trigger] reach(m2, addr, level, a))
            &&& forall|x: int|
                lo <= x < at.ord() ==> #[trigger] get(m2, m2[c], level, x) == after_split(
                    get(m, m[c], level, x),
                    x,
                    k,
                    inserted,
                    new,
                )
            &&& forall|x: int|
                at.ord() <= x < hi ==> #[trigger] get(m2, m2[addr], level, x) == after_split(
                    get(m, m[c], level, x),
                    x,
                    k,
                    inserted,
                    new,
                )
        },
        Err(_) => {
            &&& sub_wf(m2, m2[c], level, lo, hi)
            &&& forall|x: int|
                lo <= x < hi ==> {
                    let y = #[trigger] get(m2, m2[c], level, x);
                    y is None || y == get(m, m[c], level, x) || (x == k && y == new)
                }
        },
    }
}

/// No entry of `s` is smaller than an extent.
pub open spec fn wide(s: Seq<EntryView>) -> bool {
    forall|i: int| 0 <= i < s.len() ==> (#[trigger] s[i]).u64s() >= 6
}

pub(crate) proof fn lemma_wide_cut(s: Seq<EntryView>, mid: int)
    requires
        wide(s),
        0 < mid < s.len(),
    ensures
        widths(s.subrange(0, mid)) + 6 <= widths(s),
        widths(s.subrange(mid, s.len() as int)) + 6 <= widths(s),
{
    lemma_widths_split(s, mid);
    let a = s.subrange(0, mid);
    let b = s.subrange(mid, s.len() as int);
    assert(a[0] == s[0] && b[0] == s[mid]);
    crate::entries::lemma_width_le(a, 0);
    crate::entries::lemma_width_le(b, 0);
}

/// The leaf that the descent from `node` to rank `k` ends in.
pub open spec fn leaf_of(m: Map<u64, BtreeNode>, node: BtreeNode, level: nat, k: int) -> BtreeNode {
    if level == 0 {
        node
    } else {
        m[at(m, node, level, k, 0)]
    }
}

/// The part of a leaf that a key at rank `k` belongs to, once the leaf is split, has room for an
/// extent.
pub open spec fn half_takes(leaf: BtreeNode, k: int) -> bool {
    let s = leaf.keys();
    exists|mid: int| #[trigger]
        balanced_at(s, mid) && 6 + widths(
            if k < s[mid].pos.ord() {
                s.subrange(0, mid)
            } else {
                s.subrange(mid, s.len() as int)
            },
        ) <= leaf.cap()
}

/// From `i` on there is a cut by the rule of splits.
proof fn lemma_balanced_from(s: Seq<EntryView>, i: int) -> (mid: int)
    requires
        0 < i < s.len(),
        i == 1 || widths(s.subrange(0, i - 1)) < widths(s) * 3 / 5,
    ensures
        balanced_at(s, mid),
    decreases s.len() - i,
{
    if i == s.len() - 1 || widths(s.subrange(0, i)) >= widths(s) * 3 / 5 {
        i
    } else {
        lemma_balanced_from(s, i + 1)
    }
}

/// A leaf of two or more extents always takes another one: each part that it is split into has
/// room.
pub proof fn law_extents_fit(leaf: BtreeNode, k: int)
    requires
        leaf.wf(),
        leaf.nr_keys() >= 2,
        wide(leaf.keys()),
    ensures
        half_takes(leaf, k),
{
    let mid = lemma_balanced_from(leaf.keys(), 1);
    lemma_wide_cut(leaf.keys(), mid);
}

/// A part of a node after a split, with a new entry where that went there.
pub open spec fn part_of(
    half: Seq<EntryView>,
    now: Seq<EntryView>,
    new: Option<EntryView>,
) -> bool {
    match new {
        Some(e) => upserted(half, now, e),
        None => now == half,
    }
}

/// The entries `s` are cut at `at` by the rule of splits; a new entry is in the part that it
/// belongs to.
pub open spec fn cut_in_two(
    s: Seq<EntryView>,
    left: Seq<EntryView>,
    right: Seq<EntryView>,
    at: Bpos,
    new: Option<EntryView>,
) -> bool {
    exists|mid: int| #[trigger]
        balanced_at(s, mid) && at == s[mid].pos && part_of(
            s.subrange(0, mid),
            left,
            if new is Some && new->0.pos.ord() < at.ord() {
                new
            } else {
                None
            },
        ) && part_of(
            s.subrange(mid, s.len() as int),
            right,
            if new is Some && new->0.pos.ord() >= at.ord() {
                new
            } else {
                None
            },
        )
}

/// There is one way to split a leaf, and so one part that counts.
pub(crate) proof fn lemma_half_takes(leaf: BtreeNode, k: int, mid: int)
    requires
        balanced_at(leaf.keys(), mid),
    ensures
        half_takes(leaf, k) == (6 + widths(
            if k < leaf.keys()[mid].pos.ord() {
                leaf.keys().subrange(0, mid)
            } else {
                leaf.keys().subrange(mid, leaf.keys().len() as int)
            },
        ) <= leaf.cap()),
{
    let s = leaf.keys();
    if half_takes(leaf, k) {
        let other = choose|mid: int| #[trigger]
            balanced_at(s, mid) && 6 + widths(
                if k < s[mid].pos.ord() {
                    s.subrange(0, mid)
                } else {
                    s.subrange(mid, s.len() as int)
                },
            ) <= leaf.cap();
        lemma_balanced_once(s, mid, other);
    }
}

/// The new key is in.
pub open spec fn step_took(step: SplitStep) -> bool {
    match step {
        SplitStep::Refused => false,
        SplitStep::Done { inserted } => inserted,
        SplitStep::Pushed { at, addr, inserted } => inserted,
    }
}

/// The leaf of `m` at `la` is cut at `at` in two, by the rule of splits: the lower part is at the
/// leaf's address and awaits a write, the upper part at a new address `ra`. A new entry is in the
/// part that it belongs to. Neither part has dead words.
pub open spec fn leaf_cut(
    m: Map<u64, BtreeNode>,
    c: NodeCache,
    la: u64,
    ra: u64,
    at: Bpos,
    new: Option<EntryView>,
    journal_seq: u64,
) -> bool {
    let left = c@[la];
    let right = c@[ra];
    &&& c@.contains_key(la)
    &&& c@.contains_key(ra)
    &&& !m.contains_key(ra)
    &&& cut_in_two(m[la].keys(), left.keys(), right.keys(), at, new)
    &&& left.journal_seq == journal_seq
    &&& right.journal_seq == journal_seq
    &&& left.node_size == m[la].node_size
    &&& right.node_size == m[la].node_size
    &&& left.dead_u64s == 0
    &&& right.dead_u64s == 0
    &&& c.dirty_addrs().contains(la)
}

/// The leaf at `la` was split.
#[verifier::opaque]
pub open spec fn leaf_split(
    m: Map<u64, BtreeNode>,
    c: NodeCache,
    la: u64,
    new: Option<EntryView>,
    journal_seq: u64,
) -> bool {
    exists|ra: u64, at: Bpos| #[trigger] leaf_cut(m, c, la, ra, at, new, journal_seq)
}

/// What a split leaves untouched stays a split.
pub(crate) proof fn lemma_leaf_split_kept(
    m: Map<u64, BtreeNode>,
    c: NodeCache,
    d: NodeCache,
    la: u64,
    new: Option<EntryView>,
    journal_seq: u64,
)
    requires
        leaf_split(m, c, la, new, journal_seq),
        c@.contains_key(la) ==> d@.contains_key(la) && d@[la] == c@[la],
        forall|a: u64|
            !m.contains_key(a) && #[trigger] c@.contains_key(a) ==> d@.contains_key(a) && d@[a]
                == c@[a],
        marks_kept(c, d),
    ensures
        leaf_split(m, d, la, new, journal_seq),
{
    reveal(leaf_split);
    let (ra, at) = choose|ra: u64, at: Bpos| #[trigger]
        leaf_cut(m, c, la, ra, at, new, journal_seq);
    assert(leaf_cut(m, d, la, ra, at, new, journal_seq));
}

/// What awaited a write still does.
pub open spec fn marks_kept(c: NodeCache, d: NodeCache) -> bool {
    forall|a: u64| #[trigger] c.dirty_addrs().contains(a) ==> d.dirty_addrs().contains(a)
}

/// Every node of `m` that is another one by now awaits a write.
pub open spec fn changes_marked(m: Map<u64, BtreeNode>, c: NodeCache) -> bool {
    forall|a: u64| #[trigger]
        m.contains_key(a) && c@.contains_key(a) && c@[a] != m[a] ==> c.dirty_addrs().contains(a)
}

/// A list of marks with one more mark.
pub(crate) proof fn lemma_marked(s: Seq<u64>, t: Seq<u64>, addr: u64)
    requires
        t == if s.contains(addr) {
            s
        } else {
            s.push(addr)
        },
    ensures
        t.contains(addr),
        forall|a: u64| #[trigger] s.contains(a) ==> t.contains(a),
{
    if !s.contains(addr) {
        assert(t[s.len() as int] == addr);
        assert forall|a: u64| #[trigger] s.contains(a) implies t.contains(a) by {
            let i = choose|i: int| 0 <= i < s.len() && s[i] == a;
            assert(t[i] == a);
        }
    }
}

/// The address of the leaf that the descent from the node at `addr` to rank `k` ends in.
pub open spec fn leaf_addr(m: Map<u64, BtreeNode>, addr: u64, level: nat, k: int) -> u64 {
    if level == 0 {
        addr
    } else {
        at(m, m[addr], level, k, 0)
    }
}

/// No node above the leaf, on the way from `node` down to rank `k`, has room for another route.
pub open spec fn path_full(m: Map<u64, BtreeNode>, node: BtreeNode, level: nat, k: int) -> bool
    decreases level,
{
    level == 0 || node.full() && path_full(
        m,
        m[child(node.keys()[route(node.keys(), k)])],
        (level - 1) as nat,
        k,
    )
}

/// The new entry, where it was taken in.
pub open spec fn taken(key: BtreeKey, value: BchVal, inserted: bool) -> Option<EntryView> {
    if inserted {
        Some(extent_entry(key, value))
    } else {
        None
    }
}

/// Splits the leaf at `addr` and brings in the new key.
#[verifier::spinoff_prover]
#[verifier::rlimit(60)]
fn split_leaf_node<W: BtreeNodeWriter>(
    cache: &mut NodeCache,
    writer: &mut W,
    addr: u64,
    key: BtreeKey,
    value: BchVal,
    journal_seq: u64,
    Ghost(lo): Ghost<int>,
    Ghost(hi): Ghost<int>,
) -> (r: Result<SplitStep, StorageError>)
    requires
        old(cache)@.contains_key(addr),
        sub_wf(old(cache)@, old(cache)@[addr], 0, lo, hi),
        lo <= key.pos.ord() < hi,
        old(cache)@.dom().subset_of(old(writer).in_use()),
    ensures
        fails_with(*old(writer), *final(writer), r),
        takes_room(*old(writer), *final(writer), r, 1),
        r is Err ==> old(cache)@[addr].keys().len() >= 2,
        split_step_ok(
            old(cache)@,
            final(cache)@,
            addr,
            0,
            lo,
            hi,
            key.pos.ord(),
            stored(key, value),
            r,
        ),
        r matches Ok(step) ==> {
            &&& step is Refused <==> old(cache)@[addr].keys().len() < 2
            &&& step is Refused ==> *final(writer) == *old(writer)
            &&& step_took(step) == half_takes(old(cache)@[addr], key.pos.ord())
            &&& step is Refused ==> final(cache).dirty_addrs() == old(cache).dirty_addrs()
            &&& step !is Done
            &&& step !is Refused ==> leaf_split(
                old(cache)@,
                *final(cache),
                addr,
                taken(key, value, step_took(step)),
                journal_seq,
            )
        },
        final(cache)@.dom().subset_of(final(writer).in_use()),
        writes_kept(*old(writer), *final(writer)),
        new_written(old(cache)@, final(cache)@, *final(writer)),
        forall|a: u64| #[trigger] old(cache)@.contains_key(a) ==> final(cache)@.contains_key(a),
        marks_kept(*old(cache), *final(cache)),
        changes_marked(old(cache)@, *final(cache)),
{
    let ghost m = cache@;
    let ghost k = key.pos.ord();
    let ghost e = extent_entry(key, value);
    let mut leaf: BtreeNode = match cache.take_node(addr) {
        Some(n) => n,
        None => {
            return Ok(SplitStep::Refused);
        },
    };
    let ghost s = leaf.keys();
    let split = leaf.split();
    let (median, mut right): (BtreeKey, BtreeNode) = match split {
        None => {
            cache.put_node(addr, leaf);
            assert(cache@ =~= m);
            return Ok(SplitStep::Refused);
        },
        Some(p) => p,
    };
    let ghost mid = leaf.keys().len() as int;
    let ghost at = median.pos.ord();
    let ghost left0 = leaf.keys();
    let ghost right0 = right.keys();
    proof {
        assert(s =~= left0 + right0);
        assert(at == s[mid].pos.ord());
        assert forall|i: int| 0 <= i < left0.len() implies lo <= (#[trigger] left0[i]).pos.ord()
            < at by {
            assert(left0[i] == s[i]);
            assert(s[i].pos.ord() < s[mid].pos.ord());
        }
        assert forall|i: int| 0 <= i < right0.len() implies at <= (#[trigger] right0[i]).pos.ord()
            < hi by {
            assert(right0[i] == s[mid + i]);
        }
        assert(left0[0] == s[0]);
    }
    let inserted: bool = if key.pos.precedes(&median.pos) {
        leaf.insert(key, value)
    } else {
        right.insert(key, value)
    };
    leaf.journal_seq = journal_seq;
    right.journal_seq = journal_seq;
    leaf.compact();
    right.compact();
    proof {
        lemma_half_takes(m[addr], k, mid);
        if inserted && k < at {
            lemma_upserted_range(left0, leaf.keys(), e, lo, at);
        }
        if inserted && k >= at {
            lemma_upserted_range(right0, right.keys(), e, at, hi);
        }
        assert(lo <= left0[0].pos.ord() < at);
        assert(node_ok(leaf, 0, lo, at));
        assert(node_ok(right, 0, at, hi));
        assert forall|x: int| #[trigger] find(s, x) == (match find(left0, x) {
            Some(y) => Some(y),
            None => find(right0, x),
        }) by {
            crate::entries::lemma_find_concat(left0, right0, x);
        }
        assert forall|x: int| x >= at implies #[trigger] find(left0, x) is None by {
            if find(left0, x) is Some {
                let j = lemma_find_some(left0, x);
            }
        }
        assert forall|x: int| x < at implies #[trigger] find(right0, x) is None by {
            if find(right0, x) is Some {
                let j = lemma_find_some(right0, x);
            }
        }
    }
    let ghost lk = leaf.keys();
    let ghost rk = right.keys();
    let ghost dirty = cache.dirty_addrs();
    cache.insert_dirty(addr, leaf);
    let ghost m1 = cache@;
    proof {
        lemma_marked(dirty, cache.dirty_addrs(), addr);
        assert(m1[addr].keys() == lk);
        lemma_widen(m1, m1[addr], 0, lo, at, hi);
        assert forall|x: int| lo <= x < hi implies {
            let y = #[trigger] get(m1, m1[addr], 0, x);
            y is None || y == get(m, m[addr], 0, x) || (x == k && y == stored(key, value))
        } by {
            assert(get(m1, m1[addr], 0, x) == find(lk, x));
            if find(lk, x) is Some {
                let j = lemma_find_some(lk, x);
                assert(x < at);
                assert(find(s, x) == find(left0, x) || find(left0, x) is None);
            }
        }
    }
    let raddr: u64 = match writer.write_btree_node(&right) {
        Err(err) => {
            return Err(err);
        },
        Ok(a) => a,
    };
    cache.insert(raddr, right);
    proof {
        let m2 = cache@;
        assert(!m.contains_key(raddr));
        assert(m2[addr].keys() == lk && m2[raddr].keys() == rk);
        assert forall|x: int| lo <= x < at implies #[trigger] get(m2, m2[addr], 0, x)
            == after_split(get(m, m[addr], 0, x), x, k, inserted, stored(key, value)) by {
            assert(get(m2, m2[addr], 0, x) == find(lk, x));
            assert(find(right0, x) is None);
            assert(find(s, x) == find(left0, x));
        }
        assert forall|x: int| at <= x < hi implies #[trigger] get(m2, m2[raddr], 0, x)
            == after_split(get(m, m[addr], 0, x), x, k, inserted, stored(key, value)) by {
            assert(get(m2, m2[raddr], 0, x) == find(rk, x));
            assert(find(left0, x) is None);
            assert(find(s, x) == find(right0, x));
        }
    }
    proof {
        assert(part_of(
            left0,
            lk,
            if inserted && k < at {
                Some(e)
            } else {
                None
            },
        ));
        assert(part_of(
            right0,
            rk,
            if inserted && k >= at {
                Some(e)
            } else {
                None
            },
        ));
        assert(balanced_at(s, mid));
        assert(cut_in_two(s, lk, rk, median.pos, taken(key, value, inserted)));
        reveal(leaf_split);
        assert(leaf_cut(
            m,
            *cache,
            addr,
            raddr,
            median.pos,
            taken(key, value, inserted),
            journal_seq,
        ));
    }
    Ok(SplitStep::Pushed { at: median.pos, addr: raddr, inserted })
}

/// The entry that routes keys from `at` on to `addr`.
pub open spec fn route_entry(at: Bpos, addr: u64) -> EntryView {
    extent_entry(
        BtreeKey { pos: at, key_type: KeyType::Normal, size: 0 },
        BchVal { paddr: addr, ver: 0 },
    )
}

/// Where a route for the second half of a split child goes.
proof fn lemma_route_put(s: Seq<EntryView>, i: int, e: EntryView)
    requires
        sorted(s),
        0 <= i < s.len(),
        s[i].pos.ord() < e.pos.ord(),
        i + 1 < s.len() ==> e.pos.ord() < s[i + 1].pos.ord(),
    ensures
        put(s, e) == s.insert(i + 1, e),
{
    assert forall|j: int| 0 <= j < i + 1 implies (#[trigger] s[j]).pos.ord() < e.pos.ord() by {
        if j < i {
            assert(s[j].pos.ord() < s[i].pos.ord());
        }
    }
    assert forall|j: int| i + 1 <= j < s.len() implies (#[trigger] s[j]).pos.ord()
        >= e.pos.ord() by {
        if j > i + 1 {
            assert(s[i + 1].pos.ord() < s[j].pos.ord());
        }
    }
    assert(lower_bound_at(s, e.pos.ord(), i + 1));
    lemma_lower_bound(s, e.pos.ord(), i + 1);
    lemma_lb(s, e.pos.ord(), i + 1);
    reveal(put);
}

/// Entries that are all extents take six words each.
pub proof fn lemma_extent_widths(s: Seq<EntryView>)
    requires
        forall|i: int| 0 <= i < s.len() ==> (#[trigger] s[i]).value is Extent,
    ensures
        widths(s) == 6 * s.len(),
    decreases s.len(),
{
    if s.len() > 0 {
        assert forall|i: int| 0 <= i < s.drop_last().len() implies (
        #[trigger] s.drop_last()[i]).value is Extent by {
            assert(s.drop_last()[i] == s[i]);
        }
        lemma_extent_widths(s.drop_last());
        assert(s.last() == s[s.len() - 1]);
    }
}

/// What is known after the child below entry `i` was split, before its parent knows of it.
pub open spec fn pending(
    m: Map<u64, BtreeNode>,
    m1: Map<u64, BtreeNode>,
    parent: BtreeNode,
    level: nat,
    lo: int,
    hi: int,
    i: int,
    k: int,
    new: Option<EntryView>,
    at: Bpos,
    raddr: u64,
    inserted: bool,
) -> bool {
    let s = parent.keys();
    let l = (level - 1) as nat;
    &&& level > 0
    &&& sub_wf(m, parent, level, lo, hi)
    &&& lo <= k < hi
    &&& 0 <= i < s.len()
    &&& route(s, k) == i
    &&& split_step_ok(
        m,
        m1,
        child(s[i]),
        l,
        child_lo(s, i, lo),
        child_hi(s, i, hi),
        k,
        new,
        Ok(SplitStep::Pushed { at, addr: raddr, inserted }),
    )
}

/// With the new route put in, the parent's entries lead to everything again.
pub(crate) proof fn lemma_pending(
    m: Map<u64, BtreeNode>,
    m1: Map<u64, BtreeNode>,
    parent: BtreeNode,
    level: nat,
    lo: int,
    hi: int,
    i: int,
    k: int,
    new: Option<EntryView>,
    at: Bpos,
    raddr: u64,
    inserted: bool,
)
    requires
        pending(m, m1, parent, level, lo, hi, i, k, new, at, raddr, inserted),
    ensures
        ({
            let s = parent.keys();
            let l = (level - 1) as nat;
            let e = route_entry(at, raddr);
            let t = s.insert(i + 1, e);
            &&& put(s, e) == t
            &&& s[i].pos.ord() < at.ord()
            &&& i + 1 < s.len() ==> at.ord() < s[i + 1].pos.ord()
            &&& sorted(t)
            &&& in_range(t, lo, hi)
            &&& t[0].pos.ord() == lo
            &&& forall|j: int| 0 <= j < t.len() ==> (#[trigger] t[j]).value is Extent
            &&& kids_wf(m1, t, l, lo, hi)
            &&& kids_apart(m1, t, l)
            &&& forall|a: u64| #[trigger]
                kid_has(m1, t, l, a) ==> kid_has(m, s, l, a) || !m.contains_key(a)
            &&& forall|x: int|
                lo <= x < hi ==> #[trigger] get_kids(m1, t, l, x) == after_split(
                    get_kids(m, s, l, x),
                    x,
                    k,
                    inserted,
                    new,
                )
            &&& forall|a: u64|
                m.contains_key(a) && !#[trigger] kid_has(m, s, l, a) ==> m1.contains_key(a)
                    && m1[a] == m[a]
        }),
{
    let s = parent.keys();
    let l = (level - 1) as nat;
    let e = route_entry(at, raddr);
    let t = s.insert(i + 1, e);
    let c = child(s[i]);
    lemma_unfold(m, parent, level, lo, hi);
    assert(kid_ok(m, s, l, lo, hi, i));
    lemma_kid_split(m, m1, s, l, lo, hi, i, e);
    lemma_route_put(s, i, e);
    assert(forall|j: int| 0 <= j < t.len() ==> #[trigger] t[j] == if j <= i {
        s[j]
    } else if j == i + 1 {
        e
    } else {
        s[j - 1]
    });
    assert forall|x: int| lo <= x < hi implies #[trigger] get_kids(m1, t, l, x) == after_split(
        get_kids(m, s, l, x),
        x,
        k,
        inserted,
        new,
    ) by {
        lemma_route_range(s, lo, hi, x);
        if route(s, x) == i {
            if x < at.ord() {
                assert(get(m1, m1[c], l, x) == after_split(
                    get(m, m[c], l, x),
                    x,
                    k,
                    inserted,
                    new,
                ));
            } else {
                assert(get(m1, m1[raddr], l, x) == after_split(
                    get(m, m[c], l, x),
                    x,
                    k,
                    inserted,
                    new,
                ));
            }
        }
    }
    assert forall|a: u64| m.contains_key(a) && !#[trigger] kid_has(m, s, l, a) implies
        m1.contains_key(a) && m1[a] == m[a] by {
        if reach(m, c, l, a) {
            assert(reach(m, child(s[i]), l, a));
        }
    }
}

/// A cut of the entries with a new route in the lower part.
proof fn lemma_cut_lower(s: Seq<EntryView>, i: int, e: EntryView, mid: int)
    requires
        sorted(s),
        0 <= i,
        i + 1 <= mid < s.len(),
        s[i].pos.ord() < e.pos.ord() < s[i + 1].pos.ord(),
    ensures
        put(s.subrange(0, mid), e) == s.insert(i + 1, e).subrange(0, mid + 1),
        s.subrange(mid, s.len() as int) == s.insert(i + 1, e).subrange(
            mid + 1,
            s.len() as int + 1,
        ),
        s.insert(i + 1, e)[mid + 1] == s[mid],
{
    let l0 = s.subrange(0, mid);
    lemma_sorted_sub(s, 0, mid);
    lemma_route_put(l0, i, e);
    assert(l0.insert(i + 1, e) =~= s.insert(i + 1, e).subrange(0, mid + 1));
    assert(s.subrange(mid, s.len() as int) =~= s.insert(i + 1, e).subrange(
        mid + 1,
        s.len() as int + 1,
    ));
}

/// A cut of the entries with a new route in the upper part.
proof fn lemma_cut_upper(s: Seq<EntryView>, i: int, e: EntryView, mid: int)
    requires
        sorted(s),
        0 < mid <= i < s.len(),
        s[i].pos.ord() < e.pos.ord(),
        i + 1 < s.len() ==> e.pos.ord() < s[i + 1].pos.ord(),
    ensures
        put(s.subrange(mid, s.len() as int), e) == s.insert(i + 1, e).subrange(
            mid,
            s.len() as int + 1,
        ),
        s.subrange(0, mid) == s.insert(i + 1, e).subrange(0, mid),
        s.insert(i + 1, e)[mid] == s[mid],
{
    let r0 = s.subrange(mid, s.len() as int);
    lemma_sorted_sub(s, mid, s.len() as int);
    lemma_route_put(r0, i - mid, e);
    assert(r0.insert(i - mid + 1, e) =~= s.insert(i + 1, e).subrange(mid, s.len() as int + 1));
    assert(s.subrange(0, mid) =~= s.insert(i + 1, e).subrange(0, mid));
}

/// In a cut of routes, each part leaves room for one more.
proof fn lemma_extent_cut(s: Seq<EntryView>, mid: int)
    requires
        forall|i: int| 0 <= i < s.len() ==> (#[trigger] s[i]).value is Extent,
        0 < mid < s.len(),
    ensures
        widths(s.subrange(0, mid)) + 6 <= widths(s),
        widths(s.subrange(mid, s.len() as int)) + 6 <= widths(s),
{
    let l0 = s.subrange(0, mid);
    let r0 = s.subrange(mid, s.len() as int);
    assert forall|j: int| 0 <= j < l0.len() implies (#[trigger] l0[j]).value is Extent by {
        assert(l0[j] == s[j]);
    }
    assert forall|j: int| 0 <= j < r0.len() implies (#[trigger] r0[j]).value is Extent by {
        assert(r0[j] == s[mid + j]);
    }
    lemma_extent_widths(l0);
    lemma_extent_widths(r0);
    lemma_extent_widths(s);
}

/// Where `at` stands relative to a cut at `mid`.
proof fn lemma_cut_side(s: Seq<EntryView>, i: int, at: int, mid: int)
    requires
        sorted(s),
        0 <= i < s.len(),
        0 < mid < s.len(),
        s[i].pos.ord() < at,
        i + 1 < s.len() ==> at < s[i + 1].pos.ord(),
    ensures
        at < s[mid].pos.ord() <==> i + 1 <= mid,
{
    if i + 1 <= mid {
        if i + 1 < mid {
            assert(s[i + 1].pos.ord() < s[mid].pos.ord());
        }
    } else {
        if mid < i {
            assert(s[mid].pos.ord() < s[i].pos.ord());
        }
    }
}

/// An interior node is cut where its keys are balanced, before the route behind key `i` comes in;
/// the left part then has `mid` keys.
pub open spec fn route_cut(s: Seq<EntryView>, i: int, mid: int) -> bool {
    exists|cut: int| #[trigger]
        balanced_at(s, cut) && mid == if i < cut {
            cut + 1
        } else {
            cut
        }
}

/// Splits a full node of routes and puts the route from `at` on to `raddr` into one part.
pub(crate) fn split_for_route(
    node: &mut BtreeNode,
    at: Bpos,
    raddr: u64,
    Ghost(i): Ghost<int>,
) -> (r: Option<
    (Bpos, BtreeNode),
>)
    requires
        old(node).wf(),
        old(node).keys().len() >= 2,
        forall|j: int|
            0 <= j < old(node).keys().len() ==> (#[trigger] old(node).keys()[j]).value is Extent,
        0 <= i < old(node).keys().len(),
        old(node).keys()[i].pos.ord() < at.ord(),
        i + 1 < old(node).keys().len() ==> at.ord() < old(node).keys()[i + 1].pos.ord(),
    ensures
        final(node).wf(),
        final(node).level == old(node).level,
        final(node).node_size == old(node).node_size,
        final(node).dead_u64s == 0,
        ({
            let t = old(node).keys().insert(i + 1, route_entry(at, raddr));
            &&& r matches Some((med, right)) && {
                let mid = final(node).keys().len() as int;
                &&& 0 < mid < t.len()
                &&& final(node).keys() == t.subrange(0, mid)
                &&& right.keys() == t.subrange(mid, t.len() as int)
                &&& med.ord() == t[mid].pos.ord()
                &&& right.wf()
                &&& right.level == old(node).level
                &&& right.node_size == old(node).node_size
                &&& right.dead_u64s == 0
                &&& route_cut(old(node).keys(), i, mid)
                &&& right.journal_seq == old(node).journal_seq
                &&& right.written == 0
                &&& right.flags == NodeFlags::none()
            }
        }),
        final(node).same_frame((BtreeNode { sib_u64s: final(node).sib_u64s, ..*old(node) })),
{
    let ghost s = node.keys();
    let ghost e = route_entry(at, raddr);
    let ghost t = s.insert(i + 1, e);
    let key: BtreeKey = BtreeKey::from_bpos(at, KeyType::Normal);
    let value: BchVal = BchVal::new(raddr, 0);
    let (median, mut right): (BtreeKey, BtreeNode) = match node.split() {
        None => {
            return None;
        },
        Some(p) => p,
    };
    let ghost mid = node.keys().len() as int;
    proof {
        lemma_extent_cut(s, mid);
        lemma_cut_side(s, i, at.ord(), mid);
    }
    if at.precedes(&median.pos) {
        proof {
            lemma_cut_lower(s, i, e, mid);
        }
        node.insert(key, value);
    } else {
        proof {
            lemma_cut_upper(s, i, e, mid);
        }
        right.insert(key, value);
    }
    node.compact();
    right.compact();
    Some((median.pos, right))
}

/// Puts the route from `at` on to `raddr` into a node of routes. Where there is no room even
/// after a compaction, the node is split; the upper part comes back with its first position.
fn place_route(node: &mut BtreeNode, at: Bpos, raddr: u64, Ghost(i): Ghost<int>) -> (r: Option<
    (Bpos, BtreeNode),
>)
    requires
        old(node).wf(),
        forall|j: int|
            0 <= j < old(node).keys().len() ==> (#[trigger] old(node).keys()[j]).value is Extent,
        0 <= i < old(node).keys().len(),
        old(node).keys()[i].pos.ord() < at.ord(),
        i + 1 < old(node).keys().len() ==> at.ord() < old(node).keys()[i + 1].pos.ord(),
    ensures
        final(node).wf(),
        final(node).level == old(node).level,
        final(node).node_size == old(node).node_size,
        final(node).dead_u64s == 0,
        r is Some <==> old(node).full(),
        ({
            let t = old(node).keys().insert(i + 1, route_entry(at, raddr));
            match r {
                None => final(node).keys() == t,
                Some((med, right)) => {
                    let mid = final(node).keys().len() as int;
                    &&& 0 < mid < t.len()
                    &&& final(node).keys() == t.subrange(0, mid)
                    &&& right.keys() == t.subrange(mid, t.len() as int)
                    &&& med.ord() == t[mid].pos.ord()
                    &&& right.wf()
                    &&& right.level == old(node).level
                    &&& right.node_size == old(node).node_size
                    &&& right.dead_u64s == 0
                    &&& route_cut(old(node).keys(), i, mid)
                    &&& right.journal_seq == old(node).journal_seq
                    &&& right.written == 0
                    &&& right.flags == NodeFlags::none()
                },
            }
        }),
        final(node).same_frame((BtreeNode { sib_u64s: final(node).sib_u64s, ..*old(node) })),
{
    let key: BtreeKey = BtreeKey::from_bpos(at, KeyType::Normal);
    let value: BchVal = BchVal::new(raddr, 0);
    proof {
        lemma_route_put(node.keys(), i, route_entry(at, raddr));
        lemma_extent_widths(node.keys());
    }
    if node.insert(key, value) {
        node.compact();
        return None;
    }
    node.compact();
    if node.insert(key, value) {
        node.compact();
        return None;
    }
    split_for_route(node, at, raddr, Ghost(i))
}

/// The parent took the route in.
proof fn lemma_push_done(
    m: Map<u64, BtreeNode>,
    m1: Map<u64, BtreeNode>,
    m2: Map<u64, BtreeNode>,
    addr: u64,
    level: nat,
    lo: int,
    hi: int,
    i: int,
    k: int,
    new: Option<EntryView>,
    at: Bpos,
    raddr: u64,
    inserted: bool,
    node: BtreeNode,
)
    requires
        m.contains_key(addr),
        pending(m, m1, m[addr], level, lo, hi, i, k, new, at, raddr, inserted),
        m1.contains_key(addr),
        m1[addr] == m[addr],
        m2 == m1.insert(addr, node),
        node.wf(),
        node.level == level,
        node.keys() == m[addr].keys().insert(i + 1, route_entry(at, raddr)),
    ensures
        split_step_ok(
            m,
            m2,
            addr,
            level,
            lo,
            hi,
            k,
            new,
            Ok(SplitStep::Done { inserted }),
        ),
{
    let s = m[addr].keys();
    let l = (level - 1) as nat;
    let t = node.keys();
    lemma_pending(m, m1, m[addr], level, lo, hi, i, k, new, at, raddr, inserted);
    assert forall|a: u64| #[trigger] kid_has(m1, t, l, a) implies m2.contains_key(a) && m2[a]
        == m1[a] by {
        lemma_kids_level(m1, t, l, lo, hi, a);
    }
    lemma_kids_frame(m1, m2, t, l, lo, hi);
    lemma_unfold(m2, m2[addr], level, lo, hi);
    assert forall|x: int| lo <= x < hi implies #[trigger] get(m2, m2[addr], level, x)
        == after_split(get(m, m[addr], level, x), x, k, inserted, new) by {
        assert(get(m2, m2[addr], level, x) == get_kids(m2, t, l, x));
        assert(get(m, m[addr], level, x) == get_kids(m, s, l, x));
    }
    assert forall|a: u64| #[trigger] reach(m2, addr, level, a) implies reach(m, addr, level, a)
        || !m.contains_key(a) by {
        lemma_within(m2, m2[addr], level, a);
        lemma_within(m, m[addr], level, a);
        if a != addr {
            assert(kid_has(m2, t, l, a));
            assert(kid_has(m1, t, l, a));
        }
    }
    assert forall|a: u64| #[trigger]
        m.contains_key(a) && !reach(m, addr, level, a) implies m2.contains_key(a) && m2[a]
        == m[a] by {
        lemma_within(m, m[addr], level, a);
        assert(!kid_has(m, s, l, a));
    }
}

/// The parent keeps the lower part of its routes.
proof fn lemma_push_lower(
    m: Map<u64, BtreeNode>,
    m1: Map<u64, BtreeNode>,
    m2: Map<u64, BtreeNode>,
    addr: u64,
    level: nat,
    lo: int,
    hi: int,
    i: int,
    k: int,
    new: Option<EntryView>,
    at: Bpos,
    raddr: u64,
    inserted: bool,
    node: BtreeNode,
    mid: int,
)
    requires
        m.contains_key(addr),
        pending(m, m1, m[addr], level, lo, hi, i, k, new, at, raddr, inserted),
        m1.contains_key(addr),
        m1[addr] == m[addr],
        m2.contains_key(addr),
        m2[addr] == node,
        forall|a: u64| m1.contains_key(a) && a != addr ==> #[trigger] m2.contains_key(a) && m2[a]
            == m1[a],
        node.wf(),
        node.level == level,
        0 < mid < m[addr].keys().len() + 1,
        node.keys() == m[addr].keys().insert(i + 1, route_entry(at, raddr)).subrange(0, mid),
    ensures
        ({
            let t = m[addr].keys().insert(i + 1, route_entry(at, raddr));
            let med = t[mid].pos.ord();
            let l = (level - 1) as nat;
            &&& sub_wf(m2, node, level, lo, med)
            &&& lo < med < hi
            &&& forall|a: u64| #[trigger]
                within(m2, node, level, a) ==> kid_has(m1, t.subrange(0, mid), l, a) && kid_has(
                    m1,
                    t,
                    l,
                    a,
                )
            &&& built_from(m, addr, m2, addr, level)
            &&& changed_only(m, m2, addr, level)
            &&& forall|x: int|
                lo <= x < med ==> #[trigger] get(m2, node, level, x) == after_split(
                    get(m, m[addr], level, x),
                    x,
                    k,
                    inserted,
                    new,
                )
        }),
{
    let s = m[addr].keys();
    let l = (level - 1) as nat;
    let t = s.insert(i + 1, route_entry(at, raddr));
    let lt = t.subrange(0, mid);
    let med = t[mid].pos.ord();
    lemma_pending(m, m1, m[addr], level, lo, hi, i, k, new, at, raddr, inserted);
    lemma_unfold(m, m[addr], level, lo, hi);
    lemma_kids_cut(m1, t, l, lo, hi, mid);
    lemma_route_cut(m1, t, l, mid);
    assert(m1[addr].level == level);
    assert forall|a: u64| #[trigger] kid_has(m1, lt, l, a) implies m2.contains_key(a) && m2[a]
        == m1[a] by {
        assert(kid_has(m1, t, l, a));
        lemma_kids_level(m1, t, l, lo, hi, a);
        assert(a != addr);
        assert(m1.contains_key(a));
        assert(m2.contains_key(a));
    }
    lemma_kids_frame(m1, m2, lt, l, lo, med);
    assert(t[0].pos.ord() < t[mid].pos.ord());
    assert forall|j: int| 0 <= j < lt.len() implies {
        &&& lo <= (#[trigger] lt[j]).pos.ord() < med
        &&& lt[j].value is Extent
    } by {
        assert(lt[j] == t[j]);
        assert(t[j].pos.ord() < t[mid].pos.ord());
    }
    assert(lt[0] == t[0]);
    lemma_unfold(m2, node, level, lo, med);
    assert forall|a: u64| #[trigger] within(m2, node, level, a) implies kid_has(m1, lt, l, a)
        && kid_has(m1, t, l, a) by {
        lemma_within(m2, node, level, a);
        assert(kid_has(m2, lt, l, a));
        assert(kid_has(m1, lt, l, a));
    }
    assert forall|a: u64| #[trigger] reach(m2, addr, level, a) implies reach(m, addr, level, a)
        || !m.contains_key(a) by {
        lemma_within(m, m[addr], level, a);
        if a != addr {
            assert(within(m2, node, level, a));
            assert(kid_has(m1, t, l, a));
        }
    }
    assert forall|a: u64| #[trigger]
        m.contains_key(a) && !reach(m, addr, level, a) implies m2.contains_key(a) && m2[a]
        == m[a] by {
        lemma_within(m, m[addr], level, a);
        assert(!kid_has(m, s, l, a));
    }
    assert forall|x: int| lo <= x < med implies #[trigger] get(m2, node, level, x) == after_split(
        get(m, m[addr], level, x),
        x,
        k,
        inserted,
        new,
    ) by {
        assert(get(m2, node, level, x) == get_kids(m2, lt, l, x));
        assert(get_kids(m2, lt, l, x) == get_kids(m1, lt, l, x));
        assert(get_kids(m1, lt, l, x) == get_kids(m1, t, l, x));
        assert(get(m, m[addr], level, x) == get_kids(m, s, l, x));
    }
}

proof fn lemma_below_kept(
    m1: Map<u64, BtreeNode>,
    m2: Map<u64, BtreeNode>,
    level: nat,
    a: u64,
)
    requires
        forall|a: u64|
            m1.contains_key(a) && m1[a].level < level ==> #[trigger] m2.contains_key(a) && m2[a]
                == m1[a],
        m1.contains_key(a),
        m1[a].level < level,
    ensures
        m2.contains_key(a),
        m2[a] == m1[a],
{
    assert(m2.contains_key(a));
}

/// A new node has the upper part of the parent's routes.
#[verifier::spinoff_prover]
#[verifier::rlimit(40)]
pub(crate) proof fn lemma_push_upper(
    m: Map<u64, BtreeNode>,
    m1: Map<u64, BtreeNode>,
    m2: Map<u64, BtreeNode>,
    parent: BtreeNode,
    level: nat,
    lo: int,
    hi: int,
    i: int,
    k: int,
    new: Option<EntryView>,
    at: Bpos,
    raddr: u64,
    inserted: bool,
    node: BtreeNode,
    mid: int,
)
    requires
        pending(m, m1, parent, level, lo, hi, i, k, new, at, raddr, inserted),
        forall|a: u64|
            m1.contains_key(a) && m1[a].level < level ==> #[trigger] m2.contains_key(a) && m2[a]
                == m1[a],
        node.wf(),
        node.level == level,
        0 < mid < parent.keys().len() + 1,
        ({
            let t = parent.keys().insert(i + 1, route_entry(at, raddr));
            node.keys() == t.subrange(mid, t.len() as int)
        }),
    ensures
        ({
            let t = parent.keys().insert(i + 1, route_entry(at, raddr));
            let med = t[mid].pos.ord();
            let l = (level - 1) as nat;
            &&& sub_wf(m2, node, level, med, hi)
            &&& forall|a: u64| #[trigger]
                within(m2, node, level, a) ==> kid_has(m1, t.subrange(mid, t.len() as int), l, a)
                    && kid_has(m1, t, l, a)
            &&& forall|x: int|
                med <= x < hi ==> #[trigger] get(m2, node, level, x) == after_split(
                    get(m, parent, level, x),
                    x,
                    k,
                    inserted,
                    new,
                )
        }),
{
    let s = parent.keys();
    let l = (level - 1) as nat;
    let t = s.insert(i + 1, route_entry(at, raddr));
    let rt = t.subrange(mid, t.len() as int);
    let med = t[mid].pos.ord();
    lemma_pending(m, m1, parent, level, lo, hi, i, k, new, at, raddr, inserted);
    lemma_kids_cut(m1, t, l, lo, hi, mid);
    lemma_route_cut(m1, t, l, mid);
    assert forall|a: u64| #[trigger] kid_has(m1, rt, l, a) implies m2.contains_key(a) && m2[a]
        == m1[a] by {
        assert(kid_has(m1, t, l, a));
        lemma_kids_level(m1, t, l, lo, hi, a);
        lemma_below_kept(m1, m2, level, a);
    }
    lemma_kids_frame(m1, m2, rt, l, med, hi);
    assert(t[0].pos.ord() < t[mid].pos.ord());
    assert forall|j: int| 0 <= j < rt.len() implies {
        &&& med <= (#[trigger] rt[j]).pos.ord() < hi
        &&& rt[j].value is Extent
    } by {
        assert(rt[j] == t[mid + j]);
        if j > 0 {
            assert(t[mid].pos.ord() < t[mid + j].pos.ord());
        }
    }
    assert(rt[0] == t[mid]);
    lemma_unfold(m2, node, level, med, hi);
    assert forall|a: u64| #[trigger] within(m2, node, level, a) implies kid_has(m1, rt, l, a)
        && kid_has(m1, t, l, a) by {
        lemma_within(m2, node, level, a);
        assert(kid_has(m2, rt, l, a));
        assert(kid_has(m1, rt, l, a));
    }
    assert forall|x: int| med <= x < hi implies #[trigger] get(m2, node, level, x) == after_split(
        get(m, parent, level, x),
        x,
        k,
        inserted,
        new,
    ) by {
        assert(get(m2, node, level, x) == get_kids(m2, rt, l, x));
        assert(get_kids(m2, rt, l, x) == get_kids(m1, rt, l, x));
        assert(get_kids(m1, rt, l, x) == get_kids(m1, t, l, x));
        assert(get(m, parent, level, x) == get_kids(m, s, l, x));
    }
}

/// Lets the parent at `addr` know of the split of its child; the parent may have to split too.
fn push_route<W: BtreeNodeWriter>(
    cache: &mut NodeCache,
    writer: &mut W,
    addr: u64,
    at: Bpos,
    raddr: u64,
    inserted: bool,
    Ghost(m): Ghost<Map<u64, BtreeNode>>,
    Ghost(level): Ghost<nat>,
    Ghost(lo): Ghost<int>,
    Ghost(hi): Ghost<int>,
    Ghost(i): Ghost<int>,
    Ghost(k): Ghost<int>,
    Ghost(new): Ghost<Option<EntryView>>,
) -> (r: Result<SplitStep, StorageError>)
    requires
        m.contains_key(addr),
        pending(m, old(cache)@, m[addr], level, lo, hi, i, k, new, at, raddr, inserted),
        old(cache)@.contains_key(addr),
        old(cache)@[addr] == m[addr],
        old(cache)@.dom().subset_of(old(writer).in_use()),
        m.dom().subset_of(old(writer).in_use()),
    ensures
        fails_with(*old(writer), *final(writer), r),
        takes_room(*old(writer), *final(writer), r, 1),
        split_step_ok(m, final(cache)@, addr, level, lo, hi, k, new, r),
        r matches Ok(step) ==> step !is Refused && step_took(step) == inserted && (step is Pushed
            <==> m[addr].full()),
        final(cache)@.dom().subset_of(final(writer).in_use()),
        forall|a: u64|
            a != addr && #[trigger] old(cache)@.contains_key(a) ==> final(cache)@.contains_key(a)
                && final(cache)@[a] == old(cache)@[a],
        writes_kept(*old(writer), *final(writer)),
        new_written(old(cache)@, final(cache)@, *final(writer)),
        forall|a: u64| #[trigger] old(cache)@.contains_key(a) ==> final(cache)@.contains_key(a),
        marks_kept(*old(cache), *final(cache)),
        changes_marked(old(cache)@, *final(cache)),
{
    let ghost m1 = cache@;
    let ghost t = m[addr].keys().insert(i + 1, route_entry(at, raddr));
    let ghost l = (level - 1) as nat;
    proof {
        lemma_pending(m, m1, m[addr], level, lo, hi, i, k, new, at, raddr, inserted);
    }
    let mut node: BtreeNode = match cache.take_node(addr) {
        Some(n) => n,
        None => {
            return Ok(SplitStep::Refused);
        },
    };
    let placed = place_route(&mut node, at, raddr, Ghost(i));
    match placed {
        None => {
            let ghost n = node;
            let ghost dirty = cache.dirty_addrs();
            cache.insert_dirty(addr, node);
            proof {
                lemma_marked(dirty, cache.dirty_addrs(), addr);
                assert(cache@ =~= m1.insert(addr, n));
                lemma_push_done(
                    m,
                    m1,
                    cache@,
                    addr,
                    level,
                    lo,
                    hi,
                    i,
                    k,
                    new,
                    at,
                    raddr,
                    inserted,
                    n,
                );
            }
            Ok(SplitStep::Done { inserted })
        },
        Some((med, right)) => {
            let ghost n = node;
            let ghost nr = right;
            let ghost mid = node.keys().len() as int;
            let ghost dirty = cache.dirty_addrs();
            cache.insert_dirty(addr, node);
            let ghost m2 = cache@;
            proof {
                lemma_marked(dirty, cache.dirty_addrs(), addr);
                lemma_push_lower(
                    m,
                    m1,
                    m2,
                    addr,
                    level,
                    lo,
                    hi,
                    i,
                    k,
                    new,
                    at,
                    raddr,
                    inserted,
                    n,
                    mid,
                );
                lemma_widen(m2, n, level, lo, med.ord(), hi);
                assert forall|x: int| lo <= x < hi implies {
                    let y = #[trigger] get(m2, m2[addr], level, x);
                    y is None || y == get(m, m[addr], level, x) || (x == k && y == new)
                } by {
                    if x >= med.ord() {
                        lemma_get_outside(m2, n, level, lo, med.ord(), x);
                    }
                }
            }
            let r2: u64 = match writer.write_btree_node(&right) {
                Err(err) => {
                    return Err(err);
                },
                Ok(a) => a,
            };
            cache.insert(r2, right);
            proof {
                let m3 = cache@;
                assert(!m1.contains_key(r2) && !m.contains_key(r2));
                lemma_push_lower(
                    m,
                    m1,
                    m3,
                    addr,
                    level,
                    lo,
                    hi,
                    i,
                    k,
                    new,
                    at,
                    raddr,
                    inserted,
                    n,
                    mid,
                );
                lemma_push_upper(
                    m,
                    m1,
                    m3,
                    m[addr],
                    level,
                    lo,
                    hi,
                    i,
                    k,
                    new,
                    at,
                    raddr,
                    inserted,
                    nr,
                    mid,
                );
                lemma_kids_cut(m1, t, l, lo, hi, mid);
                assert forall|a: u64| #[trigger] reach(m3, r2, level, a) implies reach(
                    m,
                    addr,
                    level,
                    a,
                ) || !m.contains_key(a) by {
                    lemma_within(m, m[addr], level, a);
                    if a != r2 {
                        assert(within(m3, nr, level, a));
                        assert(kid_has(m1, t, l, a));
                    }
                }
                assert forall|a: u64| !(#[trigger] reach(m3, addr, level, a)
                    && #[trigger] reach(m3, r2, level, a)) by {
                    if reach(m3, addr, level, a) && reach(m3, r2, level, a) {
                        if a == addr {
                            assert(within(m3, nr, level, addr));
                            lemma_kids_level(m1, t, l, lo, hi, addr);
                        } else if a == r2 {
                            assert(within(m3, n, level, r2));
                            lemma_kids_level(m1, t, l, lo, hi, r2);
                        } else {
                            assert(within(m3, n, level, a) && within(m3, nr, level, a));
                            assert(kid_has(m1, t.subrange(0, mid), l, a) && kid_has(
                                m1,
                                t.subrange(mid, t.len() as int),
                                l,
                                a,
                            ));
                        }
                    }
                }
            }
            Ok(SplitStep::Pushed { at: med, addr: r2, inserted })
        },
    }
}

/// Brings the new key into the subtree of `level` at `addr` by splitting the leaf that it belongs
/// to, and whatever is full above that leaf.
#[verifier::spinoff_prover]
#[verifier::rlimit(60)]
pub(crate) fn split_path<W: BtreeNodeWriter>(
    cache: &mut NodeCache,
    writer: &mut W,
    addr: u64,
    level: u8,
    key: BtreeKey,
    value: BchVal,
    journal_seq: u64,
    Ghost(lo): Ghost<int>,
    Ghost(hi): Ghost<int>,
) -> (r: Result<SplitStep, StorageError>)
    requires
        old(cache)@.contains_key(addr),
        sub_wf(old(cache)@, old(cache)@[addr], level as nat, lo, hi),
        lo <= key.pos.ord() < hi,
        old(cache)@.dom().subset_of(old(writer).in_use()),
    ensures
        fails_with(*old(writer), *final(writer), r),
        takes_room(*old(writer), *final(writer), r, level as int + 1),
        split_step_ok(
            old(cache)@,
            final(cache)@,
            addr,
            level as nat,
            lo,
            hi,
            key.pos.ord(),
            stored(key, value),
            r,
        ),
        ({
            let leaf = leaf_of(old(cache)@, old(cache)@[addr], level as nat, key.pos.ord());
            &&& r is Err ==> leaf.keys().len() >= 2
            &&& r matches Ok(step) ==> {
                &&& step is Refused <==> leaf.keys().len() < 2
                &&& step is Refused ==> *final(writer) == *old(writer)
                &&& step_took(step) == half_takes(leaf, key.pos.ord())
                &&& step is Refused ==> final(cache).dirty_addrs() == old(cache).dirty_addrs()
                &&& step !is Refused ==> {
                    &&& step is Pushed <==> path_full(
                        old(cache)@,
                        old(cache)@[addr],
                        level as nat,
                        key.pos.ord(),
                    )
                    &&& leaf_split(
                        old(cache)@,
                        *final(cache),
                        leaf_addr(old(cache)@, addr, level as nat, key.pos.ord()),
                        taken(key, value, step_took(step)),
                        journal_seq,
                    )
                }
            }
        }),
        final(cache)@.dom().subset_of(final(writer).in_use()),
        writes_kept(*old(writer), *final(writer)),
        new_written(old(cache)@, final(cache)@, *final(writer)),
        forall|a: u64| #[trigger] old(cache)@.contains_key(a) ==> final(cache)@.contains_key(a),
        marks_kept(*old(cache), *final(cache)),
        changes_marked(old(cache)@, *final(cache)),
    decreases level,
{
    if level == 0 {
        return split_leaf_node(
            cache,
            writer,
            addr,
            key,
            value,
            journal_seq,
            Ghost(lo),
            Ghost(hi),
        );
    }
    let ghost m = cache@;
    let ghost k = key.pos.ord();
    let ghost new = stored(key, value);
    let ghost l = (level - 1) as nat;
    let ghost s = m[addr].keys();
    proof {
        lemma_unfold(m, m[addr], level as nat, lo, hi);
        assert(leaf_of(m, m[addr], level as nat, k) == leaf_of(
            m,
            m[child(s[route(s, k)])],
            l,
            k,
        ));
        assert(leaf_addr(m, addr, level as nat, k) == leaf_addr(m, child(s[route(s, k)]), l, k));
    }
    let (i, c): (usize, u64) = match cache.get(addr) {
        Some(n) => {
            let i: usize = route_idx(n, &key.pos);
            (i, n.entries[i].to_key_value().1.paddr)
        },
        None => {
            return Ok(SplitStep::Refused);
        },
    };
    proof {
        assert(kid_ok(m, s, l, lo, hi, i as int));
        lemma_route_range(s, lo, hi, k);
    }
    let step = split_path(
        cache,
        writer,
        c,
        level - 1,
        key,
        value,
        journal_seq,
        Ghost(child_lo(s, i as int, lo)),
        Ghost(child_hi(s, i as int, hi)),
    );
    let ghost m1 = cache@;
    proof {
        // the top of the subtree is not part of what lies below it
        assert(!reach(m, c, l, addr)) by {
            if within(m, m[c], l, addr) {
                lemma_within_level(
                    m,
                    m[c],
                    l,
                    child_lo(s, i as int, lo),
                    child_hi(s, i as int, hi),
                    addr,
                );
            }
        }
        assert(m.contains_key(addr));
        assert(m1.contains_key(addr) && m1[addr] == m[addr]);
    }
    match step {
        Err(err) => {
            proof {
                lemma_below_changed(m, m1, addr, level as nat, lo, hi, i as int);
                assert forall|x: int| lo <= x < hi implies {
                    let y = #[trigger] get(m1, m1[addr], level as nat, x);
                    y is None || y == get(m, m[addr], level as nat, x) || (x == k && y == new)
                } by {
                    lemma_route_range(s, lo, hi, x);
                    assert(get(m1, m1[addr], level as nat, x) == get_kids(m1, s, l, x));
                    assert(get(m, m[addr], level as nat, x) == get_kids(m, s, l, x));
                }
            }
            Err(err)
        },
        Ok(SplitStep::Refused) => {
            proof {
                assert forall|a: u64| #[trigger] reach(m1, addr, level as nat, a) implies reach(
                    m,
                    addr,
                    level as nat,
                    a,
                ) || !m.contains_key(a) by {}
            }
            Ok(SplitStep::Refused)
        },
        Ok(SplitStep::Done { inserted }) => {
            proof {
                lemma_below_changed(m, m1, addr, level as nat, lo, hi, i as int);
                assert forall|x: int| lo <= x < hi implies #[trigger] get(
                    m1,
                    m1[addr],
                    level as nat,
                    x,
                ) == after_split(get(m, m[addr], level as nat, x), x, k, inserted, new) by {
                    lemma_route_range(s, lo, hi, x);
                    assert(get(m1, m1[addr], level as nat, x) == get_kids(m1, s, l, x));
                    assert(get(m, m[addr], level as nat, x) == get_kids(m, s, l, x));
                }
            }
            Ok(SplitStep::Done { inserted })
        },
        Ok(SplitStep::Pushed { at, addr: raddr, inserted }) => {
            let ghost c1 = *cache;
            let ghost w1 = *writer;
            let ghost la = leaf_addr(m, c, l, k);
            let r = push_route(
                cache,
                writer,
                addr,
                at,
                raddr,
                inserted,
                Ghost(m),
                Ghost(level as nat),
                Ghost(lo),
                Ghost(hi),
                Ghost(i as int),
                Ghost(k),
                Ghost(new),
            );
            proof {
                if r is Ok {
                    lemma_leaf_addr(
                        m,
                        c,
                        l,
                        child_lo(s, i as int, lo),
                        child_hi(s, i as int, hi),
                        k,
                    );
                    assert(la != addr);
                    let new_entry = taken(key, value, inserted);
                    lemma_leaf_split_kept(m, c1, *cache, la, new_entry, journal_seq);
                }
                lemma_two_steps(m, c1, *cache, w1, *writer);
            }
            r
        },
    }
}

/// The leaf on the way down is a leaf.
pub(crate) proof fn lemma_leaf_addr(m: Map<u64, BtreeNode>, c: u64, level: nat, lo: int, hi: int, k: int)
    requires
        m.contains_key(c),
        sub_wf(m, m[c], level, lo, hi),
        lo <= k < hi,
    ensures
        m.contains_key(leaf_addr(m, c, level, k)),
        m[leaf_addr(m, c, level, k)].level == 0,
{
    if level > 0 {
        crate::shape::lemma_at(m, m[c], level, lo, hi, k, 0);
    }
}

/// Two steps that write what they add, and mark what they change, do so together.
pub(crate) proof fn lemma_two_steps<W: BtreeNodeWriter>(
    m: Map<u64, BtreeNode>,
    c: NodeCache,
    d: NodeCache,
    w: W,
    v: W,
)
    requires
        c@.dom().subset_of(w.in_use()),
        writes_kept(w, v),
        new_written(m, c@, w),
        new_written(c@, d@, v),
        changes_marked(m, c),
        changes_marked(c@, d),
        marks_kept(c, d),
        forall|a: u64| #[trigger] m.contains_key(a) ==> c@.contains_key(a),
        forall|a: u64|
            !m.contains_key(a) && #[trigger] c@.contains_key(a) ==> d@.contains_key(a) && d@[a]
                == c@[a],
    ensures
        new_written(m, d@, v),
        changes_marked(m, d),
{
    assert forall|a: u64| #[trigger] d@.contains_key(a) && !m.contains_key(a) implies on_disk(
        v,
        a,
        d@[a],
    ) by {
        if c@.contains_key(a) {
            assert(on_disk(w, a, c@[a]));
            assert(w.in_use().contains(a));
        }
    }
    assert forall|a: u64| #[trigger]
        m.contains_key(a) && d@.contains_key(a) && d@[a] != m[a] implies d.dirty_addrs().contains(
        a,
    ) by {
        if c@[a] != m[a] {
            assert(c.dirty_addrs().contains(a));
        } else {
            assert(c@.contains_key(a));
        }
    }
}

/// A change below entry `i` of the node at `addr`, seen from that node.
pub proof fn lemma_below_changed(
    m: Map<u64, BtreeNode>,
    m1: Map<u64, BtreeNode>,
    addr: u64,
    level: nat,
    lo: int,
    hi: int,
    i: int,
)
    requires
        level > 0,
        m.contains_key(addr),
        sub_wf(m, m[addr], level, lo, hi),
        m1.contains_key(addr),
        m1[addr] == m[addr],
        ({
            let s = m[addr].keys();
            let l = (level - 1) as nat;
            let c = child(s[i]);
            &&& 0 <= i < s.len()
            &&& changed_only(m, m1, c, l)
            &&& m1.contains_key(c)
            &&& sub_wf(m1, m1[c], l, child_lo(s, i, lo), child_hi(s, i, hi))
            &&& built_from(m, c, m1, c, l)
        }),
    ensures
        sub_wf(m1, m1[addr], level, lo, hi),
        changed_only(m, m1, addr, level),
        built_from(m, addr, m1, addr, level),
        forall|x: int| #[trigger]
            get_kids(m1, m[addr].keys(), (level - 1) as nat, x) == if route(m[addr].keys(), x)
                == i {
                get(m1, m1[child(m[addr].keys()[i])], (level - 1) as nat, x)
            } else {
                get_kids(m, m[addr].keys(), (level - 1) as nat, x)
            },
{
    let s = m[addr].keys();
    let l = (level - 1) as nat;
    lemma_unfold(m, m[addr], level, lo, hi);
    lemma_kid_changed(m, m1, s, l, lo, hi, i);
    lemma_unfold(m1, m1[addr], level, lo, hi);
    assert forall|a: u64| #[trigger] reach(m1, addr, level, a) implies reach(m, addr, level, a)
        || !m.contains_key(a) by {
        lemma_within(m, m[addr], level, a);
        lemma_within(m1, m1[addr], level, a);
        if a != addr {
            assert(kid_has(m1, s, l, a));
        }
    }
    assert forall|a: u64| #[trigger]
        m.contains_key(a) && !reach(m, addr, level, a) implies m1.contains_key(a) && m1[a]
        == m[a] by {
        lemma_within(m, m[addr], level, a);
        if reach(m, child(s[i]), l, a) {
            assert(kid_has(m, s, l, a));
        }
    }
}

/// A tombstone stores nothing, and every other key is stored as it is given.
pub proof fn law_tombstones_store_nothing(key: BtreeKey, value: BchVal)
    ensures
        key.key_type == KeyType::Deleted ==> stored(key, value) is None,
        key.key_type != KeyType::Deleted ==> {
            &&& stored(key, value) matches Some(e) && e.key() == key && e.bch_val() == value
        },
{
}

/// An entry that routes keys to a node stands where its keys begin and leads to its address.
pub proof fn law_route_entry(at: Bpos, addr: u64)
    ensures
        route_entry(at, addr).pos == at,
        route_entry(at, addr).key_type == KeyType::Normal,
        route_entry(at, addr).bch_val().paddr == addr,
        route_entry(at, addr).value is Extent,
{
}

/// A leaf that was split awaits its write, and so does every other node that changed on the way.
pub proof fn law_split_nodes_await_their_write(
    m: Map<u64, BtreeNode>,
    c: NodeCache,
    la: u64,
    new: Option<EntryView>,
    journal_seq: u64,
    a: u64,
)
    requires
        leaf_split(m, c, la, new, journal_seq),
        changes_marked(m, c),
    ensures
        c.dirty_addrs().contains(la),
        c@[la].journal_seq == journal_seq,
        m.contains_key(a) && c@.contains_key(a) && c@[a] != m[a] ==> c.dirty_addrs().contains(a),
{
    reveal(leaf_split);
    let (ra, at) = choose|ra: u64, at: Bpos| #[trigger]
        leaf_cut(m, c, la, ra, at, new, journal_seq);
}

} // verus!
