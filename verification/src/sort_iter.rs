//! Merging of several sorted runs of packed keys.

use crate::bset::MAX_BSETS;
use crate::bytes::patched;
use crate::key::{lemma_ord, Bpos};
use crate::packed::{
    ascending, cat, cell_at, cell_dead, cells, copy_bytes, keys_whole, lemma_cat_push, lemma_offs,
    offs, ord_at, read_pos,
};
use crate::writer::StorageError;
use vstd::multiset::Multiset;
use vstd::prelude::*;

verus! {

/// A run of packed keys: what is left of it.
#[derive(Debug, Clone, Copy, PartialEq, Eq, Structural)]
pub struct SortIterEntry {
    pub cur: u32,
    pub end: u32,
}

/// Several runs of packed keys in the same bytes.
#[derive(Debug)]
pub struct SortIter<'a> {
    pub data: &'a Vec<u8>,
    pub entries: Vec<SortIterEntry>,
}

/// The keys left of a run.
pub open spec fn run(d: Seq<u8>, e: SortIterEntry) -> Seq<int> {
    offs(d, e.cur as int, e.end as int)->0
}

/// A run of whole packed keys, and at least one.
pub open spec fn run_ok(d: Seq<u8>, e: SortIterEntry) -> bool {
    e.cur < e.end && offs(d, e.cur as int, e.end as int) is Some
}

/// All runs are fine.
pub open spec fn runs_ok(d: Seq<u8>, s: Seq<SortIterEntry>) -> bool {
    forall|i: int| 0 <= i < s.len() ==> run_ok(d, #[trigger] s[i])
}

/// The keys of each run are in strictly ascending order.
pub open spec fn runs_sorted(d: Seq<u8>, s: Seq<SortIterEntry>) -> bool {
    forall|i: int| 0 <= i < s.len() ==> ascending(d, run(d, #[trigger] s[i]))
}

/// One of the runs has the key at place `o`.
pub open spec fn in_runs(d: Seq<u8>, s: Seq<SortIterEntry>, o: int) -> bool {
    exists|i: int| 0 <= i < s.len() && run(d, #[trigger] s[i]).contains(o)
}

/// What the merge orders keys by: their position, and then, if asked for, their place.
pub open spec fn rank(d: Seq<u8>, o: int, by_place: bool) -> int {
    ord_at(d, o) * 0x1_0000_0000 + if by_place {
        o
    } else {
        0
    }
}

/// The first keys of the runs are in order from run `from` on.
pub open spec fn heads_sorted(
    d: Seq<u8>,
    s: Seq<SortIterEntry>,
    from: int,
    by_place: bool,
) -> bool {
    forall|i: int, j: int|
        from <= i < j < s.len() ==> rank(d, (#[trigger] s[i]).cur as int, by_place) <= rank(
            d,
            (#[trigger] s[j]).cur as int,
            by_place,
        )
}

/// The key at `o` is the newest of those at its position.
pub open spec fn newest(d: Seq<u8>, k: spec_fn(int) -> bool, o: int) -> bool {
    k(o) && forall|x: int| #[trigger] k(x) && ord_at(d, x) == ord_at(d, o) ==> x <= o
}

/// `l` are the keys of a merge in which later places win and deleted keys are left out: in strictly
/// ascending order, exactly the newest keys of their positions that are not deleted.
pub open spec fn merged(d: Seq<u8>, k: spec_fn(int) -> bool, l: Seq<int>) -> bool {
    &&& ascending(d, l)
    &&& forall|i: int|
        0 <= i < l.len() ==> newest(d, k, #[trigger] l[i]) && !cell_dead(cell_at(d, l[i]))
    &&& forall|o: int| #[trigger]
        newest(d, k, o) && !cell_dead(cell_at(d, o)) ==> l.contains(o)
}

/// The same runs in another order.
pub open spec fn same_runs(s: Seq<SortIterEntry>, t: Seq<SortIterEntry>) -> bool {
    s.to_multiset() == t.to_multiset()
}

proof fn lemma_same_runs(d: Seq<u8>, s: Seq<SortIterEntry>, t: Seq<SortIterEntry>)
    requires
        same_runs(s, t),
    ensures
        s.len() == t.len(),
        runs_ok(d, s) ==> runs_ok(d, t),
        runs_sorted(d, s) ==> runs_sorted(d, t),
        forall|o: int| in_runs(d, s, o) <==> in_runs(d, t, o),
{
    broadcast use vstd::seq_lib::group_to_multiset_ensures;

    assert(s.len() == s.to_multiset().len());
    assert(t.len() == t.to_multiset().len());
    assert forall|i: int| 0 <= i < t.len() implies s.contains(#[trigger] t[i]) by {
        assert(t.contains(t[i]));
        assert(t.to_multiset().count(t[i]) > 0);
    }
    assert forall|i: int| 0 <= i < s.len() implies t.contains(#[trigger] s[i]) by {
        assert(s.contains(s[i]));
        assert(s.to_multiset().count(s[i]) > 0);
    }
    if runs_ok(d, s) {
        assert forall|i: int| 0 <= i < t.len() implies run_ok(d, #[trigger] t[i]) by {
            let j = choose|j: int| 0 <= j < s.len() && s[j] == t[i];
            assert(run_ok(d, s[j]));
        }
    }
    if runs_sorted(d, s) {
        assert forall|i: int| 0 <= i < t.len() implies ascending(d, run(d, #[trigger] t[i])) by {
            let j = choose|j: int| 0 <= j < s.len() && s[j] == t[i];
            assert(ascending(d, run(d, s[j])));
        }
    }
    assert forall|o: int| in_runs(d, s, o) <==> in_runs(d, t, o) by {
        if in_runs(d, s, o) {
            let i = choose|i: int| 0 <= i < s.len() && run(d, #[trigger] s[i]).contains(o);
            assert(t.contains(s[i]));
            let j = choose|j: int| 0 <= j < t.len() && t[j] == s[i];
            assert(run(d, t[j]).contains(o));
        }
        if in_runs(d, t, o) {
            let i = choose|i: int| 0 <= i < t.len() && run(d, #[trigger] t[i]).contains(o);
            assert(s.contains(t[i]));
            let j = choose|j: int| 0 <= j < s.len() && s[j] == t[i];
            assert(run(d, s[j]).contains(o));
        }
    }
}

proof fn lemma_swapped(s: Seq<SortIterEntry>, i: int)
    requires
        0 <= i,
        i + 1 < s.len(),
    ensures
        same_runs(s, s.update(i, s[i + 1]).update(i + 1, s[i])),
{
    broadcast use vstd::seq_lib::group_to_multiset_ensures;

    let t = s.update(i, s[i + 1]).update(i + 1, s[i]);
    assert(s.update(i, s[i + 1]).to_multiset() =~= s.to_multiset().insert(s[i + 1]).remove(s[i]));
    assert(t.to_multiset() =~= s.update(i, s[i + 1]).to_multiset().insert(s[i]).remove(s[i + 1]));
    assert(t.to_multiset() =~= s.to_multiset());
}

impl<'a> SortIter<'a> {
    pub open spec fn ok(self) -> bool {
        runs_ok(self.data@, self.entries@)
    }

    /// No run yet.
    pub fn over(data: &'a Vec<u8>) -> (r: SortIter<'a>)
        ensures
            r.data@ == data@,
            r.entries@ == Seq::<SortIterEntry>::empty(),
    {
        SortIter { data, entries: Vec::new() }
    }

    /// Adds a run, unless it is empty.
    pub fn add(&mut self, start_offset: u32, end_offset: u32)
        requires
            start_offset < end_offset ==> old(self).entries@.len() < MAX_BSETS,
        ensures
            final(self).data@ == old(self).data@,
            final(self).entries@ == if start_offset < end_offset {
                old(self).entries@.push(SortIterEntry { cur: start_offset, end: end_offset })
            } else {
                old(self).entries@
            },
    {
        if start_offset < end_offset {
            self.entries.push(SortIterEntry { cur: start_offset, end: end_offset });
        }
    }

    /// Whether all runs are of whole packed keys.
    fn check(&self) -> (r: bool)
        requires
            forall|i: int|
                0 <= i < self.entries@.len() ==> (#[trigger] self.entries@[i]).cur
                    < self.entries@[i].end,
        ensures
            r == self.ok(),
    {
        let mut i: usize = 0;
        while i < self.entries.len()
            invariant
                i <= self.entries.len(),
                forall|i: int|
                    0 <= i < self.entries@.len() ==> (#[trigger] self.entries@[i]).cur
                        < self.entries@[i].end,
                forall|j: int| 0 <= j < i ==> run_ok(self.data@, #[trigger] self.entries@[j]),
            decreases self.entries.len() - i,
        {
            let e: SortIterEntry = self.entries[i];
            if !keys_whole(self.data, e.cur as usize, e.end as usize) {
                assert(!run_ok(self.data@, self.entries@[i as int]));
                return false;
            }
            i += 1;
        }
        true
    }

    /// Whether the first key of run `i` comes after that of the next run.
    fn out_of_order(&self, i: usize, by_place: bool) -> (r: bool)
        requires
            self.ok(),
            i + 1 < self.entries.len(),
        ensures
            r == (rank(self.data@, self.entries@[i as int].cur as int, by_place) > rank(
                self.data@,
                self.entries@[i + 1].cur as int,
                by_place,
            )),
    {
        let a: SortIterEntry = self.entries[i];
        let b: SortIterEntry = self.entries[i + 1];
        proof {
            assert(run_ok(self.data@, self.entries@[i as int]));
            assert(run_ok(self.data@, self.entries@[i + 1]));
            lemma_offs(self.data@, a.cur as int, a.end as int);
            lemma_offs(self.data@, b.cur as int, b.end as int);
        }
        let p: Bpos = read_pos(self.data, a.cur as usize);
        let q: Bpos = read_pos(self.data, b.cur as usize);
        proof {
            lemma_ord(p, q);
            lemma_ord(q, p);
        }
        if q.precedes(&p) {
            true
        } else if p.precedes(&q) {
            false
        } else {
            by_place && a.cur > b.cur
        }
    }

    /// Moves run `from` behind those whose first keys come before its own.
    fn sift(&mut self, from: usize, by_place: bool)
        requires
            old(self).ok(),
            from < old(self).entries@.len(),
            heads_sorted(old(self).data@, old(self).entries@, from + 1, by_place),
        ensures
            final(self).data@ == old(self).data@,
            final(self).ok(),
            same_runs(old(self).entries@, final(self).entries@),
            heads_sorted(final(self).data@, final(self).entries@, from as int, by_place),
            final(self).entries@.len() == old(self).entries@.len(),
            forall|j: int|
                0 <= j < from ==> #[trigger] final(self).entries@[j] == old(self).entries@[j],
    {
        let ghost d = self.data@;
        let mut i: usize = from;
        while i < self.entries.len() - 1 && self.out_of_order(i, by_place)
            invariant
                from <= i < self.entries@.len(),
                d == self.data@,
                d == old(self).data@,
                self.ok(),
                same_runs(old(self).entries@, self.entries@),
                self.entries@.len() == old(self).entries@.len(),
                forall|j: int|
                    0 <= j < from ==> #[trigger] self.entries@[j] == old(self).entries@[j],
                forall|a: int, b: int|
                    from <= a < b < self.entries@.len() && a != i ==> rank(
                        d,
                        (#[trigger] self.entries@[a]).cur as int,
                        by_place,
                    ) <= rank(d, (#[trigger] self.entries@[b]).cur as int, by_place),
            ensures
                heads_sorted(d, self.entries@, from as int, by_place),
            decreases self.entries@.len() - i,
        {
            let ghost s = self.entries@;
            let a: SortIterEntry = self.entries[i];
            let b: SortIterEntry = self.entries[i + 1];
            self.entries.set(i, b);
            self.entries.set(i + 1, a);
            proof {
                let t = self.entries@;
                assert(t =~= s.update(i as int, s[i + 1]).update(i + 1, s[i as int]));
                lemma_swapped(s, i as int);
                lemma_same_runs(d, s, t);
                assert forall|x: int, y: int|
                    from <= x < y < t.len() && x != i + 1 implies rank(
                    d,
                    (#[trigger] t[x]).cur as int,
                    by_place,
                ) <= rank(d, (#[trigger] t[y]).cur as int, by_place) by {
                    let xs = if x == i {
                        i + 1
                    } else {
                        x
                    };
                    let ys = if y == i {
                        i + 1
                    } else if y == i + 1 {
                        i as int
                    } else {
                        y
                    };
                    assert(t[x] == s[xs] && t[y] == s[ys]);
                    if xs < ys {
                        assert(rank(d, s[xs].cur as int, by_place) <= rank(
                            d,
                            s[ys].cur as int,
                            by_place,
                        ));
                    }
                }
            }
            i += 1;
        }
    }

    /// Puts the runs in the order of their first keys.
    fn sort(&mut self, by_place: bool)
        requires
            old(self).ok(),
        ensures
            final(self).data@ == old(self).data@,
            final(self).ok(),
            same_runs(old(self).entries@, final(self).entries@),
            heads_sorted(final(self).data@, final(self).entries@, 0, by_place),
    {
        let mut i: usize = self.entries.len();
        while i > 0
            invariant
                i <= self.entries@.len(),
                self.data@ == old(self).data@,
                self.ok(),
                same_runs(old(self).entries@, self.entries@),
                heads_sorted(self.data@, self.entries@, i as int, by_place),
            decreases i,
        {
            i -= 1;
            self.sift(i, by_place);
        }
    }

    /// The place of the first key.
    fn peek(&self) -> (r: Option<u32>)
        ensures
            r == if self.entries@.len() > 0 {
                Some(self.entries@[0].cur)
            } else {
                None::<u32>
            },
    {
        if self.entries.len() > 0 {
            Some(self.entries[0].cur)
        } else {
            None
        }
    }

    /// Passes over the first key.
    fn advance(&mut self, by_place: bool)
        requires
            old(self).ok(),
            old(self).entries@.len() > 0,
            heads_sorted(old(self).data@, old(self).entries@, 0, by_place),
        ensures
            final(self).data@ == old(self).data@,
            final(self).ok(),
            heads_sorted(final(self).data@, final(self).entries@, 0, by_place),
            runs_sorted(old(self).data@, old(self).entries@) ==> runs_sorted(
                final(self).data@,
                final(self).entries@,
            ),
            stepped(old(self).data@, old(self).entries@, final(self).entries@),
            keys_left(final(self).data@, final(self).entries@) + 1 == keys_left(
                old(self).data@,
                old(self).entries@,
            ),
            bytes_left(final(self).entries@) + 8 * old(self).data@[old(self).entries@[0].cur as int]
                == bytes_left(old(self).entries@),
            pool(final(self).data@, final(self).entries@).insert(
                old(self).entries@[0].cur as int,
            ) == pool(old(self).data@, old(self).entries@),
    {
        let ghost d = self.data@;
        let ghost s = self.entries@;
        let e: SortIterEntry = self.entries[0];
        proof {
            assert(run_ok(d, s[0]));
            lemma_offs(d, e.cur as int, e.end as int);
            lemma_keys_left(d, s);
        }
        let w: u32 = self.data[e.cur as usize] as u32;
        let next: u32 = e.cur + w * 8;
        if next == e.end {
            self.entries.remove(0);
            proof {
                let t = self.entries@;
                assert(t =~= s.subrange(1, s.len() as int));
                lemma_dropped(d, s, t);
                lemma_offs(d, next as int, e.end as int);
                lemma_pool_step(d, s, t);
                lemma_bytes_left_remove(s, 0);
                assert(s.remove(0) =~= t);
            }
        } else {
            let e2: SortIterEntry = SortIterEntry { cur: next, end: e.end };
            self.entries.set(0, e2);
            let ghost t = self.entries@;
            proof {
                lemma_shortened(d, s, t);
                lemma_pool_step(d, s, t);
                lemma_bytes_left_remove(s, 0);
                lemma_bytes_left_remove(t, 0);
                assert(s.remove(0) =~= t.remove(0));
            }
            self.sift(0, by_place);
            proof {
                lemma_bytes_left_same(d, t, self.entries@);
                lemma_same_runs(d, t, self.entries@);
                lemma_pool_same(d, t, self.entries@);
                lemma_keys_left_same(d, t, self.entries@);
                assert forall|o: int| in_runs(d, self.entries@, o) <==> in_runs(d, t, o) by {}
            }
        }
    }

    /// Whether the first key is hidden by one at the same position in another run.
    fn should_drop_next_key(&self) -> (r: bool)
        requires
            self.ok(),
        ensures
            r == (self.entries@.len() >= 2 && ord_at(self.data@, self.entries@[0].cur as int)
                == ord_at(self.data@, self.entries@[1].cur as int)),
    {
        if self.entries.len() < 2 {
            return false;
        }
        let a: SortIterEntry = self.entries[0];
        let b: SortIterEntry = self.entries[1];
        proof {
            assert(run_ok(self.data@, self.entries@[0]));
            assert(run_ok(self.data@, self.entries@[1]));
            lemma_offs(self.data@, a.cur as int, a.end as int);
            lemma_offs(self.data@, b.cur as int, b.end as int);
        }
        let p: Bpos = read_pos(self.data, a.cur as usize);
        let q: Bpos = read_pos(self.data, b.cur as usize);
        proof {
            lemma_ord(p, q);
        }
        p == q
    }
}

/// The keys left of all runs, in number.
pub open spec fn keys_left(d: Seq<u8>, s: Seq<SortIterEntry>) -> nat
    decreases s.len(),
{
    if s.len() == 0 {
        0
    } else {
        keys_left(d, s.drop_last()) + run(d, s.last()).len()
    }
}

/// The bytes left of all runs, in number.
pub open spec fn bytes_left(s: Seq<SortIterEntry>) -> int
    decreases s.len(),
{
    if s.len() == 0 {
        0
    } else {
        bytes_left(s.drop_last()) + (s.last().end - s.last().cur)
    }
}

proof fn lemma_bytes_left_remove(t: Seq<SortIterEntry>, j: int)
    requires
        0 <= j < t.len(),
    ensures
        bytes_left(t) == bytes_left(t.remove(j)) + (t[j].end - t[j].cur),
    decreases t.len(),
{
    if j == t.len() - 1 {
        assert(t.remove(j) =~= t.drop_last());
    } else {
        lemma_bytes_left_remove(t.drop_last(), j);
        assert(t.remove(j).drop_last() =~= t.drop_last().remove(j));
        assert(t.remove(j).last() == t.last());
    }
}

/// The order of the runs does not matter to the number of their bytes.
proof fn lemma_bytes_left_same(d: Seq<u8>, s: Seq<SortIterEntry>, t: Seq<SortIterEntry>)
    requires
        same_runs(s, t),
    ensures
        bytes_left(s) == bytes_left(t),
    decreases s.len(),
{
    broadcast use vstd::seq_lib::group_to_multiset_ensures;

    lemma_same_runs(d, s, t);
    if s.len() > 0 {
        let x = s.last();
        assert(s.contains(x));
        assert(s.to_multiset().count(x) > 0);
        assert(t.contains(x));
        let j = choose|j: int| 0 <= j < t.len() && t[j] == x;
        let u = t.remove(j);
        assert(s.drop_last() =~= s.remove(s.len() - 1));
        assert(s.drop_last().to_multiset() =~= s.to_multiset().remove(x));
        assert(u.to_multiset() =~= t.to_multiset().remove(x));
        lemma_bytes_left_same(d, s.drop_last(), u);
        lemma_bytes_left_remove(t, j);
    }
}

/// Runs with something left have bytes left.
proof fn lemma_bytes_left_pos(s: Seq<SortIterEntry>)
    requires
        forall|i: int| 0 <= i < s.len() ==> (#[trigger] s[i]).cur <= s[i].end,
    ensures
        bytes_left(s) >= 0,
    decreases s.len(),
{
    if s.len() > 0 {
        assert forall|i: int| 0 <= i < s.len() - 1 implies (#[trigger] s.drop_last()[i]).cur
            <= s.drop_last()[i].end by {
            assert(s.drop_last()[i] == s[i]);
        }
        lemma_bytes_left_pos(s.drop_last());
    }
}

/// The first run counts for what it has.
proof fn lemma_keys_left(d: Seq<u8>, s: Seq<SortIterEntry>)
    requires
        s.len() > 0,
    ensures
        keys_left(d, s) == run(d, s[0]).len() + keys_left(d, s.subrange(1, s.len() as int)),
    decreases s.len(),
{
    let r = s.subrange(1, s.len() as int);
    if s.len() == 1 {
        assert(s.drop_last() =~= Seq::<SortIterEntry>::empty());
        assert(r =~= Seq::<SortIterEntry>::empty());
    } else {
        lemma_keys_left(d, s.drop_last());
        assert(s.drop_last().subrange(1, s.len() - 1) =~= r.drop_last());
        assert(r.last() == s.last());
    }
}

/// The order of the runs does not matter to the number of their keys.
proof fn lemma_keys_left_same(d: Seq<u8>, s: Seq<SortIterEntry>, t: Seq<SortIterEntry>)
    requires
        same_runs(s, t),
    ensures
        keys_left(d, s) == keys_left(d, t),
    decreases s.len(),
{
    broadcast use vstd::seq_lib::group_to_multiset_ensures;

    lemma_same_runs(d, s, t);
    if s.len() > 0 {
        let x = s.last();
        assert(s.contains(x));
        assert(s.to_multiset().count(x) > 0);
        assert(t.contains(x));
        let j = choose|j: int| 0 <= j < t.len() && t[j] == x;
        let u = t.remove(j);
        assert(s.drop_last() =~= s.remove(s.len() - 1));
        assert(s.drop_last().to_multiset() =~= s.to_multiset().remove(x));
        assert(u.to_multiset() =~= t.to_multiset().remove(x));
        lemma_keys_left_same(d, s.drop_last(), u);
        lemma_keys_left_remove(d, t, j);
    }
}

proof fn lemma_keys_left_remove(d: Seq<u8>, t: Seq<SortIterEntry>, j: int)
    requires
        0 <= j < t.len(),
    ensures
        keys_left(d, t) == keys_left(d, t.remove(j)) + run(d, t[j]).len(),
    decreases t.len(),
{
    if j == t.len() - 1 {
        assert(t.remove(j) =~= t.drop_last());
    } else {
        lemma_keys_left_remove(d, t.drop_last(), j);
        assert(t.remove(j).drop_last() =~= t.drop_last().remove(j));
        assert(t.remove(j).last() == t.last());
    }
}

/// The runs of `t` are those of `s` without the first key of the first run; another run may still
/// have a key at that place.
pub open spec fn stepped(d: Seq<u8>, s: Seq<SortIterEntry>, t: Seq<SortIterEntry>) -> bool {
    &&& forall|o: int| #[trigger] in_runs(d, t, o) ==> in_runs(d, s, o)
    &&& forall|o: int| #[trigger] in_runs(d, s, o) && o != s[0].cur ==> in_runs(d, t, o)
    &&& forall|i: int, o: int|
        1 <= i < s.len() && #[trigger] run(d, s[i]).contains(o) ==> in_runs(d, t, o)
    &&& forall|o: int| #[trigger]
        in_runs(d, t, o) ==> (exists|i: int| 1 <= i < s.len() && run(d, #[trigger] s[i]).contains(o))
            || run(d, s[0]).subrange(1, run(d, s[0]).len() as int).contains(o)
}

proof fn lemma_dropped(d: Seq<u8>, s: Seq<SortIterEntry>, t: Seq<SortIterEntry>)
    requires
        s.len() > 0,
        runs_ok(d, s),
        t == s.subrange(1, s.len() as int),
        run(d, s[0]).len() == 1,
    ensures
        stepped(d, s, t),
        runs_ok(d, t),
{
    lemma_offs(d, s[0].cur as int, s[0].end as int);
    assert(run_ok(d, s[0]));
    let r = run(d, s[0]);
    assert(forall|i: int| 0 <= i < t.len() ==> #[trigger] t[i] == s[i + 1]);
    assert forall|o: int| #[trigger] in_runs(d, t, o) implies in_runs(d, s, o) && exists|i: int|
        1 <= i < s.len() && run(d, #[trigger] s[i]).contains(o) by {
        let i = choose|i: int| 0 <= i < t.len() && run(d, #[trigger] t[i]).contains(o);
        assert(run(d, s[i + 1]).contains(o));
    }
    assert forall|i: int, o: int|
        1 <= i < s.len() && #[trigger] run(d, s[i]).contains(o) implies in_runs(d, t, o) by {
        assert(t[i - 1] == s[i]);
    }
    assert forall|o: int| #[trigger] in_runs(d, s, o) && o != s[0].cur implies in_runs(d, t, o) by {
        let i = choose|i: int| 0 <= i < s.len() && run(d, #[trigger] s[i]).contains(o);
        if i == 0 {
            let j = choose|j: int| 0 <= j < r.len() && r[j] == o;
            assert(j == 0);
        } else {
            assert(t[i - 1] == s[i]);
        }
    }
}

proof fn lemma_shortened(d: Seq<u8>, s: Seq<SortIterEntry>, t: Seq<SortIterEntry>)
    requires
        s.len() > 0,
        runs_ok(d, s),
        t.len() == s.len(),
        t == s.update(0, t[0]),
        t[0].end == s[0].end,
        t[0].cur == s[0].cur + 8 * d[s[0].cur as int],
        t[0].cur < t[0].end,
    ensures
        stepped(d, s, t),
        runs_ok(d, t),
        runs_sorted(d, s) ==> runs_sorted(d, t),
        keys_left(d, t) + 1 == keys_left(d, s),
{
    let r = run(d, s[0]);
    let q = run(d, t[0]);
    assert(run_ok(d, s[0]));
    lemma_offs(d, s[0].cur as int, s[0].end as int);
    assert(q == r.subrange(1, r.len() as int));
    assert(forall|i: int| 1 <= i < t.len() ==> #[trigger] t[i] == s[i]);
    assert(run_ok(d, t[0]));
    assert forall|i: int| 0 <= i < t.len() implies run_ok(d, #[trigger] t[i]) by {
        if i > 0 {
            assert(run_ok(d, s[i]));
        }
    }
    assert forall|j: int| 0 <= j < q.len() implies q[j] == r[j + 1] by {}
    assert forall|o: int| #[trigger] in_runs(d, t, o) implies in_runs(d, s, o) && ((exists|i: int|
        1 <= i < s.len() && run(d, #[trigger] s[i]).contains(o)) || q.contains(o)) by {
        let i = choose|i: int| 0 <= i < t.len() && run(d, #[trigger] t[i]).contains(o);
        if i == 0 {
            let j = choose|j: int| 0 <= j < q.len() && q[j] == o;
            assert(r[j + 1] == o);
            assert(run(d, s[0]).contains(o));
        } else {
            assert(run(d, s[i]).contains(o));
        }
    }
    assert forall|i: int, o: int|
        1 <= i < s.len() && #[trigger] run(d, s[i]).contains(o) implies in_runs(d, t, o) by {
        assert(t[i] == s[i]);
    }
    assert forall|o: int| #[trigger] in_runs(d, s, o) && o != s[0].cur implies in_runs(d, t, o) by {
        let i = choose|i: int| 0 <= i < s.len() && run(d, #[trigger] s[i]).contains(o);
        if i == 0 {
            let j = choose|j: int| 0 <= j < r.len() && r[j] == o;
            assert(q[j - 1] == o);
            assert(run(d, t[0]).contains(o));
        } else {
            assert(t[i] == s[i]);
        }
    }
    if runs_sorted(d, s) {
        assert(ascending(d, run(d, s[0])));
        assert forall|i: int| 0 <= i < t.len() implies ascending(d, run(d, #[trigger] t[i])) by {
            if i == 0 {
                assert forall|a: int, b: int| 0 <= a < b < q.len() implies ord_at(
                    d,
                    #[trigger] q[a],
                ) < ord_at(d, #[trigger] q[b]) by {
                    assert(ord_at(d, r[a + 1]) < ord_at(d, r[b + 1]));
                }
            } else {
                assert(ascending(d, run(d, s[i])));
            }
        }
    }
    lemma_keys_left(d, s);
    lemma_keys_left(d, t);
    assert(s.subrange(1, s.len() as int) =~= t.subrange(1, t.len() as int));
}

/// The first key of all, and what is left after it: nothing comes before it, and nothing is at its
/// position but what the next run has there.
proof fn lemma_head(d: Seq<u8>, s: Seq<SortIterEntry>, by_place: bool, o: int)
    requires
        s.len() > 0,
        runs_ok(d, s),
        runs_sorted(d, s),
        heads_sorted(d, s, 0, by_place),
        in_runs(d, s, o),
    ensures
        ord_at(d, s[0].cur as int) <= ord_at(d, o),
        by_place ==> rank(d, s[0].cur as int, true) <= rank(d, o, true),
{
    let i = choose|i: int| 0 <= i < s.len() && run(d, #[trigger] s[i]).contains(o);
    let r = run(d, s[i]);
    assert(run_ok(d, s[i]));
    assert(run_ok(d, s[0]));
    lemma_offs(d, s[i].cur as int, s[i].end as int);
    lemma_offs(d, s[0].cur as int, s[0].end as int);
    let j = choose|j: int| 0 <= j < r.len() && r[j] == o;
    assert(ascending(d, r));
    assert(r[0] == s[i].cur);
    if j > 0 {
        assert(ord_at(d, r[0]) < ord_at(d, r[j]));
    }
    if i > 0 {
        assert(rank(d, s[0].cur as int, by_place) <= rank(d, s[i].cur as int, by_place));
    }
}

/// Whether anything else is at the position of the first key is seen at the first key of the second
/// run.
proof fn lemma_hidden(
    d: Seq<u8>,
    s: Seq<SortIterEntry>,
    t: Seq<SortIterEntry>,
    by_place: bool,
    o: int,
)
    requires
        s.len() > 0,
        runs_ok(d, s),
        runs_sorted(d, s),
        heads_sorted(d, s, 0, by_place),
        stepped(d, s, t),
        in_runs(d, t, o),
        ord_at(d, o) == ord_at(d, s[0].cur as int),
    ensures
        s.len() >= 2,
        ord_at(d, s[1].cur as int) == ord_at(d, s[0].cur as int),
{
    let r = run(d, s[0]);
    assert(run_ok(d, s[0]));
    lemma_offs(d, s[0].cur as int, s[0].end as int);
    assert(ascending(d, r));
    let q = r.subrange(1, r.len() as int);
    if q.contains(o) {
        let j = choose|j: int| 0 <= j < q.len() && q[j] == o;
        assert(r[j + 1] == o);
        assert(ord_at(d, r[0]) < ord_at(d, r[j + 1]));
    } else {
        let i = choose|i: int| 1 <= i < s.len() && run(d, #[trigger] s[i]).contains(o);
        let p = run(d, s[i]);
        assert(run_ok(d, s[i]));
        lemma_offs(d, s[i].cur as int, s[i].end as int);
        assert(ascending(d, p));
        let j = choose|j: int| 0 <= j < p.len() && p[j] == o;
        if j > 0 {
            assert(ord_at(d, p[0]) < ord_at(d, p[j]));
        }
        assert(rank(d, s[0].cur as int, by_place) <= rank(d, s[1].cur as int, by_place));
        if i > 1 {
            assert(rank(d, s[1].cur as int, by_place) <= rank(d, s[i].cur as int, by_place));
        }
        lemma_places(d, s[0]);
        lemma_places(d, s[1]);
        lemma_places(d, s[i]);
    }
}

/// Places are numbers of four bytes.
proof fn lemma_places(d: Seq<u8>, e: SortIterEntry)
    ensures
        0 <= e.cur < 0x1_0000_0000,
{
}

/// The merge so far: `l` was kept, and what is left is in the runs `s`.
spec fn merging(
    d: Seq<u8>,
    all: Seq<SortIterEntry>,
    s: Seq<SortIterEntry>,
    l: Seq<int>,
) -> bool {
    &&& forall|o: int| #[trigger] in_runs(d, s, o) ==> in_runs(d, all, o)
    &&& ascending(d, l)
    &&& forall|i: int|
        0 <= i < l.len() ==> {
            let o = #[trigger] l[i];
            &&& in_runs(d, all, o)
            &&& !cell_dead(cell_at(d, o))
            &&& forall|x: int| #[trigger] in_runs(d, s, x) ==> ord_at(d, o) < ord_at(d, x)
            &&& forall|x: int| #[trigger]
                in_runs(d, all, x) && ord_at(d, x) == ord_at(d, o) ==> x <= o
        }
    &&& forall|p: int| #[trigger]
        in_runs(d, all, p) && !in_runs(d, s, p) && !cell_dead(cell_at(d, p)) ==> l.contains(p)
            || exists|x: int| #[trigger]
            in_runs(d, all, x) && x > p && ord_at(d, x) == ord_at(d, p)
    &&& forall|p: int, k: int|
        #![trigger in_runs(d, all, p), in_runs(d, s, k)]
        in_runs(d, all, p) && !in_runs(d, s, p) && in_runs(d, s, k) ==> rank(d, p, true) <= rank(
            d,
            k,
            true,
        )
}

/// One step of the merge.
proof fn lemma_merge_step(
    d: Seq<u8>,
    all: Seq<SortIterEntry>,
    s: Seq<SortIterEntry>,
    t: Seq<SortIterEntry>,
    l: Seq<int>,
    keep: bool,
)
    requires
        s.len() > 0,
        runs_ok(d, s),
        runs_ok(d, all),
        runs_sorted(d, s),
        heads_sorted(d, s, 0, true),
        stepped(d, s, t),
        merging(d, all, s, l),
        keep == (!cell_dead(cell_at(d, s[0].cur as int)) && !(s.len() >= 2 && ord_at(
            d,
            s[0].cur as int,
        ) == ord_at(d, s[1].cur as int))),
    ensures
        merging(
            d,
            all,
            t,
            if keep {
                l.push(s[0].cur as int)
            } else {
                l
            },
        ),
{
    let o = s[0].cur as int;
    let l2 = if keep {
        l.push(o)
    } else {
        l
    };
    assert(run_ok(d, s[0]));
    lemma_offs(d, s[0].cur as int, s[0].end as int);
    assert(run(d, s[0])[0] == o);
    assert(run(d, s[0]).contains(o));
    assert(in_runs(d, s, o));
    assert(in_runs(d, all, o));
    let lone = !(s.len() >= 2 && ord_at(d, o) == ord_at(d, s[1].cur as int));
    assert forall|x: int| #[trigger] in_runs(d, t, x) implies ord_at(d, o) <= ord_at(d, x) && rank(
        d,
        o,
        true,
    ) <= rank(d, x, true) && (lone ==> ord_at(d, o) < ord_at(d, x)) by {
        assert(in_runs(d, s, x));
        lemma_head(d, s, true, x);
        if ord_at(d, x) == ord_at(d, o) {
            lemma_hidden(d, s, t, true, x);
        }
    }
    // What was passed over before, and what is passed over now.
    assert forall|p: int, k: int|
        #![trigger in_runs(d, all, p), in_runs(d, t, k)]
        in_runs(d, all, p) && !in_runs(d, t, p) && in_runs(d, t, k) implies rank(d, p, true)
        <= rank(d, k, true) by {
        assert(in_runs(d, s, k));
        if in_runs(d, s, p) {
            assert(p == o);
        }
    }
    if keep {
        assert forall|x: int| #[trigger]
            in_runs(d, all, x) && ord_at(d, x) == ord_at(d, o) implies x <= o by {
            if in_runs(d, t, x) {
            } else if in_runs(d, s, x) {
                assert(x == o);
            } else {
                assert(rank(d, x, true) <= rank(d, o, true));
            }
        }
        assert forall|i: int, j: int| 0 <= i < j < l2.len() implies ord_at(d, #[trigger] l2[i])
            < ord_at(d, #[trigger] l2[j]) by {
            assert(l2[i] == l[i]);
            if j < l.len() {
                assert(l2[j] == l[j]);
            } else {
                assert(in_runs(d, s, o));
            }
        }
    }
    assert forall|i: int| 0 <= i < l2.len() implies {
        let q = #[trigger] l2[i];
        &&& in_runs(d, all, q)
        &&& !cell_dead(cell_at(d, q))
        &&& forall|x: int| #[trigger] in_runs(d, t, x) ==> ord_at(d, q) < ord_at(d, x)
        &&& forall|x: int| #[trigger]
            in_runs(d, all, x) && ord_at(d, x) == ord_at(d, q) ==> x <= q
    } by {
        if i < l.len() {
            assert(l2[i] == l[i]);
            let q = l[i];
            assert forall|x: int| #[trigger] in_runs(d, t, x) implies ord_at(d, q) < ord_at(
                d,
                x,
            ) by {
                assert(in_runs(d, s, x));
            }
        }
    }
    assert forall|p: int| #[trigger]
        in_runs(d, all, p) && !in_runs(d, t, p) && !cell_dead(cell_at(d, p)) implies l2.contains(
        p,
    ) || exists|x: int| #[trigger] in_runs(d, all, x) && x > p && ord_at(d, x) == ord_at(d, p) by {
        if in_runs(d, s, p) {
            assert(p == o);
            if keep {
                assert(l2[l.len() as int] == o);
            } else {
                let x = s[1].cur as int;
                assert(run_ok(d, s[1]));
                lemma_offs(d, s[1].cur as int, s[1].end as int);
                assert(run(d, s[1])[0] == x);
                assert(run(d, s[1]).contains(x));
                assert(in_runs(d, t, x));
                assert(in_runs(d, s, x));
                assert(rank(d, s[0].cur as int, true) <= rank(d, s[1].cur as int, true));
                assert(x != o);
                assert(in_runs(d, all, x) && x > p && ord_at(d, x) == ord_at(d, p));
            }
        } else if l.contains(p) {
            let i = choose|i: int| 0 <= i < l.len() && l[i] == p;
            assert(l2[i] == p);
        }
    }
}

/// The bytes that a merge gives.
pub open spec fn merge_bytes(d: Seq<u8>, l: Seq<int>) -> Seq<u8> {
    cat(cells(d, l))
}

proof fn lemma_more_bytes(d: Seq<u8>, l: Seq<int>, o: int)
    ensures
        merge_bytes(d, l.push(o)) == merge_bytes(d, l) + cell_at(d, o),
{
    assert(cells(d, l.push(o)) =~= cells(d, l).push(cell_at(d, o)));
    lemma_cat_push(cells(d, l), cell_at(d, o));
}

/// Bytes put in twice are put in together.
proof fn lemma_patched_twice(s: Seq<u8>, a: Seq<u8>, b: Seq<u8>)
    requires
        a.len() + b.len() <= s.len(),
    ensures
        patched(patched(s, 0, a), a.len() as int, b) == patched(s, 0, a + b),
{
    assert(patched(patched(s, 0, a), a.len() as int, b) =~= patched(s, 0, a + b));
}

impl<'a> SortIter<'a> {
    /// All keys that are left, in number.
    pub fn total_keys(&self) -> (r: usize)
        requires
            self.ok(),
            keys_left(self.data@, self.entries@) <= usize::MAX,
        ensures
            r == keys_left(self.data@, self.entries@),
    {
        let ghost d = self.data@;
        let ghost s = self.entries@;
        let mut count: usize = 0;
        let mut i: usize = 0;
        assert(s.take(0) =~= Seq::<SortIterEntry>::empty());
        while i < self.entries.len()
            invariant
                self.ok(),
                d == self.data@,
                s == self.entries@,
                i <= s.len(),
                count == keys_left(d, s.take(i as int)),
                keys_left(d, s) <= usize::MAX,
            decreases self.entries.len() - i,
        {
            let e: SortIterEntry = self.entries[i];
            let mut cur: u32 = e.cur;
            let ghost before = count as nat;
            proof {
                assert(run_ok(d, s[i as int]));
                let t = s.take(i + 1);
                assert(t.drop_last() =~= s.take(i as int));
                assert(t.last() == e);
                lemma_left_prefix(d, s, i + 1);
            }
            while cur < e.end
                invariant
                    d == self.data@,
                    cur <= e.end,
                    offs(d, cur as int, e.end as int) is Some,
                    before + run(d, e).len() <= usize::MAX,
                    count + offs(d, cur as int, e.end as int)->0.len() == before + run(d, e).len(),
                decreases e.end - cur,
            {
                proof {
                    lemma_offs(d, cur as int, e.end as int);
                }
                let w: u32 = self.data[cur as usize] as u32;
                count += 1;
                cur = cur + 8 * w;
            }
            i += 1;
        }
        assert(s.take(i as int) =~= s);
        count
    }

    /// Merges all runs into `dst`: of several keys at one position the last one in the bytes wins,
    /// and deleted keys are left out. Gives the number of bytes and of keys.
    pub fn sort_into(&mut self, dst: &mut Vec<u8>) -> (r: Result<(usize, usize), StorageError>)
        requires
            forall|i: int|
                0 <= i < old(self).entries@.len() ==> (#[trigger] old(self).entries@[i]).cur
                    < old(self).entries@[i].end,
        ensures
            final(dst)@.len() == old(dst)@.len(),
            !old(self).ok() ==> r == Err::<(usize, usize), StorageError>(StorageError::Corruption)
                && final(dst)@ == old(dst)@,
            r is Err ==> r->Err_0 == StorageError::Corruption,
            old(self).ok() && runs_sorted(old(self).data@, old(self).entries@) ==> {
                let d = old(self).data@;
                let k = |o: int| in_runs(d, old(self).entries@, o);
                exists|l: Seq<int>| #[trigger]
                    merged(d, k, l) && {
                        let b = merge_bytes(d, l);
                        &&& b.len() <= bytes_left(old(self).entries@)
                        &&& r is Ok <==> b.len() <= old(dst)@.len()
                        &&& r is Ok ==> r->Ok_0 == (b.len() as usize, l.len() as usize)
                            && final(dst)@ == patched(old(dst)@, 0, b)
                    }
            },
    {
        if !self.check() {
            return Err(StorageError::Corruption);
        }
        let ghost d = self.data@;
        let ghost all = self.entries@;
        let ghost dst0 = dst@;
        let ghost sorted = runs_sorted(d, all);
        self.sort(true);
        proof {
            lemma_same_runs(d, all, self.entries@);
            lemma_bytes_left_same(d, all, self.entries@);
        }
        let mut at: usize = 0;
        let mut written: usize = 0;
        let mut too_long: bool = false;
        let ghost mut l: Seq<int> = Seq::empty();
        proof {
            assert(merge_bytes(d, l) =~= Seq::<u8>::empty());
            assert(patched(dst0, 0, merge_bytes(d, l)) =~= dst0);
            assert forall|p: int|
                in_runs(d, all, p) && !in_runs(d, self.entries@, p) implies false by {}
        }
        while self.entries.len() > 0
            invariant
                d == self.data@,
                d == old(self).data@,
                all == old(self).entries@,
                dst0 == old(dst)@,
                runs_ok(d, all),
                self.ok(),
                heads_sorted(d, self.entries@, 0, true),
                sorted == runs_sorted(d, all),
                sorted ==> runs_sorted(d, self.entries@),
                sorted ==> merging(d, all, self.entries@, l),
                merge_bytes(d, l).len() + bytes_left(self.entries@) <= bytes_left(all),
                dst@.len() == dst0.len(),
                at <= dst0.len(),
                written <= at,
                !too_long ==> {
                    &&& at == merge_bytes(d, l).len()
                    &&& written == l.len()
                    &&& dst@ == patched(dst0, 0, merge_bytes(d, l))
                },
                too_long ==> merge_bytes(d, l).len() > dst0.len(),
            decreases keys_left(d, self.entries@),
        {
            let ghost s = self.entries@;
            let e: SortIterEntry = self.entries[0];
            let o: usize = e.cur as usize;
            proof {
                assert(run_ok(d, s[0]));
                lemma_offs(d, e.cur as int, e.end as int);
            }
            let dead: bool = self.data[o + 2] == 0;
            assert(dead == cell_dead(cell_at(d, o as int)));
            let hidden: bool = self.should_drop_next_key();
            if !dead && !hidden {
                let n: usize = self.data[o] as usize * 8;
                proof {
                    lemma_more_bytes(d, l, o as int);
                }
                if too_long || n > dst.len() - at {
                    too_long = true;
                } else {
                    copy_bytes(dst, at, self.data, o, n);
                    proof {
                        lemma_patched_twice(dst0, merge_bytes(d, l), cell_at(d, o as int));
                    }
                    at = at + n;
                    written = written + 1;
                }
            }
            self.advance(true);
            proof {
                if sorted {
                    lemma_merge_step(d, all, s, self.entries@, l, !dead && !hidden);
                }
                if !dead && !hidden {
                    l = l.push(o as int);
                }
            }
        }
        proof {
            if sorted {
                lemma_merge_done(d, all, self.entries@, l);
            }
        }
        if too_long {
            return Err(StorageError::Corruption);
        }
        Ok((at, written))
    }
}

proof fn lemma_left_prefix(d: Seq<u8>, s: Seq<SortIterEntry>, i: int)
    requires
        0 <= i <= s.len(),
    ensures
        keys_left(d, s.take(i)) <= keys_left(d, s),
    decreases s.len(),
{
    if i < s.len() {
        lemma_left_prefix(d, s.drop_last(), i);
        assert(s.drop_last().take(i) =~= s.take(i));
    } else {
        assert(s.take(i) =~= s);
    }
}

/// A merge with nothing left is done.
proof fn lemma_merge_done(d: Seq<u8>, all: Seq<SortIterEntry>, s: Seq<SortIterEntry>, l: Seq<int>)
    requires
        merging(d, all, s, l),
        s.len() == 0,
    ensures
        merged(d, |o: int| in_runs(d, all, o), l),
{
    let k = |o: int| in_runs(d, all, o);
    assert forall|o: int| !in_runs(d, s, o) by {}
    assert forall|i: int| 0 <= i < l.len() implies newest(d, k, #[trigger] l[i]) && !cell_dead(
        cell_at(d, l[i]),
    ) by {
        let q = l[i];
        assert(in_runs(d, all, q));
        assert forall|x: int| #[trigger] k(x) && ord_at(d, x) == ord_at(d, q) implies x <= q by {
            assert(in_runs(d, all, x));
        }
    }
    assert forall|o: int| #[trigger]
        newest(d, k, o) && !cell_dead(cell_at(d, o)) implies l.contains(o) by {
        assert(k(o));
        assert(in_runs(d, all, o));
        if !l.contains(o) {
            let x = choose|x: int| #[trigger]
                in_runs(d, all, x) && x > o && ord_at(d, x) == ord_at(d, o);
            assert(k(x));
        }
    }
}

/// All keys that are left, each as often as runs have it.
pub open spec fn pool(d: Seq<u8>, s: Seq<SortIterEntry>) -> Multiset<int>
    decreases s.len(),
{
    if s.len() == 0 {
        Multiset::empty()
    } else {
        pool(d, s.drop_last()).add(run(d, s.last()).to_multiset())
    }
}

proof fn lemma_pool_remove(d: Seq<u8>, t: Seq<SortIterEntry>, j: int)
    requires
        0 <= j < t.len(),
    ensures
        pool(d, t) == pool(d, t.remove(j)).add(run(d, t[j]).to_multiset()),
    decreases t.len(),
{
    if j == t.len() - 1 {
        assert(t.remove(j) =~= t.drop_last());
    } else {
        lemma_pool_remove(d, t.drop_last(), j);
        assert(t.remove(j).drop_last() =~= t.drop_last().remove(j));
        assert(t.remove(j).last() == t.last());
        assert(pool(d, t) =~= pool(d, t.remove(j)).add(run(d, t[j]).to_multiset()));
    }
}

/// The order of the runs does not matter to their keys.
proof fn lemma_pool_same(d: Seq<u8>, s: Seq<SortIterEntry>, t: Seq<SortIterEntry>)
    requires
        same_runs(s, t),
    ensures
        pool(d, s) == pool(d, t),
    decreases s.len(),
{
    broadcast use vstd::seq_lib::group_to_multiset_ensures;

    lemma_same_runs(d, s, t);
    if s.len() > 0 {
        let x = s.last();
        assert(s.contains(x));
        assert(s.to_multiset().count(x) > 0);
        assert(t.contains(x));
        let j = choose|j: int| 0 <= j < t.len() && t[j] == x;
        let u = t.remove(j);
        assert(s.drop_last() =~= s.remove(s.len() - 1));
        assert(s.drop_last().to_multiset() =~= s.to_multiset().remove(x));
        assert(u.to_multiset() =~= t.to_multiset().remove(x));
        lemma_pool_same(d, s.drop_last(), u);
        lemma_pool_remove(d, t, j);
    }
}

/// The first run without its first key.
proof fn lemma_pool_step(d: Seq<u8>, s: Seq<SortIterEntry>, t: Seq<SortIterEntry>)
    requires
        s.len() > 0,
        runs_ok(d, s),
        ({
            let r = run(d, s[0]);
            let rest = s.subrange(1, s.len() as int);
            ||| t == rest && r.len() == 1
            ||| t.len() == s.len() && t == s.update(0, t[0]) && run(d, t[0]) == r.subrange(
                1,
                r.len() as int,
            )
        }),
    ensures
        pool(d, t).insert(s[0].cur as int) == pool(d, s),
{
    broadcast use vstd::seq_lib::group_to_multiset_ensures;

    let r = run(d, s[0]);
    let rest = s.subrange(1, s.len() as int);
    assert(run_ok(d, s[0]));
    lemma_offs(d, s[0].cur as int, s[0].end as int);
    lemma_pool_remove(d, s, 0);
    assert(s.remove(0) =~= rest);
    assert(r.remove(0) =~= r.subrange(1, r.len() as int));
    assert(r.to_multiset().count(r[0]) > 0) by {
        assert(r.contains(r[0]));
    }
    assert(r.remove(0).to_multiset() =~= r.to_multiset().remove(r[0]));
    if t == rest && r.len() == 1 {
        assert(r.remove(0) =~= Seq::<int>::empty());
        assert(pool(d, t).insert(r[0]) =~= pool(d, s));
    } else {
        lemma_pool_remove(d, t, 0);
        assert(t.remove(0) =~= rest);
        assert(pool(d, t).insert(r[0]) =~= pool(d, s));
    }
}

/// Positions of packed keys in ascending order; several may be at one position.
pub open spec fn not_descending(d: Seq<u8>, l: Seq<int>) -> bool {
    forall|i: int, j: int|
        0 <= i < j < l.len() ==> ord_at(d, #[trigger] l[i]) <= ord_at(d, #[trigger] l[j])
}

/// The keys that are not deleted.
pub open spec fn live_keys(d: Seq<u8>, l: Seq<int>) -> Seq<int> {
    l.filter(|o: int| !cell_dead(cell_at(d, o)))
}

proof fn lemma_live_push(d: Seq<u8>, l: Seq<int>, o: int)
    ensures
        live_keys(d, l.push(o)) == if cell_dead(cell_at(d, o)) {
            live_keys(d, l)
        } else {
            live_keys(d, l).push(o)
        },
{
    reveal(Seq::filter);
    assert(l.push(o).drop_last() =~= l);
}

/// Merges all runs into `dst`; deleted keys are left out. Gives the number of words.
pub fn bch2_sort_keys(dst: &mut Vec<u8>, iter: &mut SortIter) -> (r: Result<usize, StorageError>)
    requires
        forall|i: int|
            0 <= i < old(iter).entries@.len() ==> (#[trigger] old(iter).entries@[i]).cur
                < old(iter).entries@[i].end,
    ensures
        final(dst)@.len() == old(dst)@.len(),
        !old(iter).ok() ==> r == Err::<usize, StorageError>(StorageError::Corruption),
        !old(iter).ok() ==> final(dst)@ == old(dst)@,
        r is Err ==> r->Err_0 == StorageError::Corruption,
        old(iter).ok() && runs_sorted(old(iter).data@, old(iter).entries@) ==> {
            let d = old(iter).data@;
            exists|l: Seq<int>|
                {
                    let b = #[trigger] merge_bytes(d, live_keys(d, l));
                    &&& l.to_multiset() == pool(d, old(iter).entries@)
                    &&& not_descending(d, l)
                    &&& b.len() <= bytes_left(old(iter).entries@)
                    &&& r is Ok <==> b.len() <= old(dst)@.len()
                    &&& r is Ok ==> r->Ok_0 == b.len() / 8 && final(dst)@ == patched(
                        old(dst)@,
                        0,
                        b,
                    )
                }
        },
{
    broadcast use vstd::seq_lib::group_to_multiset_ensures;

    if !iter.check() {
        return Err(StorageError::Corruption);
    }
    let ghost d = iter.data@;
    let ghost all = iter.entries@;
    let ghost dst0 = dst@;
    let ghost sorted = runs_sorted(d, all);
    iter.sort(false);
    proof {
        lemma_same_runs(d, all, iter.entries@);
        lemma_bytes_left_same(d, all, iter.entries@);
        lemma_pool_same(d, all, iter.entries@);
    }
    let mut at: usize = 0;
    let mut too_long: bool = false;
    let ghost mut l: Seq<int> = Seq::empty();
    proof {
        reveal(Seq::filter);
        assert(live_keys(d, l) =~= Seq::<int>::empty());
        assert(merge_bytes(d, live_keys(d, l)) =~= Seq::<u8>::empty());
        assert(patched(dst0, 0, merge_bytes(d, live_keys(d, l))) =~= dst0);
        assert(l.to_multiset().add(pool(d, iter.entries@)) =~= pool(d, all));
    }
    while iter.entries.len() > 0
        invariant
            d == iter.data@,
            d == old(iter).data@,
            all == old(iter).entries@,
            dst0 == old(dst)@,
            iter.ok(),
            heads_sorted(d, iter.entries@, 0, false),
            sorted == runs_sorted(d, all),
            sorted ==> runs_sorted(d, iter.entries@),
            sorted ==> not_descending(d, l),
            sorted ==> forall|i: int, x: int|
                0 <= i < l.len() && #[trigger] in_runs(d, iter.entries@, x) ==> ord_at(
                    d,
                    #[trigger] l[i],
                ) <= ord_at(d, x),
            l.to_multiset().add(pool(d, iter.entries@)) == pool(d, all),
            merge_bytes(d, live_keys(d, l)).len() + bytes_left(iter.entries@) <= bytes_left(all),
            dst@.len() == dst0.len(),
            at <= dst0.len(),
            !too_long ==> {
                &&& at == merge_bytes(d, live_keys(d, l)).len()
                &&& dst@ == patched(dst0, 0, merge_bytes(d, live_keys(d, l)))
            },
            too_long ==> merge_bytes(d, live_keys(d, l)).len() > dst0.len(),
        decreases keys_left(d, iter.entries@),
    {
        let ghost s = iter.entries@;
        let e: SortIterEntry = iter.entries[0];
        let o: usize = e.cur as usize;
        proof {
            assert(run_ok(d, s[0]));
            lemma_offs(d, e.cur as int, e.end as int);
            lemma_live_push(d, l, o as int);
        }
        let dead: bool = iter.data[o + 2] == 0;
        assert(dead == cell_dead(cell_at(d, o as int)));
        if !dead {
            let n: usize = iter.data[o] as usize * 8;
            proof {
                lemma_more_bytes(d, live_keys(d, l), o as int);
            }
            if too_long || n > dst.len() - at {
                too_long = true;
            } else {
                copy_bytes(dst, at, iter.data, o, n);
                proof {
                    lemma_patched_twice(
                        dst0,
                        merge_bytes(d, live_keys(d, l)),
                        cell_at(d, o as int),
                    );
                }
                at = at + n;
            }
        }
        iter.advance(false);
        proof {
            let t = iter.entries@;
            let l2 = l.push(o as int);
            if sorted {
                assert(run(d, s[0])[0] == o);
                assert(run(d, s[0]).contains(o as int));
                assert(in_runs(d, s, o as int));
                assert forall|i: int, x: int|
                    0 <= i < l2.len() && #[trigger] in_runs(d, t, x) implies ord_at(
                    d,
                    #[trigger] l2[i],
                ) <= ord_at(d, x) by {
                    assert(in_runs(d, s, x));
                    if i < l.len() {
                        assert(l2[i] == l[i]);
                    } else {
                        lemma_head(d, s, false, x);
                    }
                }
                assert forall|i: int, j: int| 0 <= i < j < l2.len() implies ord_at(
                    d,
                    #[trigger] l2[i],
                ) <= ord_at(d, #[trigger] l2[j]) by {
                    assert(l2[i] == l[i]);
                    if j < l.len() {
                        assert(l2[j] == l[j]);
                    }
                }
            }
            assert(pool(d, t).insert(o as int) == pool(d, s));
            vstd::seq_lib::to_multiset_build(l, o as int);
            assert(l2.to_multiset() =~= l.to_multiset().insert(o as int));
            assert(l2.to_multiset().add(pool(d, t)) =~= l.to_multiset().add(pool(d, s)));
            l = l2;
        }
    }
    proof {
        assert(l.to_multiset() =~= pool(d, all));
    }
    if too_long {
        return Err(StorageError::Corruption);
    }
    Ok(at / 8)
}

/// Two strictly ascending lists of the same keys are the same list.
proof fn lemma_same_ascending(d: Seq<u8>, a: Seq<int>, b: Seq<int>)
    requires
        ascending(d, a),
        ascending(d, b),
        forall|x: int| a.contains(x) <==> b.contains(x),
    ensures
        a == b,
    decreases a.len(),
{
    if a.len() == 0 {
        if b.len() > 0 {
            assert(b.contains(b[0]));
        }
        assert(a =~= b);
    } else {
        assert(a.contains(a[0]));
        assert(b.len() > 0);
        let p = a.drop_last();
        let q = b.drop_last();
        assert(a.contains(a.last()) && b.contains(b.last()));
        let i = choose|i: int| 0 <= i < b.len() && b[i] == a.last();
        let j = choose|j: int| 0 <= j < a.len() && a[j] == b.last();
        assert(i == b.len() - 1) by {
            if i < b.len() - 1 {
                assert(ord_at(d, b[i]) < ord_at(d, b[b.len() - 1]));
                if j < a.len() - 1 {
                    assert(ord_at(d, a[j]) < ord_at(d, a[a.len() - 1]));
                }
            }
        }
        assert forall|x: int| p.contains(x) <==> q.contains(x) by {
            if p.contains(x) {
                let k = choose|k: int| 0 <= k < p.len() && p[k] == x;
                assert(a[k] == x);
                assert(a.contains(x));
                let m = choose|m: int| 0 <= m < b.len() && b[m] == x;
                assert(ord_at(d, a[k]) < ord_at(d, a[a.len() - 1]));
                assert(q[m] == x);
            }
            if q.contains(x) {
                let k = choose|k: int| 0 <= k < q.len() && q[k] == x;
                assert(b[k] == x);
                assert(b.contains(x));
                let m = choose|m: int| 0 <= m < a.len() && a[m] == x;
                assert(ord_at(d, b[k]) < ord_at(d, b[b.len() - 1]));
                assert(p[m] == x);
            }
        }
        assert(ascending(d, p)) by {
            assert forall|x: int, y: int| 0 <= x < y < p.len() implies ord_at(d, #[trigger] p[x])
                < ord_at(d, #[trigger] p[y]) by {
                assert(p[x] == a[x] && p[y] == a[y]);
            }
        }
        assert(ascending(d, q)) by {
            assert forall|x: int, y: int| 0 <= x < y < q.len() implies ord_at(d, #[trigger] q[x])
                < ord_at(d, #[trigger] q[y]) by {
                assert(q[x] == b[x] && q[y] == b[y]);
            }
        }
        lemma_same_ascending(d, p, q);
        assert(a =~= p.push(a.last()));
        assert(b =~= q.push(b.last()));
    }
}

/// What a merge gives is determined by the keys that go into it.
pub proof fn law_merge_unique(d: Seq<u8>, k: spec_fn(int) -> bool, a: Seq<int>, b: Seq<int>)
    requires
        merged(d, k, a),
        merged(d, k, b),
    ensures
        a == b,
{
    assert forall|x: int| a.contains(x) <==> b.contains(x) by {
        if a.contains(x) {
            let i = choose|i: int| 0 <= i < a.len() && a[i] == x;
            assert(newest(d, k, a[i]));
        }
        if b.contains(x) {
            let i = choose|i: int| 0 <= i < b.len() && b[i] == x;
            assert(newest(d, k, b[i]));
        }
    }
    lemma_same_ascending(d, a, b);
}

/// What is in the pool of runs is in one of them.
pub proof fn lemma_pool_in_runs(d: Seq<u8>, s: Seq<SortIterEntry>, o: int)
    requires
        pool(d, s).count(o) > 0,
    ensures
        in_runs(d, s, o),
    decreases s.len(),
{
    broadcast use vstd::seq_lib::group_to_multiset_ensures;

    if s.len() > 0 {
        let p = s.drop_last();
        if run(d, s.last()).to_multiset().count(o) > 0 {
            assert(run(d, s[s.len() - 1]).contains(o));
        } else {
            lemma_pool_in_runs(d, p, o);
            let i = choose|i: int| 0 <= i < p.len() && run(d, #[trigger] p[i]).contains(o);
            assert(run(d, s[i]).contains(o));
        }
    }
}

/// The live keys are among all keys.
pub proof fn lemma_live_in(d: Seq<u8>, l: Seq<int>)
    ensures
        forall|i: int|
            0 <= i < live_keys(d, l).len() ==> l.contains(#[trigger] live_keys(d, l)[i])
                && !cell_dead(cell_at(d, live_keys(d, l)[i])),
    decreases l.len(),
{
    reveal(Seq::filter);
    if l.len() > 0 {
        let p = l.drop_last();
        lemma_live_in(d, p);
        lemma_live_push(d, p, l.last());
        assert(p.push(l.last()) =~= l);
        assert forall|i: int| 0 <= i < live_keys(d, l).len() implies l.contains(
            #[trigger] live_keys(d, l)[i],
        ) && !cell_dead(cell_at(d, live_keys(d, l)[i])) by {
            if i < live_keys(d, p).len() {
                let x = live_keys(d, p)[i];
                assert(p.contains(x));
                let j = choose|j: int| 0 <= j < p.len() && p[j] == x;
                assert(l[j] == x);
            } else {
                assert(l[l.len() - 1] == l.last());
            }
        }
    }
}

} // verus!
