//! What a snapshot sees of the entries of a tree.

use crate::iter::{BtreeIter, Visibility};
use crate::key::{BchVal, BtreeKey, EntryView, KeyType, KeyValue};
use crate::path::PathLevel;
use crate::snapshot::{descends, SnapshotNode, SnapshotTable};
use crate::tree::Btree;
use vstd::prelude::*;

verus! {

/// The blocks that a key covers: at least one.
pub open spec fn blocks(k: BtreeKey) -> int {
    if k.size == 0 {
        1
    } else {
        k.size as int
    }
}

/// The offset that a key ends before.
pub open spec fn span_end(k: BtreeKey) -> int {
    k.pos.offset + blocks(k)
}

/// Snapshot `snap` sees what belongs to snapshot `sid`: its own entries and those of its ancestors;
/// snapshot zero sees every snapshot's entries.
pub open spec fn sees_snapshot(tab: Seq<SnapshotNode>, snap: u32, sid: u32) -> bool {
    snap == 0 || snap == sid || descends(tab, snap, sid)
}

/// Of the entries from `j` on at the offset `off`, the first one that is not an ordinary key and
/// that `snap` sees.
pub open spec fn shadow_from(
    c: Seq<EntryView>,
    off: u64,
    j: int,
    snap: u32,
    tab: Seq<SnapshotNode>,
) -> Option<int>
    decreases c.len() - j,
{
    if j < 0 || j >= c.len() || c[j].pos.offset != off {
        None
    } else if c[j].key_type != KeyType::Normal && sees_snapshot(tab, snap, c[j].pos.snapshot) {
        Some(j)
    } else {
        shadow_from(c, off, j + 1, snap, tab)
    }
}

/// What is shown of the entries from some place on, and where that leaves the iterator.
#[verifier::ext_equal]
pub struct Seen {
    /// The entry shown, if any.
    pub entry: Option<int>,
    /// The part of it that is shown, as offsets.
    pub start: int,
    pub end: int,
    /// Where the iterator is left.
    pub place: int,
}

pub open spec fn seen_whole(c: Seq<EntryView>, j: int, place: int) -> Seen {
    Seen {
        entry: Some(j),
        start: c[j].pos.offset as int,
        end: span_end(c[j].key()),
        place,
    }
}

/// Entry `j` belongs to the snapshot itself and covers some of entry `i`.
pub open spec fn overridden(c: Seq<EntryView>, i: int, j: int, snap: u32) -> bool {
    &&& j < c.len()
    &&& c[j].pos.snapshot == snap
    &&& c[i].pos.offset < span_end(c[j].key())
    &&& c[j].pos.offset < span_end(c[i].key())
}

/// What snapshot `snap` sees from entry `i` on. Whiteouts are passed over, and so is what belongs to
/// snapshots that `snap` does not see; snapshot zero passes over nothing but whiteouts.
/// An entry of an ancestor gives way to the snapshot's own entry right after it where that covers
/// some of it; with `parts`, only from where it does. An ordinary key that is followed by another
/// kind of key at its offset gives way to that one. What gives way to a whiteout is hidden.
pub open spec fn seen_from(
    c: Seq<EntryView>,
    i: int,
    snap: u32,
    tab: Seq<SnapshotNode>,
    parts: bool,
) -> Seen
    decreases c.len() - i,
{
    if i < 0 || i >= c.len() {
        Seen { entry: None, start: 0, end: 0, place: i }
    } else {
        let e = c[i];
        let skip = if i + 1 < c.len() {
            seen_from(c, i + 1, snap, tab, parts)
        } else {
            Seen { entry: None, start: 0, end: 0, place: i }
        };
        let shadow = shadow_from(c, e.pos.offset, i + 1, snap, tab);
        if e.key_type == KeyType::Whiteout {
            skip
        } else if snap == 0 {
            seen_whole(c, i, i)
        } else if e.key_type == KeyType::Normal && shadow is Some {
            if c[shadow->0].key_type == KeyType::Whiteout {
                skip
            } else {
                seen_whole(c, shadow->0, i)
            }
        } else if snap == e.pos.snapshot {
            seen_whole(c, i, i)
        } else if descends(tab, snap, e.pos.snapshot) {
            if overridden(c, i, i + 1, snap) {
                if parts && e.pos.offset < c[i + 1].pos.offset {
                    Seen { end: c[i + 1].pos.offset as int, ..seen_whole(c, i, i) }
                } else if c[i + 1].key_type == KeyType::Whiteout {
                    skip
                } else {
                    seen_whole(c, i + 1, i + 1)
                }
            } else {
                seen_whole(c, i, i)
            }
        } else {
            skip
        }
    }
}

/// What is noted of the ancestry of snapshots is true.
pub open spec fn notes_ok(v: Seq<Visibility>, tab: Seq<SnapshotNode>) -> bool {
    forall|i: int|
        0 <= i < v.len() ==> (#[trigger] v[i]).visible == descends(
            tab,
            v[i].snapshot,
            v[i].key_snapshot,
        )
}

fn span_of(k: &BtreeKey) -> (r: (u64, u128))
    ensures
        r.0 == k.pos.offset,
        r.1 == span_end(*k),
{
    let size: u32 = if k.size == 0 {
        1
    } else {
        k.size
    };
    (k.pos.offset, k.pos.offset as u128 + size as u128)
}

impl BtreeIter {
    /// Another iterator at the same place.
    fn fork(&self, t: &Btree) -> (r: BtreeIter)
        requires
            self.wf(*t),
        ensures
            r.wf(*t),
            r.index(*t) == self.index(*t),
            r.cur(*t) == self.cur(*t),
    {
        let path: Vec<PathLevel> = self.path.clone();
        assert(path@ =~= self.path@);
        let r: BtreeIter = BtreeIter::from_existing(
            &self.pos,
            self.flags,
            self.btree_type,
            path,
            self.slot,
        );
        assert(r.rank(*t) == self.rank(*t));
        r
    }

    /// Whether `key_sid` is an ancestor of the iterator's snapshot; what was found is noted.
    fn sees(&mut self, snaps: &SnapshotTable, key_sid: u32) -> (r: bool)
        requires
            notes_ok(old(self).visible@, snaps@),
        ensures
            r == descends(snaps@, old(self).snapshot, key_sid),
            notes_ok(final(self).visible@, snaps@),
            final(self).visible@.len() > 0,
            final(self).visible@.len() >= old(self).visible@.len(),
            final(self).path == old(self).path,
            final(self).slot == old(self).slot,
            final(self).pos == old(self).pos,
            final(self).flags == old(self).flags,
            final(self).had_restart == old(self).had_restart,
            final(self).snapshot == old(self).snapshot,
            final(self).btree_type == old(self).btree_type,
    {
        let mut i: usize = 0;
        while i < self.visible.len()
            invariant
                i <= self.visible.len(),
                *self == *old(self),
                notes_ok(self.visible@, snaps@),
            decreases self.visible.len() - i,
        {
            let note: Visibility = self.visible[i];
            if note.snapshot == self.snapshot && note.key_snapshot == key_sid {
                return note.visible;
            }
            i += 1;
        }
        let visible: bool = snaps.bch2_snapshot_is_ancestor(self.snapshot, key_sid);
        self.visible.push(
            Visibility { snapshot: self.snapshot, key_snapshot: key_sid, visible },
        );
        visible
    }

    /// The setup but for the notes on snapshots.
    pub open spec fn same_view(self, o: BtreeIter) -> bool {
        &&& self.flags == o.flags
        &&& self.had_restart == o.had_restart
        &&& self.snapshot == o.snapshot
        &&& self.btree_type == o.btree_type
    }

    /// The first key that is not ordinary, and that the iterator's snapshot sees, among those right
    /// after the iterator's place and at its offset.
    fn shadowed_by_same_pos_delete(
        &mut self,
        t: &Btree,
        snaps: &SnapshotTable,
        current_key: &BtreeKey,
    ) -> (r: Option<(BtreeKey, BchVal)>)
        requires
            old(self).wf(*t),
            old(self).snapshot != 0,
            old(self).cur(*t) is Some,
            current_key.pos == old(self).cur(*t)->0.pos,
            notes_ok(old(self).visible@, snaps@),
        ensures
            r == (match shadow_from(
                t.contents(),
                current_key.pos.offset,
                old(self).index(*t) + 1,
                old(self).snapshot,
                snaps@,
            ) {
                Some(j) => Some((t.contents()[j].key(), t.contents()[j].bch_val())),
                None => None,
            }),
            final(self).wf(*t),
            final(self).index(*t) == old(self).index(*t),
            final(self).cur(*t) == old(self).cur(*t),
            final(self).pos == old(self).pos,
            final(self).same_view(*old(self)),
            notes_ok(final(self).visible@, snaps@),
    {
        let ghost c = t.contents();
        let ghost i0 = self.index(*t);
        let off: u64 = current_key.pos.offset;
        let snap: u32 = self.snapshot;
        let mut probe: BtreeIter = self.fork(t);
        proof {
            self.lemma_cur(*t);
        }
        loop
            invariant
                self.wf(*t),
                self.index(*t) == old(self).index(*t),
                self.cur(*t) == old(self).cur(*t),
                self.pos == old(self).pos,
                self.same_view(*old(self)),
                snap == self.snapshot,
                snap == old(self).snapshot,
                snap != 0,
                i0 == old(self).index(*t),
                notes_ok(self.visible@, snaps@),
                probe.wf(*t),
                c == t.contents(),
                off == current_key.pos.offset,
                0 <= probe.index(*t) < c.len(),
                shadow_from(c, off, i0 + 1, snap, snaps@) == shadow_from(
                    c,
                    off,
                    probe.index(*t) + 1,
                    snap,
                    snaps@,
                ),
            decreases c.len() - probe.index(*t),
        {
            if !probe.advance(t) {
                return None;
            }
            proof {
                probe.lemma_cur(*t);
            }
            match probe.peek(t) {
                None => {
                    assert(false);
                    return None;
                },
                Some((key, value)) => {
                    if key.pos.offset != off {
                        return None;
                    }
                    if key.key_type != KeyType::Normal {
                        let ghost was = *self;
                        let seen: bool = snap == key.pos.snapshot || self.sees(
                            snaps,
                            key.pos.snapshot,
                        );
                        assert(self.rank(*t) == was.rank(*t));
                        if seen {
                            return Some((key, value));
                        }
                    }
                },
            }
        }
    }

    /// What the iterator's snapshot sees from its place on, and which part of it.
    fn look(&mut self, t: &Btree, snaps: &SnapshotTable, parts: bool) -> (r: Option<
        (BtreeKey, BchVal, u64, u128),
    >)
        requires
            old(self).wf(*t),
            notes_ok(old(self).visible@, snaps@),
        ensures
            final(self).wf(*t),
            final(self).same_view(*old(self)),
            notes_ok(final(self).visible@, snaps@),
            ({
                let c = t.contents();
                let seen = seen_from(c, old(self).index(*t), old(self).snapshot, snaps@, parts);
                &&& final(self).index(*t) == seen.place
                &&& final(self).pos == if seen.place == old(self).index(*t) {
                    old(self).pos
                } else {
                    c[seen.place].key()
                }
                &&& match seen.entry {
                    Some(j) => {
                        &&& 0 <= j < c.len()
                        &&& r matches Some(x) && {
                            &&& x.0 == c[j].key()
                            &&& x.1 == c[j].bch_val()
                            &&& x.2 == seen.start
                            &&& x.3 == seen.end
                        }
                    },
                    None => r is None,
                }
            }),
    {
        let ghost c = t.contents();
        let ghost i0 = self.index(*t);
        let snap: u32 = self.snapshot;
        let ghost goal = seen_from(c, i0, snap, snaps@, parts);
        proof {
            self.lemma_cur(*t);
        }
        loop
            invariant
                self.wf(*t),
                c == t.contents(),
                notes_ok(self.visible@, snaps@),
                self.same_view(*old(self)),
                snap == self.snapshot,
                snap == old(self).snapshot,
                0 <= self.index(*t) <= c.len(),
                old(self).index(*t) <= self.index(*t),
                self.pos == if self.index(*t) == old(self).index(*t) {
                    old(self).pos
                } else {
                    c[self.index(*t)].key()
                },
                goal == seen_from(c, self.index(*t), snap, snaps@, parts),
                goal == seen_from(c, old(self).index(*t), old(self).snapshot, snaps@, parts),
            decreases c.len() - self.index(*t),
        {
            let ghost i = self.index(*t);
            proof {
                self.lemma_cur(*t);
            }
            let (key, value): (BtreeKey, BchVal) = match self.peek(t) {
                None => {
                    return None;
                },
                Some(e) => e,
            };
            assert(key == c[i].key());
            let mut hidden: bool = key.key_type == KeyType::Whiteout;
            let (start, end): (u64, u128) = span_of(&key);
            if !hidden && snap == 0 {
                return Some((key, value, start, end));
            }
            if !hidden && key.key_type == KeyType::Normal {
                proof {
                    lemma_shadow(c, key.pos.offset, i + 1, snap, snaps@);
                }
                if let Some((k, v)) = self.shadowed_by_same_pos_delete(t, snaps, &key) {
                    if k.key_type == KeyType::Whiteout {
                        hidden = true;
                    } else {
                        let (a, b): (u64, u128) = span_of(&k);
                        return Some((k, v, a, b));
                    }
                }
            }
            if !hidden {
                if snap == key.pos.snapshot {
                    return Some((key, value, start, end));
                }
                let ghost was = *self;
                let sees: bool = self.sees(snaps, key.pos.snapshot);
                assert(self.rank(*t) == was.rank(*t));
                if sees {
                    let mut covered: bool = false;
                    let mut probe: BtreeIter = self.fork(t);
                    if probe.advance(t) {
                        proof {
                            probe.lemma_cur(*t);
                        }
                        if let Some((nk, nv)) = probe.peek(t) {
                            assert(nk == c[i + 1].key());
                            let (ns, ne): (u64, u128) = span_of(&nk);
                            if nk.pos.snapshot == snap && (start as u128) < ne && (ns as u128) < end {
                                if parts && start < ns {
                                    return Some((key, value, start, ns as u128));
                                }
                                if nk.key_type != KeyType::Whiteout {
                                    self.path = probe.path;
                                    self.slot = probe.slot;
                                    self.pos = nk;
                                    assert(self.rank(*t) == probe.rank(*t));
                                    return Some((nk, nv, ns, ne));
                                }
                                covered = true;
                            }
                        }
                    }
                    if !covered {
                        return Some((key, value, start, end));
                    }
                }
            }
            if !self.advance(t) {
                return None;
            }
            proof {
                self.lemma_cur(*t);
            }
        }
    }

    /// The first entry from the iterator's place on that its snapshot sees. The iterator moves on
    /// to it, past what is not seen.
    pub fn peek_visible(&mut self, t: &Btree, snaps: &SnapshotTable) -> (r: Option<
        (BtreeKey, BchVal),
    >)
        requires
            old(self).wf(*t),
            notes_ok(old(self).visible@, snaps@),
        ensures
            final(self).wf(*t),
            final(self).same_view(*old(self)),
            notes_ok(final(self).visible@, snaps@),
            ({
                let c = t.contents();
                let seen = seen_from(c, old(self).index(*t), old(self).snapshot, snaps@, false);
                &&& final(self).index(*t) == seen.place
                &&& final(self).pos == if seen.place == old(self).index(*t) {
                    old(self).pos
                } else {
                    c[seen.place].key()
                }
                &&& r == match seen.entry {
                    Some(j) => Some((c[j].key(), c[j].bch_val())),
                    None => None,
                }
            }),
    {
        match self.look(t, snaps, false) {
            Some((k, v, _, _)) => Some((k, v)),
            None => None,
        }
    }

    /// The first entry from the iterator's place on that its snapshot sees, and the offsets at
    /// which it is seen. These have to end within the offsets.
    pub fn peek_visible_range(&mut self, t: &Btree, snaps: &SnapshotTable) -> (r: Option<
        (BtreeKey, BchVal, u64, u64),
    >)
        requires
            old(self).wf(*t),
            notes_ok(old(self).visible@, snaps@),
            seen_from(
                t.contents(),
                old(self).index(*t),
                old(self).snapshot,
                snaps@,
                true,
            ).end <= u64::MAX,
        ensures
            final(self).wf(*t),
            final(self).same_view(*old(self)),
            notes_ok(final(self).visible@, snaps@),
            ({
                let c = t.contents();
                let seen = seen_from(c, old(self).index(*t), old(self).snapshot, snaps@, true);
                &&& final(self).index(*t) == seen.place
                &&& final(self).pos == if seen.place == old(self).index(*t) {
                    old(self).pos
                } else {
                    c[seen.place].key()
                }
                &&& match seen.entry {
                    Some(j) => {
                        &&& 0 <= j < c.len()
                        &&& r matches Some(x) && {
                            &&& x.0 == c[j].key()
                            &&& x.1 == c[j].bch_val()
                            &&& x.2 == seen.start
                            &&& x.3 == seen.end
                        }
                    },
                    None => r is None,
                }
            }),
    {
        match self.look(t, snaps, true) {
            Some((k, v, a, b)) => Some((k, v, a, b as u64)),
            None => None,
        }
    }

    /// The same, with the whole value of the entry that the iterator is then at.
    pub fn peek_visible_range_with_entry(&mut self, t: &Btree, snaps: &SnapshotTable) -> (r: Option<
        (BtreeKey, BchVal, KeyValue, u64, u64),
    >)
        requires
            old(self).wf(*t),
            notes_ok(old(self).visible@, snaps@),
            seen_from(
                t.contents(),
                old(self).index(*t),
                old(self).snapshot,
                snaps@,
                true,
            ).end <= u64::MAX,
        ensures
            final(self).wf(*t),
            final(self).same_view(*old(self)),
            notes_ok(final(self).visible@, snaps@),
            ({
                let c = t.contents();
                let seen = seen_from(c, old(self).index(*t), old(self).snapshot, snaps@, true);
                &&& final(self).index(*t) == seen.place
                &&& final(self).pos == if seen.place == old(self).index(*t) {
                    old(self).pos
                } else {
                    c[seen.place].key()
                }
                &&& match seen.entry {
                    Some(j) => {
                        &&& 0 <= j < c.len()
                        &&& r matches Some(x) && {
                            &&& x.0 == c[j].key()
                            &&& x.1 == c[j].bch_val()
                            &&& x.2@ == c[seen.place].value
                            &&& x.3 == seen.start
                            &&& x.4 == seen.end
                        }
                    },
                    None => r is None,
                }
            }),
    {
        let ghost was = *self;
        match self.look(t, snaps, true) {
            None => None,
            Some((k, v, a, b)) => {
                proof {
                    lemma_seen_place(t.contents(), was.index(*t), was.snapshot, snaps@, true);
                    was.lemma_cur(*t);
                    self.lemma_cur(*t);
                }
                match self.peek_entry(t) {
                    None => {
                        assert(false);
                        None
                    },
                    Some(e) => Some((k, v, e.value, a, b as u64)),
                }
            },
        }
    }

    /// Moves on to the next entry that the iterator's snapshot sees; whether there is one. After
    /// the last entry of the tree the iterator is at no entry.
    pub fn advance_visible(&mut self, t: &Btree, snaps: &SnapshotTable) -> (r: bool)
        requires
            old(self).wf(*t),
            notes_ok(old(self).visible@, snaps@),
        ensures
            final(self).wf(*t),
            final(self).same_view(*old(self)),
            notes_ok(final(self).visible@, snaps@),
            ({
                let c = t.contents();
                let i = old(self).index(*t);
                let seen = seen_from(c, i + 1, old(self).snapshot, snaps@, false);
                if i + 1 < c.len() {
                    &&& r == (seen.entry is Some)
                    &&& final(self).index(*t) == seen.place
                    &&& final(self).pos == c[seen.place].key()
                } else {
                    &&& !r
                    &&& final(self).index(*t) == c.len()
                    &&& final(self).pos == old(self).pos
                }
            }),
    {
        let ghost was = *self;
        proof {
            self.lemma_cur(*t);
        }
        if !self.advance(t) {
            let n: usize = t.node_on(&self.path, 0).entries.len();
            if self.slot < n {
                proof {
                    self.lemma_last(*t);
                }
                self.slot = n;
                proof {
                    self.lemma_cur(*t);
                }
            }
            return false;
        }
        self.peek_visible(t, snaps).is_some()
    }

    /// Nothing comes after the last entry.
    proof fn lemma_last(self, t: Btree)
        requires
            self.wf(t),
            self.cur(t) is Some,
            self.index(t) + 1 >= t.contents().len(),
        ensures
            forall|x: int|
                t.path_hi(self.path@, 0) <= x < crate::shape::top() ==> (#[trigger] t.tree_get(
                    x,
                )) is None,
            self.slot + 1 == self.leaf(t).keys().len(),
    {
        let c = t.contents();
        let s = self.leaf(t).keys();
        t.lemma_contents();
        t.lemma_path(self.path@, 0, 0);
        self.lemma_cur(t);
        let e = self.cur(t)->0;
        assert forall|x: int|
            e.pos.ord() < x < crate::shape::top() implies (#[trigger] t.tree_get(x)) is None by {
            assert(crate::entries::find(c, x) == t.tree_get(x));
            if crate::entries::find(c, x) is Some {
                let j = crate::entries::lemma_find_some(c, x);
                if j < self.index(t) {
                    assert(c[j].pos.ord() < c[self.index(t)].pos.ord());
                }
            }
        }
        if self.slot + 1 < s.len() {
            let f = s[self.slot + 1];
            assert(s[self.slot as int].pos.ord() < f.pos.ord());
            crate::entries::lemma_find_at(s, self.slot + 1);
            crate::key::lemma_ord(f.pos, f.pos);
            assert(t.tree_get(f.pos.ord()) == crate::shape::get(
                t.cache@,
                self.leaf(t),
                0,
                f.pos.ord(),
            ));
        }
    }
}

/// A shadowing entry is one of those looked at.
proof fn lemma_shadow(c: Seq<EntryView>, off: u64, j: int, snap: u32, tab: Seq<SnapshotNode>)
    requires
        j >= 0,
    ensures
        shadow_from(c, off, j, snap, tab) matches Some(x) ==> j <= x < c.len() && sees_snapshot(
            tab,
            snap,
            c[x].pos.snapshot,
        ),
    decreases c.len() - j,
{
    if j < c.len() && c[j].pos.offset == off {
        lemma_shadow(c, off, j + 1, snap, tab);
    }
}

/// Where something is shown, the iterator is left at an entry.
proof fn lemma_seen_place(
    c: Seq<EntryView>,
    i: int,
    snap: u32,
    tab: Seq<SnapshotNode>,
    parts: bool,
)
    requires
        i >= 0,
    ensures
        ({
            let seen = seen_from(c, i, snap, tab, parts);
            seen.entry is Some ==> i <= seen.place < c.len()
        }),
    decreases c.len() - i,
{
    if i < c.len() {
        lemma_seen_place(c, i + 1, snap, tab, parts);
    }
}

/// The entry that is seen from a whiteout on is the one that is seen from behind it on.
pub proof fn law_whiteouts_are_passed(
    c: Seq<EntryView>,
    i: int,
    tab: Seq<SnapshotNode>,
    parts: bool,
)
    requires
        0 <= i < c.len(),
        c[i].key_type == KeyType::Whiteout,
    ensures
        forall|snap: u32|
            (#[trigger] seen_from(c, i, snap, tab, parts)).entry == seen_from(
                c,
                i + 1,
                snap,
                tab,
                parts,
            ).entry,
        i + 1 < c.len() ==> forall|snap: u32| #[trigger]
            seen_from(c, i, snap, tab, parts) == seen_from(c, i + 1, snap, tab, parts),
{
}

/// What is shown is never a whiteout, and belongs to the snapshot or to an ancestor of it.
pub proof fn law_only_ancestors_are_seen(
    c: Seq<EntryView>,
    i: int,
    snap: u32,
    tab: Seq<SnapshotNode>,
    parts: bool,
)
    requires
        0 <= i < c.len(),
    ensures
        seen_from(c, i, snap, tab, parts).entry matches Some(j) ==> {
            &&& i <= j < c.len()
            &&& c[j].key_type != KeyType::Whiteout
            &&& snap == 0 || snap == c[j].pos.snapshot || descends(tab, snap, c[j].pos.snapshot)
        },
    decreases c.len() - i,
{
    lemma_shadow(c, c[i].pos.offset, i + 1, snap, tab);
    if i + 1 < c.len() {
        law_only_ancestors_are_seen(c, i + 1, snap, tab, parts);
    }
}

/// Without a snapshot, the first entry that is no whiteout is shown, and nothing else is passed
/// over.
pub proof fn law_no_snapshot_passes_whiteouts_only(
    c: Seq<EntryView>,
    i: int,
    tab: Seq<SnapshotNode>,
    parts: bool,
)
    requires
        0 <= i < c.len(),
    ensures
        match seen_from(c, i, 0, tab, parts).entry {
            Some(j) => {
                &&& i <= j < c.len()
                &&& c[j].key_type != KeyType::Whiteout
                &&& forall|x: int| i <= x < j ==> (#[trigger] c[x]).key_type == KeyType::Whiteout
            },
            None => forall|x: int|
                i <= x < c.len() ==> (#[trigger] c[x]).key_type == KeyType::Whiteout,
        },
    decreases c.len() - i,
{
    if i + 1 < c.len() {
        law_no_snapshot_passes_whiteouts_only(c, i + 1, tab, parts);
    }
}

/// Entries `i` to `x` stand at one offset, and entry `x` is the first of them after `i` that is no
/// ordinary key and belongs to the snapshot or to an ancestor of it.
pub open spec fn first_shadow(
    c: Seq<EntryView>,
    i: int,
    x: int,
    snap: u32,
    tab: Seq<SnapshotNode>,
) -> bool {
    &&& 0 <= i < x < c.len()
    &&& forall|y: int| i < y <= x ==> (#[trigger] c[y]).pos.offset == c[i].pos.offset
    &&& c[x].key_type != KeyType::Normal
    &&& c[x].pos.snapshot == snap || descends(tab, snap, c[x].pos.snapshot)
    &&& forall|y: int|
        i < y < x ==> (#[trigger] c[y]).key_type == KeyType::Normal || !(c[y].pos.snapshot == snap
            || descends(tab, snap, c[y].pos.snapshot))
}

/// Nothing at the offset of entry `i` takes its place: it is no ordinary key, or no entry right
/// after it does.
pub open spec fn stands_alone(c: Seq<EntryView>, i: int, snap: u32, tab: Seq<SnapshotNode>) -> bool {
    c[i].key_type != KeyType::Normal || forall|x: int| !#[trigger] first_shadow(c, i, x, snap, tab)
}

/// The entry right after `i` belongs to the snapshot, and the two have a block in common.
pub open spec fn own_next_meets(c: Seq<EntryView>, i: int, snap: u32) -> bool {
    &&& i + 1 < c.len()
    &&& c[i + 1].pos.snapshot == snap
    &&& exists|b: int| #[trigger] has_block(c[i].key(), b) && has_block(c[i + 1].key(), b)
}

/// Block `b` is one of those that the key is for: as many as its size says, from its offset on, and
/// one where it says none.
pub open spec fn has_block(k: BtreeKey, b: int) -> bool {
    b == k.pos.offset || k.pos.offset <= b < k.pos.offset + k.size
}

/// What a first shadow is agrees with what is found by looking.
proof fn lemma_first_shadow(c: Seq<EntryView>, i: int, j: int, snap: u32, tab: Seq<SnapshotNode>)
    requires
        0 <= i < j <= c.len(),
        snap != 0,
        forall|y: int| i < y < j ==> (#[trigger] c[y]).pos.offset == c[i].pos.offset,
        forall|y: int|
            i < y < j ==> (#[trigger] c[y]).key_type == KeyType::Normal || !(c[y].pos.snapshot
                == snap || descends(tab, snap, c[y].pos.snapshot)),
    ensures
        match shadow_from(c, c[i].pos.offset, j, snap, tab) {
            Some(x) => first_shadow(c, i, x, snap, tab),
            None => forall|x: int| !#[trigger] first_shadow(c, i, x, snap, tab),
        },
        forall|x: int| #[trigger]
            first_shadow(c, i, x, snap, tab) ==> shadow_from(c, c[i].pos.offset, j, snap, tab)
                == Some(x),
    decreases c.len() - j,
{
    let off = c[i].pos.offset;
    if j < c.len() && c[j].pos.offset == off {
        if c[j].key_type != KeyType::Normal && sees_snapshot(tab, snap, c[j].pos.snapshot) {
            assert(first_shadow(c, i, j, snap, tab));
            assert forall|x: int| #[trigger] first_shadow(c, i, x, snap, tab) implies x == j by {
                if x < j {
                    assert(c[x].key_type == KeyType::Normal || !(c[x].pos.snapshot == snap
                        || descends(tab, snap, c[x].pos.snapshot)));
                } else if x > j {
                    assert(c[j].key_type == KeyType::Normal || !(c[j].pos.snapshot == snap
                        || descends(tab, snap, c[j].pos.snapshot)));
                }
            }
        } else {
            lemma_first_shadow(c, i, j + 1, snap, tab);
        }
    } else {
        assert forall|x: int| !#[trigger] first_shadow(c, i, x, snap, tab) by {
            if first_shadow(c, i, x, snap, tab) {
                if x < j {
                    assert(c[x].key_type == KeyType::Normal || !(c[x].pos.snapshot == snap
                        || descends(tab, snap, c[x].pos.snapshot)));
                } else {
                    assert(c[j].pos.offset == off);
                }
            }
        }
    }
}

proof fn lemma_meets(c: Seq<EntryView>, i: int, snap: u32)
    requires
        0 <= i < c.len(),
    ensures
        own_next_meets(c, i, snap) == overridden(c, i, i + 1, snap),
{
    if i + 1 < c.len() {
        let a = c[i].key();
        let b = c[i + 1].key();
        if overridden(c, i, i + 1, snap) {
            let x = if a.pos.offset < b.pos.offset {
                b.pos.offset as int
            } else {
                a.pos.offset as int
            };
            assert(has_block(a, x) && has_block(b, x));
        }
        if own_next_meets(c, i, snap) {
            let x = choose|x: int| #[trigger] has_block(a, x) && has_block(b, x);
            assert(has_block(a, x) && has_block(b, x));
        }
    }
}

/// A snapshot sees its own entry, as it is: all its blocks.
pub proof fn law_own_entry_is_seen(
    c: Seq<EntryView>,
    i: int,
    snap: u32,
    tab: Seq<SnapshotNode>,
    parts: bool,
)
    requires
        0 <= i < c.len(),
        snap != 0,
        c[i].pos.snapshot == snap,
        c[i].key_type != KeyType::Whiteout,
        stands_alone(c, i, snap, tab),
    ensures
        ({
            let seen = seen_from(c, i, snap, tab, parts);
            &&& seen.entry == Some(i)
            &&& seen.place == i
            &&& forall|b: int| seen.start <= b < seen.end <==> #[trigger] has_block(c[i].key(), b)
        }),
{
    lemma_first_shadow(c, i, i + 1, snap, tab);
}

/// A snapshot sees what it has from an ancestor, as it is, where its own next entry leaves that
/// alone.
pub proof fn law_inherited_entry_is_seen(
    c: Seq<EntryView>,
    i: int,
    snap: u32,
    tab: Seq<SnapshotNode>,
    parts: bool,
)
    requires
        0 <= i < c.len(),
        snap != 0,
        c[i].pos.snapshot != snap,
        descends(tab, snap, c[i].pos.snapshot),
        c[i].key_type != KeyType::Whiteout,
        stands_alone(c, i, snap, tab),
        !own_next_meets(c, i, snap),
    ensures
        ({
            let seen = seen_from(c, i, snap, tab, parts);
            &&& seen.entry == Some(i)
            &&& seen.place == i
            &&& forall|b: int| seen.start <= b < seen.end <==> #[trigger] has_block(c[i].key(), b)
        }),
{
    lemma_first_shadow(c, i, i + 1, snap, tab);
    lemma_meets(c, i, snap);
}

/// What a snapshot has written over an inherited entry is seen in its place: its own entry right
/// after, all of it, and the iterator moves on to that. A whiteout of its own hides the inherited
/// entry. Where parts are asked for, the blocks ahead of the snapshot's own are seen first.
pub proof fn law_own_overwrite_is_seen(
    c: Seq<EntryView>,
    i: int,
    snap: u32,
    tab: Seq<SnapshotNode>,
    parts: bool,
)
    requires
        0 <= i < c.len(),
        snap != 0,
        c[i].pos.snapshot != snap,
        descends(tab, snap, c[i].pos.snapshot),
        c[i].key_type != KeyType::Whiteout,
        stands_alone(c, i, snap, tab),
        own_next_meets(c, i, snap),
    ensures
        ({
            let seen = seen_from(c, i, snap, tab, parts);
            let next = seen_from(c, i + 1, snap, tab, parts);
            let ahead = c[i].pos.offset < c[i + 1].pos.offset;
            &&& parts && ahead ==> {
                &&& seen.entry == Some(i)
                &&& seen.place == i
                &&& forall|b: int|
                    seen.start <= b < seen.end <==> #[trigger] has_block(c[i].key(), b) && b
                        < c[i + 1].pos.offset
            }
            &&& !(parts && ahead) && c[i + 1].key_type == KeyType::Whiteout ==> seen == next
            &&& !(parts && ahead) && c[i + 1].key_type != KeyType::Whiteout ==> {
                &&& seen.entry == Some(i + 1)
                &&& seen.place == i + 1
                &&& forall|b: int|
                    seen.start <= b < seen.end <==> #[trigger] has_block(c[i + 1].key(), b)
            }
        }),
{
    lemma_first_shadow(c, i, i + 1, snap, tab);
    lemma_meets(c, i, snap);
}

/// An ordinary key gives way to the first key of another kind at its offset that the snapshot sees:
/// that one is seen, or, if it is a whiteout, nothing at that place.
pub proof fn law_shadow_is_seen(
    c: Seq<EntryView>,
    i: int,
    x: int,
    snap: u32,
    tab: Seq<SnapshotNode>,
    parts: bool,
)
    requires
        snap != 0,
        first_shadow(c, i, x, snap, tab),
        c[i].key_type == KeyType::Normal,
    ensures
        ({
            let seen = seen_from(c, i, snap, tab, parts);
            &&& c[x].key_type == KeyType::Whiteout ==> seen == seen_from(
                c,
                i + 1,
                snap,
                tab,
                parts,
            )
            &&& c[x].key_type != KeyType::Whiteout ==> {
                &&& seen.entry == Some(x)
                &&& seen.place == i
                &&& forall|b: int|
                    seen.start <= b < seen.end <==> #[trigger] has_block(c[x].key(), b)
            }
        }),
{
    lemma_first_shadow(c, i, i + 1, snap, tab);
}

/// What belongs to a snapshot that is neither the one that looks nor an ancestor of it is passed
/// over, where nothing else takes its place.
pub proof fn law_strangers_are_passed(
    c: Seq<EntryView>,
    i: int,
    snap: u32,
    tab: Seq<SnapshotNode>,
    parts: bool,
)
    requires
        0 <= i < c.len(),
        snap != 0,
        c[i].pos.snapshot != snap,
        !descends(tab, snap, c[i].pos.snapshot),
        stands_alone(c, i, snap, tab),
    ensures
        seen_from(c, i, snap, tab, parts).entry == seen_from(c, i + 1, snap, tab, parts).entry,
        i + 1 < c.len() ==> seen_from(c, i, snap, tab, parts) == seen_from(
            c,
            i + 1,
            snap,
            tab,
            parts,
        ),
        i + 1 == c.len() ==> seen_from(c, i, snap, tab, parts).place == i,
{
    lemma_first_shadow(c, i, i + 1, snap, tab);
}

/// Without a snapshot an entry is seen as it is, all its blocks, and the iterator is left at it.
pub proof fn law_no_snapshot_sees_whole_entries(
    c: Seq<EntryView>,
    i: int,
    tab: Seq<SnapshotNode>,
    parts: bool,
)
    requires
        0 <= i < c.len(),
        c[i].key_type != KeyType::Whiteout,
    ensures
        ({
            let seen = seen_from(c, i, 0, tab, parts);
            &&& seen.entry == Some(i)
            &&& seen.place == i
            &&& forall|b: int| seen.start <= b < seen.end <==> #[trigger] has_block(c[i].key(), b)
        }),
{
}

/// Beyond the last entry nothing is seen.
pub proof fn law_nothing_is_seen_after_the_last(
    c: Seq<EntryView>,
    i: int,
    snap: u32,
    tab: Seq<SnapshotNode>,
    parts: bool,
)
    requires
        i >= c.len(),
    ensures
        seen_from(c, i, snap, tab, parts).entry is None,
        seen_from(c, i, snap, tab, parts).place == i,
{
}

} // verus!
