//! Iterators over the entries of a tree.

use crate::btree_id::BtreeId;
use crate::contents::{lemma_lb_after, lemma_lb_entry, lemma_lb_exists, lemma_lb_gap};
use crate::entries::{find, lb, lemma_find_at, lemma_find_some, lemma_lb, lower_bound, sorted};
use crate::key::{lemma_ord, BchVal, Bpos, BtreeKey, EntryView, KeyEntry, KeyType};
use crate::node::BtreeNode;
use crate::path::{BtreeNodeLockedType, PathLevel};
use crate::shape::{get, lemma_at, sub_wf, top};
use crate::tree::Btree;
use vstd::prelude::*;

verus! {

/// Size of the buffers that iterators unpack keys into, in bytes.
pub const BTREE_ITER_BUF_GRANULARITY: usize = 2048;

/// How an iterator goes about it.
#[derive(Debug, Clone, Copy, PartialEq, Eq, Structural)]
pub struct IterFlags {
    /// The iterator is for updates: its leaf is held with intent.
    pub intent: bool,
    pub forward: bool,
    pub with_journal: bool,
    pub cached: bool,
    pub nopreserve: bool,
}

impl Default for IterFlags {
    fn default() -> (r: IterFlags)
        ensures
            r == (IterFlags {
                intent: false,
                forward: true,
                with_journal: true,
                cached: false,
                nopreserve: false,
            }),
    {
        IterFlags {
            intent: false,
            forward: true,
            with_journal: true,
            cached: false,
            nopreserve: false,
        }
    }
}

/// What was found of a pair of snapshots: whether the second is an ancestor of the first.
#[derive(Debug, Clone, Copy, PartialEq, Eq, Structural)]
pub struct Visibility {
    pub snapshot: u32,
    pub key_snapshot: u32,
    pub visible: bool,
}

/// An iterator over the entries of a tree: a path to a leaf and a place in it.
#[derive(Debug)]
pub struct BtreeIter {
    /// The way to the leaf; levels count from the leaf.
    pub path: Vec<PathLevel>,
    /// The entry of the leaf that the iterator is at; the number of entries where it is past the
    /// last entry of the tree.
    pub slot: usize,
    /// Where the iterator was last sent or came to.
    pub pos: BtreeKey,
    pub flags: IterFlags,
    pub had_restart: bool,
    /// Only what this snapshot sees is shown; zero shows everything.
    pub snapshot: u32,
    pub btree_type: BtreeId,
    /// What is known of the ancestry of snapshots.
    pub visible: Vec<Visibility>,
}

/// An entry counts as at or after the target; in a tree of extents only its offset decides.
pub open spec fn at_or_after(e: EntryView, target: Bpos, btree_type: BtreeId) -> bool {
    if btree_type == BtreeId::Extents {
        e.pos.offset >= target.offset
    } else {
        e.pos.ord() >= target.ord()
    }
}

/// `i` is the first place of the run that is at or after the target.
pub open spec fn first_slot(s: Seq<EntryView>, target: Bpos, btree_type: BtreeId, i: int) -> bool {
    &&& 0 <= i <= s.len()
    &&& forall|j: int| 0 <= j < i ==> !at_or_after(#[trigger] s[j], target, btree_type)
    &&& i < s.len() ==> at_or_after(s[i], target, btree_type)
}

impl Btree {
    /// An iterator sent to `target` starts at rank `k`: that of the first entry of the leaf of
    /// `target` which is at or after it, or else the end of the leaf.
    pub open spec fn starts_at(self, target: Bpos, btree_type: BtreeId, k: int) -> bool {
        let s = self.leaf(target.ord()).keys();
        exists|i: int| #[trigger]
            first_slot(s, target, btree_type, i) && k == if i < s.len() {
                s[i].pos.ord()
            } else {
                self.leaf_hi(target.ord())
            }
    }
}

impl BtreeIter {
    /// The leaf that the iterator is in.
    pub open spec fn leaf(self, t: Btree) -> BtreeNode {
        t.path_node(self.path@, 0)
    }

    /// The rank that the iterator is at, or that its leaf ends before.
    pub open spec fn rank(self, t: Btree) -> int {
        if self.slot < self.leaf(t).keys().len() {
            self.leaf(t).keys()[self.slot as int].pos.ord()
        } else {
            t.path_hi(self.path@, 0)
        }
    }

    /// The iterator is at home in the tree.
    pub open spec fn wf(self, t: Btree) -> bool {
        &&& t.shape_ok()
        &&& t.path_ok(self.path@)
        &&& self.slot <= self.leaf(t).keys().len()
        &&& self.slot == self.leaf(t).keys().len() ==> forall|x: int|
            t.path_hi(self.path@, 0) <= x < top() ==> (#[trigger] t.tree_get(x)) is None
    }

    /// The number of entries before the one that the iterator is at.
    pub open spec fn index(self, t: Btree) -> int {
        lb(t.contents(), self.rank(t))
    }

    /// The entry that the iterator is at.
    pub open spec fn cur(self, t: Btree) -> Option<EntryView> {
        if self.slot < self.leaf(t).keys().len() {
            Some(self.leaf(t).keys()[self.slot as int])
        } else {
            None
        }
    }

    /// Everything but the place is as in `o`.
    pub open spec fn same_setup(self, o: BtreeIter) -> bool {
        &&& self.flags == o.flags
        &&& self.had_restart == o.had_restart
        &&& self.snapshot == o.snapshot
        &&& self.btree_type == o.btree_type
        &&& self.visible@ == o.visible@
    }

    /// The place and the number of entries before it agree.
    pub proof fn lemma_cur(self, t: Btree)
        requires
            self.wf(t),
        ensures
            0 <= self.index(t) <= t.contents().len(),
            self.cur(t) is Some <==> self.index(t) < t.contents().len(),
            self.cur(t) is Some ==> self.cur(t)->0 == t.contents()[self.index(t)],
            sorted(self.leaf(t).keys()),
    {
        let s = self.leaf(t).keys();
        let c = t.contents();
        t.lemma_contents();
        t.lemma_path(self.path@, 0, 0);
        lemma_lb_exists(c, self.rank(t));
        if self.slot < s.len() {
            let e = s[self.slot as int];
            lemma_find_at(s, self.slot as int);
            lemma_ord(e.pos, e.pos);
            assert(t.tree_get(e.pos.ord()) == get(t.cache@, self.leaf(t), 0, e.pos.ord()));
            assert(find(c, e.pos.ord()) == Some(e));
            lemma_lb_entry(c, e.pos.ord());
        } else {
            let r = self.rank(t);
            assert forall|i: int| 0 <= i < c.len() implies (#[trigger] c[i]).pos.ord() < r by {
                lemma_find_at(c, i);
                lemma_ord(c[i].pos, c[i].pos);
                if c[i].pos.ord() >= r {
                    assert(t.tree_get(c[i].pos.ord()) is None);
                }
            }
            lemma_lb(c, r, c.len() as int);
        }
    }

    /// From the last entry of a leaf, the next entry is the first one after the leaf.
    proof fn lemma_after_leaf(self, t: Btree, r: int)
        requires
            self.wf(t),
            self.cur(t) is Some,
            self.slot + 1 == self.leaf(t).keys().len(),
            t.path_hi(self.path@, 0) <= r <= top(),
            forall|x: int|
                t.path_hi(self.path@, 0) <= x < r ==> (#[trigger] t.tree_get(x)) is None,
        ensures
            lb(t.contents(), r) == self.index(t) + 1,
    {
        let s = self.leaf(t).keys();
        let c = t.contents();
        let hi = t.path_hi(self.path@, 0);
        let k = self.rank(t);
        t.lemma_contents();
        t.lemma_path(self.path@, 0, 0);
        self.lemma_cur(t);
        lemma_find_at(s, self.slot as int);
        assert(t.tree_get(k) == get(t.cache@, self.leaf(t), 0, k));
        assert(find(c, k) is Some);
        lemma_lb_after(c, k);
        assert forall|x: int| k + 1 <= x < r implies (#[trigger] find(c, x)) is None by {
            assert(find(c, x) == t.tree_get(x));
            if x < hi {
                assert(t.tree_get(x) == get(t.cache@, self.leaf(t), 0, x));
                if find(s, x) is Some {
                    let j = lemma_find_some(s, x);
                    if j < self.slot {
                        assert(s[j].pos.ord() < s[self.slot as int].pos.ord());
                    }
                }
            }
        }
        lemma_lb_gap(c, k + 1, r);
    }

    /// The iterator `n` is at the entry after that of `self`.
    pub open spec fn forward(self, n: BtreeIter, t: Btree) -> bool {
        &&& n.index(t) == self.index(t) + 1
        &&& n.pos == t.contents()[n.index(t)].key()
    }

    /// The iterator `n` is at the entry before that of `self`.
    pub open spec fn backward(self, n: BtreeIter, t: Btree) -> bool {
        &&& n.index(t) == self.index(t) - 1
        &&& n.pos == t.contents()[n.index(t)].key()
    }

    /// The iterator `n` was sent to the first entry of the leaf that holds the position right before
    /// that of `self`, or to the next entry where that leaf is empty.
    pub open spec fn resent_back(self, n: BtreeIter, t: Btree) -> bool {
        let k = self.pos.pos.ord() - 1;
        &&& n.index(t) == lb(t.contents(), t.leaf_lo(k))
        &&& match n.cur(t) {
            Some(e) => n.pos == e.key(),
            None => {
                &&& n.pos.pos.ord() == k
                &&& n.pos.key_type == self.pos.key_type
                &&& n.pos.size == 0
            },
        }
    }

    /// The number of entries before the one that a step back comes to.
    pub open spec fn back_index(self, t: Btree) -> int {
        if self.index(t) > 0 {
            self.index(t) - 1
        } else {
            lb(t.contents(), t.leaf_lo(self.pos.pos.ord() - 1))
        }
    }

    /// There is an entry to step back to: from the first entry, one before the position.
    pub open spec fn steps_back(self, t: Btree) -> bool {
        ||| self.index(t) > 0
        ||| {
            &&& self.pos.pos != Bpos::lowest()
            &&& self.back_index(t) < t.contents().len()
            &&& t.contents()[self.back_index(t)].pos.ord() < self.pos.pos.ord()
        }
    }

    /// What a step back from `self` comes to: the entry before. From the first entry the iterator
    /// is sent back to where its position is, one position earlier, and that counts as a step if it
    /// comes to an entry before its position. At the lowest position it stays.
    pub open spec fn stepped_back(self, n: BtreeIter, t: Btree, r: bool) -> bool {
        if self.index(t) > 0 {
            r && self.backward(n, t)
        } else if self.pos.pos == Bpos::lowest() {
            !r && n == self
        } else {
            &&& self.resent_back(n, t)
            &&& r == (n.cur(t) is Some && n.cur(t)->0.pos.ord() < self.pos.pos.ord())
        }
    }

    /// Moves on to the first entry after the leaf; there may be none.
    fn back_up_and_advance(&mut self, t: &Btree) -> (r: bool)
        requires
            t.shape_ok(),
            t.path_ok(old(self).path@),
        ensures
            final(self).same_setup(*old(self)),
            r ==> {
                &&& final(self).wf(*t)
                &&& final(self).slot == 0
                &&& final(self).cur(*t) is Some
                &&& final(self).pos == final(self).cur(*t)->0.key()
                &&& t.path_hi(old(self).path@, 0) <= final(self).rank(*t)
                &&& forall|x: int|
                    t.path_hi(old(self).path@, 0) <= x < final(self).rank(*t) ==> (
                    #[trigger] t.tree_get(x)) is None
            },
            t.path_seqs(old(self).path@) ==> t.path_seqs(final(self).path@),
            !r ==> {
                &&& *final(self) == *old(self)
                &&& forall|x: int|
                    t.path_hi(old(self).path@, 0) <= x < top() ==> (#[trigger] t.tree_get(
                        x,
                    )) is None
            },
    {
        let mut path: Vec<PathLevel> = self.path.clone();
        assert(path@ =~= self.path@);
        let ghost hi0 = t.path_hi(self.path@, 0);
        proof {
            t.lemma_path(path@, 0, 0);
        }
        loop
            invariant
                t.shape_ok(),
                t.path_ok(path@),
                *self == *old(self),
                t.path_seqs(old(self).path@) ==> t.path_seqs(path@),
                hi0 == t.path_hi(old(self).path@, 0),
                hi0 <= t.path_hi(path@, 0) <= top(),
                forall|x: int|
                    hi0 <= x < t.path_hi(path@, 0) ==> (#[trigger] t.tree_get(x)) is None,
            decreases top() - t.path_hi(path@, 0),
        {
            let ghost was = t.path_hi(path@, 0);
            if !t.next_leaf(&mut path) {
                return false;
            }
            proof {
                t.lemma_path(path@, 0, 0);
            }
            let leaf: &BtreeNode = t.node_on(&path, 0);
            if leaf.entries.len() > 0 {
                let key: BtreeKey = leaf.entries[0].to_key_value().0;
                let ghost s = leaf.keys();
                self.path = path;
                self.slot = 0;
                self.pos = key;
                proof {
                    assert forall|x: int| hi0 <= x < self.rank(*t) implies (#[trigger] t.tree_get(
                        x,
                    )) is None by {
                        if x >= was {
                            assert(t.tree_get(x) == get(t.cache@, *leaf, 0, x));
                            if find(s, x) is Some {
                                let j = lemma_find_some(s, x);
                                if j > 0 {
                                    assert(s[0].pos.ord() < s[j].pos.ord());
                                }
                            }
                        }
                    }
                }
                return true;
            }
            proof {
                assert forall|x: int| hi0 <= x < t.path_hi(path@, 0) implies (
                #[trigger] t.tree_get(x)) is None by {
                    if x >= was {
                        assert(t.tree_get(x) == get(t.cache@, *leaf, 0, x));
                        if find(leaf.keys(), x) is Some {
                            let j = lemma_find_some(leaf.keys(), x);
                        }
                    }
                }
            }
        }
    }

    /// The leaf is held as `flags` ask for, and no node above it.
    pub open spec fn held_by(self, flags: IterFlags) -> bool {
        forall|l: int|
            0 <= l < self.path@.len() ==> (#[trigger] self.path@[l]).lock == if l > 0 {
                BtreeNodeLockedType::Unlocked
            } else if flags.intent {
                BtreeNodeLockedType::Intent
            } else {
                BtreeNodeLockedType::Read
            }
    }

    /// Holds the leaf as the flags ask for, and no node above it.
    fn hold(&mut self, t: &Btree)
        requires
            old(self).wf(*t),
        ensures
            final(self).wf(*t),
            final(self).same_setup(*old(self)),
            final(self).pos == old(self).pos,
            final(self).rank(*t) == old(self).rank(*t),
            final(self).visible == old(self).visible,
            final(self).held_by(old(self).flags),
            t.path_seqs(old(self).path@) ==> t.path_seqs(final(self).path@),
    {
        let ghost p0 = self.path@;
        let flags: IterFlags = self.flags;
        let mut l: usize = 0;
        while l < self.path.len()
            invariant
                l <= self.path@.len(),
                self.path@.len() == p0.len(),
                p0 == old(self).path@,
                flags == old(self).flags,
                self.same_setup(*old(self)),
                self.pos == old(self).pos,
                self.slot == old(self).slot,
                self.visible == old(self).visible,
                forall|j: int|
                    0 <= j < p0.len() ==> (#[trigger] self.path@[j]).addr == p0[j].addr
                        && self.path@[j].child_idx == p0[j].child_idx && self.path@[j].locked_seq
                        == p0[j].locked_seq,
                forall|j: int|
                    0 <= j < l ==> (#[trigger] self.path@[j]).lock == if j > 0 {
                        BtreeNodeLockedType::Unlocked
                    } else if flags.intent {
                        BtreeNodeLockedType::Intent
                    } else {
                        BtreeNodeLockedType::Read
                    },
            decreases self.path@.len() - l,
        {
            let mut pl: PathLevel = self.path[l];
            pl.lock = if l > 0 {
                BtreeNodeLockedType::Unlocked
            } else if flags.intent {
                BtreeNodeLockedType::Intent
            } else {
                BtreeNodeLockedType::Read
            };
            self.path.set(l, pl);
            l += 1;
        }
        proof {
            lemma_locks_free(*t, p0, self.path@);
            let p = self.path@;
            if t.path_seqs(p0) {
                assert forall|i: int| 0 <= i <= t.height() implies (#[trigger] p[i]).locked_seq
                    == t.path_node(p, i).lock_seq by {
                    assert(p0[i].locked_seq == t.path_node(p0, i).lock_seq);
                }
            }
        }
    }

    /// An iterator sent to `target`.
    pub fn init_with_path(
        t: &Btree,
        target: &BtreeKey,
        flags: IterFlags,
        btree_type: BtreeId,
    ) -> (r: BtreeIter)
        requires
            t.shape_ok(),
        ensures
            r.wf(*t),
            r.pos == *target,
            r.flags == flags,
            r.btree_type == btree_type,
            r.snapshot == 0,
            !r.had_restart,
            r.visible@ == Seq::<Visibility>::empty(),
            r.held_by(flags),
            t.path_seqs(r.path@),
            exists|k: int| #[trigger]
                t.starts_at(target.pos, btree_type, k) && r.index(*t) == lb(t.contents(), k),
    {
        let path: Vec<PathLevel> = t.path_to(&target.pos);
        let ghost k0 = target.pos.ord();
        proof {
            t.lemma_path(path@, 0, 0);
            t.lemma_path_leaf(path@, k0);
            t.lemma_contents();
        }
        let leaf: &BtreeNode = t.node_on(&path, 0);
        let ghost s = leaf.keys();
        let n: usize = leaf.entries.len();
        let mut i: usize = 0;
        if btree_type == BtreeId::Extents {
            while i < n && leaf.entries[i].pos.offset < target.pos.offset
                invariant
                    i <= n,
                    n == leaf.entries.len(),
                    s == leaf.keys(),
                    btree_type == BtreeId::Extents,
                    forall|j: int|
                        0 <= j < i ==> !at_or_after(#[trigger] s[j], target.pos, btree_type),
                decreases n - i,
            {
                i += 1;
            }
        } else {
            i = lower_bound(&leaf.entries, &target.pos);
        }
        assert(first_slot(s, target.pos, btree_type, i as int));
        let mut it: BtreeIter = BtreeIter {
            path,
            slot: i,
            pos: *target,
            flags,
            had_restart: false,
            snapshot: 0,
            btree_type,
            visible: Vec::new(),
        };
        let ghost k = if i < s.len() {
            s[i as int].pos.ord()
        } else {
            t.leaf_hi(k0)
        };
        assert(t.starts_at(target.pos, btree_type, k));
        if i == n {
            if it.back_up_and_advance(t) {
                it.pos = *target;
                proof {
                    let r = it.rank(*t);
                    assert forall|x: int| k <= x < r implies (#[trigger] find(
                        t.contents(),
                        x,
                    )) is None by {
                        let e = it.cur(*t)->0;
                        lemma_ord(e.pos, e.pos);
                        assert(find(t.contents(), x) == t.tree_get(x));
                    }
                    lemma_lb_gap(t.contents(), k, r);
                }
            }
        }
        it.hold(t);
        it
    }
}

impl BtreeIter {
    /// The entry that the iterator is at.
    pub fn peek_entry(&self, t: &Btree) -> (r: Option<KeyEntry>)
        requires
            self.wf(*t),
        ensures
            match r {
                Some(e) => self.cur(*t) == Some(e@),
                None => self.cur(*t) is None,
            },
    {
        let leaf: &BtreeNode = t.node_on(&self.path, 0);
        if self.slot < leaf.entries.len() {
            Some(leaf.entries[self.slot].clone())
        } else {
            None
        }
    }

    /// Key and value that the iterator is at.
    pub fn peek(&self, t: &Btree) -> (r: Option<(BtreeKey, BchVal)>)
        requires
            self.wf(*t),
        ensures
            r == (match self.cur(*t) {
                Some(e) => Some((e.key(), e.bch_val())),
                None => None,
            }),
            r == if self.index(*t) < t.contents().len() {
                let e = t.contents()[self.index(*t)];
                Some((e.key(), e.bch_val()))
            } else {
                None
            },
    {
        proof {
            self.lemma_cur(*t);
        }
        let leaf: &BtreeNode = t.node_on(&self.path, 0);
        if self.slot < leaf.entries.len() {
            Some(leaf.entries[self.slot].to_key_value())
        } else {
            None
        }
    }

    pub fn bch2_btree_iter_peek(&self, t: &Btree) -> (r: Option<(BtreeKey, BchVal)>)
        requires
            self.wf(*t),
        ensures
            r == (match self.cur(*t) {
                Some(e) => Some((e.key(), e.bch_val())),
                None => None,
            }),
    {
        self.peek(t)
    }

    pub fn bch2_btree_iter_peek_slot(&self, t: &Btree) -> (r: Option<(BtreeKey, BchVal)>)
        requires
            self.wf(*t),
        ensures
            r == (match self.cur(*t) {
                Some(e) => Some((e.key(), e.bch_val())),
                None => None,
            }),
    {
        self.peek(t)
    }

    /// Moves on to the next entry; where there is none, the iterator stays. An iterator that is at
    /// home in the tree has a path that leads on from where it is, whatever was locked in between:
    /// no entry is passed over or shown twice.
    pub fn advance(&mut self, t: &Btree) -> (r: bool)
        requires
            old(self).wf(*t),
        ensures
            final(self).wf(*t),
            final(self).same_setup(*old(self)),
            r == (old(self).index(*t) + 1 < t.contents().len()),
            r ==> old(self).forward(*final(self), *t),
            !r ==> *final(self) == *old(self),
    {
        let ghost was = *self;
        let ghost c = t.contents();
        proof {
            t.lemma_contents();
            t.lemma_path(self.path@, 0, 0);
            self.lemma_cur(*t);
        }
        let leaf: &BtreeNode = t.node_on(&self.path, 0);
        let ghost s = leaf.keys();
        let n: usize = leaf.entries.len();
        if self.slot >= n {
            return false;
        }
        if self.slot + 1 < n {
            let next: usize = self.slot + 1;
            let key: BtreeKey = leaf.entries[next].to_key_value().0;
            self.slot = next;
            self.pos = key;
            proof {
                let k = was.rank(*t);
                let k2 = self.rank(*t);
                assert(s[next - 1].pos.ord() < s[next as int].pos.ord());
                lemma_find_at(s, next - 1);
                assert(t.tree_get(k) == get(t.cache@, *leaf, 0, k));
                assert(find(c, k) is Some);
                lemma_lb_after(c, k);
                assert forall|x: int| k + 1 <= x < k2 implies (#[trigger] find(c, x)) is None by {
                    assert(find(c, x) == t.tree_get(x));
                    assert(t.tree_get(x) == get(t.cache@, *leaf, 0, x));
                    if find(s, x) is Some {
                        let j = lemma_find_some(s, x);
                        if j < next - 1 {
                            assert(s[j].pos.ord() < s[next - 1].pos.ord());
                        }
                        if j > next {
                            assert(s[next as int].pos.ord() < s[j].pos.ord());
                        }
                    }
                }
                lemma_lb_gap(c, k + 1, k2);
                self.lemma_cur(*t);
            }
            return true;
        }
        let r: bool = self.back_up_and_advance(t);
        proof {
            if r {
                let e = self.cur(*t)->0;
                lemma_ord(e.pos, e.pos);
                was.lemma_after_leaf(*t, self.rank(*t));
                self.lemma_cur(*t);
            } else {
                was.lemma_after_leaf(*t, top());
                lemma_lb_exists(c, top());
                assert forall|i: int| 0 <= i < c.len() implies (#[trigger] c[i]).pos.ord()
                    < top() by {
                    lemma_ord(c[i].pos, c[i].pos);
                }
                lemma_lb(c, top(), c.len() as int);
            }
        }
        r
    }

    /// The entry before the first of a leaf is the last one before the leaf.
    proof fn lemma_before_leaf(self, t: Btree, o: BtreeIter)
        requires
            self.wf(t),
            o.wf(t),
            self.cur(t) is Some,
            self.rank(t) < o.rank(t),
            forall|x: int|
                self.rank(t) < x < o.rank(t) ==> (#[trigger] t.tree_get(x)) is None,
        ensures
            o.index(t) == self.index(t) + 1,
    {
        let c = t.contents();
        let k = self.rank(t);
        let s = self.leaf(t).keys();
        t.lemma_contents();
        t.lemma_path(self.path@, 0, 0);
        t.lemma_path(o.path@, 0, 0);
        lemma_find_at(s, self.slot as int);
        assert(t.tree_get(k) == get(t.cache@, self.leaf(t), 0, k));
        assert(find(c, k) is Some);
        lemma_lb_after(c, k);
        assert(o.rank(t) <= top()) by {
            if o.cur(t) is Some {
                let e = o.cur(t)->0;
                lemma_ord(e.pos, e.pos);
            }
        }
        assert forall|x: int| k + 1 <= x < o.rank(t) implies (#[trigger] find(c, x)) is None by {
            assert(find(c, x) == t.tree_get(x));
        }
        lemma_lb_gap(c, k + 1, o.rank(t));
    }

    /// Moves back to the entry before, without a note of where; where there is none, the iterator
    /// stays.
    fn prev_entry(&mut self, t: &Btree) -> (r: bool)
        requires
            old(self).wf(*t),
        ensures
            final(self).wf(*t),
            final(self).same_setup(*old(self)),
            final(self).pos == old(self).pos,
            r == (old(self).index(*t) > 0),
            r ==> final(self).index(*t) == old(self).index(*t) - 1 && final(self).cur(*t) is Some,
            !r ==> *final(self) == *old(self),
    {
        let ghost was = *self;
        let ghost c = t.contents();
        proof {
            t.lemma_contents();
            t.lemma_path(self.path@, 0, 0);
            self.lemma_cur(*t);
        }
        let ghost s0 = self.leaf(*t).keys();
        let ghost lo0 = t.path_lo(self.path@, 0);
        if self.slot > 0 {
            self.slot = self.slot - 1;
            proof {
                let sl = self.slot as int;
                assert(self.rank(*t) < was.rank(*t)) by {
                    if sl + 1 < s0.len() {
                        assert(s0[sl].pos.ord() < s0[sl + 1].pos.ord());
                    }
                }
                assert forall|x: int| self.rank(*t) < x < was.rank(*t) implies (
                #[trigger] t.tree_get(x)) is None by {
                    assert(t.tree_get(x) == get(t.cache@, self.leaf(*t), 0, x));
                    if find(s0, x) is Some {
                        let j = lemma_find_some(s0, x);
                        if j < sl {
                            assert(s0[j].pos.ord() < s0[sl].pos.ord());
                        }
                        if j > sl + 1 {
                            assert(s0[sl + 1].pos.ord() < s0[j].pos.ord());
                        }
                    }
                }
                self.lemma_before_leaf(*t, was);
                self.lemma_cur(*t);
            }
            return true;
        }
        assert forall|x: int| lo0 <= x < was.rank(*t) implies (#[trigger] t.tree_get(x)) is None by {
            assert(t.tree_get(x) == get(t.cache@, was.leaf(*t), 0, x));
            if find(s0, x) is Some {
                let j = lemma_find_some(s0, x);
                if j > 0 {
                    assert(s0[0].pos.ord() < s0[j].pos.ord());
                }
            }
        }
        let mut path: Vec<PathLevel> = self.path.clone();
        assert(path@ =~= self.path@);
        loop
            invariant
                t.shape_ok(),
                t.path_ok(path@),
                *self == was,
                was == *old(self),
                was.wf(*t),
                c == t.contents(),
                0 <= t.path_lo(path@, 0) <= was.rank(*t),
                forall|x: int|
                    t.path_lo(path@, 0) <= x < was.rank(*t) ==> (#[trigger] t.tree_get(x)) is None,
            decreases t.path_lo(path@, 0),
        {
            let ghost lo = t.path_lo(path@, 0);
            if !t.prev_leaf(&mut path) {
                proof {
                    t.lemma_contents();
                    t.lemma_path(was.path@, 0, 0);
                    was.lemma_cur(*t);
                    assert(was.rank(*t) <= top()) by {
                        if was.cur(*t) is Some {
                            let e = was.cur(*t)->0;
                            lemma_ord(e.pos, e.pos);
                        }
                    }
                    assert forall|x: int| 0 <= x < was.rank(*t) implies (#[trigger] find(
                        c,
                        x,
                    )) is None by {
                        assert(find(c, x) == t.tree_get(x));
                    }
                    lemma_lb_gap(c, 0, was.rank(*t));
                    assert forall|i: int| 0 <= i < c.len() implies (#[trigger] c[i]).pos.ord()
                        >= 0 by {
                        lemma_ord(c[i].pos, c[i].pos);
                    }
                    lemma_lb(c, 0, 0);
                }
                return false;
            }
            proof {
                t.lemma_path(path@, 0, 0);
            }
            let leaf: &BtreeNode = t.node_on(&path, 0);
            let ghost s = leaf.keys();
            let n: usize = leaf.entries.len();
            if n > 0 {
                self.path = path;
                self.slot = n - 1;
                proof {
                    let e = s[n - 1];
                    lemma_find_at(s, n - 1);
                    assert(self.rank(*t) == e.pos.ord());
                    assert forall|x: int| self.rank(*t) < x < was.rank(*t) implies (
                    #[trigger] t.tree_get(x)) is None by {
                        if x < lo {
                            assert(t.tree_get(x) == get(t.cache@, *leaf, 0, x));
                            if find(s, x) is Some {
                                let j = lemma_find_some(s, x);
                                if j < n - 1 {
                                    assert(s[j].pos.ord() < s[n - 1].pos.ord());
                                }
                            }
                        }
                    }
                    self.lemma_before_leaf(*t, was);
                    self.lemma_cur(*t);
                    was.lemma_cur(*t);
                }
                return true;
            }
            proof {
                assert forall|x: int| t.path_lo(path@, 0) <= x < was.rank(*t) implies (
                #[trigger] t.tree_get(x)) is None by {
                    if x < lo {
                        assert(t.tree_get(x) == get(t.cache@, *leaf, 0, x));
                        if find(s, x) is Some {
                            let j = lemma_find_some(s, x);
                        }
                    }
                }
            }
        }
    }

    /// Moves back to the entry before. From the first entry it goes back to the leaf of its
    /// position, and is told whether that came to an entry before the position.
    fn rewind_impl(&mut self, t: &Btree) -> (r: bool)
        requires
            old(self).wf(*t),
        ensures
            final(self).wf(*t),
            final(self).same_setup(*old(self)),
            old(self).stepped_back(*final(self), *t, r),
    {
        if self.prev_entry(t) {
            let ghost at = *self;
            proof {
                self.lemma_cur(*t);
            }
            if let Some((key, _)) = self.peek(t) {
                self.pos = key;
            }
            assert(self.index(*t) == at.index(*t));
            return true;
        }
        let from: BtreeKey = self.pos;
        if from.pos == Bpos::lowest() {
            return false;
        }
        self.pos = BtreeKey::from_bpos(from.pos.predecessor(), from.key_type);
        self.full_traverse(t);
        proof {
            lemma_ord(from.pos, Bpos::lowest());
        }
        match self.peek(t) {
            Some((key, _)) => key.pos.precedes(&from.pos),
            None => false,
        }
    }
}

impl BtreeIter {
    /// Moves on to the next entry and gives it; where there is none, the iterator stays.
    pub fn next(&mut self, t: &Btree) -> (r: Option<(BtreeKey, BchVal)>)
        requires
            old(self).wf(*t),
        ensures
            final(self).wf(*t),
            final(self).same_setup(*old(self)),
            ({
                let c = t.contents();
                let i = old(self).index(*t);
                if i + 1 < c.len() {
                    &&& r == Some((c[i + 1].key(), c[i + 1].bch_val()))
                    &&& final(self).index(*t) == i + 1
                    &&& final(self).pos == c[i + 1].key()
                } else {
                    r is None && *final(self) == *old(self)
                }
            }),
    {
        if self.advance(t) {
            proof {
                self.lemma_cur(*t);
            }
            self.peek(t)
        } else {
            None
        }
    }

    pub fn next_slot(&mut self, t: &Btree) -> (r: Option<(BtreeKey, BchVal)>)
        requires
            old(self).wf(*t),
        ensures
            final(self).wf(*t),
            final(self).same_setup(*old(self)),
            ({
                let c = t.contents();
                let i = old(self).index(*t);
                if i + 1 < c.len() {
                    &&& r == Some((c[i + 1].key(), c[i + 1].bch_val()))
                    &&& final(self).index(*t) == i + 1
                    &&& final(self).pos == c[i + 1].key()
                } else {
                    r is None && *final(self) == *old(self)
                }
            }),
    {
        self.next(t)
    }

    /// Moves back to the entry before and gives it. From the first entry the iterator is sent back
    /// to the leaf of its position, and gives the entry that it comes to if that is before the
    /// position.
    pub fn prev_slot(&mut self, t: &Btree) -> (r: Option<(BtreeKey, BchVal)>)
        requires
            old(self).wf(*t),
        ensures
            final(self).wf(*t),
            final(self).same_setup(*old(self)),
            old(self).stepped_back(*final(self), *t, r is Some),
            r matches Some(kv) ==> {
                let e = t.contents()[final(self).index(*t)];
                &&& final(self).index(*t) < t.contents().len()
                &&& kv == (e.key(), e.bch_val())
            },
    {
        proof {
            self.lemma_cur(*t);
        }
        if !self.rewind_impl(t) {
            return None;
        }
        proof {
            self.lemma_cur(*t);
        }
        self.peek(t)
    }

    /// The entry that the iterator is at, unless it stands after `end`.
    pub fn peek_max(&mut self, t: &Btree, end: &Bpos) -> (r: Option<(BtreeKey, BchVal)>)
        requires
            old(self).wf(*t),
        ensures
            r == (match old(self).cur(*t) {
                Some(e) => if e.pos.ord() <= end.ord() {
                    Some((e.key(), e.bch_val()))
                } else {
                    None
                },
                None => None,
            }),
            *final(self) == (BtreeIter {
                pos: match r {
                    Some((k, _)) => k,
                    None => old(self).pos,
                },
                ..*old(self)
            }),
            final(self).wf(*t),
    {
        match self.peek(t) {
            None => None,
            Some((k, v)) => {
                if end.precedes(&k.pos) {
                    None
                } else {
                    self.pos = k;
                    Some((k, v))
                }
            },
        }
    }

    /// Steps back as `prev_slot` does and gives the entry, unless it stands before `min`. In a tree
    /// of extents the entry that the iterator is at is given where it begins before the place that
    /// the iterator was sent to.
    pub fn peek_prev_min(&mut self, t: &Btree, min: Bpos) -> (r: Option<(BtreeKey, BchVal)>)
        requires
            old(self).wf(*t),
        ensures
            final(self).wf(*t),
            final(self).same_setup(*old(self)),
            ({
                let c = t.contents();
                let i = old(self).index(*t);
                let stays = old(self).btree_type == BtreeId::Extents && i < c.len() && min.ord()
                    <= c[i].pos.ord() < old(self).pos.pos.ord();
                if stays {
                    &&& r == Some((c[i].key(), c[i].bch_val()))
                    &&& final(self).index(*t) == i
                    &&& final(self).pos == c[i].key()
                } else if old(self).steps_back(*t) {
                    let e = c[old(self).back_index(*t)];
                    &&& final(self).index(*t) == old(self).back_index(*t)
                    &&& r == if e.pos.ord() < min.ord() {
                        None
                    } else {
                        Some((e.key(), e.bch_val()))
                    }
                    &&& final(self).pos == if e.pos.ord() < min.ord() {
                        (BtreeKey { pos: min, key_type: old(self).pos.key_type, size: 0 })
                    } else {
                        e.key()
                    }
                } else {
                    r is None && old(self).stepped_back(*final(self), *t, false)
                }
            }),
    {
        let ghost was = *self;
        proof {
            self.lemma_cur(*t);
        }
        if self.btree_type == BtreeId::Extents {
            if let Some((k, v)) = self.peek(t) {
                if k.pos.precedes(&self.pos.pos) && !k.pos.precedes(&min) {
                    self.pos = k;
                    assert(self.index(*t) == was.index(*t));
                    return Some((k, v));
                }
            }
        }
        let key_type: KeyType = self.pos.key_type;
        let stepped: bool = self.rewind_impl(t);
        let ghost at = *self;
        proof {
            self.lemma_cur(*t);
        }
        if !stepped {
            return None;
        }
        match self.peek(t) {
            None => None,
            Some((k, v)) => {
                if k.pos.precedes(&min) {
                    self.pos = BtreeKey::from_bpos(min, key_type);
                    assert(self.index(*t) == at.index(*t));
                    return None;
                }
                Some((k, v))
            },
        }
    }

    /// The number of entries of the leaf that the iterator is in.
    pub fn leaf_key_count(&self, t: &Btree) -> (r: usize)
        requires
            self.wf(*t),
        ensures
            r == self.leaf(*t).nr_keys(),
    {
        t.node_on(&self.path, 0).key_count()
    }

    /// The lowest level of the iterator's path stands for a node that is there, and that is a leaf.
    pub open spec fn reached_leaf(self, t: Btree) -> bool {
        &&& self.path@.len() > 0
        &&& t.height() > 0 ==> t.cache@.contains_key(self.path@[0].addr)
        &&& self.leaf(t).level == 0
    }

    /// Whether the iterator has come down to a leaf. One that is at home in the tree has; one
    /// without a path, or whose lowest node is gone or lies higher up, has not.
    pub fn at_leaf(&self, t: &Btree) -> (r: bool)
        ensures
            r == self.reached_leaf(*t),
            self.wf(*t) ==> r,
    {
        proof {
            if self.wf(*t) {
                t.lemma_path(self.path@, 0, 0);
            }
        }
        if self.path.len() == 0 {
            false
        } else if t.root.depth == 0 {
            t.root.node.level == 0
        } else {
            match t.cache.get(self.path[0].addr) {
                Some(n) => n.level == 0,
                None => false,
            }
        }
    }

    /// An iterator over a path that is there already.
    pub fn from_existing(
        target: &BtreeKey,
        flags: IterFlags,
        btree_type: BtreeId,
        path: Vec<PathLevel>,
        slot: usize,
    ) -> (r: BtreeIter)
        ensures
            r.path == path,
            r.slot == slot,
            r.pos == *target,
            r.flags == flags,
            r.btree_type == btree_type,
            r.snapshot == 0,
            !r.had_restart,
            r.visible@ == Seq::<Visibility>::empty(),
    {
        BtreeIter {
            path,
            slot,
            pos: *target,
            flags,
            had_restart: false,
            snapshot: 0,
            btree_type,
            visible: Vec::new(),
        }
    }

    /// An iterator sent to `target` that shows what `snapshot_id` sees.
    pub fn init_with_snapshot_with_path(
        t: &Btree,
        target: &BtreeKey,
        flags: IterFlags,
        snapshot_id: u32,
        btree_type: BtreeId,
    ) -> (r: BtreeIter)
        requires
            t.shape_ok(),
        ensures
            r.wf(*t),
            r.pos == *target,
            r.flags == flags,
            r.btree_type == btree_type,
            r.snapshot == snapshot_id,
            !r.had_restart,
            r.visible@ == Seq::<Visibility>::empty(),
            r.held_by(flags),
            t.path_seqs(r.path@),
            exists|k: int| #[trigger]
                t.starts_at(target.pos, btree_type, k) && r.index(*t) == lb(t.contents(), k),
    {
        let mut it: BtreeIter = BtreeIter::init_with_path(t, target, flags, btree_type);
        let ghost was = it;
        it.snapshot = snapshot_id;
        assert(it.index(*t) == was.index(*t));
        it
    }

    /// An iterator at the entry that may cover `target`: where the first entry at or after the
    /// target begins after it, or there is none, the entry before.
    pub fn init_with_snapshot_peek_prev_with_path(
        t: &Btree,
        target: &BtreeKey,
        flags: IterFlags,
        snapshot_id: u32,
        btree_type: BtreeId,
    ) -> (r: BtreeIter)
        requires
            t.shape_ok(),
        ensures
            r.wf(*t),
            r.pos == *target,
            r.flags == flags,
            r.btree_type == btree_type,
            r.snapshot == snapshot_id,
            !r.had_restart,
            r.visible@ == Seq::<Visibility>::empty(),
            exists|k: int| #[trigger]
                t.starts_at(target.pos, btree_type, k) && r.index(*t) == {
                    let c = t.contents();
                    let i = lb(c, k);
                    if i > 0 && (i >= c.len() || c[i].pos.offset > target.pos.offset) {
                        i - 1
                    } else {
                        i
                    }
                },
    {
        let mut it: BtreeIter = BtreeIter::init_with_snapshot_with_path(
            t,
            target,
            flags,
            snapshot_id,
            btree_type,
        );
        proof {
            it.lemma_cur(*t);
        }
        match it.peek(t) {
            Some((k, _)) => {
                if k.get_vaddr() > target.get_vaddr() {
                    it.prev_entry(t);
                }
            },
            None => {
                it.prev_entry(t);
            },
        }
        it
    }

    /// Goes down from the root again to the leaf of the iterator's place, and to the first entry
    /// of that leaf or after it.
    fn full_traverse(&mut self, t: &Btree)
        requires
            t.shape_ok(),
        ensures
            final(self).wf(*t),
            final(self).same_setup(*old(self)),
            final(self).index(*t) == lb(t.contents(), t.leaf_lo(old(self).pos.pos.ord())),
            final(self).pos == match final(self).cur(*t) {
                Some(e) => e.key(),
                None => old(self).pos,
            },
    {
        let ghost k0 = self.pos.pos.ord();
        let path: Vec<PathLevel> = t.path_to(&self.pos.pos);
        proof {
            t.lemma_path(path@, 0, 0);
            t.lemma_path_leaf(path@, k0);
            t.lemma_contents();
        }
        let leaf: &BtreeNode = t.node_on(&path, 0);
        let ghost s = leaf.keys();
        let ghost lo = t.path_lo(path@, 0);
        self.path = path;
        self.slot = 0;
        if leaf.entries.len() > 0 {
            self.pos = leaf.entries[0].to_key_value().0;
            proof {
                let r = self.rank(*t);
                assert forall|x: int| lo <= x < r implies (#[trigger] find(
                    t.contents(),
                    x,
                )) is None by {
                    assert(find(t.contents(), x) == t.tree_get(x));
                    assert(t.tree_get(x) == get(t.cache@, *leaf, 0, x));
                    if find(s, x) is Some {
                        let j = lemma_find_some(s, x);
                        if j > 0 {
                            assert(s[0].pos.ord() < s[j].pos.ord());
                        }
                    }
                }
                lemma_lb_gap(t.contents(), lo, r);
            }
        } else {
            let ghost at = *self;
            let moved: bool = self.back_up_and_advance(t);
            proof {
                let r = self.rank(*t);
                if moved {
                    let e = self.cur(*t)->0;
                    lemma_ord(e.pos, e.pos);
                }
                assert forall|x: int| lo <= x < r implies (#[trigger] find(
                    t.contents(),
                    x,
                )) is None by {
                    assert(find(t.contents(), x) == t.tree_get(x));
                    if x < t.path_hi(at.path@, 0) {
                        assert(t.tree_get(x) == get(t.cache@, *leaf, 0, x));
                        if find(s, x) is Some {
                            let j = lemma_find_some(s, x);
                        }
                    }
                }
                lemma_lb_gap(t.contents(), lo, r);
            }
        }
    }

    /// The leaf of the iterator still covers its place, as far as its bounds tell; a tree of one
    /// leaf always does.
    pub open spec fn still_covers(self, t: Btree) -> bool {
        ||| t.root.depth == 0
        ||| {
            &&& t.cache@.contains_key(self.path@[0].addr)
            &&& t.cache@[self.path@[0].addr].min_key.ord() <= self.pos.pos.ord()
                <= t.cache@[self.path@[0].addr].max_key.ord()
        }
    }

    /// Goes down from the root again unless the leaf still covers the iterator's place; whether
    /// there is a path at all.
    pub fn traverse(&mut self, t: &Btree) -> (r: bool)
        requires
            t.shape_ok(),
        ensures
            r == (old(self).path@.len() > 0),
            !r || old(self).still_covers(*t) ==> *final(self) == *old(self),
            r && !old(self).still_covers(*t) ==> {
                &&& final(self).wf(*t)
                &&& final(self).same_setup(*old(self))
                &&& final(self).index(*t) == lb(
                    t.contents(),
                    t.leaf_lo(old(self).pos.pos.ord()),
                )
                &&& final(self).pos == match final(self).cur(*t) {
                    Some(e) => e.key(),
                    None => old(self).pos,
                }
            },
    {
        if self.path.len() == 0 {
            return false;
        }
        if t.root.depth == 0 {
            return true;
        }
        if let Some(leaf) = t.cache.get(self.path[0].addr) {
            if !self.pos.pos.precedes(&leaf.min_key) && !leaf.max_key.precedes(&self.pos.pos) {
                return true;
            }
        }
        self.full_traverse(t);
        true
    }

    /// Starts over from the root, at the iterator's place, with no snapshot set.
    pub fn restart(&mut self, t: &Btree)
        requires
            t.shape_ok(),
        ensures
            final(self).wf(*t),
            final(self).pos == old(self).pos,
            final(self).flags == old(self).flags,
            final(self).btree_type == old(self).btree_type,
            final(self).snapshot == 0,
            final(self).had_restart,
            final(self).visible@ == Seq::<Visibility>::empty(),
            final(self).held_by(old(self).flags),
            t.path_seqs(final(self).path@),
            exists|k: int| #[trigger]
                t.starts_at(old(self).pos.pos, old(self).btree_type, k) && final(self).index(*t)
                    == lb(t.contents(), k),
    {
        let mut it: BtreeIter = BtreeIter::init_with_path(
            t,
            &self.pos,
            self.flags,
            self.btree_type,
        );
        let ghost was = it;
        it.had_restart = true;
        assert(it.index(*t) == was.index(*t));
        *self = it;
    }

    /// Level `l` of the path is as it was when it was locked.
    pub open spec fn level_unchanged(self, t: Btree, l: int) -> bool {
        if l >= t.height() {
            t.root.node.lock_seq == self.path@[l].locked_seq
        } else {
            t.cache@.contains_key(self.path@[l].addr) && t.cache@[self.path@[l].addr].lock_seq
                == self.path@[l].locked_seq
        }
    }

    /// No node of the path was written since it was locked.
    pub open spec fn path_unchanged(self, t: Btree) -> bool {
        &&& self.path@.len() == t.height() + 1
        &&& forall|l: int| 0 <= l <= t.height() ==> #[trigger] self.level_unchanged(t, l)
    }

    /// A restart right after an iterator was sent to its place is none.
    pub proof fn law_fresh_path_is_kept(self, t: Btree)
        requires
            self.wf(t),
            t.path_seqs(self.path@),
        ensures
            self.path_unchanged(t),
    {
        assert forall|l: int| 0 <= l <= t.height() implies #[trigger] self.level_unchanged(t, l) by {
            t.lemma_path(self.path@, 0, l);
            assert(self.path@[l].locked_seq == t.path_node(self.path@, l).lock_seq);
        }
    }

    /// Starts over only where a node of the path was written since it was locked; whether it did.
    /// Either way nothing is locked after a path that was kept.
    pub fn restart_optimized(&mut self, t: &Btree) -> (r: bool)
        requires
            t.shape_ok(),
        ensures
            r == !old(self).path_unchanged(*t),
            !r ==> {
                &&& !final(self).had_restart
                &&& final(self).slot == old(self).slot
                &&& final(self).pos == old(self).pos
                &&& final(self).flags == old(self).flags
                &&& final(self).snapshot == old(self).snapshot
                &&& final(self).btree_type == old(self).btree_type
                &&& final(self).visible@ == old(self).visible@
                &&& final(self).path@.len() == old(self).path@.len()
                &&& forall|l: int|
                    0 <= l < final(self).path@.len() ==> #[trigger] final(self).path@[l] == (
                    PathLevel { lock: BtreeNodeLockedType::Unlocked, ..old(self).path@[l] })
            },
            !r && old(self).wf(*t) ==> final(self).wf(*t) && final(self).index(*t) == old(
                self,
            ).index(*t),
            r ==> {
                &&& final(self).wf(*t)
                &&& final(self).had_restart
                &&& final(self).pos == old(self).pos
                &&& final(self).flags == old(self).flags
                &&& final(self).btree_type == old(self).btree_type
                &&& final(self).snapshot == 0
                &&& final(self).visible@ == Seq::<Visibility>::empty()
                &&& final(self).held_by(old(self).flags)
                &&& t.path_seqs(final(self).path@)
                &&& exists|k: int| #[trigger]
                    t.starts_at(old(self).pos.pos, old(self).btree_type, k) && final(self).index(*t)
                        == lb(t.contents(), k)
            },
    {
        let ghost was = *self;
        let depth: usize = t.root.depth as usize;
        if self.path.len() != depth + 1 {
            self.restart(t);
            return true;
        }
        let mut l: usize = 0;
        while l <= depth
            invariant
                t.shape_ok(),
                *self == was,
                was == *old(self),
                depth == t.height(),
                self.path@.len() == depth + 1,
                l <= depth + 1,
                forall|i: int| 0 <= i < l ==> #[trigger] self.level_unchanged(*t, i),
            decreases depth + 1 - l,
        {
            let pl: PathLevel = self.path[l];
            let same: bool = if l >= depth {
                t.root.node.lock_seq == pl.locked_seq
            } else {
                match t.cache.get(pl.addr) {
                    Some(n) => n.lock_seq == pl.locked_seq,
                    None => false,
                }
            };
            if !same {
                assert(!self.level_unchanged(*t, l as int));
                self.restart(t);
                return true;
            }
            l += 1;
        }
        let mut l: usize = 0;
        while l <= depth
            invariant
                depth == t.height(),
                l <= depth + 1,
                self.path@.len() == depth + 1,
                was.path@.len() == depth + 1,
                self.slot == was.slot,
                self.pos == was.pos,
                self.flags == was.flags,
                self.snapshot == was.snapshot,
                self.btree_type == was.btree_type,
                self.visible@ == was.visible@,
                forall|i: int|
                    0 <= i < l ==> #[trigger] self.path@[i] == (PathLevel {
                        lock: BtreeNodeLockedType::Unlocked,
                        ..was.path@[i]
                    }),
                forall|i: int| l <= i <= depth ==> #[trigger] self.path@[i] == was.path@[i],
            decreases depth + 1 - l,
        {
            let mut pl: PathLevel = self.path[l];
            pl.lock = BtreeNodeLockedType::Unlocked;
            self.path.set(l, pl);
            l += 1;
        }
        self.had_restart = false;
        proof {
            if was.wf(*t) {
                lemma_locks_free(*t, was.path@, self.path@);
            }
        }
        false
    }

    /// Shows only what snapshot `sid` sees from now on; zero shows everything.
    pub fn set_snapshot_filter(&mut self, sid: u32)
        ensures
            final(self).snapshot == sid,
            final(self).visible@ == if sid != old(self).snapshot {
                Seq::<Visibility>::empty()
            } else {
                old(self).visible@
            },
            final(self).path == old(self).path,
            final(self).slot == old(self).slot,
            final(self).pos == old(self).pos,
            final(self).flags == old(self).flags,
            final(self).had_restart == old(self).had_restart,
            final(self).btree_type == old(self).btree_type,
    {
        if self.snapshot != sid {
            self.snapshot = sid;
            self.visible.clear();
        }
    }
}

/// How the nodes of a path are held is of no account for where it leads.
pub proof fn lemma_locks_free(t: Btree, p: Seq<PathLevel>, q: Seq<PathLevel>)
    requires
        t.path_ok(p),
        q.len() == p.len(),
        forall|j: int|
            0 <= j < p.len() ==> (#[trigger] q[j]).addr == p[j].addr && q[j].child_idx
                == p[j].child_idx,
    ensures
        t.path_ok(q),
        t.path_node(q, 0) == t.path_node(p, 0),
        t.path_lo(q, 0) == t.path_lo(p, 0),
        t.path_hi(q, 0) == t.path_hi(p, 0),
{
    assert forall|l: int| 0 <= l < t.height() implies #[trigger] t.link_ok(q, l) by {
        t.lemma_path_same(p, q, l + 1);
        assert(t.link_ok(p, l));
        assert(q[l].addr == p[l].addr);
    }
    t.lemma_path_same(p, q, 0);
}

/// A step back undoes a step forward: the iterator is at the entry where it was.
pub proof fn law_back_undoes_forward(t: Btree, a: BtreeIter, b: BtreeIter, c: BtreeIter)
    requires
        a.wf(t),
        a.forward(b, t),
        b.backward(c, t),
    ensures
        c.index(t) == a.index(t),
        c.pos == t.contents()[a.index(t)].key(),
{
}

/// An iterator that is set up at a position starts with the first entry at it or behind it, in every
/// tree but that of the extents.
pub proof fn law_seek(t: Btree, target: Bpos, btree_type: BtreeId, k: int, j: int)
    requires
        t.shape_ok(),
        btree_type != BtreeId::Extents,
        t.starts_at(target, btree_type, k),
        0 <= j < t.contents().len(),
    ensures
        j < lb(t.contents(), k) <==> t.contents()[j].pos.ord() < target.ord(),
{
    let c = t.contents();
    let w = target.ord();
    let s = t.leaf(w).keys();
    lemma_ord(target, target);
    t.lemma_contents();
    let lo = t.leaf_lo(w);
    let hi = t.leaf_hi(w);
    if t.height() > 0 {
        lemma_at(t.cache@, t.root.node, t.height(), 0, top(), w, 0);
    }
    assert(sub_wf(t.cache@, t.leaf(w), 0, lo, hi));
    assert(forall|x: int| lo <= x < hi ==> #[trigger] t.tree_get(x) == find(s, x));
    let i = choose|i: int| #[trigger]
        first_slot(s, target, btree_type, i) && k == if i < s.len() {
            s[i].pos.ord()
        } else {
            hi
        };
    assert forall|x: int| w <= x < k implies (#[trigger] find(c, x)) is None by {
        assert(find(c, x) == t.tree_get(x));
        assert(t.tree_get(x) == find(s, x));
        if find(s, x) is Some {
            let a = lemma_find_some(s, x);
            if a < i {
                assert(!at_or_after(s[a], target, btree_type));
            } else if i < a {
                assert(s[i].pos.ord() < s[a].pos.ord());
            }
        }
    }
    lemma_lb_gap(c, w, k);
    lemma_lb_exists(c, w);
}

/// Among the extents of a leaf the offset alone counts: the first one whose offset is not below that
/// of the position is where an iterator starts.
pub proof fn law_extents_are_sought_by_offset(s: Seq<EntryView>, target: Bpos, i: int, j: int)
    requires
        first_slot(s, target, BtreeId::Extents, i),
        0 <= j < s.len(),
    ensures
        j < i ==> s[j].pos.offset < target.offset,
        j == i ==> s[j].pos.offset >= target.offset,
{
    if j < i {
        assert(!at_or_after(s[j], target, BtreeId::Extents));
    }
}

/// A step back leads to the entry before, as long as there is one in front.
pub proof fn law_step_back(t: Btree, a: BtreeIter, b: BtreeIter, r: bool)
    requires
        a.wf(t),
        a.stepped_back(b, t, r),
        a.index(t) > 0,
    ensures
        r,
        b.index(t) == a.index(t) - 1,
        b.pos == t.contents()[a.index(t) - 1].key(),
{
}

/// A step back from the first entry at the lowest position changes nothing and finds nothing.
pub proof fn law_no_step_back_from_the_start(t: Btree, a: BtreeIter, b: BtreeIter, r: bool)
    requires
        a.stepped_back(b, t, r),
        a.index(t) <= 0,
        a.pos.pos.inode == 0,
        a.pos.pos.offset == 0,
        a.pos.pos.snapshot == 0,
    ensures
        !r,
        b == a,
{
}

/// Only the leaf of an iterator is held: with intent where it is for updates, and else to be read.
pub proof fn law_iterators_hold_the_leaf(a: BtreeIter, flags: IterFlags, l: int)
    requires
        a.held_by(flags),
        0 <= l < a.path@.len(),
    ensures
        l > 0 ==> a.path@[l].lock == BtreeNodeLockedType::Unlocked,
        l == 0 && flags.intent ==> a.path@[l].lock == BtreeNodeLockedType::Intent,
        l == 0 && !flags.intent ==> a.path@[l].lock == BtreeNodeLockedType::Read,
{
}

/// A path is unchanged where every node on it is there and was not written since.
pub proof fn law_unchanged_path(a: BtreeIter, t: Btree, l: int)
    requires
        a.path_unchanged(t),
        0 <= l < a.path@.len(),
    ensures
        l < t.height() ==> t.cache@.contains_key(a.path@[l].addr)
            && t.cache@[a.path@[l].addr].lock_seq == a.path@[l].locked_seq,
        l == t.height() ==> t.root.node.lock_seq == a.path@[l].locked_seq,
        a.path@.len() == t.height() + 1,
{
    assert(a.level_unchanged(t, l));
}

/// The leaf of an iterator still covers its position where the tree is one leaf, or where the leaf is
/// there and the position is between its bounds, these included.
pub proof fn law_leaf_still_covers(a: BtreeIter, t: Btree)
    ensures
        t.root.depth == 0 ==> a.still_covers(t),
        t.root.depth > 0 ==> (a.still_covers(t) <==> ({
            let n = t.cache@[a.path@[0].addr];
            t.cache@.contains_key(a.path@[0].addr) && n.min_key.ord() <= a.pos.pos.ord()
                && a.pos.pos.ord() <= n.max_key.ord()
        })),
        a.path@.len() == 0 ==> !a.reached_leaf(t),
        a.path@.len() > 0 && t.root.depth == 0 ==> (a.reached_leaf(t) <==> t.root.node.level == 0),
        a.path@.len() > 0 && t.root.depth > 0 ==> (a.reached_leaf(t) <==> t.cache@.contains_key(
            a.path@[0].addr,
        ) && t.cache@[a.path@[0].addr].level == 0),
{
}

/// A path is kept only where no node on it is gone or was written since.
pub proof fn law_changed_path(a: BtreeIter, t: Btree, l: int)
    requires
        0 <= l < t.height(),
        !t.cache@.contains_key(a.path@[l].addr) || t.cache@[a.path@[l].addr].lock_seq
            != a.path@[l].locked_seq,
    ensures
        !a.path_unchanged(t),
{
    assert(!a.level_unchanged(t, l));
}

} // verus!
