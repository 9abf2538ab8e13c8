//! Insertion: into a leaf, and through splits of full nodes up to the root.

use crate::entries::{
    find, holds, keys, lemma_find_concat, lemma_find_some, lemma_put, lower_bound_at, put, sorted,
    upserted, widths,
};
use crate::key::{extent_entry, lemma_ord, BchVal, Bpos, BtreeKey, EntryView, KeyType};
use crate::node::{balanced_at, should_split, splits_at, BtreeNode};
use crate::shape::{
    at, at_hi, at_lo, built_from, changed_only, child, child_hi, child_lo, get, get_kids, kid_has,
    kid_ok, kids_apart, kids_wf, lemma_at, lemma_at_frame, lemma_frame, lemma_get_outside,
    lemma_kid_changed, lemma_kids_cut, lemma_replaced, lemma_route_cut, lemma_route_is,
    lemma_route_range, lemma_unfold, lemma_widen, lemma_within, lemma_within_level, node_ok, reach,
    route, sub_wf, top, within,
};
use crate::split::{
    after_split, changes_marked, cut_in_two, half_takes, in_range, law_extents_fit, leaf_addr,
    leaf_of, leaf_split, lemma_half_takes, lemma_leaf_split_kept, lemma_pending, lemma_two_steps,
    lemma_upserted_range, marks_kept, path_full, pending, route_entry, route_idx, split_for_route,
    split_path, stored, taken, wide, SplitStep,
};
use crate::tree::{Btree, PendingRootJournal};
use crate::writer::{
    fails_with, new_written, on_disk, takes_room, writes_kept, BtreeNodeWriter, StorageError,
};
use vstd::prelude::*;

verus! {

/// A new root above two halves leads to everything that the halves lead to.
proof fn lemma_new_root(
    m: Map<u64, BtreeNode>,
    m2: Map<u64, BtreeNode>,
    left: BtreeNode,
    right: BtreeNode,
    la: u64,
    ra: u64,
    root: BtreeNode,
    level: nat,
    med: Bpos,
)
    requires
        sub_wf(m, left, level, 0, med.ord()),
        sub_wf(m, right, level, med.ord(), top()),
        forall|a: u64| !(#[trigger] within(m, left, level, a) && #[trigger] within(
            m,
            right,
            level,
            a,
        )),
        la != ra,
        !m.contains_key(la),
        !m.contains_key(ra),
        m2 == m.insert(la, left).insert(ra, right),
        root.wf(),
        root.level == level + 1,
        root.keys() == seq![route_entry(Bpos::lowest(), la), route_entry(med, ra)],
    ensures
        sub_wf(m2, root, level + 1, 0, top()),
        forall|x: int|
            0 <= x < top() ==> #[trigger] get(m2, root, level + 1, x) == if x < med.ord() {
                get(m, left, level, x)
            } else {
                get(m, right, level, x)
            },
{
    let s = root.keys();
    let h = level + 1;
    let e0 = route_entry(Bpos::lowest(), la);
    let e1 = route_entry(med, ra);
    assert(s[0] == e0 && s[1] == e1);
    assert(child(e0) == la && child(e1) == ra);
    assert(Bpos::lowest().ord() == 0) by {
        lemma_ord(Bpos::lowest(), Bpos::lowest());
    }
    assert forall|a: u64| #[trigger] within(m, left, level, a) implies m2.contains_key(a) && m2[a]
        == m[a] && m.contains_key(a) by {
        lemma_within_level(m, left, level, 0, med.ord(), a);
    }
    assert forall|a: u64| #[trigger] within(m, right, level, a) implies m2.contains_key(a)
        && m2[a] == m[a] && m.contains_key(a) by {
        lemma_within_level(m, right, level, med.ord(), top(), a);
    }
    lemma_frame(m, m2, left, level, 0, med.ord());
    lemma_frame(m, m2, right, level, med.ord(), top());
    assert(kids_wf(m2, s, level, 0, top())) by {
        assert forall|i: int| 0 <= i < s.len() implies #[trigger] kid_ok(
            m2,
            s,
            level,
            0,
            top(),
            i,
        ) by {
            if i == 0 {
            } else {
                assert(i == 1);
            }
        }
    }
    assert(kids_apart(m2, s, level)) by {
        assert forall|i: int, j: int, a: u64|
            #![trigger reach(m2, child(s[i]), level, a), reach(m2, child(s[j]), level, a)]
            0 <= i < j < s.len() implies !(reach(m2, child(s[i]), level, a) && reach(
            m2,
            child(s[j]),
            level,
            a,
        )) by {
            assert(i == 0 && j == 1);
            assert(within(m2, left, level, a) == within(m, left, level, a));
            assert(within(m2, right, level, a) == within(m, right, level, a));
        }
    }
    assert(node_ok(root, h, 0, top())) by {
        assert forall|i: int| 0 <= i < s.len() implies 0 <= (#[trigger] s[i]).pos.ord() < top()
            && s[i].value is Extent by {
            if i == 0 {
            } else {
                assert(i == 1);
            }
        }
    }
    lemma_unfold(m2, root, h, 0, top());
    assert forall|x: int| 0 <= x < top() implies #[trigger] get(m2, root, h, x) == if x
        < med.ord() {
        get(m, left, level, x)
    } else {
        get(m, right, level, x)
    } by {
        if x < med.ord() {
            lemma_route_is(s, x, 0);
            assert(get(m2, root, h, x) == get(m2, m2[la], level, x));
        } else {
            lemma_route_is(s, x, 1);
            assert(get(m2, root, h, x) == get(m2, m2[ra], level, x));
        }
    }
}

/// The two halves of a node are subtrees of their own.
#[verifier::spinoff_prover]
#[verifier::rlimit(40)]
pub(crate) proof fn lemma_halves(
    m: Map<u64, BtreeNode>,
    node: BtreeNode,
    left: BtreeNode,
    right: BtreeNode,
    level: nat,
    lo: int,
    hi: int,
)
    requires
        sub_wf(m, node, level, lo, hi),
        left.wf(),
        right.wf(),
        left.level == node.level,
        right.level == node.level,
        0 < left.keys().len() < node.keys().len(),
        left.keys() == node.keys().subrange(0, left.keys().len() as int),
        right.keys() == node.keys().subrange(
            left.keys().len() as int,
            node.keys().len() as int,
        ),
    ensures
        ({
            let med = node.keys()[left.keys().len() as int].pos.ord();
            &&& lo < med < hi
            &&& sub_wf(m, left, level, lo, med)
            &&& sub_wf(m, right, level, med, hi)
            &&& forall|a: u64| !(#[trigger] within(m, left, level, a) && #[trigger] within(
                m,
                right,
                level,
                a,
            ))
            &&& forall|x: int| #[trigger] get(m, left, level, x) == if x < med {
                get(m, node, level, x)
            } else {
                get(m, left, level, x)
            }
            &&& forall|x: int| #[trigger] get(m, right, level, x) == if x >= med {
                get(m, node, level, x)
            } else {
                get(m, right, level, x)
            }
        }),
{
    let s = node.keys();
    let mid = left.keys().len() as int;
    let n = s.len() as int;
    let ls = s.subrange(0, mid);
    let rs = s.subrange(mid, n);
    let med = s[mid].pos.ord();
    let l = (level - 1) as nat;
    assert(s[0].pos.ord() < s[mid].pos.ord());
    assert forall|i: int| 0 <= i < ls.len() implies lo <= (#[trigger] ls[i]).pos.ord() < med by {
        assert(ls[i] == s[i]);
        assert(s[i].pos.ord() < s[mid].pos.ord());
    }
    assert forall|i: int| 0 <= i < rs.len() implies med <= (#[trigger] rs[i]).pos.ord() < hi by {
        assert(rs[i] == s[mid + i]);
        if i > 0 {
            assert(s[mid].pos.ord() < s[mid + i].pos.ord());
        }
    }
    assert(s =~= ls + rs);
    if level == 0 {
        assert forall|x: int| x < med implies #[trigger] find(ls, x) == find(s, x) by {
            lemma_find_concat(ls, rs, x);
            if find(rs, x) is Some {
                let j = lemma_find_some(rs, x);
            }
        }
        assert forall|x: int| x >= med implies #[trigger] find(rs, x) == find(s, x) by {
            lemma_find_concat(ls, rs, x);
            if find(ls, x) is Some {
                let j = lemma_find_some(ls, x);
            }
        }
    } else {
        lemma_unfold(m, node, level, lo, hi);
        lemma_kids_cut(m, s, l, lo, hi, mid);
        lemma_route_cut(m, s, l, mid);
        assert(ls[0] == s[0] && rs[0] == s[mid]);
        assert forall|i: int| 0 <= i < ls.len() implies (#[trigger] ls[i]).value is Extent by {
            assert(ls[i] == s[i]);
        }
        assert forall|i: int| 0 <= i < rs.len() implies (#[trigger] rs[i]).value is Extent by {
            assert(rs[i] == s[mid + i]);
        }
        lemma_unfold(m, left, level, lo, med);
        lemma_unfold(m, right, level, med, hi);
        assert forall|a: u64| !(#[trigger] within(m, left, level, a) && #[trigger] within(
            m,
            right,
            level,
            a,
        )) by {
            lemma_within(m, left, level, a);
            lemma_within(m, right, level, a);
            assert(!(kid_has(m, ls, l, a) && kid_has(m, rs, l, a)));
        }
        assert forall|x: int| x < med implies #[trigger] get(m, left, level, x) == get(
            m,
            node,
            level,
            x,
        ) by {
            assert(get_kids(m, ls, l, x) == get_kids(m, s, l, x));
        }
        assert forall|x: int| x >= med implies #[trigger] get(m, right, level, x) == get(
            m,
            node,
            level,
            x,
        ) by {
            assert(get_kids(m, rs, l, x) == get_kids(m, s, l, x));
        }
    }
}

impl Btree {
    /// Everything but the root, the nodes and the notes on the root's place is as in `o`.
    pub open spec fn same_front(self, o: Btree) -> bool {
        &&& self.key_cache == o.key_cache
        &&& self.btype == o.btype
        &&& self.merge_threshold == o.merge_threshold
    }

    /// The address of the root changes on disk, and the journal is to hear of it.
    pub fn note_root_addr(&mut self, root_addr: u64, level: u8)
        ensures
            *final(self) == (Btree {
                pending_root_journal: Some(PendingRootJournal { root_addr, level }),
                current_root_disk: Some((root_addr, level)),
                ..*old(self)
            }),
    {
        self.pending_root_journal = Some(PendingRootJournal { root_addr, level });
        self.current_root_disk = Some((root_addr, level));
    }

    /// Makes `node`, which is on disk at `root_addr`, the root; the depth is its level.
    pub fn bch2_btree_set_root_inmem(&mut self, node: BtreeNode, root_addr: u64)
        ensures
            final(self).root.node == node,
            final(self).root.depth == node.level,
            final(self).pending_root_journal == Some(
                PendingRootJournal { root_addr, level: node.level },
            ),
            final(self).current_root_disk == Some((root_addr, node.level)),
            final(self).cache == old(self).cache,
            final(self).root_modified == old(self).root_modified,
            final(self).same_front(*old(self)),
    {
        let level: u8 = node.level;
        self.root.node = node;
        self.root.depth = level;
        self.note_root_addr(root_addr, level);
    }

    /// The root leads to `left` for what is before `median` and to `right` for the rest; these two
    /// nodes are new, and all others are those of `o`.
    pub open spec fn two_below(
        self,
        o: Btree,
        median: Bpos,
        left: BtreeNode,
        right: BtreeNode,
    ) -> bool {
        let s = self.root.node.keys();
        let la = child(s[0]);
        let ra = child(s[1]);
        &&& s == seq![route_entry(Bpos::lowest(), la), route_entry(median, ra)]
        &&& la != ra
        &&& !o.cache@.contains_key(la)
        &&& !o.cache@.contains_key(ra)
        &&& self.cache@ == o.cache@.insert(la, left).insert(ra, right)
    }

    /// The root of `o` is cut in two new nodes below a new root; a new entry is in the part that it
    /// belongs to.
    pub open spec fn halved(self, o: Btree, new: Option<EntryView>) -> bool {
        let s = self.root.node.keys();
        let left = self.cache@[child(s[0])];
        let right = self.cache@[child(s[1])];
        &&& self.two_below(o, s[1].pos, left, right)
        &&& cut_in_two(o.root.node.keys(), left.keys(), right.keys(), s[1].pos, new)
    }

    /// The root is on disk, at an address that was not in use before, and the journal is to hear of
    /// that.
    pub open spec fn root_noted<W: BtreeNodeWriter>(self, o: W, w: W) -> bool {
        self.pending_root_journal matches Some(p) && {
            &&& p.root_addr != 0
            &&& p.level == self.root.depth
            &&& !o.in_use().contains(p.root_addr)
            &&& self.current_root_disk == Some((p.root_addr, p.level))
            &&& on_disk(w, p.root_addr, self.root.node)
        }
    }

    /// What is noted of the root's place is as in `o`.
    pub open spec fn same_notes(self, o: Btree) -> bool {
        &&& self.pending_root_journal == o.pending_root_journal
        &&& self.current_root_disk == o.current_root_disk
    }

    /// The two nodes below the root are of `node_size` bytes, and the journal entry `journal_seq`
    /// has them.
    pub open spec fn halves_bear(self, journal_seq: u64, node_size: u32) -> bool {
        let s = self.root.node.keys();
        let left = self.cache@[child(s[0])];
        let right = self.cache@[child(s[1])];
        &&& left.journal_seq == journal_seq
        &&& right.journal_seq == journal_seq
        &&& left.node_size == node_size
        &&& right.node_size == node_size
    }

    /// Writes the two halves and a new root above them, and makes that the root. The root in
    /// place stays as it is until all three are written.
    pub(crate) fn publish_split<W: BtreeNodeWriter>(
        &mut self,
        writer: &mut W,
        left: BtreeNode,
        right: BtreeNode,
        median: Bpos,
        journal_seq: u64,
    ) -> (r: Result<(), StorageError>)
        requires
            left.level < 255,
            left.node_size == right.node_size,
            sub_wf(old(self).cache@, left, left.level as nat, 0, median.ord()),
            sub_wf(old(self).cache@, right, left.level as nat, median.ord(), top()),
            forall|a: u64|
                !(#[trigger] within(old(self).cache@, left, left.level as nat, a)
                    && #[trigger] within(old(self).cache@, right, left.level as nat, a)),
            old(self).cache@.dom().subset_of(old(writer).in_use()),
        ensures
            fails_with(*old(writer), *final(writer), r),
            takes_room(*old(writer), *final(writer), r, 3),
            final(self).same_front(*old(self)),
            final(self).root_modified == old(self).root_modified,
            final(self).cache@.dom().subset_of(final(writer).in_use()),
            writes_kept(*old(writer), *final(writer)),
            new_written(old(self).cache@, final(self).cache@, *final(writer)),
            final(self).cache.dirty_addrs() == old(self).cache.dirty_addrs(),
            forall|a: u64|
                old(self).cache@.contains_key(a) ==> #[trigger] final(self).cache@.contains_key(a)
                    && final(self).cache@[a] == old(self).cache@[a],
            match r {
                Ok(_) => {
                    &&& final(self).shape_ok()
                    &&& final(self).root.depth == left.level + 1
                    &&& final(self).root.node.node_size == left.node_size
                    &&& final(self).root.node.keys().len() == 2
                    &&& final(self).root.node.journal_seq == journal_seq
                    &&& final(self).two_below(*old(self), median, left, right)
                    &&& final(self).root_noted(*old(writer), *final(writer))
                    &&& forall|x: int|
                        0 <= x < top() ==> #[trigger] final(self).tree_get(x) == if x
                            < median.ord() {
                            get(old(self).cache@, left, left.level as nat, x)
                        } else {
                            get(old(self).cache@, right, left.level as nat, x)
                        }
                },
                Err(_) => {
                    &&& final(self).root == old(self).root
                    &&& final(self).same_notes(*old(self))
                },
            },
    {
        let ghost m = self.cache@;
        let ghost gl = left;
        let ghost gr = right;
        let level: u8 = left.level;
        let node_size: u32 = left.node_size;
        let la: u64 = match writer.write_btree_node(&left) {
            Err(e) => {
                return Err(e);
            },
            Ok(a) => a,
        };
        let ra: u64 = match writer.write_btree_node(&right) {
            Err(e) => {
                return Err(e);
            },
            Ok(a) => a,
        };
        self.cache.insert(la, left);
        self.cache.insert(ra, right);
        let mut root: BtreeNode = BtreeNode::new_internal();
        root.level = level + 1;
        root.node_size = node_size;
        root.journal_seq = journal_seq;
        let ghost s0 = root.keys();
        root.insert(BtreeKey::from_bpos(Bpos::lowest(), KeyType::Normal), BchVal::new(la, 0));
        let ghost s1 = root.keys();
        root.insert(BtreeKey::from_bpos(median, KeyType::Normal), BchVal::new(ra, 0));
        proof {
            let e0 = route_entry(Bpos::lowest(), la);
            let e1 = route_entry(median, ra);
            assert(Bpos::lowest().ord() == 0) by {
                lemma_ord(Bpos::lowest(), Bpos::lowest());
            }
            assert(lower_bound_at(s0, 0, 0));
            lemma_put(s0, e0, 0);
            reveal(put);
            assert(!holds(s0, 0));
            assert(s1 =~= seq![e0]);
            assert(s1[0] == e0);
            assert(lower_bound_at(s1, median.ord(), 1));
            lemma_put(s1, e1, 1);
            assert(!holds(s1, median.ord()));
            assert(root.keys() =~= seq![e0, e1]);
        }
        root.compact();
        let root_addr: u64 = match writer.write_btree_node(&root) {
            Err(e) => {
                return Err(e);
            },
            Ok(a) => a,
        };
        proof {
            lemma_new_root(m, self.cache@, gl, gr, la, ra, root, level as nat, median);
        }
        self.bch2_btree_set_root_inmem(root, root_addr);
        Ok(())
    }
}

/// A half of a leaf that took in a key is still a subtree of its range.
pub(crate) proof fn lemma_leaf_took(
    m: Map<u64, BtreeNode>,
    half: BtreeNode,
    half2: BtreeNode,
    e: EntryView,
    lo: int,
    hi: int,
)
    requires
        sub_wf(m, half, 0, lo, hi),
        half2.wf(),
        half2.level == 0,
        upserted(half.keys(), half2.keys(), e),
        lo <= e.pos.ord() < hi,
    ensures
        sub_wf(m, half2, 0, lo, hi),
        forall|x: int| #[trigger]
            get(m, half2, 0, x) == if x == e.pos.ord() {
                if e.key_type == KeyType::Deleted {
                    None
                } else {
                    Some(e)
                }
            } else {
                get(m, half, 0, x)
            },
{
    lemma_upserted_range(half.keys(), half2.keys(), e, lo, hi);
    assert forall|x: int| #[trigger]
        get(m, half2, 0, x) == if x == e.pos.ord() {
            if e.key_type == KeyType::Deleted {
                None
            } else {
                Some(e)
            }
        } else {
            get(m, half, 0, x)
        } by {
        assert(get(m, half2, 0, x) == find(half2.keys(), x));
        assert(get(m, half, 0, x) == find(half.keys(), x));
    }
}

impl Btree {
    /// Nodes that are in the tree's cache stay as they are, and so does what is found.
    pub(crate) proof fn lemma_more_nodes(self, o: Btree)
        requires
            o.shape_ok(),
            self.root == o.root,
            forall|a: u64|
                o.cache@.contains_key(a) ==> #[trigger] self.cache@.contains_key(a)
                    && self.cache@[a] == o.cache@[a],
        ensures
            self.shape_ok(),
            forall|x: int| #[trigger] self.tree_get(x) == o.tree_get(x),
    {
        assert forall|a: u64| #[trigger]
            within(o.cache@, o.root.node, o.height(), a) implies self.cache@.contains_key(a)
            && self.cache@[a] == o.cache@[a] by {
            lemma_within_level(o.cache@, o.root.node, o.height(), 0, top(), a);
        }
        lemma_frame(o.cache@, self.cache@, o.root.node, o.height(), 0, top());
        assert forall|x: int| #[trigger] self.tree_get(x) == o.tree_get(x) by {
            assert(get(self.cache@, o.root.node, o.height(), x) == get(
                o.cache@,
                o.root.node,
                o.height(),
                x,
            ));
        }
    }

    /// Splits the root in two and puts a new root above; a root leaf takes in `entry` on the way.
    /// The root in place is not touched before the new one is written. `Ok(true)`: the root was
    /// split, and `entry` is in.
    pub fn split_root<W: BtreeNodeWriter>(
        &mut self,
        writer: &mut W,
        entry: Option<(BtreeKey, BchVal)>,
        journal_seq: u64,
    ) -> (r: Result<bool, StorageError>)
        requires
            old(self).shape_ok(),
            old(self).root.depth < 255,
            entry is Some ==> old(self).root.depth == 0,
            old(self).cache@.dom().subset_of(old(writer).in_use()),
        ensures
            fails_with(*old(writer), *final(writer), r),
            takes_room(*old(writer), *final(writer), r, 3),
            final(self).shape_ok(),
            final(self).same_front(*old(self)),
            final(self).root_modified == old(self).root_modified,
            final(self).cache@.dom().subset_of(final(writer).in_use()),
            writes_kept(*old(writer), *final(writer)),
            new_written(old(self).cache@, final(self).cache@, *final(writer)),
            final(self).cache.dirty_addrs() == old(self).cache.dirty_addrs(),
            old(self).root.node.nr_keys() < 2 ==> r == Ok::<bool, StorageError>(false)
                && *final(self) == *old(self) && *final(writer) == *old(writer),
            r is Ok ==> r == Ok::<bool, StorageError>(
                match entry {
                    Some((key, _)) => half_takes(old(self).root.node, key.pos.ord()),
                    None => old(self).root.node.nr_keys() >= 2,
                },
            ),
            match r {
                Ok(inserted) => {
                    &&& forall|x: int|
                        0 <= x < top() ==> #[trigger] final(self).tree_get(x) == match entry {
                            Some((key, value)) => after_split(
                                old(self).tree_get(x),
                                x,
                                key.pos.ord(),
                                inserted,
                                stored(key, value),
                            ),
                            None => old(self).tree_get(x),
                        }
                    &&& old(self).root.node.nr_keys() >= 2 ==> {
                        &&& final(self).halved(
                            *old(self),
                            match entry {
                                Some((key, value)) => if inserted {
                                    Some(extent_entry(key, value))
                                } else {
                                    None
                                },
                                None => None,
                            },
                        )
                        &&& final(self).root.depth == old(self).root.depth + 1
                        &&& final(self).root.node.node_size == old(self).root.node.node_size
                        &&& final(self).root.node.nr_keys() == 2
                        &&& final(self).root.node.journal_seq == journal_seq
                        &&& final(self).halves_bear(journal_seq, old(self).root.node.node_size)
                        &&& final(self).root_noted(*old(writer), *final(writer))
                    }
                },
                Err(_) => {
                    &&& final(self).root == old(self).root
                    &&& final(self).same_notes(*old(self))
                    &&& forall|x: int| #[trigger] final(self).tree_get(x) == old(self).tree_get(x)
                },
            },
    {
        let ghost before = *self;
        let ghost m = self.cache@;
        let ghost root0 = self.root.node;
        let ghost h = self.height();
        let mut left: BtreeNode = self.root.node.duplicate();
        let (median, mut right): (BtreeKey, BtreeNode) = match left.split() {
            None => {
                return Ok(false);
            },
            Some(p) => p,
        };
        let ghost med = median.pos.ord();
        let ghost left0 = left;
        let ghost right0 = right;
        proof {
            lemma_halves(m, root0, left, right, h, 0, top());
        }
        let mut inserted: bool = true;
        if let Some((key, value)) = entry {
            proof {
                lemma_ord(key.pos, key.pos);
            }
            if key.pos.precedes(&median.pos) {
                inserted = left.insert(key, value);
                proof {
                    if inserted {
                        lemma_leaf_took(m, left0, left, extent_entry(key, value), 0, med);
                    }
                }
            } else {
                inserted = right.insert(key, value);
                proof {
                    if inserted {
                        lemma_leaf_took(m, right0, right, extent_entry(key, value), med, top());
                    }
                }
            }
        }
        proof {
            if let Some((key, _)) = entry {
                lemma_half_takes(root0, key.pos.ord(), left0.keys().len() as int);
            }
        }
        let ghost left1 = left;
        let ghost right1 = right;
        left.journal_seq = journal_seq;
        right.journal_seq = journal_seq;
        proof {
            lemma_same_keys(m, left1, left, h, 0, med);
            lemma_same_keys(m, right1, right, h, med, top());
        }
        let ghost left2 = left;
        let ghost right2 = right;
        proof {
            assert(balanced_at(root0.keys(), left0.keys().len() as int));
            assert(cut_in_two(
                root0.keys(),
                left.keys(),
                right.keys(),
                median.pos,
                match entry {
                    Some((key, value)) => if inserted {
                        Some(extent_entry(key, value))
                    } else {
                        None
                    },
                    None => None,
                },
            ));
        }
        match self.publish_split(writer, left, right, median.pos, journal_seq) {
            Err(e) => {
                proof {
                    (*self).lemma_more_nodes(before);
                }
                Err(e)
            },
            Ok(_) => {
                proof {
                    assert forall|x: int| 0 <= x < top() implies #[trigger] self.tree_get(x) == (
                    match entry {
                        Some((key, value)) => after_split(
                            before.tree_get(x),
                            x,
                            key.pos.ord(),
                            inserted,
                            stored(key, value),
                        ),
                        None => before.tree_get(x),
                    }) by {
                        assert(get(m, left2, h, x) == get(m, left1, h, x));
                        assert(get(m, right2, h, x) == get(m, right1, h, x));
                        assert(x < med ==> get(m, left0, h, x) == get(m, root0, h, x));
                        assert(x >= med ==> get(m, right0, h, x) == get(m, root0, h, x));
                    }
                }
                Ok(inserted)
            },
        }
    }
}

/// Nodes with the same keys are the tops of the same subtrees.
pub proof fn lemma_same_keys(
    m: Map<u64, BtreeNode>,
    a: BtreeNode,
    b: BtreeNode,
    level: nat,
    lo: int,
    hi: int,
)
    requires
        sub_wf(m, a, level, lo, hi),
        b.wf(),
        b.level == a.level,
        b.keys() == a.keys(),
    ensures
        sub_wf(m, b, level, lo, hi),
        forall|x: int| #[trigger] get(m, b, level, x) == get(m, a, level, x),
        forall|c: u64| #[trigger] within(m, b, level, c) == within(m, a, level, c),
{
    if level > 0 {
        lemma_unfold(m, a, level, lo, hi);
        lemma_unfold(m, b, level, lo, hi);
    }
    assert forall|c: u64| #[trigger] within(m, b, level, c) == within(m, a, level, c) by {
        if level > 0 {
            lemma_within(m, a, level, c);
            lemma_within(m, b, level, c);
        }
    }
}

/// A run of routing entries, cut in two nodes.
proof fn lemma_two_halves(
    m: Map<u64, BtreeNode>,
    t: Seq<EntryView>,
    left: BtreeNode,
    right: BtreeNode,
    level: nat,
    lo: int,
    hi: int,
    mid: int,
)
    requires
        level > 0,
        0 <= lo < hi <= top(),
        sorted(t),
        in_range(t, lo, hi),
        0 < mid < t.len(),
        t[0].pos.ord() == lo,
        forall|j: int| 0 <= j < t.len() ==> (#[trigger] t[j]).value is Extent,
        kids_wf(m, t, (level - 1) as nat, lo, hi),
        kids_apart(m, t, (level - 1) as nat),
        left.wf(),
        right.wf(),
        left.level == level,
        right.level == level,
        left.keys() == t.subrange(0, mid),
        right.keys() == t.subrange(mid, t.len() as int),
    ensures
        ({
            let med = t[mid].pos.ord();
            let l = (level - 1) as nat;
            &&& lo < med < hi
            &&& sub_wf(m, left, level, lo, med)
            &&& sub_wf(m, right, level, med, hi)
            &&& forall|a: u64| !(#[trigger] within(m, left, level, a) && #[trigger] within(
                m,
                right,
                level,
                a,
            ))
            &&& forall|x: int|
                x < med ==> #[trigger] get(m, left, level, x) == get_kids(m, t, l, x)
            &&& forall|x: int|
                x >= med ==> #[trigger] get(m, right, level, x) == get_kids(m, t, l, x)
        }),
{
    let ls = t.subrange(0, mid);
    let rs = t.subrange(mid, t.len() as int);
    let med = t[mid].pos.ord();
    let l = (level - 1) as nat;
    assert(t[0].pos.ord() < t[mid].pos.ord());
    lemma_kids_cut(m, t, l, lo, hi, mid);
    lemma_route_cut(m, t, l, mid);
    assert(ls[0] == t[0] && rs[0] == t[mid]);
    assert forall|i: int| 0 <= i < ls.len() implies lo <= (#[trigger] ls[i]).pos.ord() < med
        && ls[i].value is Extent by {
        assert(ls[i] == t[i]);
        assert(t[i].pos.ord() < t[mid].pos.ord());
    }
    assert forall|i: int| 0 <= i < rs.len() implies med <= (#[trigger] rs[i]).pos.ord() < hi
        && rs[i].value is Extent by {
        assert(rs[i] == t[mid + i]);
        if i > 0 {
            assert(t[mid].pos.ord() < t[mid + i].pos.ord());
        }
    }
    lemma_unfold(m, left, level, lo, med);
    lemma_unfold(m, right, level, med, hi);
    assert forall|a: u64| !(#[trigger] within(m, left, level, a) && #[trigger] within(
        m,
        right,
        level,
        a,
    )) by {
        lemma_within(m, left, level, a);
        lemma_within(m, right, level, a);
        assert(!(kid_has(m, ls, l, a) && kid_has(m, rs, l, a)));
    }
    assert forall|x: int| x < med implies #[trigger] get(m, left, level, x) == get_kids(
        m,
        t,
        l,
        x,
    ) by {
        assert(get_kids(m, ls, l, x) == get_kids(m, t, l, x));
    }
    assert forall|x: int| x >= med implies #[trigger] get(m, right, level, x) == get_kids(
        m,
        t,
        l,
        x,
    ) by {
        assert(get_kids(m, rs, l, x) == get_kids(m, t, l, x));
    }
}

/// A root that does not know of the split of its child still leads to the lower half.
proof fn lemma_half_lost(
    m: Map<u64, BtreeNode>,
    m1: Map<u64, BtreeNode>,
    root: BtreeNode,
    level: nat,
    i: int,
    k: int,
    new: Option<EntryView>,
    at: Bpos,
    raddr: u64,
    inserted: bool,
)
    requires
        pending(m, m1, root, level, 0, top(), i, k, new, at, raddr, inserted),
    ensures
        sub_wf(m1, root, level, 0, top()),
        forall|x: int|
            0 <= x < top() ==> {
                let y = #[trigger] get(m1, root, level, x);
                y is None || y == get(m, root, level, x) || (x == k && y == new)
            },
{
    let s = root.keys();
    let l = (level - 1) as nat;
    let c = child(s[i]);
    let lo = child_lo(s, i, 0);
    let hi = child_hi(s, i, top());
    lemma_unfold(m, root, level, 0, top());
    assert(kid_ok(m, s, l, 0, top(), i));
    lemma_pending(m, m1, root, level, 0, top(), i, k, new, at, raddr, inserted);
    assert(at.ord() <= hi) by {
        if i + 1 < s.len() {
            assert(at.ord() < s[i + 1].pos.ord());
        } else {
            let t = s.insert(i + 1, route_entry(at, raddr));
            assert(t[i + 1].pos.ord() < top());
        }
    }
    lemma_widen(m1, m1[c], l, lo, at.ord(), hi);
    lemma_kid_changed(m, m1, s, l, 0, top(), i);
    lemma_unfold(m1, root, level, 0, top());
    assert forall|x: int| 0 <= x < top() implies {
        let y = #[trigger] get(m1, root, level, x);
        y is None || y == get(m, root, level, x) || (x == k && y == new)
    } by {
        assert(get(m1, root, level, x) == get_kids(m1, s, l, x));
        assert(get(m, root, level, x) == get_kids(m, s, l, x));
        lemma_route_range(s, 0, top(), x);
        if route(s, x) == i {
            if x < at.ord() {
                assert(get(m1, m1[c], l, x) == after_split(
                    get(m, m[c], l, x),
                    x,
                    k,
                    inserted,
                    new,
                ));
            } else {
                lemma_get_outside(m1, m1[c], l, lo, at.ord(), x);
            }
        }
    }
}

/// Where the route to the upper half of a split child goes.
proof fn lemma_route_place(
    m: Map<u64, BtreeNode>,
    m1: Map<u64, BtreeNode>,
    root: BtreeNode,
    level: nat,
    i: int,
    k: int,
    new: Option<EntryView>,
    at: Bpos,
    raddr: u64,
    inserted: bool,
)
    requires
        pending(m, m1, root, level, 0, top(), i, k, new, at, raddr, inserted),
    ensures
        root.wf(),
        root.level == level,
        0 <= i < root.keys().len(),
        put(root.keys(), route_entry(at, raddr)) == root.keys().insert(
            i + 1,
            route_entry(at, raddr),
        ),
        root.keys()[i].pos.ord() < at.ord(),
        i + 1 < root.keys().len() ==> at.ord() < root.keys()[i + 1].pos.ord(),
        forall|j: int| 0 <= j < root.keys().len() ==> (#[trigger] root.keys()[j]).value is Extent,
        widths(root.keys()) == 6 * root.keys().len(),
{
    lemma_pending(m, m1, root, level, 0, top(), i, k, new, at, raddr, inserted);
    lemma_unfold(m, root, level, 0, top());
    crate::split::lemma_extent_widths(root.keys());
}

/// A root with the route to the upper half leads to everything.
proof fn lemma_route_known(
    m: Map<u64, BtreeNode>,
    m1: Map<u64, BtreeNode>,
    root: BtreeNode,
    root2: BtreeNode,
    level: nat,
    i: int,
    k: int,
    new: Option<EntryView>,
    at: Bpos,
    raddr: u64,
    inserted: bool,
)
    requires
        pending(m, m1, root, level, 0, top(), i, k, new, at, raddr, inserted),
        root2.wf(),
        root2.level == level,
        root2.keys() == root.keys().insert(i + 1, route_entry(at, raddr)),
    ensures
        sub_wf(m1, root2, level, 0, top()),
        forall|x: int|
            0 <= x < top() ==> #[trigger] get(m1, root2, level, x) == after_split(
                get(m, root, level, x),
                x,
                k,
                inserted,
                new,
            ),
{
    let s = root.keys();
    let l = (level - 1) as nat;
    lemma_pending(m, m1, root, level, 0, top(), i, k, new, at, raddr, inserted);
    lemma_unfold(m1, root2, level, 0, top());
    assert forall|x: int| 0 <= x < top() implies #[trigger] get(m1, root2, level, x)
        == after_split(get(m, root, level, x), x, k, inserted, new) by {
        assert(get(m1, root2, level, x) == get_kids(m1, root2.keys(), l, x));
        assert(get(m, root, level, x) == get_kids(m, s, l, x));
    }
}

/// So do the halves of a root that was split to take the route in.
proof fn lemma_root_cut(
    m: Map<u64, BtreeNode>,
    m1: Map<u64, BtreeNode>,
    root: BtreeNode,
    left: BtreeNode,
    right: BtreeNode,
    level: nat,
    i: int,
    k: int,
    new: Option<EntryView>,
    at: Bpos,
    raddr: u64,
    inserted: bool,
)
    requires
        pending(m, m1, root, level, 0, top(), i, k, new, at, raddr, inserted),
        left.wf(),
        right.wf(),
        left.level == level,
        right.level == level,
        0 < left.keys().len() < root.keys().len() + 1,
        left.keys() == root.keys().insert(i + 1, route_entry(at, raddr)).subrange(
            0,
            left.keys().len() as int,
        ),
        right.keys() == root.keys().insert(i + 1, route_entry(at, raddr)).subrange(
            left.keys().len() as int,
            root.keys().len() as int + 1,
        ),
    ensures
        ({
            let t = root.keys().insert(i + 1, route_entry(at, raddr));
            let med = t[left.keys().len() as int].pos.ord();
            &&& sub_wf(m1, left, level, 0, med)
            &&& sub_wf(m1, right, level, med, top())
            &&& forall|a: u64| !(#[trigger] within(m1, left, level, a) && #[trigger] within(
                m1,
                right,
                level,
                a,
            ))
            &&& forall|x: int|
                0 <= x < med ==> #[trigger] get(m1, left, level, x) == after_split(
                    get(m, root, level, x),
                    x,
                    k,
                    inserted,
                    new,
                )
            &&& forall|x: int|
                med <= x < top() ==> #[trigger] get(m1, right, level, x) == after_split(
                    get(m, root, level, x),
                    x,
                    k,
                    inserted,
                    new,
                )
        }),
{
    let s = root.keys();
    let l = (level - 1) as nat;
    let t = s.insert(i + 1, route_entry(at, raddr));
    lemma_pending(m, m1, root, level, 0, top(), i, k, new, at, raddr, inserted);
    lemma_two_halves(m1, t, left, right, level, 0, top(), left.keys().len() as int);
    assert forall|x: int| 0 <= x < top() implies #[trigger] get_kids(m1, t, l, x) == after_split(
        get(m, root, level, x),
        x,
        k,
        inserted,
        new,
    ) by {
        assert(get(m, root, level, x) == get_kids(m, s, l, x));
    }
}

/// What a failed change may leave at a rank: nothing, what was there, or the new entry.
pub open spec fn torn(was: Option<EntryView>, is: Option<EntryView>, x: int, k: int, new: Option<
    EntryView,
>) -> bool {
    is is None || is == was || (x == k && is == new)
}

/// What is pending for a root is pending for one with the same keys.
proof fn lemma_pending_same(
    m: Map<u64, BtreeNode>,
    m1: Map<u64, BtreeNode>,
    root: BtreeNode,
    root2: BtreeNode,
    level: nat,
    i: int,
    k: int,
    new: Option<EntryView>,
    at: Bpos,
    raddr: u64,
    inserted: bool,
)
    requires
        pending(m, m1, root, level, 0, top(), i, k, new, at, raddr, inserted),
        root2.wf(),
        root2.level == root.level,
        root2.keys() == root.keys(),
    ensures
        pending(m, m1, root2, level, 0, top(), i, k, new, at, raddr, inserted),
        forall|x: int| #[trigger] get(m, root2, level, x) == get(m, root, level, x),
{
    lemma_same_keys(m, root, root2, level, 0, top());
}

impl Btree {
    /// Splits a full root so that it can take the route to the upper half of its child below
    /// entry `i`.
    fn grow_for_route<W: BtreeNodeWriter>(
        &mut self,
        writer: &mut W,
        at: Bpos,
        raddr: u64,
        inserted: bool,
        journal_seq: u64,
        Ghost(m): Ghost<Map<u64, BtreeNode>>,
        Ghost(i): Ghost<int>,
        Ghost(k): Ghost<int>,
        Ghost(new): Ghost<Option<EntryView>>,
    ) -> (r: Result<(), StorageError>)
        requires
            old(self).root.depth < 255,
            old(self).root.node.keys().len() >= 2,
            pending(
                m,
                old(self).cache@,
                old(self).root.node,
                old(self).height(),
                0,
                top(),
                i,
                k,
                new,
                at,
                raddr,
                inserted,
            ),
            old(self).cache@.dom().subset_of(old(writer).in_use()),
        ensures
            fails_with(*old(writer), *final(writer), r),
            takes_room(*old(writer), *final(writer), r, 3),
            final(self).shape_ok(),
            final(self).same_front(*old(self)),
            final(self).root_modified == old(self).root_modified,
            final(self).cache@.dom().subset_of(final(writer).in_use()),
            writes_kept(*old(writer), *final(writer)),
            new_written(old(self).cache@, final(self).cache@, *final(writer)),
            final(self).cache.dirty_addrs() == old(self).cache.dirty_addrs(),
            forall|a: u64|
                old(self).cache@.contains_key(a) ==> #[trigger] final(self).cache@.contains_key(a)
                    && final(self).cache@[a] == old(self).cache@[a],
            r is Err ==> final(self).root.depth == old(self).root.depth && final(self).same_notes(
                *old(self),
            ),
            r is Ok ==> {
                &&& final(self).root_noted(*old(writer), *final(writer))
                &&& final(self).root.node.node_size == old(self).root.node.node_size
                &&& final(self).root.depth == old(self).root.depth + 1
                &&& final(self).root.node.journal_seq == journal_seq
                &&& final(self).root.node.nr_keys() == 2
                &&& final(self).halves_bear(journal_seq, old(self).root.node.node_size)
            },
            r is Ok ==> forall|x: int|
                0 <= x < top() ==> #[trigger] final(self).tree_get(x) == after_split(
                    get(m, old(self).root.node, old(self).height(), x),
                    x,
                    k,
                    inserted,
                    new,
                ),
            r is Err ==> forall|x: int|
                0 <= x < top() ==> torn(
                    get(m, old(self).root.node, old(self).height(), x),
                    #[trigger] final(self).tree_get(x),
                    x,
                    k,
                    new,
                ),
    {
        let ghost kept = *self;
        let ghost m1 = self.cache@;
        let ghost root0 = self.root.node;
        let ghost h = self.height();
        proof {
            lemma_route_place(m, m1, root0, h, i, k, new, at, raddr, inserted);
        }
        let mut left: BtreeNode = self.root.node.duplicate();
        let (med, mut right): (Bpos, BtreeNode) = match split_for_route(
            &mut left,
            at,
            raddr,
            Ghost(i),
        ) {
            None => {
                assert(false);
                return Err(StorageError::NoSpace);
            },
            Some(p) => p,
        };
        left.journal_seq = journal_seq;
        right.journal_seq = journal_seq;
        let ghost gl = left;
        let ghost gr = right;
        proof {
            lemma_root_cut(m, m1, root0, left, right, h, i, k, new, at, raddr, inserted);
            lemma_half_lost(m, m1, root0, h, i, k, new, at, raddr, inserted);
        }
        match self.publish_split(writer, left, right, med, journal_seq) {
            Err(err) => {
                proof {
                    (*self).lemma_more_nodes(kept);
                    assert forall|x: int| 0 <= x < top() implies torn(
                        get(m, root0, h, x),
                        #[trigger] self.tree_get(x),
                        x,
                        k,
                        new,
                    ) by {
                        assert(kept.tree_get(x) == get(m1, root0, h, x));
                    }
                }
                Err(err)
            },
            Ok(_) => {
                proof {
                    assert forall|x: int| 0 <= x < top() implies #[trigger] self.tree_get(x)
                        == after_split(get(m, root0, h, x), x, k, inserted, new) by {
                        assert(x < med.ord() ==> self.tree_get(x) == get(m1, gl, h, x));
                        assert(x >= med.ord() ==> self.tree_get(x) == get(m1, gr, h, x));
                    }
                }
                Ok(())
            },
        }
    }

    /// Lets the root know of the split of its child below entry `i`; the root may have to split
    /// too.
    fn root_takes_route<W: BtreeNodeWriter>(
        &mut self,
        writer: &mut W,
        at: Bpos,
        raddr: u64,
        inserted: bool,
        journal_seq: u64,
        Ghost(m): Ghost<Map<u64, BtreeNode>>,
        Ghost(i): Ghost<int>,
        Ghost(k): Ghost<int>,
        Ghost(new): Ghost<Option<EntryView>>,
    ) -> (r: Result<bool, StorageError>)
        requires
            old(self).root.depth < 255,
            pending(
                m,
                old(self).cache@,
                old(self).root.node,
                old(self).height(),
                0,
                top(),
                i,
                k,
                new,
                at,
                raddr,
                inserted,
            ),
            old(self).cache@.dom().subset_of(old(writer).in_use()),
        ensures
            fails_with(*old(writer), *final(writer), r),
            takes_room(*old(writer), *final(writer), r, 3),
            final(self).shape_ok(),
            final(self).same_front(*old(self)),
            final(self).root_modified == old(self).root_modified,
            final(self).cache@.dom().subset_of(final(writer).in_use()),
            writes_kept(*old(writer), *final(writer)),
            new_written(old(self).cache@, final(self).cache@, *final(writer)),
            final(self).cache.dirty_addrs() == old(self).cache.dirty_addrs(),
            forall|a: u64|
                old(self).cache@.contains_key(a) ==> #[trigger] final(self).cache@.contains_key(a)
                    && final(self).cache@[a] == old(self).cache@[a],
            r is Err ==> final(self).root.depth == old(self).root.depth && final(self).same_notes(
                *old(self),
            ),
            r is Ok ==> {
                &&& final(self).root_noted(*old(writer), *final(writer))
                &&& final(self).root.node.node_size == old(self).root.node.node_size
                &&& final(self).root.depth == if old(self).root.node.full() {
                    old(self).root.depth + 1
                } else {
                    old(self).root.depth as int
                }
                &&& old(self).root.node.full() ==> final(self).root.node.journal_seq == journal_seq
                    && final(self).root.node.nr_keys() == 2 && final(self).halves_bear(
                    journal_seq,
                    old(self).root.node.node_size,
                )
            },
            r is Ok ==> r == Ok::<bool, StorageError>(inserted) && forall|x: int|
                0 <= x < top() ==> #[trigger] final(self).tree_get(x) == after_split(
                    get(m, old(self).root.node, old(self).height(), x),
                    x,
                    k,
                    inserted,
                    new,
                ),
            r is Err ==> forall|x: int|
                0 <= x < top() ==> torn(
                    get(m, old(self).root.node, old(self).height(), x),
                    #[trigger] final(self).tree_get(x),
                    x,
                    k,
                    new,
                ),
    {
        let ghost m1 = self.cache@;
        let ghost root0 = self.root.node;
        let ghost h = self.height();
        proof {
            lemma_route_place(m, m1, root0, h, i, k, new, at, raddr, inserted);
        }
        let key: BtreeKey = BtreeKey::from_bpos(at, KeyType::Normal);
        self.root.node.prep_for_write();
        let mut room: bool = self.root.node.insert(key, BchVal::new(raddr, 0));
        if !room {
            self.root.node.compact();
            room = self.root.node.insert(key, BchVal::new(raddr, 0));
        }
        self.root.node.compact();
        let ghost root1 = self.root.node;
        if !room {
            proof {
                lemma_pending_same(m, m1, root0, root1, h, i, k, new, at, raddr, inserted);
            }
            return match self.grow_for_route(
                writer,
                at,
                raddr,
                inserted,
                journal_seq,
                Ghost(m),
                Ghost(i),
                Ghost(k),
                Ghost(new),
            ) {
                Err(err) => {
                    proof {
                        assert forall|x: int| 0 <= x < top() implies torn(
                            get(m, root0, h, x),
                            #[trigger] self.tree_get(x),
                            x,
                            k,
                            new,
                        ) by {
                            assert(get(m, root1, h, x) == get(m, root0, h, x));
                        }
                    }
                    Err(err)
                },
                Ok(_) => {
                    proof {
                        assert forall|x: int| 0 <= x < top() implies #[trigger] self.tree_get(x)
                            == after_split(get(m, root0, h, x), x, k, inserted, new) by {
                            assert(get(m, root1, h, x) == get(m, root0, h, x));
                        }
                    }
                    Ok(inserted)
                },
            };
        }
        proof {
            lemma_route_known(m, m1, root0, root1, h, i, k, new, at, raddr, inserted);
            assert forall|x: int| 0 <= x < top() implies #[trigger] self.tree_get(x)
                == after_split(get(m, root0, h, x), x, k, inserted, new) by {
                assert(self.tree_get(x) == get(m1, root1, h, x));
            }
        }
        let level: u8 = self.root.node.level;
        let root_addr: u64 = match writer.write_btree_node(&self.root.node) {
            Err(err) => {
                return Err(err);
            },
            Ok(a) => a,
        };
        self.note_root_addr(root_addr, level);
        assert forall|x: int| 0 <= x < top() implies #[trigger] self.tree_get(x) == after_split(
            get(m, root0, h, x),
            x,
            k,
            inserted,
            new,
        ) by {
            assert(self.tree_get(x) == get(m1, root1, h, x));
        }
        Ok(inserted)
    }
}

/// A change of the leaf that rank `k` belongs to, seen from the root.
pub proof fn lemma_leaf_changed(
    m: Map<u64, BtreeNode>,
    m2: Map<u64, BtreeNode>,
    root: BtreeNode,
    h: nat,
    k: int,
    leaf: BtreeNode,
)
    requires
        sub_wf(m, root, h, 0, top()),
        0 <= k < top(),
        h > 0,
        m2 == m.insert(at(m, root, h, k, 0), leaf),
        leaf.wf(),
        leaf.level == 0,
        in_range(
            leaf.keys(),
            at_lo(m, root, h, 0, k, 0),
            at_hi(m, root, h, top(), k, 0),
        ),
    ensures
        sub_wf(m2, root, h, 0, top()),
        at(m2, root, h, k, 0) == at(m, root, h, k, 0),
        forall|x: int|
            0 <= x < top() ==> #[trigger] get(m2, root, h, x) == if at_lo(m, root, h, 0, k, 0) <= x
                < at_hi(m, root, h, top(), k, 0) {
                find(leaf.keys(), x)
            } else {
                get(m, root, h, x)
            },
{
    let a = at(m, root, h, k, 0);
    lemma_at(m, root, h, 0, top(), k, 0);
    assert(changed_only(m, m2, a, 0));
    assert(built_from(m, a, m2, a, 0));
    lemma_replaced(m, m2, root, h, 0, top(), k, 0);
    assert forall|b: u64| #[trigger]
        within(m, root, h, b) && m[b].level > 0 implies m2[b].keys() == m[b].keys() by {
        assert(m[a].level == 0);
        assert(b != a);
        lemma_within_level(m, root, h, 0, top(), b);
    }
    lemma_at_frame(m, m2, root, h, 0, top(), k, 0);
    assert forall|x: int| 0 <= x < top() implies #[trigger] get(m2, root, h, x) == if at_lo(
        m,
        root,
        h,
        0,
        k,
        0,
    ) <= x < at_hi(m, root, h, top(), k, 0) {
        find(leaf.keys(), x)
    } else {
        get(m, root, h, x)
    } by {
        assert(get(m2, m2[a], 0, x) == find(leaf.keys(), x));
    }
}

/// A leaf can take a key without a split.
pub open spec fn leaf_takes(leaf: BtreeNode) -> bool {
    let dead = if leaf.flags.just_written {
        0
    } else {
        leaf.dead_u64s as int
    };
    &&& !leaf.flags.write_blocked
    &&& !splits_at(leaf.live_u64s + dead, leaf.node_size)
    &&& leaf.live_u64s + 6 <= leaf.cap()
}

/// Whether a key for `leaf`, in a tree of that depth, leads to a split.
pub open spec fn insert_splits(leaf: BtreeNode, depth: u8) -> bool {
    &&& !leaf.flags.write_blocked
    &&& !(leaf.live_u64s + 6 <= leaf.cap() && (depth == 0 || leaf_takes(leaf)))
    &&& leaf.nr_keys() >= 2
}

/// Whether a tree of that depth takes a key at rank `k` into `leaf`, short of an error: as the leaf
/// is or by a split of it.
pub open spec fn insert_takes(leaf: BtreeNode, depth: u8, k: int) -> bool {
    &&& !leaf.flags.write_blocked
    &&& {
        ||| leaf.live_u64s + 6 <= leaf.cap() && (depth == 0 || leaf_takes(leaf))
        ||| half_takes(leaf, k)
    }
}

impl Btree {
    /// Adds a key to the leaf at `leaf_addr`, if the leaf need not be split for it.
    pub fn bch2_btree_insert_key_leaf(
        &mut self,
        leaf_addr: u64,
        key: BtreeKey,
        value: BchVal,
        journal_seq: u64,
    ) -> (r: bool)
        requires
            old(self).cache@.contains_key(leaf_addr),
            old(self).cache@[leaf_addr].wf(),
        ensures
            r == leaf_takes(old(self).cache@[leaf_addr]),
            final(self).root == old(self).root,
            final(self).same_front(*old(self)),
            final(self).root_modified == old(self).root_modified,
            final(self).pending_root_journal == old(self).pending_root_journal,
            final(self).current_root_disk == old(self).current_root_disk,
            final(self).cache@.contains_key(leaf_addr),
            final(self).cache@ == old(self).cache@.insert(
                leaf_addr,
                final(self).cache@[leaf_addr],
            ),
            final(self).cache.dirty_addrs() == old(self).cache.dirty_addrs(),
            final(self).cache@[leaf_addr].wf(),
            final(self).cache@[leaf_addr].level == old(self).cache@[leaf_addr].level,
            final(self).cache@[leaf_addr].node_size == old(self).cache@[leaf_addr].node_size,
            final(self).cache@[leaf_addr].flags.write_blocked
                == old(self).cache@[leaf_addr].flags.write_blocked,
            r ==> upserted(
                old(self).cache@[leaf_addr].keys(),
                final(self).cache@[leaf_addr].keys(),
                extent_entry(key, value),
            ) && final(self).cache@[leaf_addr].journal_seq == journal_seq,
            !r ==> final(self).cache@[leaf_addr].keys() == old(self).cache@[leaf_addr].keys(),
            final(self).cache@[leaf_addr].spans(
                old(self).cache@[leaf_addr],
                key.pos,
                r && key.key_type != KeyType::Deleted,
            ),
            final(self).cache@[leaf_addr].written == old(self).cache@[leaf_addr].written,
            final(self).cache@[leaf_addr].lock_seq == old(self).cache@[leaf_addr].lock_seq,
            final(self).cache@[leaf_addr].state == old(self).cache@[leaf_addr].state,
            !r ==> final(self).cache@[leaf_addr].journal_seq
                == old(self).cache@[leaf_addr].journal_seq,
            old(self).cache@[leaf_addr].flags.write_blocked ==> final(self).cache@
                == old(self).cache@,
    {
        let mut leaf: BtreeNode = match self.cache.take_node(leaf_addr) {
            Some(n) => n,
            None => {
                return false;
            },
        };
        if leaf.flags.write_blocked {
            self.cache.put_node(leaf_addr, leaf);
            assert(self.cache@ =~= old(self).cache@);
            return false;
        }
        leaf.prep_for_write();
        if should_split(leaf.total_data_bytes() / 8, leaf.node_size) {
            self.cache.put_node(leaf_addr, leaf);
            assert(self.cache@ =~= old(self).cache@.insert(leaf_addr, leaf));
            return false;
        }
        let old_live: u32 = leaf.live_u64s;
        let old_dead: u32 = leaf.dead_u64s;
        let inserted: bool = if leaf.insert(key, value) {
            true
        } else {
            leaf.compact();
            leaf.compact_fits(6) && leaf.insert(key, value)
        };
        if inserted {
            let floor: u16 = if leaf.live_u64s < 0xFFFF {
                leaf.live_u64s as u16
            } else {
                0xFFFF
            };
            leaf.settle(old_live, old_dead, floor);
            leaf.journal_seq = journal_seq;
        }
        let ghost gleaf = leaf;
        self.cache.put_node(leaf_addr, leaf);
        assert(self.cache@ =~= old(self).cache@.insert(leaf_addr, gleaf));
        inserted
    }

    /// The leaf on the way to rank `k` was split, and a new entry is in the part that it belongs to.
    /// The root has taken a route in where every node between it and the leaf was full; where it was
    /// full itself, the tree has one level more.
    pub open spec fn split_below<W: BtreeNodeWriter>(
        self,
        o: Btree,
        k: int,
        new: Option<EntryView>,
        journal_seq: u64,
        v: W,
        w: W,
    ) -> bool {
        let m = o.cache@;
        let s = o.root.node.keys();
        let h = o.height();
        &&& leaf_split(m, self.cache, at(m, o.root.node, h, k, 0), new, journal_seq)
        &&& self.root.depth == o.root.depth + if path_full(m, o.root.node, h, k) {
            1int
        } else {
            0
        }
        &&& self.root.node.node_size == o.root.node.node_size
        &&& if path_full(m, m[child(s[route(s, k)])], (h - 1) as nat, k) {
            self.root_noted(v, w)
        } else {
            self.root == o.root && self.same_notes(o)
        }
        &&& path_full(m, o.root.node, h, k) ==> self.root.node.journal_seq == journal_seq
            && self.root.node.nr_keys() == 2 && self.halves_bear(journal_seq, o.root.node.node_size)
    }

    /// Brings in a key by splitting the leaf that it belongs to, and whatever is full above that
    /// leaf. `Ok(false)`: the leaf is being written or cannot be split, and nothing was added.
    #[verifier::spinoff_prover]
    #[verifier::rlimit(80)]
    pub fn bch2_btree_split_leaf<W: BtreeNodeWriter>(
        &mut self,
        writer: &mut W,
        key: BtreeKey,
        value: BchVal,
        journal_seq: u64,
    ) -> (r: Result<bool, StorageError>)
        requires
            old(self).shape_ok(),
            0 < old(self).root.depth < 255,
            old(self).cache@.dom().subset_of(old(writer).in_use()),
        ensures
            fails_with(*old(writer), *final(writer), r),
            takes_room(*old(writer), *final(writer), r, old(self).root.depth + 3),
            final(self).shape_ok(),
            final(self).same_front(*old(self)),
            final(self).root_modified == old(self).root_modified,
            final(self).cache@.dom().subset_of(final(writer).in_use()),
            writes_kept(*old(writer), *final(writer)),
            new_written(old(self).cache@, final(self).cache@, *final(writer)),
            marks_kept(old(self).cache, final(self).cache),
            changes_marked(old(self).cache@, final(self).cache),
            old(self).leaf(key.pos.ord()).flags.write_blocked ==> r == Ok::<bool, StorageError>(
                false,
            ) && *final(self) == *old(self) && *final(writer) == *old(writer),
            old(self).leaf(key.pos.ord()).nr_keys() < 2 ==> r == Ok::<bool, StorageError>(false)
                && *final(writer) == *old(writer) && final(self).root == old(self).root
                && final(self).cache@ == old(self).cache@ && final(self).cache.dirty_addrs() == old(
                self,
            ).cache.dirty_addrs() && final(self).same_notes(*old(self)),
            r is Ok ==> r == Ok::<bool, StorageError>(
                !old(self).leaf(key.pos.ord()).flags.write_blocked && half_takes(
                    old(self).leaf(key.pos.ord()),
                    key.pos.ord(),
                ),
            ),
            r matches Ok(inserted) ==> !old(self).leaf(key.pos.ord()).flags.write_blocked
                && old(self).leaf(key.pos.ord()).nr_keys() >= 2 ==> final(self).split_below(
                *old(self),
                key.pos.ord(),
                taken(key, value, inserted),
                journal_seq,
                *old(writer),
                *final(writer),
            ),
            r is Err ==> final(self).root.depth == old(self).root.depth && final(self).same_notes(
                *old(self),
            ),
            match r {
                Ok(inserted) => forall|x: int|
                    0 <= x < top() ==> #[trigger] final(self).tree_get(x) == after_split(
                        old(self).tree_get(x),
                        x,
                        key.pos.ord(),
                        inserted,
                        stored(key, value),
                    ),
                Err(_) => forall|x: int|
                    0 <= x < top() ==> torn(
                        old(self).tree_get(x),
                        #[trigger] final(self).tree_get(x),
                        x,
                        key.pos.ord(),
                        stored(key, value),
                    ),
            },
    {
        let ghost m = self.cache@;
        let ghost k = key.pos.ord();
        let ghost new = stored(key, value);
        let ghost root = self.root.node;
        let ghost h = self.height();
        let ghost l = (h - 1) as nat;
        let ghost s = root.keys();
        proof {
            lemma_ord(key.pos, key.pos);
            lemma_at(m, root, h, 0, top(), k, 0);
        }
        let mut path: Vec<u64> = Vec::new();
        proof {
            self.lemma_no_holes();
        }
        let blocked: bool = match self.bch2_btree_path_traverse_one(&key, &mut path) {
            None => true,
            Some(a) => match self.cache.get(a) {
                None => true,
                Some(n) => n.flags.write_blocked,
            },
        };
        if blocked {
            return Ok(false);
        }
        proof {
            lemma_unfold(m, root, h, 0, top());
            lemma_route_range(s, 0, top(), k);
        }
        let i: usize = route_idx(&self.root.node, &key.pos);
        let c: u64 = self.root.node.entries[i].to_key_value().1.paddr;
        proof {
            assert(kid_ok(m, s, l, 0, top(), i as int));
            assert(leaf_of(m, root, h, k) == leaf_of(m, m[c], l, k));
            assert(at(m, root, h, k, 0) == leaf_addr(m, c, l, k));
        }
        let depth: u8 = self.root.depth;
        let step = split_path(
            &mut self.cache,
            writer,
            c,
            depth - 1,
            key,
            value,
            journal_seq,
            Ghost(child_lo(s, i as int, 0)),
            Ghost(child_hi(s, i as int, top())),
        );
        let ghost m1 = self.cache@;
        match step {
            Err(err) => {
                proof {
                    lemma_kid_changed(m, m1, s, l, 0, top(), i as int);
                    lemma_unfold(m1, root, h, 0, top());
                    assert forall|x: int| 0 <= x < top() implies torn(
                        get(m, root, h, x),
                        #[trigger] self.tree_get(x),
                        x,
                        k,
                        new,
                    ) by {
                        lemma_route_range(s, 0, top(), x);
                        assert(self.tree_get(x) == get_kids(m1, s, l, x));
                        assert(get(m, root, h, x) == get_kids(m, s, l, x));
                    }
                }
                Err(err)
            },
            Ok(SplitStep::Refused) => { Ok(false) },
            Ok(SplitStep::Done { inserted }) => {
                proof {
                    lemma_kid_changed(m, m1, s, l, 0, top(), i as int);
                    lemma_unfold(m1, root, h, 0, top());
                    assert forall|x: int| 0 <= x < top() implies #[trigger] self.tree_get(x)
                        == after_split(get(m, root, h, x), x, k, inserted, new) by {
                        lemma_route_range(s, 0, top(), x);
                        assert(self.tree_get(x) == get_kids(m1, s, l, x));
                        assert(get(m, root, h, x) == get_kids(m, s, l, x));
                    }
                }
                Ok(inserted)
            },
            Ok(SplitStep::Pushed { at, addr, inserted }) => {
                let ghost c1 = self.cache;
                let ghost w1 = *writer;
                let ghost la = leaf_addr(m, c, l, k);
                let r = self.root_takes_route(
                    writer,
                    at,
                    addr,
                    inserted,
                    journal_seq,
                    Ghost(m),
                    Ghost(i as int),
                    Ghost(k),
                    Ghost(new),
                );
                proof {
                    let c2 = self.cache;
                    assert forall|a: u64| #[trigger] c1@.contains_key(a) implies c2@.contains_key(a)
                        && c2@[a] == c1@[a] by {}
                    if r is Ok {
                        lemma_leaf_split_kept(
                            m,
                            c1,
                            c2,
                            la,
                            taken(key, value, inserted),
                            journal_seq,
                        );
                    }
                    lemma_two_steps(m, c1, c2, w1, *writer);
                }
                r
            },
        }
    }
}

/// Whether the way down is full does not depend on the leaf.
pub proof fn lemma_path_full(
    m: Map<u64, BtreeNode>,
    m2: Map<u64, BtreeNode>,
    node: BtreeNode,
    level: nat,
    lo: int,
    hi: int,
    k: int,
    la: u64,
)
    requires
        sub_wf(m, node, level, lo, hi),
        m2 == m.insert(la, m2[la]),
        m.contains_key(la),
        m[la].level == 0,
        lo <= k < hi,
    ensures
        path_full(m2, node, level, k) == path_full(m, node, level, k),
    decreases level,
{
    if level == 1 {
        reveal_with_fuel(path_full, 2);
    } else if level > 1 {
        let s = node.keys();
        let l = (level - 1) as nat;
        let i = route(s, k);
        lemma_unfold(m, node, level, lo, hi);
        lemma_route_range(s, lo, hi, k);
        assert(kid_ok(m, s, l, lo, hi, i));
        lemma_path_full(m, m2, m[child(s[i])], l, child_lo(s, i, lo), child_hi(s, i, hi), k, la);
    }
}

/// A leaf with two or more entries, extents all of them, takes another one in, unless it is being
/// written.
pub proof fn law_extents_are_taken(leaf: BtreeNode, depth: u8, k: int)
    requires
        leaf.wf(),
        leaf.nr_keys() >= 2,
        wide(leaf.keys()),
        !leaf.flags.write_blocked,
    ensures
        insert_takes(leaf, depth, k),
{
    law_extents_fit(leaf, k);
}

/// A leaf takes a key without a split unless it is being written, is filled beyond two thirds or has no
/// room for the six words of an extent. Dead words do not count in a leaf that was just written.
pub proof fn law_when_a_leaf_takes_a_key(leaf: BtreeNode)
    ensures
        ({
            let words = leaf.live_u64s as int;
            let dead = leaf.dead_u64s as int;
            let q = leaf.node_size as int / 8;
            &&& leaf_takes(leaf) ==> !leaf.flags.write_blocked
            &&& leaf_takes(leaf) ==> words + 6 <= q - 3
            &&& leaf_takes(leaf) && !leaf.flags.just_written ==> 3 * (words + dead) <= 2 * q
            &&& leaf_takes(leaf) && leaf.flags.just_written ==> 3 * words <= 2 * q
            &&& !leaf.flags.write_blocked && words + 6 <= q - 3 && 3 * (words + dead) <= 2 * q
                ==> leaf_takes(leaf)
            &&& !leaf.flags.write_blocked && words + 6 <= q - 3 && leaf.flags.just_written && 3
                * words <= 2 * q ==> leaf_takes(leaf)
        }),
{
    crate::node::law_when_to_split(
        leaf.live_u64s as int,
        leaf.live_u64s + leaf.dead_u64s,
        leaf.node_size,
    );
    crate::node::law_when_to_split(
        leaf.live_u64s + leaf.dead_u64s,
        leaf.live_u64s as int,
        leaf.node_size,
    );
}

/// An insertion into a tree of one leaf splits that only where the six words of an extent do not fit; a
/// leaf that is being written is never split and takes nothing; nor does one of fewer than two keys get
/// split.
pub proof fn law_when_an_insert_splits(leaf: BtreeNode, depth: u8, k: int)
    ensures
        leaf.flags.write_blocked ==> !insert_splits(leaf, depth) && !insert_takes(leaf, depth, k),
        leaf.keys().len() < 2 ==> !insert_splits(leaf, depth),
        depth == 0 && leaf.live_u64s + 6 <= leaf.node_size as int / 8 - 3 ==> !insert_splits(
            leaf,
            depth,
        ),
        depth == 0 && leaf.live_u64s + 6 <= leaf.node_size as int / 8 - 3
            && !leaf.flags.write_blocked ==> insert_takes(leaf, depth, k),
        depth > 0 && !leaf.flags.write_blocked && leaf.keys().len() >= 2 ==> (insert_splits(
            leaf,
            depth,
        ) <==> !leaf_takes(leaf)),
        !leaf.flags.write_blocked && leaf.live_u64s + 6 > leaf.node_size as int / 8 - 3
            && leaf.keys().len() >= 2 ==> insert_splits(leaf, depth),
{
}

/// The journal hears of a new root: where it was written, on which level, and that it was not in use
/// before; the tree knows the same of it.
pub proof fn law_new_root_is_noted<W: BtreeNodeWriter>(t: Btree, o: W, w: W)
    requires
        t.root_noted(o, w),
    ensures
        t.pending_root_journal is Some,
        ({
            let p = t.pending_root_journal->0;
            &&& p.root_addr != 0
            &&& p.level == t.root.depth
            &&& !o.in_use().contains(p.root_addr)
            &&& t.current_root_disk == Some((p.root_addr, t.root.depth))
            &&& w.written().contains_key(p.root_addr)
            &&& w.written()[p.root_addr].keys() == t.root.node.keys()
        }),
{
}

/// The root over a root that was split leads to the left part for all that is before the cut, and
/// to the right part from the cut on.
pub proof fn law_root_over_two_parts(
    t: Btree,
    o: Btree,
    median: Bpos,
    left: BtreeNode,
    right: BtreeNode,
)
    requires
        t.two_below(o, median, left, right),
    ensures
        ({
            let s = t.root.node.keys();
            &&& s.len() == 2
            &&& s[0].pos.inode == 0 && s[0].pos.offset == 0 && s[0].pos.snapshot == 0
            &&& s[1].pos == median
            &&& t.cache@[child(s[0])] == left
            &&& t.cache@[child(s[1])] == right
            &&& child(s[0]) != child(s[1])
        }),
{
}

} // verus!
