//! Deletion, and the merges and the shrinking that follow from it.

use crate::entries::{find, keys, lemma_find_holds, lemma_find_some, removed};
use crate::insert::{lemma_leaf_changed, lemma_same_keys};
use crate::key::{extent_entry, lemma_ord, BchVal, Bpos, BtreeKey, EntryView, KeyType};
use crate::merge::{merge_child, merge_choice, merge_kept, merge_step, survivors_marked};
use crate::node::BtreeNode;
use crate::runs::{lemma_run_frame, lemma_run_level, lemma_run_node, run_get, run_has};
use crate::shape::{
    at, at_hi, at_lo, built_from, changed_only, child, get, kid_ok, lemma_at, lemma_frame,
    lemma_replaced, lemma_route_is, lemma_unfold, lemma_within_level, reach, route, sub_wf, top,
    within,
};
use crate::split::{after_split, in_range, lemma_marked, marks_kept, route_idx, stored};
use crate::tree::Btree;
use crate::writer::{fails_with, takes_room, writes_kept, BtreeNodeWriter, StorageError};
use vstd::prelude::*;

verus! {

/// A subtree whose children were merged, seen from the root.
proof fn lemma_merged_below(
    m: Map<u64, BtreeNode>,
    m2: Map<u64, BtreeNode>,
    root: BtreeNode,
    h: nat,
    k: int,
    p: nat,
    gone: Map<u64, BtreeNode>,
    parent2: BtreeNode,
)
    requires
        sub_wf(m, root, h, 0, top()),
        0 <= k < top(),
        p + 1 < h,
        ({
            let a = at(m, root, h, k, p + 1);
            &&& merge_kept(
                m.remove(a),
                m[a],
                gone,
                parent2,
                p,
                at_lo(m, root, h, 0, k, p + 1),
                at_hi(m, root, h, top(), k, p + 1),
            )
            &&& m2 == gone.insert(a, parent2)
        }),
    ensures
        sub_wf(m2, root, h, 0, top()),
        forall|x: int| 0 <= x < top() ==> #[trigger] get(m2, root, h, x) == get(m, root, h, x),
        forall|c: u64| #[trigger] m2.contains_key(c) ==> m.contains_key(c),
{
    let q = p + 1;
    let a = at(m, root, h, k, q);
    let lo = at_lo(m, root, h, 0, k, q);
    let hi = at_hi(m, root, h, top(), k, q);
    let less = m.remove(a);
    let parent = m[a];
    lemma_at(m, root, h, 0, top(), k, q);
    // taking the parent out leaves what is below it
    assert forall|c: u64| #[trigger] within(m, parent, q, c) implies less.contains_key(c)
        && less[c] == m[c] by {
        lemma_within_level(m, parent, q, lo, hi, c);
    }
    lemma_frame(m, less, parent, q, lo, hi);
    lemma_run_node(less, parent, q, lo, hi);
    // putting the new parent in leaves what is below it
    assert forall|c: u64| #[trigger] run_has(gone, parent2.keys(), q, c) implies m2.contains_key(c)
        && m2[c] == gone[c] by {
        lemma_run_level(gone, parent2.keys(), q, lo, hi, c);
        assert(less.contains_key(c));
    }
    lemma_run_frame(gone, m2, parent2.keys(), q, lo, hi);
    lemma_run_node(m2, parent2, q, lo, hi);
    assert(sub_wf(m2, m2[a], q, lo, hi));
    assert(changed_only(m, m2, a, q)) by {
        assert forall|c: u64| #[trigger]
            m.contains_key(c) && !reach(m, a, q, c) implies m2.contains_key(c) && m2[c] == m[c] by {
            assert(!within(m, parent, q, c));
            assert(within(less, parent, q, c) == within(m, parent, q, c));
            assert(less.contains_key(c));
            assert(!run_has(less, parent.keys(), q, c));
        }
    }
    assert(built_from(m, a, m2, a, q)) by {
        assert forall|c: u64| #[trigger] reach(m2, a, q, c) implies reach(m, a, q, c)
            || !m.contains_key(c) by {
            if c != a {
                assert(within(m2, parent2, q, c));
                assert(run_has(m2, parent2.keys(), q, c));
                assert(run_has(gone, parent2.keys(), q, c));
                assert(run_has(less, parent.keys(), q, c));
                assert(within(less, parent, q, c));
                assert(within(m, parent, q, c));
            }
        }
    }
    lemma_replaced(m, m2, root, h, 0, top(), k, q);
    assert forall|x: int| 0 <= x < top() implies #[trigger] get(m2, root, h, x) == get(
        m,
        root,
        h,
        x,
    ) by {
        if lo <= x < hi {
            assert(get(m2, m2[a], q, x) == run_get(m2, parent2.keys(), q, x));
            assert(run_get(m2, parent2.keys(), q, x) == run_get(gone, parent2.keys(), q, x));
            assert(run_get(gone, parent2.keys(), q, x) == run_get(less, parent.keys(), q, x));
            assert(get(less, parent, q, x) == run_get(less, parent.keys(), q, x));
            assert(get(less, parent, q, x) == get(m, parent, q, x));
        }
    }
    assert forall|c: u64| #[trigger] m2.contains_key(c) implies m.contains_key(c) by {
        if c != a {
            assert(gone.contains_key(c));
            assert(less.contains_key(c));
        }
    }
}

impl Btree {
    /// What has become of the tree `o` by a try to merge its node of `level` on the way to
    /// `target`: the nodes below the parent of that node, and the parent's routing entries, are
    /// those of the merge, and all other nodes are as they were. Where nodes were merged, those with
    /// the keys and their parent await a write.
    pub open spec fn merge_tried(self, o: Btree, target: Bpos, level: u8, merged: bool) -> bool {
        let k = target.ord();
        &&& marks_kept(o.cache, self.cache)
        &&& !merged ==> self.cache.dirty_addrs() == o.cache.dirty_addrs()
        &&& if level + 1 == o.root.depth {
            let s = o.root.node.keys();
            &&& merge_step(
                o.cache@,
                s,
                route(s, k),
                o.merge_threshold,
                merged,
                self.cache@,
                self.root.node.keys(),
            )
            &&& merged ==> self.root_modified && survivors_marked(
                s,
                route(s, k),
                merge_choice(o.cache@, s, route(s, k), o.merge_threshold),
                self.cache,
            )
        } else {
            let p = at(o.cache@, o.root.node, o.height(), k, level as nat + 1);
            let s = o.cache@[p].keys();
            &&& self.cache@.contains_key(p)
            &&& merge_step(
                o.cache@.remove(p),
                s,
                route(s, k),
                o.merge_threshold,
                merged,
                self.cache@.remove(p),
                self.cache@[p].keys(),
            )
            &&& merged ==> self.cache.dirty_addrs().contains(p) && survivors_marked(
                s,
                route(s, k),
                merge_choice(o.cache@.remove(p), s, route(s, k), o.merge_threshold),
                self.cache,
            )
        }
    }

    /// Merges the node of `level` on the way to `target` with its siblings where that is worth
    /// while; whether it did. What the tree holds stays the same.
    #[verifier::spinoff_prover]
    #[verifier::rlimit(40)]
    pub fn bch2_foreground_maybe_merge(&mut self, target: &Bpos, level: u8) -> (r: bool)
        requires
            old(self).shape_ok(),
            level < old(self).root.depth,
        ensures
            final(self).shape_ok(),
            final(self).same_front(*old(self)),
            final(self).merge_tried(*old(self), *target, level, r),
            final(self).root.depth == old(self).root.depth,
            level + 1 < old(self).root.depth || !r ==> final(self).root == old(self).root,
            level + 1 == old(self).root.depth && r ==> final(self).root.node.nr_keys() < old(
                self,
            ).root.node.nr_keys() && final(self).root_modified,
            forall|x: int|
                0 <= x < top() ==> #[trigger] final(self).tree_get(x) == old(self).tree_get(x),
            final(self).cache@.dom().subset_of(old(self).cache@.dom()),
    {
        let ghost m = self.cache@;
        let ghost k = target.ord();
        let ghost root = self.root.node;
        let ghost h = self.height();
        let ghost p = level as nat;
        proof {
            lemma_ord(*target, *target);
            lemma_unfold(m, root, h, 0, top());
        }
        if level + 1 == self.root.depth {
            proof {
                lemma_run_node(m, root, h, 0, top());
            }
            let i: usize = route_idx(&self.root.node, target);
            let r: bool = merge_child(
                &mut self.cache,
                &mut self.root.node,
                i,
                self.merge_threshold,
                Ghost(p),
                Ghost(0),
                Ghost(top()),
            );
            if r {
                self.root_modified = true;
            }
            proof {
                let m2 = self.cache@;
                let root2 = self.root.node;
                lemma_run_node(m2, root2, h, 0, top());
                assert forall|x: int| 0 <= x < top() implies #[trigger] self.tree_get(x) == get(
                    m,
                    root,
                    h,
                    x,
                ) by {
                    assert(self.tree_get(x) == get(m2, root2, h, x));
                    assert(get(m2, root2, h, x) == run_get(m2, root2.keys(), h, x));
                    assert(get(m, root, h, x) == run_get(m, root.keys(), h, x));
                }
            }
            return r;
        }
        let mut path: Vec<u64> = Vec::new();
        let key: BtreeKey = BtreeKey::from_bpos(*target, KeyType::Normal);
        proof {
            self.lemma_no_holes();
        }
        let leaf = self.bch2_btree_path_traverse_one(&key, &mut path);
        let idx: usize = (self.root.depth - 2 - level) as usize;
        let parent_addr: u64 = path[idx];
        let ghost lo = at_lo(m, root, h, 0, k, p + 1);
        let ghost hi = at_hi(m, root, h, top(), k, p + 1);
        proof {
            assert(parent_addr == at(m, root, h, k, p + 1));
            lemma_at(m, root, h, 0, top(), k, p + 1);
        }
        let mut parent: BtreeNode = match self.cache.take_node(parent_addr) {
            None => {
                return false;
            },
            Some(n) => n,
        };
        let ghost parent0 = parent;
        proof {
            let less = self.cache@;
            lemma_unfold(m, parent, p + 1, lo, hi);
            assert forall|c: u64| #[trigger] within(m, parent, p + 1, c) implies
                less.contains_key(c) && less[c] == m[c] by {
                lemma_within_level(m, parent, p + 1, lo, hi, c);
            }
            lemma_frame(m, less, parent, p + 1, lo, hi);
            lemma_run_node(less, parent, p + 1, lo, hi);
        }
        let i: usize = route_idx(&parent, target);
        let r: bool = merge_child(
            &mut self.cache,
            &mut parent,
            i,
            self.merge_threshold,
            Ghost(p),
            Ghost(lo),
            Ghost(hi),
        );
        let ghost gone = self.cache@;
        let ghost parent2 = parent;
        if r {
            let ghost dirty = self.cache.dirty_addrs();
            self.cache.insert_dirty(parent_addr, parent);
            proof {
                lemma_marked(dirty, self.cache.dirty_addrs(), parent_addr);
            }
        } else {
            self.cache.put_node(parent_addr, parent);
        }
        proof {
            lemma_merged_below(m, self.cache@, root, h, k, p, gone, parent2);
            assert(!gone.contains_key(parent_addr));
            assert(self.cache@.remove(parent_addr) =~= gone);
            assert forall|x: int| 0 <= x < top() implies #[trigger] self.tree_get(x) == get(
                m,
                root,
                h,
                x,
            ) by {
                assert(self.tree_get(x) == get(self.cache@, root, h, x));
            }
        }
        r
    }

    /// While the root has a single child, that child becomes the root.
    pub open spec fn collapsed(root: BtreeNode, m: Map<u64, BtreeNode>, depth: nat) -> (
        BtreeNode,
        Map<u64, BtreeNode>,
        nat,
    )
        decreases depth,
    {
        if depth > 0 && root.keys().len() == 1 {
            let c = child(root.keys()[0]);
            Btree::collapsed(m[c], m.remove(c), (depth - 1) as nat)
        } else {
            (root, m, depth)
        }
    }

    /// The tree is `o` with its root collapsed. A new root is on disk, and the journal is to hear
    /// of it.
    pub open spec fn collapse_of<W: BtreeNodeWriter>(self, o: Btree, v: W, w: W) -> bool {
        &&& (self.root.node, self.cache@, self.height()) == Btree::collapsed(
            o.root.node,
            o.cache@,
            o.height(),
        )
        &&& if self.root.depth < o.root.depth {
            self.root_noted(v, w)
        } else {
            self.same_notes(o)
        }
    }

    /// While the root has a single child, that child becomes the root.
    pub fn collapse_root<W: BtreeNodeWriter>(&mut self, writer: &mut W) -> (r: Result<
        (),
        StorageError,
    >)
        requires
            old(self).shape_ok(),
            old(self).cache@.dom().subset_of(old(writer).in_use()),
        ensures
            fails_with(*old(writer), *final(writer), r),
            takes_room(*old(writer), *final(writer), r, old(self).root.depth as int),
            final(self).shape_ok(),
            final(self).same_front(*old(self)),
            final(self).root_modified == old(self).root_modified,
            final(self).root.depth <= old(self).root.depth,
            r is Ok ==> final(self).root.depth == 0 || final(self).root.node.nr_keys() > 1,
            forall|x: int|
                0 <= x < top() ==> #[trigger] final(self).tree_get(x) == old(self).tree_get(x),
            final(self).cache@.dom().subset_of(final(writer).in_use()),
            writes_kept(*old(writer), *final(writer)),
            final(self).cache.dirty_addrs() == old(self).cache.dirty_addrs(),
            r is Ok ==> final(self).collapse_of(*old(self), *old(writer), *final(writer)),
    {
        while self.root.depth > 0 && self.root.node.entries.len() == 1
            invariant
                self.shape_ok(),
                writer.failure() == old(writer).failure(),
                self.same_front(*old(self)),
                self.root_modified == old(self).root_modified,
                self.root.depth <= old(self).root.depth,
                old(writer).room() <= writer.room() + (old(self).root.depth - self.root.depth),
                forall|x: int|
                    0 <= x < top() ==> #[trigger] self.tree_get(x) == old(self).tree_get(x),
                self.cache@.dom().subset_of(writer.in_use()),
                writes_kept(*old(writer), *writer),
                self.cache.dirty_addrs() == old(self).cache.dirty_addrs(),
                Btree::collapsed(self.root.node, self.cache@, self.height()) == Btree::collapsed(
                    old(self).root.node,
                    old(self).cache@,
                    old(self).height(),
                ),
                if self.root.depth < old(self).root.depth {
                    self.root_noted(*old(writer), *writer)
                } else {
                    self.same_notes(*old(self))
                },
            decreases self.root.depth,
        {
            let ghost before = *self;
            let ghost m = self.cache@;
            let ghost root = self.root.node;
            let ghost h = self.height();
            let ghost l = (h - 1) as nat;
            let ghost s = root.keys();
            proof {
                lemma_unfold(m, root, h, 0, top());
                assert(kid_ok(m, s, l, 0, top(), 0));
            }
            let addr: u64 = self.root.node.entries[0].to_key_value().1.paddr;
            assert(addr == child(s[0]));
            let root_addr: u64 = match self.cache.get(addr) {
                None => {
                    assert(false);
                    return Ok(());
                },
                Some(n) => match writer.write_btree_node(n) {
                    Err(e) => {
                        return Err(e);
                    },
                    Ok(a) => a,
                },
            };
            let child_node: BtreeNode = match self.cache.take_node(addr) {
                None => {
                    assert(false);
                    return Ok(());
                },
                Some(n) => n,
            };
            let ghost c = child_node;
            proof {
                let m2 = self.cache@;
                assert forall|a: u64| #[trigger] within(m, c, l, a) implies m2.contains_key(a)
                    && m2[a] == m[a] by {
                    lemma_within_level(m, c, l, 0, top(), a);
                }
                lemma_frame(m, m2, c, l, 0, top());
            }
            self.bch2_btree_set_root_inmem(child_node, root_addr);
            proof {
                assert forall|x: int| 0 <= x < top() implies #[trigger] self.tree_get(x) == old(
                    self,
                ).tree_get(x) by {
                    lemma_route_is(s, x, 0);
                    assert(before.tree_get(x) == get(m, m[addr], l, x));
                    assert(self.tree_get(x) == get(self.cache@, c, l, x));
                }
            }
        }
        proof {
            if self.root.depth > 0 {
                lemma_unfold(self.cache@, self.root.node, self.height(), 0, top());
            }
        }
        Ok(())
    }
}

/// Step `i` of a chain of trees is a try to merge the node of level `i` on the way to `target`.
pub open spec fn merge_link(ts: Seq<Btree>, target: Bpos, i: int) -> bool {
    exists|merged: bool| #[trigger] ts[i + 1].merge_tried(ts[i], target, i as u8, merged)
}

/// A chain of trees, each the one before with the nodes of one level merged where that is worth
/// while, from the leaves up.
pub open spec fn merge_chain(ts: Seq<Btree>, target: Bpos, depth: int) -> bool {
    &&& ts.len() == depth + 1
    &&& forall|i: int| 0 <= i < depth ==> #[trigger] merge_link(ts, target, i)
}

impl Btree {
    /// The leaf on the way to rank `k` is without what it had at `k`, and all else is as in `o`.
    pub open spec fn deleted_from(self, o: Btree, k: int, journal_seq: u64) -> bool {
        let la = at(o.cache@, o.root.node, o.height(), k, 0);
        &&& self.root == o.root
        &&& self.same_notes(o)
        &&& self.cache.dirty_addrs() == o.cache.dirty_addrs()
        &&& self.cache@ == o.cache@.insert(la, self.cache@[la])
        &&& removed(o.cache@[la].keys(), self.cache@[la].keys(), k)
        &&& self.cache@[la].journal_seq == journal_seq
        &&& self.cache@[la].node_size == o.cache@[la].node_size
    }

    /// The tree comes from `o` by a deletion at `target`, tries to merge on every level from the
    /// leaves up, and a collapse of the root.
    pub open spec fn deletion_of<W: BtreeNodeWriter>(
        self,
        o: Btree,
        target: Bpos,
        journal_seq: u64,
        v: W,
        w: W,
    ) -> bool {
        exists|ts: Seq<Btree>| #[trigger]
            merge_chain(ts, target, o.root.depth as int) && ts[0].deleted_from(
                o,
                target.ord(),
                journal_seq,
            ) && self.collapse_of(ts.last(), v, w)
    }

    /// Takes the key out of the leaf that it belongs to; whether it was there.
    fn delete_in_leaf(&mut self, key: &BtreeKey, journal_seq: u64) -> (r: bool)
        requires
            old(self).shape_ok(),
            old(self).root.depth > 0,
        ensures
            final(self).shape_ok(),
            final(self).same_front(*old(self)),
            final(self).root == old(self).root,
            r == (old(self).tree_get(key.pos.ord()) is Some && !old(self).leaf(
                key.pos.ord(),
            ).flags.write_blocked),
            forall|x: int|
                0 <= x < top() ==> #[trigger] final(self).tree_get(x) == if r && x
                    == key.pos.ord() {
                    None
                } else {
                    old(self).tree_get(x)
                },
            final(self).cache@.dom() == old(self).cache@.dom(),
            r ==> final(self).deleted_from(*old(self), key.pos.ord(), journal_seq),
            final(self).same_notes(*old(self)),
    {
        let ghost before = *self;
        let ghost m = self.cache@;
        let ghost k = key.pos.ord();
        let ghost root = self.root.node;
        let ghost h = self.height();
        let ghost lo = at_lo(m, root, h, 0, k, 0);
        let ghost hi = at_hi(m, root, h, top(), k, 0);
        proof {
            lemma_ord(key.pos, key.pos);
            lemma_at(m, root, h, 0, top(), k, 0);
        }
        let mut path: Vec<u64> = Vec::new();
        proof {
            self.lemma_no_holes();
        }
        let addr: u64 = match self.bch2_btree_path_traverse_one(key, &mut path) {
            None => {
                assert(false);
                return false;
            },
            Some(a) => a,
        };
        let ghost leaf0 = m[addr];
        proof {
            assert(get(m, root, h, k) == get(m, leaf0, 0, k));
            assert(get(m, leaf0, 0, k) == find(leaf0.keys(), k));
            lemma_find_holds(leaf0.keys(), k);
        }
        let mut leaf: BtreeNode = match self.cache.take_node(addr) {
            None => {
                assert(false);
                return false;
            },
            Some(n) => n,
        };
        if leaf.flags.write_blocked {
            self.cache.put_node(addr, leaf);
            proof {
                assert(self.cache@ =~= m);
            }
            return false;
        }
        leaf.prep_for_write();
        let old_live: u32 = leaf.live_u64s;
        let old_dead: u32 = leaf.dead_u64s;
        let deleted: bool = leaf.delete_key(key);
        if deleted {
            leaf.settle(old_live, old_dead, 0);
            leaf.journal_seq = journal_seq;
        }
        let ghost leaf1 = leaf;
        self.cache.put_node(addr, leaf);
        proof {
            let m2 = self.cache@;
            assert(m2 =~= m.insert(addr, leaf1));
            assert(in_range(leaf1.keys(), lo, hi)) by {
                if deleted {
                    lemma_removed_range(leaf0.keys(), leaf1.keys(), k, lo, hi);
                }
            }
            lemma_leaf_changed(m, m2, root, h, k, leaf1);
            assert forall|x: int| 0 <= x < top() implies #[trigger] self.tree_get(x) == if deleted
                && x == k {
                None
            } else {
                before.tree_get(x)
            } by {
                assert(self.tree_get(x) == get(m2, root, h, x));
                if lo <= x < hi {
                    assert(get(m, root, h, x) == get(m, leaf0, 0, x));
                    assert(get(m, leaf0, 0, x) == find(leaf0.keys(), x));
                }
            }
        }
        deleted
    }

    /// Deletes a key from a tree with levels above its leaves; whether it was there. Underfull
    /// nodes on the way are merged with their siblings, and a root with a single child gives way
    /// to that child.
    pub fn bch2_btree_delete_at<W: BtreeNodeWriter>(
        &mut self,
        writer: &mut W,
        key: &BtreeKey,
        journal_seq: u64,
    ) -> (r: Result<bool, StorageError>)
        requires
            old(self).shape_ok(),
            old(self).root.depth > 0,
            old(self).cache@.dom().subset_of(old(writer).in_use()),
        ensures
            fails_with(*old(writer), *final(writer), r),
            takes_room(*old(writer), *final(writer), r, old(self).root.depth as int),
            final(self).shape_ok(),
            final(self).same_front(*old(self)),
            final(self).root.depth <= old(self).root.depth,
            final(self).cache@.dom().subset_of(final(writer).in_use()),
            writes_kept(*old(writer), *final(writer)),
            ({
                let k = key.pos.ord();
                let there = old(self).tree_get(k) is Some && !old(self).leaf(
                    k,
                ).flags.write_blocked;
                &&& r is Ok ==> r == Ok::<bool, StorageError>(there)
                &&& r is Err ==> there
                &&& !there ==> *final(writer) == *old(writer) && final(self).same_notes(*old(self))
                    && final(self).root == old(self).root
                &&& there && r is Ok ==> final(self).deletion_of(
                    *old(self),
                    key.pos,
                    journal_seq,
                    *old(writer),
                    *final(writer),
                )
                &&& there && r is Ok ==> final(self).root.depth == 0
                    || final(self).root.node.nr_keys() > 1
                &&& forall|x: int|
                    0 <= x < top() ==> #[trigger] final(self).tree_get(x) == if there && x == k {
                        None
                    } else {
                        old(self).tree_get(x)
                    }
            }),
    {
        let ghost before = *self;
        let ghost k = key.pos.ord();
        let deleted: bool = self.delete_in_leaf(key, journal_seq);
        if !deleted {
            return Ok(false);
        }
        let ghost after = *self;
        let depth: u8 = self.root.depth;
        let mut level: u8 = 0;
        let ghost mut ts: Seq<Btree> = seq![*self];
        while level < depth
            invariant
                level <= depth,
                merge_chain(ts, key.pos, level as int),
                ts[0] == after,
                ts.last() == *self,
                self.shape_ok(),
                self.same_front(before),
                self.root.depth == depth,
                forall|x: int|
                    0 <= x < top() ==> #[trigger] self.tree_get(x) == after.tree_get(x),
                self.cache@.dom().subset_of(writer.in_use()),
            decreases depth - level,
        {
            let ghost prev = *self;
            let merged: bool = self.bch2_foreground_maybe_merge(&key.pos, level);
            proof {
                let us = ts.push(*self);
                assert(us[level + 1].merge_tried(us[level as int], key.pos, level, merged));
                assert forall|i: int| 0 <= i < level + 1 implies #[trigger] merge_link(
                    us,
                    key.pos,
                    i,
                ) by {
                    if i < level {
                        assert(merge_link(ts, key.pos, i));
                        let done = choose|done: bool| #[trigger]
                            ts[i + 1].merge_tried(ts[i], key.pos, i as u8, done);
                        assert(us[i] == ts[i] && us[i + 1] == ts[i + 1]);
                        assert(us[i + 1].merge_tried(us[i], key.pos, i as u8, done));
                    } else {
                        assert(us[i + 1].merge_tried(us[i], key.pos, i as u8, merged));
                    }
                }
                ts = us;
            }
            level += 1;
        }
        let ghost mid = *self;
        match self.collapse_root(writer) {
            Err(e) => {
                proof {
                    assert forall|x: int| 0 <= x < top() implies #[trigger] self.tree_get(x) == if x
                        == k {
                        None
                    } else {
                        before.tree_get(x)
                    } by {
                        assert(self.tree_get(x) == mid.tree_get(x));
                        assert(mid.tree_get(x) == after.tree_get(x));
                    }
                }
                Err(e)
            },
            Ok(_) => {
                proof {
                    assert forall|x: int| 0 <= x < top() implies #[trigger] self.tree_get(x) == if x
                        == k {
                        None
                    } else {
                        before.tree_get(x)
                    } by {
                        assert(self.tree_get(x) == mid.tree_get(x));
                        assert(mid.tree_get(x) == after.tree_get(x));
                    }
                    assert(merge_chain(ts, key.pos, depth as int));
                }
                Ok(true)
            },
        }
    }

    /// What a lookup of the key by its type finds is what the nodes hold at the key: the copies in
    /// front agree with the nodes, and what these hold there, if anything, is of the key's type, one
    /// that is shown, in a leaf that is not being written.
    pub open spec fn deletes_plainly(self, key: BtreeKey) -> bool {
        let k = key.pos.ord();
        &&& self.coherent()
        &&& find(self.key_cache.dirty_keys(), k) is None
        &&& self.tree_get(k) matches Some(e) ==> e.key_type == key.key_type
        &&& key.key_type == KeyType::Normal || key.key_type == KeyType::Present
        &&& self.root.depth > 0 ==> !self.leaf(k).flags.write_blocked
    }

    /// Deletes a key; whether it was there. `Ok(true)`: it is gone, and nothing else has changed.
    /// `Ok(false)`: nothing has changed. On an error the nodes are without the key.
    pub fn bch2_btree_delete<W: BtreeNodeWriter>(
        &mut self,
        writer: &mut W,
        key: &BtreeKey,
        journal_seq: u64,
    ) -> (r: Result<bool, StorageError>)
        requires
            old(self).wf(),
            old(self).cache@.dom().subset_of(old(writer).in_use()),
        ensures
            fails_with(*old(writer), *final(writer), r),
            takes_room(*old(writer), *final(writer), r, old(self).root.depth as int),
            final(self).wf(),
            final(self).btype == old(self).btype,
            final(self).root.depth <= old(self).root.depth,
            final(self).cache@.dom().subset_of(final(writer).in_use()),
            writes_kept(*old(writer), *final(writer)),
            r == Ok::<bool, StorageError>(true) ==> if old(self).root.depth > 0 {
                final(self).deletion_of(
                    *old(self),
                    key.pos,
                    journal_seq,
                    *old(writer),
                    *final(writer),
                )
            } else {
                &&& removed(
                    old(self).root.node.keys(),
                    final(self).root.node.keys(),
                    key.pos.ord(),
                )
                &&& final(self).root.node.journal_seq == journal_seq
                &&& final(self).root_modified
                &&& final(self).cache == old(self).cache
                &&& final(self).same_notes(*old(self))
            },
            ({
                let k = key.pos.ord();
                let blocked = old(self).root.depth > 0 && old(self).leaf(k).flags.write_blocked;
                let there = old(self).tree_get(k) is Some && !blocked;
                &&& r is Ok ==> r == Ok::<bool, StorageError>(there)
                &&& r is Err ==> there && old(self).root.depth > 0
            }),
            r matches Ok(gone) ==> old(self).deletes_plainly(*key) ==> {
                &&& gone == (old(self).entry_for(*key) is Some)
                &&& final(self).entry_for(*key) is None
                &&& forall|x: BtreeKey|
                    x.pos != key.pos ==> #[trigger] final(self).entry_for(x) == old(
                        self,
                    ).entry_for(x)
            },
            match r {
                Ok(true) => final(self).only_changed(*old(self), key.pos.ord(), None),
                Ok(false) => final(self).same_content(*old(self)),
                Err(_) => {
                    &&& final(self).key_cache == old(self).key_cache
                    &&& forall|x: int|
                        0 <= x < top() ==> #[trigger] final(self).tree_get(x) == if x
                            == key.pos.ord() {
                            None
                        } else {
                            old(self).tree_get(x)
                        }
                },
            },
    {
        let ghost before = *self;
        let ghost k = key.pos.ord();
        proof {
            lemma_ord(key.pos, key.pos);
        }
        let deleted: bool = if self.root.depth == 0 {
            let ghost m = self.cache@;
            let ghost root0 = self.root.node;
            proof {
                lemma_find_holds(root0.keys(), k);
                assert(before.tree_get(k) == find(root0.keys(), k));
            }
            self.root.node.prep_for_write();
            let deleted: bool = self.root.node.delete_key(key);
            if deleted {
                self.root.node.journal_seq = journal_seq;
                self.root_modified = true;
            }
            proof {
                let root2 = self.root.node;
                if deleted {
                    lemma_removed_range(root0.keys(), root2.keys(), k, 0, top());
                } else {
                    lemma_same_keys(m, root0, root2, 0, 0, top());
                }
                assert forall|x: int| 0 <= x < top() implies #[trigger] self.tree_get(x)
                    == if deleted && x == k {
                    None
                } else {
                    before.tree_get(x)
                } by {
                    assert(self.tree_get(x) == find(root2.keys(), x));
                    assert(before.tree_get(x) == find(root0.keys(), x));
                }
            }
            deleted
        } else {
            match self.bch2_btree_delete_at(writer, key, journal_seq) {
                Err(e) => {
                    return Err(e);
                },
                Ok(b) => b,
            }
        };
        let ghost after = *self;
        if deleted {
            self.key_cache.invalidate(&key.pos);
            proof {
                assert forall|x: int| 0 <= x < top() implies #[trigger] self.tree_get(x) == if x
                    == k {
                    None
                } else {
                    before.tree_get(x)
                } by {
                    assert(self.tree_get(x) == after.tree_get(x));
                }
                (*self).lemma_invalidated(before, k, None);
                if before.root.depth > 0 {
                    let ts = choose|ts: Seq<Btree>| #[trigger]
                        merge_chain(ts, key.pos, before.root.depth as int)
                            && ts[0].deleted_from(before, k, journal_seq) && after.collapse_of(
                            ts.last(),
                            *old(writer),
                            *writer,
                        );
                    assert(merge_chain(ts, key.pos, before.root.depth as int));
                    assert(self.collapse_of(ts.last(), *old(writer), *writer));
                }
            }
        } else {
            proof {
                (*self).lemma_same_content(before);
            }
        }
        proof {
            if before.deletes_plainly(*key) {
                assert forall|x: BtreeKey| x.pos != key.pos implies #[trigger] self.entry_for(x)
                    == before.entry_for(x) by {
                    law_delete_tells_typed_lookup(before, *self, *key, deleted, x);
                }
                law_delete_tells_typed_lookup(before, *self, *key, deleted, *key);
            }
        }
        Ok(deleted)
    }
}

/// What is left of a run lies where the run did.
proof fn lemma_removed_range(s: Seq<EntryView>, t: Seq<EntryView>, k: int, lo: int, hi: int)
    requires
        removed(s, t, k),
        in_range(s, lo, hi),
    ensures
        in_range(t, lo, hi),
{
    assert forall|i: int| 0 <= i < t.len() implies lo <= (#[trigger] t[i]).pos.ord() < hi by {
        crate::entries::lemma_find_at(t, i);
        let x = t[i].pos.ord();
        assert(find(t, x) == if x == k {
            None
        } else {
            find(s, x)
        });
        let j = lemma_find_some(s, x);
    }
}

/// A key that was inserted is found, as it was inserted; every other key is found as before.
pub proof fn law_insert_then_lookup(
    before: Btree,
    after: Btree,
    key: BtreeKey,
    value: BchVal,
    x: Bpos,
)
    requires
        after.only_changed(before, key.pos.ord(), stored(key, value)),
        key.key_type != KeyType::Deleted,
    ensures
        after.lookup(key.pos.ord()) == Some(extent_entry(key, value)),
        x != key.pos ==> after.lookup(x.ord()) == before.lookup(x.ord()),
{
    lemma_ord(key.pos, x);
    lemma_ord(x, x);
}

/// A key that was deleted is not found; every other key is found as before.
pub proof fn law_delete_then_lookup(before: Btree, after: Btree, key: BtreeKey, x: Bpos)
    requires
        after.only_changed(before, key.pos.ord(), None),
    ensures
        after.lookup(key.pos.ord()) is None,
        x != key.pos ==> after.lookup(x.ord()) == before.lookup(x.ord()),
{
    lemma_ord(key.pos, x);
    lemma_ord(x, x);
}

/// A key that was inserted is found by its type, where the type is one that is shown, and by no
/// other type; every other key is found by its type as before.
pub proof fn law_insert_then_typed_lookup(
    before: Btree,
    after: Btree,
    key: BtreeKey,
    value: BchVal,
    x: BtreeKey,
)
    requires
        after.only_changed(before, key.pos.ord(), stored(key, value)),
        key.key_type == KeyType::Normal || key.key_type == KeyType::Present,
    ensures
        x.pos == key.pos ==> after.entry_for(x) == if x.key_type == key.key_type {
            Some(extent_entry(key, value))
        } else {
            None
        },
        x.pos != key.pos ==> after.entry_for(x) == before.entry_for(x),
{
    lemma_ord(key.pos, x.pos);
    lemma_ord(x.pos, x.pos);
    assert(after.key_cache.cached(x.pos.ord()) == if x.pos == key.pos {
        None
    } else {
        before.key_cache.cached(x.pos.ord())
    });
}

/// A key that was deleted is found by no type; every other key is found by its type as before.
pub proof fn law_delete_then_typed_lookup(before: Btree, after: Btree, key: BtreeKey, x: BtreeKey)
    requires
        after.only_changed(before, key.pos.ord(), None),
    ensures
        x.pos == key.pos ==> after.entry_for(x) is None,
        x.pos != key.pos ==> after.entry_for(x) == before.entry_for(x),
{
    lemma_ord(key.pos, x.pos);
    lemma_ord(x.pos, x.pos);
    assert(after.key_cache.cached(x.pos.ord()) == if x.pos == key.pos {
        None
    } else {
        before.key_cache.cached(x.pos.ord())
    });
}

/// A key that a full leaf took as it was split is found by its type, and by no other type, where no
/// copy of an entry stands in front of it: none is kept at that key, or the copies agree with the
/// nodes and these did not have the key yet. Every other key is found by its type as before.
pub proof fn law_split_then_typed_lookup(
    before: Btree,
    after: Btree,
    key: BtreeKey,
    value: BchVal,
    x: BtreeKey,
)
    requires
        key.key_type == KeyType::Normal || key.key_type == KeyType::Present,
        after.same_front(before),
        forall|y: int|
            0 <= y < top() ==> #[trigger] after.tree_get(y) == after_split(
                before.tree_get(y),
                y,
                key.pos.ord(),
                true,
                stored(key, value),
            ),
        ({
            let k = key.pos.ord();
            ||| before.key_cache.cached(k) is None
            ||| {
                &&& before.coherent()
                &&& find(before.key_cache.dirty_keys(), k) is None
                &&& before.tree_get(k) is None
            }
        }),
    ensures
        x.pos == key.pos ==> after.entry_for(x) == if x.key_type == key.key_type {
            Some(extent_entry(key, value))
        } else {
            None
        },
        x.pos != key.pos ==> after.entry_for(x) == before.entry_for(x),
        before.coherent() ==> after.coherent(),
{
    let k = key.pos.ord();
    lemma_ord(key.pos, x.pos);
    lemma_ord(x.pos, x.pos);
    assert(before.key_cache.cached(k) is None);
    if before.coherent() {
        let c = before.key_cache.clean_keys();
        assert forall|y: int| (#[trigger] find(after.key_cache.clean_keys(), y)) is Some implies find(
            after.key_cache.clean_keys(),
            y,
        ) == after.tree_get(y) by {
            let j = lemma_find_some(c, y);
            lemma_ord(c[j].pos, c[j].pos);
            assert(find(c, y) == before.tree_get(y));
        }
    }
}

/// A delete tells what a lookup by type would have found, and no lookup finds the key afterwards;
/// every other key is found by its type as before. This is where the copies in front agree with the
/// nodes, and the nodes hold at the key, if anything, an entry of the key's own type in a leaf that
/// is not being written.
pub proof fn law_delete_tells_typed_lookup(
    before: Btree,
    after: Btree,
    key: BtreeKey,
    r: bool,
    x: BtreeKey,
)
    requires
        before.deletes_plainly(key),
        r == (before.tree_get(key.pos.ord()) is Some),
        r ==> after.only_changed(before, key.pos.ord(), None),
        !r ==> after.same_content(before),
    ensures
        r == (before.entry_for(key) is Some),
        x.pos == key.pos ==> after.entry_for(x) is None,
        x.pos != key.pos ==> after.entry_for(x) == before.entry_for(x),
{
    lemma_ord(key.pos, x.pos);
    lemma_ord(x.pos, x.pos);
    if r {
        law_delete_then_typed_lookup(before, after, key, x);
    }
}

/// To insert a key and to delete it again leaves what was there, where the key was not.
pub proof fn law_insert_then_delete(
    before: Btree,
    mid: Btree,
    after: Btree,
    key: BtreeKey,
    value: BchVal,
    x: Bpos,
)
    requires
        mid.only_changed(before, key.pos.ord(), stored(key, value)),
        after.only_changed(mid, key.pos.ord(), None),
        before.lookup(key.pos.ord()) is None,
    ensures
        after.lookup(x.ord()) == before.lookup(x.ord()),
{
    lemma_ord(key.pos, x);
    lemma_ord(x, x);
}

/// Roots with a single child give way to it, until one has more or is a leaf.
pub proof fn law_collapsed_root(root: BtreeNode, m: Map<u64, BtreeNode>, depth: nat)
    ensures
        ({
            let r = Btree::collapsed(root, m, depth);
            &&& r.2 <= depth
            &&& r.2 == 0 || r.0.keys().len() != 1
            &&& depth == 0 || root.keys().len() != 1 ==> r == (root, m, depth)
            &&& depth > 0 && root.keys().len() == 1 ==> r == Btree::collapsed(
                m[child(root.keys()[0])],
                m.remove(child(root.keys()[0])),
                (depth - 1) as nat,
            )
        }),
    decreases depth,
{
    if depth > 0 && root.keys().len() == 1 {
        let c = child(root.keys()[0]);
        law_collapsed_root(m[c], m.remove(c), (depth - 1) as nat);
    }
}

} // verus!
