//! Changes of a tree as callers ask for them.

use crate::entries::{find, holds, keys, lemma_find_some, put, sorted, upserted};
use crate::insert::{
    insert_splits, insert_takes, lemma_halves, lemma_leaf_changed, lemma_leaf_took,
    lemma_path_full, lemma_same_keys, torn,
};
use crate::key::{extent_entry, lemma_ord, BchVal, Bpos, BtreeKey, EntryView, KeyEntry, KeyType};
use crate::shape::{
    at_hi, at_lo, child, child_hi, child_lo, get, kid_ok, lemma_at, lemma_route_range,
    lemma_unfold, route, top,
};
use crate::node::BtreeNode;
use crate::node_cache::NodeCache;
use crate::split::{
    after_split, changes_marked, leaf_cut, leaf_of, leaf_split, lemma_upserted_range, stored,
    taken,
};
use crate::transaction::BtreeTrans;
use crate::tree::Btree;
use crate::writer::{
    fails_with, new_written, on_disk, takes_room, writes_kept, BtreeNodeWriter, StorageError,
};
use vstd::prelude::*;

verus! {

/// Inodes are spread over shards by blocks of this many offsets.
pub const SHARD_FACTOR: u64 = 1024;

impl Btree {
    /// What is found at each rank is as in `o`, but for rank `k`, where `e` is found.
    pub open spec fn only_changed(self, o: Btree, k: int, e: Option<EntryView>) -> bool {
        &&& forall|x: int|
            0 <= x < top() ==> #[trigger] self.lookup(x) == if x == k {
                e
            } else {
                o.lookup(x)
            }
        &&& forall|x: int|
            0 <= x < top() ==> #[trigger] self.tree_get(x) == if x == k {
                e
            } else {
                o.tree_get(x)
            }
        &&& forall|x: int|
            0 <= x < top() ==> #[trigger] self.key_cache.cached(x) == if x == k {
                None
            } else {
                o.key_cache.cached(x)
            }
        &&& o.coherent() ==> self.coherent()
    }

    /// What is found at each rank is as in `o`.
    pub open spec fn same_content(self, o: Btree) -> bool {
        &&& self.key_cache == o.key_cache
        &&& forall|x: int| 0 <= x < top() ==> #[trigger] self.tree_get(x) == o.tree_get(x)
        &&& forall|x: int| 0 <= x < top() ==> #[trigger] self.lookup(x) == o.lookup(x)
        &&& o.coherent() ==> self.coherent()
    }

    /// The nodes are changed at one rank, and what was cached for it is forgotten.
    pub proof fn lemma_invalidated(self, o: Btree, k: int, e: Option<EntryView>)
        requires
            0 <= k < top(),
            forall|x: int|
                0 <= x < top() ==> #[trigger] self.tree_get(x) == if x == k {
                    e
                } else {
                    o.tree_get(x)
                },
            forall|x: int| #[trigger]
                find(self.key_cache.clean_keys(), x) == if x == k {
                    None
                } else {
                    find(o.key_cache.clean_keys(), x)
                },
            forall|x: int| #[trigger]
                find(self.key_cache.dirty_keys(), x) == if x == k {
                    None
                } else {
                    find(o.key_cache.dirty_keys(), x)
                },
        ensures
            self.only_changed(o, k, e),
    {
        assert forall|x: int| 0 <= x < top() implies #[trigger] self.lookup(x) == if x == k {
            e
        } else {
            o.lookup(x)
        } by {
            assert(find(self.key_cache.clean_keys(), x) == if x == k {
                None
            } else {
                find(o.key_cache.clean_keys(), x)
            });
            assert(self.tree_get(x) == if x == k {
                e
            } else {
                o.tree_get(x)
            });
        }
        if o.coherent() {
            assert forall|x: int|
                (#[trigger] find(self.key_cache.clean_keys(), x)) is Some implies find(
                self.key_cache.clean_keys(),
                x,
            ) == self.tree_get(x) by {
                let j = lemma_find_some(self.key_cache.clean_keys(), x);
                let p = self.key_cache.clean_keys()[j].pos;
                lemma_ord(p, p);
                assert(find(o.key_cache.clean_keys(), x) == o.tree_get(x));
            }
        }
    }

    /// The nodes hold what they held, and nothing else changed.
    pub proof fn lemma_same_content(self, o: Btree)
        requires
            self.key_cache == o.key_cache,
            forall|x: int| 0 <= x < top() ==> #[trigger] self.tree_get(x) == o.tree_get(x),
        ensures
            self.same_content(o),
    {
        if o.coherent() {
            assert forall|x: int|
                (#[trigger] find(self.key_cache.clean_keys(), x)) is Some implies find(
                self.key_cache.clean_keys(),
                x,
            ) == self.tree_get(x) by {
                let j = lemma_find_some(self.key_cache.clean_keys(), x);
                let p = self.key_cache.clean_keys()[j].pos;
                lemma_ord(p, p);
                assert(find(o.key_cache.clean_keys(), x) == o.tree_get(x));
            }
        }
    }

    /// What has become of the tree `o` by an insertion: a leaf with room has the new entry; a leaf
    /// without was split, the root leaf below a new root.
    pub open spec fn grown<W: BtreeNodeWriter>(
        self,
        o: Btree,
        key: BtreeKey,
        value: BchVal,
        inserted: bool,
        journal_seq: u64,
        v: W,
        w: W,
    ) -> bool {
        let k = key.pos.ord();
        let leaf = o.leaf(k);
        let new = taken(key, value, inserted);
        if !insert_splits(leaf, o.root.depth) {
            &&& self.root.depth == o.root.depth
            &&& self.root.node.node_size == o.root.node.node_size
            &&& self.same_notes(o)
            &&& self.cache.dirty_addrs() == o.cache.dirty_addrs()
            &&& o.root.depth == 0 ==> self.cache == o.cache
            &&& inserted ==> {
                &&& self.leaf(k).journal_seq == journal_seq
                &&& self.leaf(k).node_size == leaf.node_size
                &&& upserted(leaf.keys(), self.leaf(k).keys(), extent_entry(key, value))
                &&& self.leaf(k).spans(leaf, key.pos, key.key_type != KeyType::Deleted)
                &&& o.root.depth == 0 ==> self.root_modified
            }
        } else if o.root.depth == 0 {
            &&& self.root.depth == 1
            &&& self.halved(o, new)
            &&& self.root.node.journal_seq == journal_seq
            &&& self.root.node.node_size == leaf.node_size
            &&& self.halves_bear(journal_seq, leaf.node_size)
            &&& self.root_noted(v, w)
            &&& self.cache.dirty_addrs() == o.cache.dirty_addrs()
        } else {
            &&& self.split_below(o, k, new, journal_seq, v, w)
            &&& changes_marked(o.cache@, self.cache)
        }
    }

    /// Adds a key to a root leaf without a split.
    fn insert_root_leaf(&mut self, key: BtreeKey, value: BchVal, journal_seq: u64) -> (r: bool)
        requires
            old(self).shape_ok(),
            old(self).root.depth == 0,
            !old(self).root.node.flags.write_blocked,
        ensures
            r == (old(self).root.node.live_u64s + 6 <= old(self).root.node.cap()),
            final(self).shape_ok(),
            final(self).same_front(*old(self)),
            final(self).cache == old(self).cache,
            final(self).root.depth == 0,
            final(self).root.node.node_size == old(self).root.node.node_size,
            final(self).same_notes(*old(self)),
            r ==> {
                &&& final(self).root_modified
                &&& final(self).root.node.journal_seq == journal_seq
                &&& upserted(
                    old(self).root.node.keys(),
                    final(self).root.node.keys(),
                    extent_entry(key, value),
                )
            },
            !r ==> final(self).root.node.keys() == old(self).root.node.keys()
                && final(self).root_modified == old(self).root_modified,
            final(self).root.node.spans(
                old(self).root.node,
                key.pos,
                r && key.key_type != KeyType::Deleted,
            ),
            forall|x: int| #[trigger]
                final(self).tree_get(x) == after_split(
                    old(self).tree_get(x),
                    x,
                    key.pos.ord(),
                    r,
                    stored(key, value),
                ),
    {
        let ghost m = self.cache@;
        let ghost root0 = self.root.node;
        proof {
            lemma_ord(key.pos, key.pos);
        }
        self.root.node.prep_for_write();
        let ok: bool = if self.root.node.insert(key, value) {
            true
        } else {
            self.root.node.compact();
            self.root.node.compact_fits(6) && self.root.node.insert(key, value)
        };
        if ok {
            self.root.node.journal_seq = journal_seq;
            self.root_modified = true;
        }
        proof {
            if ok {
                lemma_leaf_took(m, root0, self.root.node, extent_entry(key, value), 0, top());
            } else {
                lemma_same_keys(m, root0, self.root.node, 0, 0, top());
            }
            assert forall|x: int| #[trigger]
                self.tree_get(x) == after_split(
                    get(m, root0, 0, x),
                    x,
                    key.pos.ord(),
                    ok,
                    stored(key, value),
                ) by {
                assert(self.tree_get(x) == get(m, self.root.node, 0, x));
            }
        }
        ok
    }

    /// Adds a key to a tree with levels above its leaves.
    fn insert_deep<W: BtreeNodeWriter>(
        &mut self,
        writer: &mut W,
        key: BtreeKey,
        value: BchVal,
        journal_seq: u64,
    ) -> (r: Result<bool, StorageError>)
        requires
            old(self).shape_ok(),
            0 < old(self).root.depth < 255,
            old(self).cache@.dom().subset_of(old(writer).in_use()),
        ensures
            fails_with(*old(writer), *final(writer), r),
            takes_room(*old(writer), *final(writer), r, old(self).root.depth + 3),
            !insert_splits(old(self).leaf(key.pos.ord()), old(self).root.depth) ==> r is Ok
                && *final(writer) == *old(writer) && final(self).root.depth == old(self).root.depth,
            final(self).shape_ok(),
            final(self).same_front(*old(self)),
            final(self).cache@.dom().subset_of(final(writer).in_use()),
            writes_kept(*old(writer), *final(writer)),
            new_written(old(self).cache@, final(self).cache@, *final(writer)),
            r is Err ==> final(self).root.depth == old(self).root.depth && final(self).same_notes(
                *old(self),
            ),
            r matches Ok(inserted) ==> final(self).grown(
                *old(self),
                key,
                value,
                inserted,
                journal_seq,
                *old(writer),
                *final(writer),
            ),
            old(self).leaf(key.pos.ord()).flags.write_blocked ==> r == Ok::<bool, StorageError>(
                false,
            ) && final(self).root == old(self).root && final(self).cache@ == old(self).cache@,
            r is Ok ==> r == Ok::<bool, StorageError>(
                insert_takes(
                    old(self).leaf(key.pos.ord()),
                    old(self).root.depth,
                    key.pos.ord(),
                ),
            ),
            match r {
                Ok(inserted) => forall|x: int|
                    0 <= x < top() ==> #[trigger] final(self).tree_get(x) == after_split(
                        old(self).tree_get(x),
                        x,
                        key.pos.ord(),
                        inserted,
                        stored(key, value),
                    ),
                Err(_) => forall|x: int|
                    0 <= x < top() ==> torn(
                        old(self).tree_get(x),
                        #[trigger] final(self).tree_get(x),
                        x,
                        key.pos.ord(),
                        stored(key, value),
                    ),
            },
    {
        let ghost before = *self;
        let ghost m = self.cache@;
        let ghost root = self.root.node;
        let ghost h = self.height();
        let ghost k = key.pos.ord();
        let ghost lo = at_lo(m, root, h, 0, k, 0);
        let ghost hi = at_hi(m, root, h, top(), k, 0);
        proof {
            lemma_ord(key.pos, key.pos);
            lemma_at(m, root, h, 0, top(), k, 0);
        }
        let mut path: Vec<u64> = Vec::new();
        proof {
            self.lemma_no_holes();
        }
        let leaf_addr: u64 = match self.bch2_btree_path_traverse_one(&key, &mut path) {
            None => {
                return Ok(false);
            },
            Some(a) => a,
        };
        let ghost leaf0 = m[leaf_addr];
        let done: bool = self.bch2_btree_insert_key_leaf(leaf_addr, key, value, journal_seq);
        let ghost mid = *self;
        let ghost m1 = self.cache@;
        let ghost leaf1 = m1[leaf_addr];
        proof {
            if done {
                lemma_upserted_range(leaf0.keys(), leaf1.keys(), extent_entry(key, value), lo, hi);
            }
            lemma_leaf_changed(m, m1, root, h, k, leaf1);
            assert forall|x: int| 0 <= x < top() implies #[trigger] self.tree_get(x)
                == after_split(before.tree_get(x), x, k, done, stored(key, value)) by {
                assert(self.tree_get(x) == get(m1, root, h, x));
                if lo <= x < hi {
                    assert(get(m, root, h, x) == get(m, leaf0, 0, x));
                    assert(get(m, leaf0, 0, x) == find(leaf0.keys(), x));
                }
            }
        }
        proof {
            assert(leaf_of(m1, root, h, k) == leaf1);
        }
        if done {
            return Ok(true);
        }
        if let Some(n) = self.cache.get(leaf_addr) {
            if n.flags.write_blocked {
                proof {
                    assert(leaf0.flags.write_blocked);
                }
                return Ok(false);
            }
        }
        let r = self.bch2_btree_split_leaf(writer, key, value, journal_seq);
        proof {
            if r is Ok && leaf0.nr_keys() >= 2 {
                let inserted = r->Ok_0;
                let s = root.keys();
                let l = (h - 1) as nat;
                let i = route(s, k);
                lemma_unfold(m, root, h, 0, top());
                lemma_route_range(s, 0, top(), k);
                assert(kid_ok(m, s, l, 0, top(), i));
                lemma_path_full(m, m1, root, h, 0, top(), k, leaf_addr);
                let c = child(s[i]);
                if l > 0 {
                    lemma_path_full(
                        m,
                        m1,
                        m[c],
                        l,
                        child_lo(s, i, 0),
                        child_hi(s, i, top()),
                        k,
                        leaf_addr,
                    );
                }
                lemma_same_leaf_split(
                    m,
                    m1,
                    self.cache,
                    leaf_addr,
                    taken(key, value, inserted),
                    journal_seq,
                );
                assert forall|a: u64| #[trigger]
                    m.contains_key(a) && self.cache@.contains_key(a) && self.cache@[a]
                        != m[a] implies self.cache.dirty_addrs().contains(a) by {
                    if a != leaf_addr {
                        assert(m1[a] == m[a]);
                        assert(m1.contains_key(a));
                    }
                }
            }
            assert forall|a: u64| #[trigger]
                self.cache@.contains_key(a) && !m.contains_key(a) implies on_disk(
                *writer,
                a,
                self.cache@[a],
            ) by {
                assert(!m1.contains_key(a));
            }
        }
        r
    }
}

/// A split of a leaf is one of any leaf with the same keys.
proof fn lemma_same_leaf_split(
    m: Map<u64, BtreeNode>,
    m1: Map<u64, BtreeNode>,
    c: NodeCache,
    la: u64,
    new: Option<EntryView>,
    journal_seq: u64,
)
    requires
        leaf_split(m1, c, la, new, journal_seq),
        m1 == m.insert(la, m1[la]),
        m.contains_key(la),
        m1[la].keys() == m[la].keys(),
        m1[la].node_size == m[la].node_size,
    ensures
        leaf_split(m, c, la, new, journal_seq),
        c.dirty_addrs().contains(la),
{
    reveal(leaf_split);
    let (ra, at) = choose|ra: u64, at: Bpos| #[trigger]
        leaf_cut(m1, c, la, ra, at, new, journal_seq);
    assert(leaf_cut(m, c, la, ra, at, new, journal_seq));
}

/// Two neighbours in the middle part of `s` belong to different shards, in ascending order.
pub open spec fn shard_cut(s: Seq<EntryView>) -> bool {
    s.len() >= 3 && exists|i: int| #[trigger] shard_cut_at(s, i)
}

pub open spec fn shard_cut_at(s: Seq<EntryView>, i: int) -> bool {
    &&& 1 <= i < s.len()
    &&& s.len() / 5 < i < s.len() * 4 / 5
    &&& s[i - 1].pos.offset / SHARD_FACTOR < s[i].pos.offset / SHARD_FACTOR
}

/// The first border between shards in the middle part of `s`.
pub open spec fn first_shard_cut(s: Seq<EntryView>, i: int) -> bool {
    &&& shard_cut_at(s, i)
    &&& forall|j: int| 1 <= j < i ==> !#[trigger] shard_cut_at(s, j)
}

/// Where the keys of a leaf belong to one inode, a cut at a border between shards leaves every key
/// of the left part in a lower shard than every key of the right part.
pub proof fn law_shards_apart(s: Seq<EntryView>, i: int, x: int, y: int)
    requires
        sorted(s),
        shard_cut_at(s, i),
        forall|j: int| 0 <= j < s.len() ==> (#[trigger] s[j]).pos.inode == s[0].pos.inode,
        0 <= x < i <= y < s.len(),
    ensures
        s[x].pos.offset / SHARD_FACTOR < s[y].pos.offset / SHARD_FACTOR,
{
    assert(s[x].pos.offset <= s[i - 1].pos.offset) by {
        lemma_ord(s[x].pos, s[i - 1].pos);
        if x < i - 1 {
            assert(s[x].pos.ord() < s[i - 1].pos.ord());
        }
    }
    assert(s[i].pos.offset <= s[y].pos.offset) by {
        lemma_ord(s[i].pos, s[y].pos);
        if i < y {
            assert(s[i].pos.ord() < s[y].pos.ord());
        }
    }
}

impl Btree {
    /// The root leaf of `o` is cut before its entry `i` in two new leaves below a new root.
    pub open spec fn cut_before(self, o: Btree, i: int) -> bool {
        let s = o.root.node.keys();
        let r = self.root.node.keys();
        let left = self.cache@[child(r[0])];
        let right = self.cache@[child(r[1])];
        &&& self.two_below(o, s[i].pos, left, right)
        &&& left.keys() == s.subrange(0, i)
        &&& right.keys() == s.subrange(i, s.len() as int)
    }

    /// Inserts `value` under `key`, in place of what was there. `Ok(true)`: it is in, and nothing
    /// else has changed. `Ok(false)`: nothing has changed; the leaf is being written, or there is
    /// no room. On an error nothing was added but the new key; what went missing is on its way to
    /// a device that failed. A transaction hears of splits.
    pub fn bch2_btree_insert_trans<W: BtreeNodeWriter>(
        &mut self,
        writer: &mut W,
        key: BtreeKey,
        value: BchVal,
        trans: &mut BtreeTrans,
        journal_seq: u64,
    ) -> (r: Result<bool, StorageError>)
        requires
            old(self).wf(),
            old(self).root.depth < 255,
            old(self).cache@.dom().subset_of(old(writer).in_use()),
        ensures
            fails_with(*old(writer), *final(writer), r),
            takes_room(*old(writer), *final(writer), r, old(self).root.depth + 3),
            !insert_splits(old(self).leaf(key.pos.ord()), old(self).root.depth) ==> r is Ok
                && *final(writer) == *old(writer) && final(self).root.depth == old(self).root.depth,
            final(self).wf(),
            final(self).btype == old(self).btype,
            final(self).cache@.dom().subset_of(final(writer).in_use()),
            writes_kept(*old(writer), *final(writer)),
            new_written(old(self).cache@, final(self).cache@, *final(writer)),
            r is Err ==> final(self).root.depth == old(self).root.depth && final(self).same_notes(
                *old(self),
            ),
            r matches Ok(inserted) ==> final(self).grown(
                *old(self),
                key,
                value,
                inserted,
                journal_seq,
                *old(writer),
                *final(writer),
            ),
            old(self).leaf(key.pos.ord()).flags.write_blocked ==> r == Ok::<bool, StorageError>(
                false,
            ) && final(self).root == old(self).root && final(self).cache@ == old(self).cache@,
            r is Ok ==> r == Ok::<bool, StorageError>(
                insert_takes(
                    old(self).leaf(key.pos.ord()),
                    old(self).root.depth,
                    key.pos.ord(),
                ),
            ),
            match r {
                Ok(true) => final(self).only_changed(
                    *old(self),
                    key.pos.ord(),
                    stored(key, value),
                ),
                Ok(false) => final(self).same_content(*old(self)),
                Err(_) => {
                    &&& final(self).key_cache == old(self).key_cache
                    &&& forall|x: int|
                        0 <= x < top() ==> torn(
                            old(self).tree_get(x),
                            #[trigger] final(self).tree_get(x),
                            x,
                            key.pos.ord(),
                            stored(key, value),
                        )
                },
            },
            *final(trans) == if r == Ok::<bool, StorageError>(true) && (old(self).root.depth > 0
                || old(self).root.node.live_u64s + 6 > old(self).root.node.cap()) {
                BtreeTrans { node_split: true, ..*old(trans) }
            } else {
                *old(trans)
            },
    {
        let ghost before = *self;
        let ghost k = key.pos.ord();
        let ghost new = stored(key, value);
        proof {
            lemma_ord(key.pos, key.pos);
        }
        let result: bool = if self.root.depth == 0 {
            if self.root.node.flags.write_blocked {
                proof {
                    (*self).lemma_same_content(before);
                }
                return Ok(false);
            }
            if self.insert_root_leaf(key, value, journal_seq) {
                true
            } else {
                let ghost mid = *self;
                match self.split_root(writer, Some((key, value)), journal_seq) {
                    Err(e) => {
                        proof {
                            assert forall|x: int| 0 <= x < top() implies torn(
                                before.tree_get(x),
                                #[trigger] self.tree_get(x),
                                x,
                                k,
                                new,
                            ) by {
                                assert(self.tree_get(x) == mid.tree_get(x));
                                assert(mid.tree_get(x) == before.tree_get(x));
                            }
                        }
                        return Err(e);
                    },
                    Ok(b) => {
                        proof {
                            assert forall|x: int| 0 <= x < top() implies #[trigger] self.tree_get(x)
                                == after_split(before.tree_get(x), x, k, b, new) by {
                                assert(mid.tree_get(x) == before.tree_get(x));
                            }
                        }
                        if b {
                            trans.trigger_node_split();
                        }
                        b
                    },
                }
            }
        } else {
            match self.insert_deep(writer, key, value, journal_seq) {
                Err(e) => {
                    return Err(e);
                },
                Ok(b) => {
                    if b {
                        trans.trigger_node_split();
                    }
                    b
                },
            }
        };
        let ghost after = *self;
        assert forall|x: int| 0 <= x < top() implies #[trigger] after.tree_get(x) == after_split(
            before.tree_get(x),
            x,
            k,
            result,
            new,
        ) by {}
        if result {
            self.key_cache.invalidate(&key.pos);
            proof {
                assert forall|x: int| 0 <= x < top() implies #[trigger] self.tree_get(x) == if x
                    == k {
                    new
                } else {
                    before.tree_get(x)
                } by {
                    assert(self.tree_get(x) == after.tree_get(x));
                }
                (*self).lemma_invalidated(before, k, new);
            }
        } else {
            proof {
                assert forall|x: int| 0 <= x < top() implies #[trigger] self.tree_get(x)
                    == before.tree_get(x) by {
                    assert(self.tree_get(x) == after.tree_get(x));
                }
                (*self).lemma_same_content(before);
            }
        }
        Ok(result)
    }

    /// Inserts `value` under `key`, in place of what was there. `Ok(true)`: it is in, and nothing
    /// else has changed. `Ok(false)`: nothing has changed; the leaf is being written, or there is
    /// no room.
    pub fn bch2_btree_insert<W: BtreeNodeWriter>(
        &mut self,
        writer: &mut W,
        key: BtreeKey,
        value: BchVal,
        journal_seq: u64,
    ) -> (r: Result<bool, StorageError>)
        requires
            old(self).wf(),
            old(self).root.depth < 255,
            old(self).cache@.dom().subset_of(old(writer).in_use()),
        ensures
            fails_with(*old(writer), *final(writer), r),
            takes_room(*old(writer), *final(writer), r, old(self).root.depth + 3),
            !insert_splits(old(self).leaf(key.pos.ord()), old(self).root.depth) ==> r is Ok
                && *final(writer) == *old(writer) && final(self).root.depth == old(self).root.depth,
            final(self).wf(),
            final(self).btype == old(self).btype,
            final(self).cache@.dom().subset_of(final(writer).in_use()),
            writes_kept(*old(writer), *final(writer)),
            new_written(old(self).cache@, final(self).cache@, *final(writer)),
            r is Err ==> final(self).root.depth == old(self).root.depth && final(self).same_notes(
                *old(self),
            ),
            r matches Ok(inserted) ==> final(self).grown(
                *old(self),
                key,
                value,
                inserted,
                journal_seq,
                *old(writer),
                *final(writer),
            ),
            old(self).leaf(key.pos.ord()).flags.write_blocked ==> r == Ok::<bool, StorageError>(
                false,
            ) && final(self).root == old(self).root && final(self).cache@ == old(self).cache@,
            r is Ok ==> r == Ok::<bool, StorageError>(
                insert_takes(
                    old(self).leaf(key.pos.ord()),
                    old(self).root.depth,
                    key.pos.ord(),
                ),
            ),
            match r {
                Ok(true) => final(self).only_changed(
                    *old(self),
                    key.pos.ord(),
                    stored(key, value),
                ),
                Ok(false) => final(self).same_content(*old(self)),
                Err(_) => {
                    &&& final(self).key_cache == old(self).key_cache
                    &&& forall|x: int|
                        0 <= x < top() ==> torn(
                            old(self).tree_get(x),
                            #[trigger] final(self).tree_get(x),
                            x,
                            key.pos.ord(),
                            stored(key, value),
                        )
                },
            },
    {
        let mut trans: BtreeTrans = BtreeTrans::new();
        self.bch2_btree_insert_trans(writer, key, value, &mut trans, journal_seq)
    }

    /// Adds an entry of any kind to a tree of one leaf, or takes away what is at its position
    /// where the entry is a tombstone.
    pub fn bch2_btree_bset_insert_key_wrapper(&mut self, entry: KeyEntry, journal_seq: u64) -> (r:
        bool)
        requires
            old(self).wf(),
        ensures
            r == (old(self).root.depth == 0 && !old(self).root.node.flags.write_blocked
                && entry@.u64s() <= crate::key::BKEY_U64S_MAX && old(self).root.node.live_u64s
                + entry@.u64s() <= old(self).root.node.cap()),
            final(self).wf(),
            final(self).btype == old(self).btype,
            final(self).merge_threshold == old(self).merge_threshold,
            final(self).root_modified == old(self).root_modified,
            final(self).same_notes(*old(self)),
            !r ==> final(self).root.node.live_u64s == old(self).root.node.live_u64s,
            final(self).cache == old(self).cache,
            final(self).root.depth == old(self).root.depth,
            r ==> final(self).root.node.journal_seq == journal_seq && final(self).only_changed(
                *old(self),
                entry.pos.ord(),
                if entry.key_type == KeyType::Deleted {
                    None
                } else {
                    Some(entry@)
                },
            ),
            !r ==> final(self).same_content(*old(self)),
            old(self).root.depth > 0 || old(self).root.node.flags.write_blocked ==> *final(self)
                == *old(self),
            r && entry.key_type != KeyType::Deleted ==> final(self).root.node.keys() == put(
                old(self).root.node.keys(),
                entry@,
            ),
            !r ==> final(self).root.node.keys() == old(self).root.node.keys(),
            final(self).root.node.node_size == old(self).root.node.node_size,
            final(self).root.node.flags.write_blocked == old(self).root.node.flags.write_blocked,
            final(self).root.node.live_u64s <= old(self).root.node.live_u64s + if r {
                entry@.u64s() as int
            } else {
                0
            },
            r ==> {
                &&& forall|x: int| #[trigger]
                    find(final(self).key_cache.dirty_keys(), x) == if x == entry.pos.ord() {
                        None
                    } else {
                        find(old(self).key_cache.dirty_keys(), x)
                    }
                &&& final(self).key_cache.dirty_keys().len() == old(
                    self,
                ).key_cache.dirty_keys().len() - if holds(
                    old(self).key_cache.dirty_keys(),
                    entry.pos.ord(),
                ) {
                    1int
                } else {
                    0
                }
            },
    {
        let ghost before = *self;
        let ghost m = self.cache@;
        let ghost root0 = self.root.node;
        let ghost e = entry@;
        let ghost k = entry.pos.ord();
        let pos: Bpos = entry.pos;
        proof {
            lemma_ord(entry.pos, entry.pos);
            (*self).lemma_same_content(before);
        }
        if self.root.depth > 0 {
            return false;
        }
        if self.root.node.flags.write_blocked {
            return false;
        }
        self.root.node.prep_for_write();
        let again: KeyEntry = entry.clone();
        let ok: bool = if self.root.node.insert_entry(entry) {
            true
        } else {
            self.root.node.compact();
            self.root.node.insert_entry(again)
        };
        if !ok {
            proof {
                lemma_same_keys(m, root0, self.root.node, 0, 0, top());
                (*self).lemma_same_content(before);
            }
            return false;
        }
        self.root.node.journal_seq = journal_seq;
        let ghost after = *self;
        proof {
            lemma_leaf_took(m, root0, self.root.node, e, 0, top());
        }
        self.key_cache.invalidate(&pos);
        proof {
            let new = if e.key_type == KeyType::Deleted {
                None
            } else {
                Some(e)
            };
            assert forall|x: int| 0 <= x < top() implies #[trigger] self.tree_get(x) == if x == k {
                new
            } else {
                before.tree_get(x)
            } by {
                assert(self.tree_get(x) == get(m, after.root.node, 0, x));
                assert(before.tree_get(x) == get(m, root0, 0, x));
            }
            (*self).lemma_invalidated(before, k, new);
        }
        true
    }

    /// What a look for a border between shards makes of the tree `o`.
    pub open spec fn presplit_of(self, o: Btree) -> bool {
        if o.root.depth == 0 && shard_cut(o.root.node.keys()) {
            &&& self.root.depth == 1
            &&& exists|i: int| #[trigger]
                first_shard_cut(o.root.node.keys(), i) && self.cut_before(o, i)
        } else {
            self == o
        }
    }

    /// Splits a root leaf whose keys belong to more than one shard at the first border between
    /// shards that lies in the middle part; whether there is one. Nothing is added or taken away.
    pub fn presplit_shard_boundaries<W: BtreeNodeWriter>(&mut self, writer: &mut W) -> (r: Result<
        bool,
        StorageError,
    >)
        requires
            old(self).wf(),
            old(self).cache@.dom().subset_of(old(writer).in_use()),
        ensures
            fails_with(*old(writer), *final(writer), r),
            takes_room(*old(writer), *final(writer), r, 3),
            final(self).wf(),
            final(self).same_content(*old(self)),
            final(self).cache@.dom().subset_of(final(writer).in_use()),
            final(self).btype == old(self).btype,
            writes_kept(*old(writer), *final(writer)),
            new_written(old(self).cache@, final(self).cache@, *final(writer)),
            final(self).cache.dirty_addrs() == old(self).cache.dirty_addrs(),
            r == Ok::<bool, StorageError>(false) <==> !(old(self).root.depth == 0 && shard_cut(
                old(self).root.node.keys(),
            )),
            r == Ok::<bool, StorageError>(false) ==> *final(self) == *old(self),
            r is Ok ==> final(self).presplit_of(*old(self)),
            r == Ok::<bool, StorageError>(true) ==> {
                &&& final(self).halves_bear(0, old(self).root.node.node_size)
                &&& final(self).root.node.journal_seq == 0
                &&& final(self).root_noted(*old(writer), *final(writer))
            },
            r is Err ==> final(self).root == old(self).root && final(self).same_notes(*old(self)),
    {
        let ghost before = *self;
        proof {
            (*self).lemma_same_content(before);
        }
        if self.root.depth != 0 {
            return Ok(false);
        }
        let ghost s = self.root.node.keys();
        let n: usize = self.root.node.entries.len();
        proof {
            crate::entries::lemma_widths_len(s);
        }
        if n < 3 {
            return Ok(false);
        }
        let mut found: bool = false;
        let mut i: usize = 1;
        while i < n && !found
            invariant
                *self == before,
                s == before.root.node.keys(),
                n == s.len(),
                3 <= n <= 0xFFFFFF,
                1 <= i <= n,
                found ==> shard_cut_at(s, i as int),
                forall|j: int| 1 <= j < i ==> !#[trigger] shard_cut_at(s, j),
            decreases n - i, !found as int,
        {
            let prev: u64 = self.root.node.entries[i - 1].pos.offset;
            let curr: u64 = self.root.node.entries[i].pos.offset;
            if prev / SHARD_FACTOR < curr / SHARD_FACTOR && i > n / 5 && i < n * 4 / 5 {
                assert(shard_cut_at(s, i as int));
                found = true;
            } else {
                i += 1;
            }
        }
        if !found {
            return Ok(false);
        }
        let ghost m = self.cache@;
        let ghost root0 = self.root.node;
        let mut left: BtreeNode = self.root.node.duplicate();
        let (median, mut right): (BtreeKey, BtreeNode) = left.split_at(i);
        let ghost med = median.pos.ord();
        let ghost left0 = left;
        let ghost right0 = right;
        left.journal_seq = 0;
        right.journal_seq = 0;
        let ghost left1 = left;
        let ghost right1 = right;
        proof {
            lemma_halves(m, root0, left0, right0, 0, 0, top());
            lemma_same_keys(m, left0, left1, 0, 0, med);
            lemma_same_keys(m, right0, right1, 0, med, top());
        }
        match self.publish_split(writer, left, right, median.pos, 0) {
            Err(e) => {
                proof {
                    (*self).lemma_more_nodes(before);
                    (*self).lemma_same_content(before);
                }
                Err(e)
            },
            Ok(_) => {
                proof {
                    assert forall|x: int| 0 <= x < top() implies #[trigger] self.tree_get(x)
                        == before.tree_get(x) by {
                        assert(get(m, left1, 0, x) == get(m, left0, 0, x));
                        assert(get(m, right1, 0, x) == get(m, right0, 0, x));
                        assert(x < med ==> get(m, left0, 0, x) == get(m, root0, 0, x));
                        assert(x >= med ==> get(m, right0, 0, x) == get(m, root0, 0, x));
                    }
                    (*self).lemma_same_content(before);
                    assert(first_shard_cut(s, i as int));
                    assert(self.cut_before(before, i as int));
                }
                Ok(true)
            },
        }
    }
}

/// A cut between shards lies past the first fifth of the entries and before the last one, between two
/// whose offsets are in different ranges of 1024.
pub proof fn law_shard_cut(s: Seq<EntryView>, i: int)
    ensures
        shard_cut_at(s, i) <==> {
            let n = s.len() as int;
            &&& 1 <= i < n
            &&& 5 * i >= n + 5 - n % 5
            &&& i < 4 * n / 5
            &&& exists|c: int|
                s[i - 1].pos.offset < #[trigger] shard_start(c) && shard_start(c)
                    <= s[i].pos.offset
        },
{
    let n = s.len() as int;
    if 1 <= i < n {
        let a = s[i - 1].pos.offset as int;
        let b = s[i].pos.offset as int;
        if a / 1024 < b / 1024 {
            assert(a < shard_start(b / 1024) && shard_start(b / 1024) <= b);
        }
        assert forall|c: int| a < #[trigger] shard_start(c) && shard_start(c) <= b implies a / 1024
            < b / 1024 by {}
    }
}

/// The first offset of a shard.
pub open spec fn shard_start(c: int) -> int {
    1024 * c
}

/// An insert that goes in without a split leaves the entry in its leaf, under the number of its
/// journal entry; one that splits the only leaf leaves a root over two leaves under that number.
pub proof fn law_insert_bears_the_journal_number<W: BtreeNodeWriter>(
    t: Btree,
    o: Btree,
    key: BtreeKey,
    value: BchVal,
    journal_seq: u64,
    v: W,
    w: W,
)
    requires
        t.grown(o, key, value, true, journal_seq, v, w),
        key.key_type != KeyType::Deleted,
    ensures
        !insert_splits(o.leaf(key.pos.ord()), o.root.depth) ==> ({
            let n = t.leaf(key.pos.ord());
            &&& n.journal_seq == journal_seq
            &&& find(n.keys(), key.pos.ord()) == Some(extent_entry(key, value))
            &&& t.root.depth == o.root.depth
            &&& o.root.depth == 0 ==> t.root_modified
        }),
        insert_splits(o.leaf(key.pos.ord()), o.root.depth) && o.root.depth == 0 ==> ({
            let s = t.root.node.keys();
            &&& t.root.depth == 1
            &&& s.len() == 2
            &&& t.root.node.journal_seq == journal_seq
            &&& t.cache@[child(s[0])].journal_seq == journal_seq
            &&& t.cache@[child(s[1])].journal_seq == journal_seq
            &&& t.pending_root_journal is Some
        }),
{
}

} // verus!
