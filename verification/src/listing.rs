//! Whole trees: what they hold, what awaits a write, and how they begin.

use crate::btree_id::BtreeId;
use crate::entries::{find, keys, lemma_find_concat, lemma_find_some, sorted};
use crate::key::{lemma_ord, BchVal, Bpos, BtreeKey, EntryView, KeyEntry};
use crate::key_cache::KeyCache;
use crate::node::{BtreeNode, NodeFlags};
use crate::node_cache::NodeCache;
use crate::path::{PathLevel, ROOT_CACHE_ADDR};
use crate::shape::{get, sub_wf, top};
use crate::split::in_range;
use crate::tree::{Btree, BtreeRoot, PendingRootJournal};
use vstd::prelude::*;

verus! {

/// How much of a node is written: sectors on disk, sectors in all, and words still free.
pub open spec fn progress_of(node: BtreeNode) -> (u16, u16, u16) {
    let sectors = node.node_size as int / 512;
    let free = node.node_size - node.total() * 8;
    let left = (free + 7) / 8;
    (
        node.written,
        if sectors < 0xFFFF {
            sectors as u16
        } else {
            0xFFFF
        },
        if left < 0xFFFF {
            left as u16
        } else {
            0xFFFF
        },
    )
}

impl Default for Btree {
    fn default() -> (r: Btree)
        ensures
            r.wf(),
            r.btype == BtreeId::Extents,
            forall|k: int| (#[trigger] r.lookup(k)) is None,
    {
        Btree::new()
    }
}

/// Address `a` is one of the first `n`.
pub open spec fn in_head(s: Seq<u64>, n: int, a: u64) -> bool {
    exists|i: int| 0 <= i < n && #[trigger] s[i] == a
}

/// Whether the address at `d` stands before that place too.
fn noted_before(addrs: &Vec<u64>, d: usize) -> (r: bool)
    requires
        d < addrs@.len(),
    ensures
        r == in_head(addrs@, d as int, addrs@[d as int]),
{
    let mut i: usize = 0;
    while i < d
        invariant
            i <= d < addrs@.len(),
            forall|j: int| 0 <= j < i ==> #[trigger] addrs@[j] != addrs@[d as int],
        decreases d - i,
    {
        if addrs[i] == addrs[d] {
            return true;
        }
        i += 1;
    }
    false
}

impl Btree {
    /// A tree over a root and nodes that are there already.
    pub fn bch2_btree_set_root_for_read(root: BtreeRoot, cache: NodeCache, btype: BtreeId) -> (r:
        Btree)
        ensures
            r.root == root,
            r.cache == cache,
            r.btype == btype,
            r.key_cache.wf(),
            r.key_cache.clean_keys() == Seq::<EntryView>::empty(),
            r.key_cache.dirty_keys() == Seq::<EntryView>::empty(),
            !r.root_modified,
            r.merge_threshold is None,
            r.pending_root_journal is None,
            r.current_root_disk is None,
            sub_wf(cache@, root.node, root.depth as nat, 0, top()) ==> r.wf() && r.coherent(),
    {
        proof {
            reveal(find);
        }
        Btree {
            root,
            cache,
            key_cache: KeyCache::new(),
            root_modified: false,
            btype,
            merge_threshold: None,
            pending_root_journal: None,
            current_root_disk: None,
        }
    }

    /// Empties the tree: an empty leaf becomes the root.
    pub fn clear(&mut self)
        ensures
            final(self).wf(),
            final(self).coherent(),
            final(self).root.depth == 0,
            final(self).root.node.nr_keys() == 0,
            forall|k: int| (#[trigger] final(self).lookup(k)) is None,
            final(self).btype == old(self).btype,
            final(self).cache == old(self).cache,
            final(self).root.node.fresh(),
            final(self).root.node.level == 0,
            final(self).root.node.flags == NodeFlags::none(),
            final(self).root.node.min_key == Bpos::highest(),
            final(self).root.node.max_key == Bpos::lowest(),
            final(self).root_modified == old(self).root_modified,
            final(self).merge_threshold == old(self).merge_threshold,
            final(self).same_notes(*old(self)),
            final(self).key_cache.clean_keys().len() == 0,
            final(self).key_cache.dirty_keys().len() == 0,
    {
        self.root = BtreeRoot { node: BtreeNode::new_leaf(), depth: 0 };
        self.key_cache.clear();
        proof {
            reveal(find);
        }
    }

    pub fn root(&self) -> (r: &BtreeRoot)
        ensures
            *r == self.root,
    {
        &self.root
    }

    pub fn btype(&self) -> (r: BtreeId)
        ensures
            r == self.btype,
    {
        self.btype
    }

    pub fn depth(&self) -> (r: u8)
        ensures
            r == self.root.depth,
    {
        self.root.depth
    }

    pub fn cache_mut(&mut self) -> (r: &mut NodeCache)
        ensures
            *r == old(self).cache,
            *final(self) == (Btree { cache: *final(r), ..*old(self) }),
    {
        &mut self.cache
    }

    pub fn cache(&self) -> (r: &NodeCache)
        ensures
            *r == self.cache,
    {
        &self.cache
    }

    pub fn root_and_cache(&self) -> (r: (&BtreeRoot, &NodeCache))
        ensures
            *r.0 == self.root,
            *r.1 == self.cache,
    {
        (&self.root, &self.cache)
    }

    /// Hands out the change of the root that the journal is to hear of, once.
    pub fn take_pending_root_journal(&mut self) -> (r: Option<PendingRootJournal>)
        ensures
            r == old(self).pending_root_journal,
            *final(self) == (Btree { pending_root_journal: None, ..*old(self) }),
    {
        let r: Option<PendingRootJournal> = self.pending_root_journal;
        self.pending_root_journal = None;
        r
    }

    /// Address and level of the root on disk.
    pub fn current_root_disk_info(&self) -> (r: Option<(u64, u8)>)
        ensures
            r == self.current_root_disk,
    {
        self.current_root_disk
    }

    /// Makes `node` the root; the depth is its level.
    pub fn set_root_internal(&mut self, node: BtreeNode)
        ensures
            *final(self) == (Btree {
                root: BtreeRoot { node, depth: node.level },
                ..*old(self)
            }),
    {
        let depth: u8 = node.level;
        self.root = BtreeRoot { node, depth };
    }

    /// Makes a node that was read from `root_addr` the root, on the level that the caller knows of
    /// or else its own. There is nothing at address zero.
    pub fn bch2_btree_root_read(&mut self, root_addr: u64, level: Option<u8>, node: BtreeNode)
        ensures
            root_addr == 0 ==> *final(self) == *old(self),
            root_addr != 0 ==> {
                let depth = match level {
                    Some(l) => l,
                    None => node.level,
                };
                &&& final(self).root.depth == depth
                &&& final(self).root.node == (BtreeNode { level: depth, ..node })
                &&& final(self).pending_root_journal == Some(
                    PendingRootJournal { root_addr, level: depth },
                )
                &&& final(self).current_root_disk == Some((root_addr, depth))
                &&& final(self).cache == old(self).cache
                &&& final(self).root_modified == old(self).root_modified
                &&& final(self).same_front(*old(self))
            },
    {
        if root_addr == 0 {
            return;
        }
        let mut node: BtreeNode = node;
        if let Some(l) = level {
            node.level = l;
        }
        self.bch2_btree_set_root_inmem(node, root_addr);
    }

    /// Reclaims the words of dead keys in a tree of one leaf.
    pub fn compact(&mut self)
        requires
            old(self).wf(),
        ensures
            final(self).wf(),
            final(self).same_content(*old(self)),
            final(self).root.depth == old(self).root.depth,
            old(self).root.depth > 0 ==> *final(self) == *old(self),
            old(self).root.depth == 0 ==> final(self).root.node.dead_u64s == 0,
            old(self).root.depth == 0 ==> final(self).root.node.keys() == old(self).root.node.keys(),
            final(self).root.node.same_frame(old(self).root.node),
            final(self).root.node.live_u64s == old(self).root.node.live_u64s,
            final(self).root.node.min_key == old(self).root.node.min_key,
            final(self).root.node.max_key == old(self).root.node.max_key,
            final(self).cache == old(self).cache,
            final(self).root_modified == old(self).root_modified,
            final(self).same_front(*old(self)),
            final(self).same_notes(*old(self)),
    {
        let ghost before = *self;
        if self.root.depth == 0 {
            self.root.node.compact();
            proof {
                crate::insert::lemma_same_keys(
                    self.cache@,
                    before.root.node,
                    self.root.node,
                    0,
                    0,
                    top(),
                );
            }
        }
        proof {
            (*self).lemma_same_content(before);
        }
    }

    /// How much of a node is written.
    pub fn node_progress(node: &BtreeNode) -> (r: (u16, u16, u16))
        requires
            node.wf(),
        ensures
            r == progress_of(*node),
    {
        let sectors: u32 = node.node_size / 512;
        let left: u32 = (node.node_size - node.total_data_bytes() + 7) / 8;
        let sectors: u16 = if sectors < 0xFFFF {
            sectors as u16
        } else {
            0xFFFF
        };
        let left: u16 = if left < 0xFFFF {
            left as u16
        } else {
            0xFFFF
        };
        (node.written, sectors, left)
    }

    /// All entries of the nodes, in order.
    pub fn for_each_btree_key_entry(&self) -> (r: Vec<KeyEntry>)
        requires
            self.shape_ok(),
        ensures
            keys(r@) == self.contents(),
    {
        let mut path: Vec<PathLevel> = self.path_to(&Bpos::lowest());
        let mut out: Vec<KeyEntry> = Vec::new();
        proof {
            lemma_ord(Bpos::lowest(), Bpos::lowest());
            self.lemma_path(path@, 0, 0);
            assert(keys(out@) =~= Seq::<EntryView>::empty());
            reveal(find);
        }
        loop
            invariant
                self.shape_ok(),
                self.path_ok(path@),
                0 <= self.path_lo(path@, 0) < self.path_hi(path@, 0) <= top(),
                sorted(keys(out@)),
                in_range(keys(out@), 0, self.path_lo(path@, 0)),
                forall|x: int|
                    0 <= x < self.path_lo(path@, 0) ==> #[trigger] find(keys(out@), x)
                        == self.tree_get(x),
            decreases top() - self.path_lo(path@, 0),
        {
            let ghost lo = self.path_lo(path@, 0);
            let ghost hi = self.path_hi(path@, 0);
            let ghost done = keys(out@);
            proof {
                self.lemma_path(path@, 0, 0);
            }
            let leaf: &BtreeNode = self.node_on(&path, 0);
            let ghost s = leaf.keys();
            let mut copy: Vec<KeyEntry> = leaf.duplicate().entries;
            assert(keys(copy@) == s);
            out.append(&mut copy);
            proof {
                let all = keys(out@);
                assert(all =~= done + s);
                lemma_joined_lists(done, s, lo, hi);
                assert forall|x: int| 0 <= x < hi implies #[trigger] find(all, x)
                    == self.tree_get(x) by {
                    if x < lo {
                        assert(find(done, x) == self.tree_get(x));
                    } else {
                        assert(self.tree_get(x) == get(self.cache@, *leaf, 0, x));
                    }
                }
            }
            if !self.next_leaf(&mut path) {
                proof {
                    self.lemma_contents_is(keys(out@));
                }
                return out;
            }
            proof {
                self.lemma_path(path@, 0, 0);
            }
        }
    }

    /// Keys and values of all entries of the nodes, in order.
    pub fn for_each_btree_key(&self) -> (r: Vec<(BtreeKey, BchVal)>)
        requires
            self.shape_ok(),
        ensures
            r@.len() == self.contents().len(),
            forall|i: int|
                0 <= i < r@.len() ==> (#[trigger] r@[i]).0 == self.contents()[i].key() && r@[i].1
                    == self.contents()[i].bch_val(),
    {
        let all: Vec<KeyEntry> = self.for_each_btree_key_entry();
        let mut out: Vec<(BtreeKey, BchVal)> = Vec::new();
        let mut i: usize = 0;
        while i < all.len()
            invariant
                keys(all@) == self.contents(),
                i <= all.len(),
                out@.len() == i,
                forall|j: int|
                    0 <= j < i ==> (#[trigger] out@[j]).0 == self.contents()[j].key() && out@[j].1
                        == self.contents()[j].bch_val(),
            decreases all.len() - i,
        {
            assert(keys(all@)[i as int] == all@[i as int]@);
            out.push(all[i].to_key_value());
            i += 1;
        }
        out
    }

    /// The nodes that await a write, the lowest levels first, with the root leaf last where it was
    /// changed. Nothing awaits a write after that.
    pub fn bch2_btree_flush_all(&mut self) -> (r: Vec<(u64, BtreeNode)>)
        ensures
            final(self).root == old(self).root,
            final(self).cache@ == old(self).cache@,
            final(self).same_front(*old(self)),
            final(self).cache.dirty_addrs() == Seq::<u64>::empty(),
            final(self).cache.next() == old(self).cache.next(),
            final(self).same_notes(*old(self)),
            !final(self).root_modified,
            ({
                let m = old(self).cache@;
                let n = r@.len() - if old(self).root_modified {
                    1int
                } else {
                    0
                };
                &&& old(self).root_modified ==> r@.len() > 0 && r@.last().0 == ROOT_CACHE_ADDR
                    && r@.last().1.copy_of(old(self).root.node)
                &&& forall|i: int|
                    0 <= i < n ==> {
                        &&& old(self).cache.dirty_addrs().contains((#[trigger] r@[i]).0)
                        &&& m.contains_key(r@[i].0)
                        &&& r@[i].1.copy_of(m[r@[i].0])
                    }
                &&& forall|i: int, j: int|
                    0 <= i < j < n ==> (#[trigger] r@[i]).0 != (#[trigger] r@[j]).0
                &&& forall|i: int, j: int|
                    0 <= i < j < n ==> (#[trigger] r@[i]).1.level <= (#[trigger] r@[j]).1.level
                &&& forall|a: u64| #[trigger]
                    old(self).cache.dirty_addrs().contains(a) && m.contains_key(a)
                        ==> exists|i: int| 0 <= i < n && (#[trigger] r@[i]).0 == a
            }),
    {
        let ghost m = self.cache@;
        let dirty: Vec<u64> = self.cache.take_dirty();
        let mut out: Vec<(u64, BtreeNode)> = Vec::new();
        let mut level: u16 = 0;
        while level < 256
            invariant
                level <= 256,
                self.cache@ == m,
                m == old(self).cache@,
                dirty@ == old(self).cache.dirty_addrs(),
                self.cache.dirty_addrs() == Seq::<u64>::empty(),
                self.root == old(self).root,
                self.same_front(*old(self)),
                self.root_modified == old(self).root_modified,
                forall|i: int|
                    0 <= i < out@.len() ==> {
                        &&& dirty@.contains((#[trigger] out@[i]).0)
                        &&& m.contains_key(out@[i].0)
                        &&& out@[i].1.copy_of(m[out@[i].0])
                        &&& out@[i].1.level < level
                    },
                forall|i: int, j: int|
                    0 <= i < j < out@.len() ==> (#[trigger] out@[i]).1.level <= (
                    #[trigger] out@[j]).1.level && out@[i].0 != out@[j].0,
                forall|a: u64| #[trigger]
                    dirty@.contains(a) && m.contains_key(a) && m[a].level < level ==> exists|
                        i: int,
                    |
                        0 <= i < out@.len() && (#[trigger] out@[i]).0 == a,
            decreases 256 - level,
        {
            let mut d: usize = 0;
            while d < dirty.len()
                invariant
                    level < 256,
                    d <= dirty.len(),
                    self.cache@ == m,
                    m == old(self).cache@,
                    dirty@ == old(self).cache.dirty_addrs(),
                    self.cache.dirty_addrs() == Seq::<u64>::empty(),
                    self.root == old(self).root,
                    self.same_front(*old(self)),
                    self.root_modified == old(self).root_modified,
                    forall|i: int|
                        0 <= i < out@.len() ==> {
                            &&& dirty@.contains((#[trigger] out@[i]).0)
                            &&& m.contains_key(out@[i].0)
                            &&& out@[i].1.copy_of(m[out@[i].0])
                            &&& out@[i].1.level <= level
                        },
                    forall|i: int, j: int|
                        0 <= i < j < out@.len() ==> (#[trigger] out@[i]).1.level <= (
                        #[trigger] out@[j]).1.level && out@[i].0 != out@[j].0,
                    forall|i: int|
                        0 <= i < out@.len() && (#[trigger] out@[i]).1.level == level ==> in_head(
                            dirty@,
                            d as int,
                            out@[i].0,
                        ),
                    forall|a: u64| #[trigger]
                        dirty@.contains(a) && m.contains_key(a) && m[a].level < level ==> exists|
                            i: int,
                        |
                            0 <= i < out@.len() && (#[trigger] out@[i]).0 == a,
                    forall|e: int|
                        0 <= e < d && m.contains_key(#[trigger] dirty@[e]) && m[dirty@[e]].level
                            <= level ==> exists|i: int|
                            0 <= i < out@.len() && (#[trigger] out@[i]).0 == dirty@[e],
                decreases dirty.len() - d,
            {
                let addr: u64 = dirty[d];
                let ghost before = out@;
                if let Some(n) = self.cache.get(addr) {
                    if n.level as u16 == level && !noted_before(&dirty, d) {
                        let copy: BtreeNode = n.duplicate();
                        out.push((addr, copy));
                        proof {
                            assert(dirty@.contains(addr));
                            assert(out@[out@.len() - 1].0 == addr);
                            assert forall|a: u64| #[trigger]
                                dirty@.contains(a) && m.contains_key(a) && m[a].level
                                    < level implies exists|i: int|
                                0 <= i < out@.len() && (#[trigger] out@[i]).0 == a by {
                                let i = choose|i: int|
                                    0 <= i < before.len() && (#[trigger] before[i]).0 == a;
                                assert(out@[i] == before[i]);
                            }
                            assert forall|e: int|
                                0 <= e < d && m.contains_key(#[trigger] dirty@[e])
                                    && m[dirty@[e]].level <= level implies exists|i: int|
                                0 <= i < out@.len() && (#[trigger] out@[i]).0 == dirty@[e] by {
                                let i = choose|i: int|
                                    0 <= i < before.len() && (#[trigger] before[i]).0
                                        == dirty@[e];
                                assert(out@[i] == before[i]);
                            }
                        }
                    } else if (n.level as u16) < level {
                        assert(dirty@.contains(dirty@[d as int]));
                    }
                }
                proof {
                    assert forall|a: u64| #[trigger] in_head(dirty@, d as int, a) implies in_head(
                        dirty@,
                        d + 1,
                        a,
                    ) by {}
                    assert(in_head(dirty@, d + 1, addr)) by {
                        assert(dirty@[d as int] == addr);
                    }
                }
                d += 1;
            }
            proof {
                assert forall|a: u64| #[trigger]
                    dirty@.contains(a) && m.contains_key(a) && m[a].level < level + 1 implies exists|
                    i: int,
                |
                    0 <= i < out@.len() && (#[trigger] out@[i]).0 == a by {
                    let e = choose|e: int| 0 <= e < dirty@.len() && dirty@[e] == a;
                    assert(m.contains_key(dirty@[e]));
                }
            }
            level += 1;
        }
        let ghost plain = out@;
        if self.root_modified {
            self.root_modified = false;
            let copy: BtreeNode = self.root.node.duplicate();
            out.push((ROOT_CACHE_ADDR, copy));
        }
        proof {
            assert(forall|i: int| 0 <= i < plain.len() ==> #[trigger] out@[i] == plain[i]);
            assert forall|a: u64| #[trigger]
                old(self).cache.dirty_addrs().contains(a) && m.contains_key(a) implies exists|
                i: int,
            |
                0 <= i < plain.len() && (#[trigger] out@[i]).0 == a by {
                let i = choose|i: int| 0 <= i < plain.len() && (#[trigger] plain[i]).0 == a;
                assert(out@[i] == plain[i]);
            }
        }
        out
    }
}

/// Two lists of neighbouring ranges, one after the other.
proof fn lemma_joined_lists(a: Seq<EntryView>, b: Seq<EntryView>, lo: int, hi: int)
    requires
        sorted(a),
        sorted(b),
        in_range(a, 0, lo),
        in_range(b, lo, hi),
        0 <= lo < hi,
    ensures
        sorted(a + b),
        in_range(a + b, 0, hi),
        forall|x: int| 0 <= x < lo ==> #[trigger] find(a + b, x) == find(a, x),
        forall|x: int| lo <= x < hi ==> #[trigger] find(a + b, x) == find(b, x),
{
    let t = a + b;
    let n = a.len() as int;
    assert(forall|i: int| 0 <= i < t.len() ==> #[trigger] t[i] == if i < n {
        a[i]
    } else {
        b[i - n]
    });
    assert forall|i: int, j: int| 0 <= i < j < t.len() implies (#[trigger] t[i]).pos.ord() < (
    #[trigger] t[j]).pos.ord() by {
        if j < n {
            assert(a[i].pos.ord() < a[j].pos.ord());
        } else if i >= n {
            assert(b[i - n].pos.ord() < b[j - n].pos.ord());
        } else {
            assert(a[i].pos.ord() < lo <= b[j - n].pos.ord());
        }
    }
    assert forall|x: int| 0 <= x < lo implies #[trigger] find(t, x) == find(a, x) by {
        lemma_find_concat(a, b, x);
        if find(b, x) is Some {
            let i = lemma_find_some(b, x);
        }
    }
    assert forall|x: int| lo <= x < hi implies #[trigger] find(t, x) == find(b, x) by {
        lemma_find_concat(a, b, x);
        if find(a, x) is Some {
            let i = lemma_find_some(a, x);
        }
    }
}

/// A listing is in strictly ascending order, without anything twice.
pub proof fn law_listing_sorted(t: Btree)
    requires
        t.shape_ok(),
    ensures
        sorted(t.contents()),
{
    t.lemma_contents();
}

/// A listing holds exactly what lookups find in the nodes.
pub proof fn law_listing_complete(t: Btree, pos: Bpos)
    requires
        t.shape_ok(),
    ensures
        find(t.contents(), pos.ord()) == t.tree_get(pos.ord()),
{
    t.lemma_contents();
    lemma_ord(pos, pos);
}

/// How far a node is: its size in sectors of 512 bytes and its free room in words of 8 bytes, where
/// a word that is begun counts, and where no number goes beyond what 16 bits hold.
pub proof fn law_progress(node: BtreeNode)
    requires
        8 * node.total() <= node.node_size,
    ensures
        ({
            let p = progress_of(node);
            let free = node.node_size - 8 * node.total();
            &&& p.0 == node.written
            &&& 512 * p.1 <= node.node_size
            &&& p.1 < 0xFFFF ==> node.node_size < 512 * (p.1 + 1)
            &&& p.2 < 0xFFFF ==> free <= 8 * p.2
            &&& 8 * (p.2 - 1) < free || free == 0
        }),
{
}

} // verus!
