//! A volume: one tree for each kind of metadata.

use crate::btree_id::{BtreeId, NR_BTREE_IDS};
use crate::entries::{find, lemma_find_at, lemma_find_holds, sorted, widths};
use crate::key::{lemma_ord, BchVal, Bpos, BtreeKey, EntryView, KeyEntry, KeyType, BKEY_U64S_MAX};
use crate::shape::top;
use crate::topology::law_empty_tree_topology;
use crate::tree::{Btree, BtreeRoot};
use crate::writer::{
    fails_with, new_written, on_disk, takes_room, writes_kept, BtreeNodeWriter, StorageError,
};
use vstd::prelude::*;

verus! {

/// Where the lower sibling estimate of a node of the usual size is within this, merging pays.
pub const DEFAULT_MERGE_THRESHOLD: u16 = 10922;

/// Counters of a kind of data on a device: buckets, sectors in use, sectors lost to fragments.
#[derive(Debug, Clone, Copy, PartialEq, Eq, Structural)]
pub struct DevCounters {
    pub dev: u8,
    pub data_type: u8,
    pub buckets: i64,
    pub sectors: i64,
    pub fragmented: i64,
}

/// A volume.
#[derive(Debug)]
pub struct BchVol {
    /// The trees, in the order of their numbers.
    pub btrees: Vec<Btree>,
    pub btree_foreground_merge_threshold: u16,
    /// The superblock says that no pointer is stale.
    pub no_stale_ptrs: bool,
    pub counters: Vec<DevCounters>,
}

/// An operation on a batch of entries.
#[derive(Debug)]
pub enum BatchEntry {
    Insert { pos: Bpos, data: Vec<u8> },
    Delete { pos: Bpos },
}

/// A tombstone stands for nothing.
pub open spec fn settled(e: Option<EntryView>) -> Option<EntryView> {
    match e {
        Some(x) => if x.key_type == KeyType::Deleted {
            None
        } else {
            Some(x)
        },
        None => None,
    }
}

impl Btree {
    /// The root leaf has room for the entries that have not reached the tree, and `more` words.
    pub open spec fn room_for_dirty(self, more: int) -> bool {
        &&& more >= 0
        &&& self.root.depth == 0
        &&& !self.root.node.flags.write_blocked
        &&& crate::entries::packable(self.key_cache.dirty_keys())
        &&& self.root.node.live_u64s + widths(self.key_cache.dirty_keys()) + more
            <= self.root.node.cap()
    }

    /// Moves the entries in front of a tree of one leaf into it, as far as there is room. What is
    /// found stays the same.
    pub fn flush_key_cache(&mut self)
        requires
            old(self).wf(),
        ensures
            final(self).wf(),
            final(self).btype == old(self).btype,
            final(self).root.depth == old(self).root.depth,
            final(self).cache == old(self).cache,
            old(self).coherent() ==> final(self).coherent(),
            forall|x: int|
                0 <= x < top() ==> settled(#[trigger] final(self).lookup(x)) == settled(
                    old(self).lookup(x),
                ),
            forall|more: int| #[trigger]
                old(self).room_for_dirty(more) ==> final(self).room_for_dirty(more)
                    && final(self).key_cache.dirty_keys().len() == 0,
            final(self).merge_threshold == old(self).merge_threshold,
            final(self).root_modified == old(self).root_modified,
            final(self).same_notes(*old(self)),
            final(self).root.node.node_size == old(self).root.node.node_size,
            final(self).root.node.flags.write_blocked == old(self).root.node.flags.write_blocked,
            ({
                let s = old(self).key_cache.dirty_keys();
                let t = final(self).key_cache.dirty_keys();
                let n = final(self).root.node;
                &&& t.len() <= s.len()
                &&& t == s.subrange(s.len() - t.len(), s.len() as int)
                &&& t.len() > 0 ==> final(self).root.depth > 0 || n.flags.write_blocked
                    || t[0].u64s() > BKEY_U64S_MAX || n.live_u64s + t[0].u64s() > n.cap()
            }),
    {
        let ghost before = *self;
        assert(before.key_cache.dirty_keys() =~= before.key_cache.dirty_keys().subrange(
            0,
            before.key_cache.dirty_keys().len() as int,
        ));
        loop
            invariant
                self.wf(),
                before.wf(),
                *old(self) == before,
                self.btype == before.btype,
                self.root.depth == before.root.depth,
                self.cache == before.cache,
                before.coherent() ==> self.coherent(),
                forall|x: int|
                    0 <= x < top() ==> settled(#[trigger] self.lookup(x)) == settled(
                        before.lookup(x),
                    ),
                forall|more: int| #[trigger]
                    before.room_for_dirty(more) ==> self.room_for_dirty(more),
                self.merge_threshold == before.merge_threshold,
                self.root_modified == before.root_modified,
                self.same_notes(before),
                self.root.node.node_size == before.root.node.node_size,
                self.root.node.flags.write_blocked == before.root.node.flags.write_blocked,
                self.key_cache.dirty_keys().len() <= before.key_cache.dirty_keys().len(),
                self.key_cache.dirty_keys() == before.key_cache.dirty_keys().subrange(
                    before.key_cache.dirty_keys().len() - self.key_cache.dirty_keys().len(),
                    before.key_cache.dirty_keys().len() as int,
                ),
            decreases self.key_cache.dirty_keys().len(),
        {
            let ghost mid = *self;
            let ghost s = self.key_cache.dirty_keys();
            let e: KeyEntry = match self.key_cache.first_dirty() {
                None => {
                    return;
                },
                Some(e) => e,
            };
            let ghost ev = e@;
            let ghost k = e.pos.ord();
            proof {
                lemma_ord(e.pos, e.pos);
                lemma_find_at(s, 0);
                lemma_find_holds(s, k);
                crate::entries::lemma_widths_remove(s, 0);
                assert(mid.lookup(k) == Some(ev));
            }
            let done: bool = self.bch2_btree_bset_insert_key_wrapper(e, 0);
            if !done {
                proof {
                    assert forall|more: int| #[trigger] before.room_for_dirty(more) implies false by {
                        assert(mid.room_for_dirty(more));
                        assert(widths(s) >= ev.u64s() + widths(s.remove(0)));
                        assert(s[0].u64s() <= BKEY_U64S_MAX);
                    }
                    assert forall|x: int| 0 <= x < top() implies settled(
                        #[trigger] self.lookup(x),
                    ) == settled(before.lookup(x)) by {
                        assert(self.lookup(x) == mid.lookup(x));
                    }
                }
                return;
            }
            proof {
                let t = self.key_cache.dirty_keys();
                lemma_rest_is(s, t);
                assert(t =~= before.key_cache.dirty_keys().subrange(
                    before.key_cache.dirty_keys().len() - t.len(),
                    before.key_cache.dirty_keys().len() as int,
                ));
                assert forall|more: int| #[trigger] before.room_for_dirty(more) implies self.room_for_dirty(
                more) by {
                    assert(mid.room_for_dirty(more));
                    assert(t =~= s.remove(0));
                    assert forall|i: int| 0 <= i < t.len() implies (#[trigger] t[i]).u64s()
                        <= BKEY_U64S_MAX by {
                        assert(t[i] == s[i + 1]);
                    }
                }
                assert forall|x: int| 0 <= x < top() implies settled(#[trigger] self.lookup(x))
                    == settled(before.lookup(x)) by {
                    assert(settled(mid.lookup(x)) == settled(before.lookup(x)));
                }
            }
        }
    }
}

/// Without its first entry, a sorted list is what is left of it.
proof fn lemma_rest_is(s: Seq<EntryView>, t: Seq<EntryView>)
    requires
        sorted(s),
        sorted(t),
        s.len() > 0,
        forall|x: int| #[trigger]
            find(t, x) == if x == s[0].pos.ord() {
                None
            } else {
                find(s, x)
            },
    ensures
        t == s.remove(0),
{
    let r = s.remove(0);
    assert(forall|i: int| 0 <= i < r.len() ==> #[trigger] r[i] == s[i + 1]);
    assert(sorted(r)) by {
        assert forall|i: int, j: int| 0 <= i < j < r.len() implies (#[trigger] r[i]).pos.ord() < (
        #[trigger] r[j]).pos.ord() by {
            assert(s[i + 1].pos.ord() < s[j + 1].pos.ord());
        }
    }
    crate::entries::lemma_remove_at(s, 0);
    assert forall|x: int| #[trigger] find(r, x) == find(t, x) by {
        lemma_find_at(s, 0);
    }
    crate::contents::lemma_same_lists(r, t);
}

impl BchVol {
    pub open spec fn wf(self) -> bool {
        &&& self.btrees@.len() == NR_BTREE_IDS
        &&& forall|i: int| 0 <= i < NR_BTREE_IDS ==> (#[trigger] self.btrees@[i]).wf()
        &&& forall|i: int|
            0 <= i < NR_BTREE_IDS ==> (#[trigger] self.btrees@[i]).btype.num() == i
    }

    /// The tree of a kind.
    pub open spec fn tree(self, ty: BtreeId) -> Btree {
        self.btrees@[ty.num() as int]
    }

    /// Nothing but the tree of one kind has changed.
    pub open spec fn other_trees_same(self, o: BchVol, ty: BtreeId) -> bool {
        &&& self.btrees@ == o.btrees@.update(ty.num() as int, self.tree(ty))
        &&& self.btree_foreground_merge_threshold == o.btree_foreground_merge_threshold
        &&& self.no_stale_ptrs == o.no_stale_ptrs
        &&& self.counters == o.counters
    }

    /// A volume whose trees are all empty.
    pub fn new() -> (r: BchVol)
        ensures
            r.wf(),
            r.btree_foreground_merge_threshold == DEFAULT_MERGE_THRESHOLD,
            r.no_stale_ptrs,
            r.counters@ == Seq::<DevCounters>::empty(),
            forall|ty: BtreeId, x: int| (#[trigger] r.tree(ty).lookup(x)) is None,
            forall|ty: BtreeId| (#[trigger] r.tree(ty)).coherent() && r.tree(ty).root.depth == 0,
            r.topology_ok(),
    {
        let mut btrees: Vec<Btree> = Vec::new();
        let mut i: u8 = 0;
        while i < NR_BTREE_IDS
            invariant
                i <= NR_BTREE_IDS,
                btrees@.len() == i,
                forall|j: int|
                    0 <= j < i ==> {
                        &&& (#[trigger] btrees@[j]).wf()
                        &&& btrees@[j].btype.num() == j
                        &&& btrees@[j].coherent()
                        &&& btrees@[j].root.depth == 0
                        &&& btrees@[j].topology_ok()
                    },
                forall|j: int, x: int|
                    0 <= j < i ==> (#[trigger] btrees@[j].lookup(x)) is None,
            decreases NR_BTREE_IDS - i,
        {
            if let Some(id) = BtreeId::from_u8(i) {
                let t: Btree = Btree::new_with_type(id);
                proof {
                    law_empty_tree_topology(t);
                }
                btrees.push(t);
            } else {
                assert(false);
            }
            i += 1;
        }
        BchVol {
            btrees,
            btree_foreground_merge_threshold: DEFAULT_MERGE_THRESHOLD,
            no_stale_ptrs: true,
            counters: Vec::new(),
        }
    }

    pub fn btree(&self, ty: BtreeId) -> (r: &Btree)
        requires
            self.btrees@.len() == NR_BTREE_IDS,
        ensures
            *r == self.tree(ty),
    {
        &self.btrees[ty.to_u8() as usize]
    }

    /// The tree of a kind, to change it.
    pub fn btree_mut(&mut self, ty: BtreeId) -> (r: &mut Btree)
        requires
            old(self).btrees@.len() == NR_BTREE_IDS,
        ensures
            *r == old(self).tree(ty),
            *final(self) == (BchVol {
                btrees: final(self).btrees,
                ..*old(self)
            }),
            final(self).btrees@ == old(self).btrees@.update(ty.num() as int, *final(r)),
    {
        let i: usize = ty.to_u8() as usize;
        &mut self.btrees[i]
    }

    /// Adds an entry to a tree of one leaf, after the entries that stand in front of it; a
    /// tombstone takes away what is at its position.
    pub fn insert_entry_raw(&mut self, ty: BtreeId, entry: KeyEntry, journal_seq: u64) -> (r: bool)
        requires
            old(self).wf(),
        ensures
            final(self).wf(),
            final(self).other_trees_same(*old(self), ty),
            old(self).tree(ty).coherent() ==> final(self).tree(ty).coherent(),
            r ==> settled(final(self).tree(ty).lookup(entry.pos.ord())) == settled(Some(entry@)),
            forall|x: int|
                0 <= x < top() && (!r || x != entry.pos.ord()) ==> settled(
                    #[trigger] final(self).tree(ty).lookup(x),
                ) == settled(old(self).tree(ty).lookup(x)),
            ({
                let o = old(self).tree(ty);
                let n = final(self).tree(ty);
                let able = o.root.depth == 0 && !o.root.node.flags.write_blocked && entry@.u64s()
                    <= BKEY_U64S_MAX;
                &&& r ==> able
                &&& r ==> n.root.node.journal_seq == journal_seq
                &&& r ==> n.tree_get(entry.pos.ord()) == settled(Some(entry@))
                &&& r ==> n.key_cache.cached(entry.pos.ord()) is None
                &&& able && !r ==> n.root.node.live_u64s + entry@.u64s() > n.root.node.cap()
                &&& n.root.depth == o.root.depth
                &&& n.cache == o.cache
                &&& n.root_modified == o.root_modified
                &&& n.merge_threshold == o.merge_threshold
                &&& n.same_notes(o)
            }),
            entry@.u64s() <= BKEY_U64S_MAX && old(self).tree(ty).room_for_dirty(
                entry@.u64s() as int,
            ) ==> r && final(self).tree(ty).key_cache.dirty_keys().len() == 0,
    {
        let ghost old_vol = *self;
        proof {
            lemma_ord(entry.pos, entry.pos);
        }
        let t: &mut Btree = self.btree_mut(ty);
        let ghost t0 = *t;
        t.flush_key_cache();
        let ghost t1 = *t;
        let ghost w = entry@.u64s() as int;
        let r: bool = t.bch2_btree_bset_insert_key_wrapper(entry, journal_seq);
        let ghost t2 = *t;
        proof {
            if entry@.u64s() <= BKEY_U64S_MAX && t0.room_for_dirty(w) {
                assert(t1.room_for_dirty(w));
                assert(widths(t1.key_cache.dirty_keys()) >= 0);
            }
            assert forall|x: int| 0 <= x < top() && (!r || x != entry.pos.ord()) implies settled(
                #[trigger] t2.lookup(x),
            ) == settled(t0.lookup(x)) by {
                assert(settled(t1.lookup(x)) == settled(t0.lookup(x)));
            }
        }
        r
    }

    /// The key and value under a key.
    pub fn get_entry(&mut self, ty: BtreeId, key: &BtreeKey) -> (r: Option<(BtreeKey, BchVal)>)
        requires
            old(self).wf(),
        ensures
            final(self).wf(),
            final(self).other_trees_same(*old(self), ty),
            final(self).tree(ty).only_cached(old(self).tree(ty)),
            r == (match old(self).tree(ty).entry_for(*key) {
                Some(e) => Some((e.key(), e.bch_val())),
                None => None,
            }),
    {
        let t: &mut Btree = self.btree_mut(ty);
        t.bch2_btree_iter_peek(key)
    }

    /// The entry at a position.
    pub fn get_entry_raw(&mut self, ty: BtreeId, pos: Bpos) -> (r: Option<KeyEntry>)
        requires
            old(self).wf(),
        ensures
            final(self).wf(),
            final(self).other_trees_same(*old(self), ty),
            final(self).tree(ty).only_cached(old(self).tree(ty)),
            match r {
                Some(e) => old(self).tree(ty).entry_at(pos.ord()) == Some(e@),
                None => old(self).tree(ty).entry_at(pos.ord()) is None,
            },
    {
        let t: &mut Btree = self.btree_mut(ty);
        t.bch2_btree_iter_peek_entry(pos)
    }
}

/// Marks a position of a tree of one leaf as present, or takes the mark away.
pub fn bch2_btree_bit_mod(vol: &mut BchVol, btree: BtreeId, pos: Bpos, set: bool) -> (r: bool)
    requires
        old(vol).wf(),
    ensures
        final(vol).wf(),
        final(vol).other_trees_same(*old(vol), btree),
        ({
            let t = old(vol).tree(btree);
            let n = final(vol).tree(btree);
            let mark = EntryView {
                pos,
                key_type: KeyType::Present,
                value: crate::key::ValueView::Raw(Seq::empty()),
            };
            &&& r == (t.root.depth == 0 && !t.root.node.flags.write_blocked
                && t.root.node.live_u64s + 3 <= t.root.node.cap())
            &&& r ==> n.only_changed(
                t,
                pos.ord(),
                if set {
                    Some(mark)
                } else {
                    None
                },
            )
            &&& !r ==> n.same_content(t)
            &&& t.root.depth > 0 || t.root.node.flags.write_blocked ==> *final(vol) == *old(vol)
        }),
{
    let root: &BtreeRoot = &vol.btree(btree).root;
    if root.depth > 0 || root.node.flags.write_blocked {
        proof {
            let t = vol.tree(btree);
            t.lemma_same_content(t);
            assert(vol.btrees@.update(btree.num() as int, t) =~= vol.btrees@);
        }
        return false;
    }
    let key_type: KeyType = if set {
        KeyType::Present
    } else {
        KeyType::Deleted
    };
    let entry: KeyEntry = KeyEntry::raw(pos, key_type, Vec::new());
    assert(entry@ == (EntryView {
        pos,
        key_type,
        value: crate::key::ValueView::Raw(Seq::empty()),
    }));
    let t: &mut Btree = vol.btree_mut(btree);
    t.bch2_btree_bset_insert_key_wrapper(entry, 0)
}

/// Splits each tree of one leaf whose keys belong to more than one shard; stops at the first
/// failure. Nothing is added or taken away.
pub fn bch2_presplit_shard_boundaries<W: BtreeNodeWriter>(vol: &mut BchVol, writer: &mut W) -> (r:
    Result<(), StorageError>)
    requires
        old(vol).wf(),
        forall|i: int|
            0 <= i < NR_BTREE_IDS ==> (#[trigger] old(vol).btrees@[i]).cache@.dom().subset_of(
                old(writer).in_use(),
            ),
    ensures
        fails_with(*old(writer), *final(writer), r),
        takes_room(*old(writer), *final(writer), r, 3 * NR_BTREE_IDS),
        writes_kept(*old(writer), *final(writer)),
        final(vol).wf(),
        *final(vol) == (BchVol { btrees: final(vol).btrees, ..*old(vol) }),
        forall|i: int|
            0 <= i < NR_BTREE_IDS ==> {
                &&& (#[trigger] final(vol).btrees@[i]).same_content(old(vol).btrees@[i])
                &&& final(vol).btrees@[i].cache@.dom().subset_of(final(writer).in_use())
                &&& new_written(
                    old(vol).btrees@[i].cache@,
                    final(vol).btrees@[i].cache@,
                    *final(writer),
                )
                &&& r is Ok ==> final(vol).btrees@[i].presplit_of(old(vol).btrees@[i])
            },
{
    let ghost v0 = *vol;
    let mut i: u8 = 0;
    proof {
        assert forall|j: int| 0 <= j < NR_BTREE_IDS implies (
        #[trigger] v0.btrees@[j]).same_content(v0.btrees@[j]) by {
            v0.btrees@[j].lemma_same_content(v0.btrees@[j]);
        }
    }
    while i < NR_BTREE_IDS
        invariant
            i <= NR_BTREE_IDS,
            v0 == *old(vol),
            writer.failure() == old(writer).failure(),
            old(writer).room() <= writer.room() + 3 * i,
            writes_kept(*old(writer), *writer),
            *vol == (BchVol { btrees: vol.btrees, ..v0 }),
            vol.wf(),
            v0.wf(),
            forall|j: int|
                0 <= j < NR_BTREE_IDS ==> {
                    &&& (#[trigger] vol.btrees@[j]).same_content(v0.btrees@[j])
                    &&& vol.btrees@[j].cache@.dom().subset_of(writer.in_use())
                    &&& new_written(v0.btrees@[j].cache@, vol.btrees@[j].cache@, *writer)
                    &&& j < i ==> vol.btrees@[j].presplit_of(v0.btrees@[j])
                    &&& j >= i ==> vol.btrees@[j] == v0.btrees@[j]
                },
        decreases NR_BTREE_IDS - i,
    {
        let ghost before = *vol;
        let ghost w0 = *writer;
        let t: &mut Btree = &mut vol.btrees[i as usize];
        let ghost t0 = *t;
        let res: Result<bool, StorageError> = t.presplit_shard_boundaries(writer);
        let ghost t1 = *t;
        proof {
            assert(vol.btrees@ == before.btrees@.update(i as int, t1));
            assert(t0 == v0.btrees@[i as int]);
            assert forall|j: int| 0 <= j < NR_BTREE_IDS implies {
                &&& (#[trigger] vol.btrees@[j]).same_content(v0.btrees@[j])
                &&& vol.btrees@[j].cache@.dom().subset_of(writer.in_use())
                &&& new_written(v0.btrees@[j].cache@, vol.btrees@[j].cache@, *writer)
                &&& vol.btrees@[j].wf()
                &&& vol.btrees@[j].btype.num() == j
            } by {
                if j != i {
                    let m = v0.btrees@[j].cache@;
                    let m2 = before.btrees@[j].cache@;
                    assert(vol.btrees@[j] == before.btrees@[j]);
                    assert forall|a: u64| #[trigger]
                        m2.contains_key(a) && !m.contains_key(a) implies on_disk(
                        *writer,
                        a,
                        m2[a],
                    ) by {
                        assert(on_disk(w0, a, m2[a]));
                        assert(w0.in_use().contains(a));
                    }
                }
            }
        }
        let split: bool = match res {
            Err(e) => {
                return Err(e);
            },
            Ok(b) => b,
        };
        proof {
            assert(res == Ok::<bool, StorageError>(split));
            assert(t1.presplit_of(t0));
            assert forall|j: int| 0 <= j < NR_BTREE_IDS && j != i implies #[trigger] vol.btrees@[j]
                == before.btrees@[j] by {}
        }
        i += 1;
    }
    Ok(())
}

/// What a lookup hands out: nothing for a deleted entry, and every other entry as it is.
pub proof fn law_deleted_is_nothing(e: EntryView)
    ensures
        settled(None) is None,
        e.key_type == KeyType::Deleted ==> settled(Some(e)) is None,
        e.key_type != KeyType::Deleted ==> settled(Some(e)) == Some(e),
{
}

/// Nodes are merged up to a third of the words of a new node, where a volume does not say otherwise.
pub proof fn law_default_merge_threshold()
    ensures
        24 * DEFAULT_MERGE_THRESHOLD <= crate::node::DEFAULT_NODE_SIZE < 24 * (
        DEFAULT_MERGE_THRESHOLD + 1),
{
}

} // verus!
