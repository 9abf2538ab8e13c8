//! What is done to the cache of nodes: nodes come into it, become dirty, are handed over to be
//! written, and leave it.

use crate::cache::{
    distinct, find, holds_id, lemma_place, lemma_pushed, lemma_removed, lemma_updated, nodes_ok,
    place_of,
    with_entries, with_entry, without_id, BtreeCache, CacheEntry, CacheStats, CacheView, MAX_CLEAN,
    MAX_DIRTY,
};
use crate::node::BtreeNode;
use std::sync::Arc;
use vstd::prelude::*;

verus! {

impl CacheView {
    /// A node comes into the cache as a clean one. One that is dirty stays as it is, and one that
    /// is clean takes its place among those used last.
    pub open spec fn inserted(self, o: CacheView, id: u64, node: BtreeNode) -> bool {
        if holds_id(o.dirty, id) {
            self == o
        } else if holds_id(o.clean, id) {
            let i = place_of(o.clean, id);
            let e = o.clean[i];
            self == CacheView {
                clean: o.clean.remove(i).push(CacheEntry { node: Arc::new(node), ..e }),
                ..o
            }
        } else {
            exists|m: CacheView| #[trigger]
                m.roomy(o) && self == m.with_clean(id, node)
        }
    }

    /// A node that was loaded or made comes to the clean ones, as the last one used.
    pub open spec fn with_clean(self, id: u64, node: BtreeNode) -> CacheView {
        CacheView {
            clean: self.clean.push(
                CacheEntry { id, node: Arc::new(node), accessed: true, pin_count: 0 },
            ),
            ..self
        }.live_counted()
    }

    /// The entry of a node that becomes dirty.
    pub open spec fn dirty_entry(self, id: u64, node: BtreeNode) -> CacheEntry {
        if holds_id(self.clean, id) {
            CacheEntry { node: Arc::new(node), ..self.clean[place_of(self.clean, id)] }
        } else {
            CacheEntry { id, node: Arc::new(node), accessed: false, pin_count: 0 }
        }
    }

    /// A changed node comes into the cache.
    pub open spec fn dirtied(self, id: u64, node: BtreeNode) -> CacheView {
        if holds_id(self.dirty, id) {
            let i = place_of(self.dirty, id);
            CacheView {
                dirty: self.dirty.update(
                    i,
                    CacheEntry { node: Arc::new(node), ..self.dirty[i] },
                ),
                ..self
            }
        } else {
            CacheView {
                clean: without_id(self.clean, id),
                dirty: self.dirty.push(self.dirty_entry(id, node)),
                ..self
            }.counted().drained()
        }
    }

    /// A clean node becomes dirty.
    pub open spec fn marked_dirty(self, id: u64) -> CacheView {
        if holds_id(self.clean, id) {
            let e = self.clean[place_of(self.clean, id)];
            CacheView {
                clean: without_id(self.clean, id),
                dirty: self.dirty.push(e),
                ..self
            }.counted().drained()
        } else {
            self
        }
    }

    /// A node leaves the cache.
    pub open spec fn removed(self, id: u64) -> CacheView {
        if holds_id(self.clean, id) {
            CacheView { clean: without_id(self.clean, id), ..self }.freed_one()
        } else if holds_id(self.dirty, id) {
            CacheView { dirty: without_id(self.dirty, id), ..self }.freed_one()
        } else if holds_id(self.pending, id) {
            CacheView { pending: without_id(self.pending, id), ..self }.freed_one()
        } else {
            self
        }
    }

    /// One more node is counted as freed.
    pub open spec fn freed_one(self) -> CacheView {
        let c = self.counted();
        CacheView {
            stats: CacheStats { freed: c.stats.freed.wrapping_add(1), ..c.stats },
            ..c
        }
    }

    /// The node that `removed` takes out.
    pub open spec fn removable(self, id: u64) -> Option<BtreeNode> {
        if holds_id(self.clean, id) {
            Some(*self.clean[place_of(self.clean, id)].node)
        } else if holds_id(self.dirty, id) {
            Some(*self.dirty[place_of(self.dirty, id)].node)
        } else if holds_id(self.pending, id) {
            Some(*self.pending[place_of(self.pending, id)].node)
        } else {
            None
        }
    }
}

pub proof fn lemma_with_entry(s: Seq<CacheEntry>, e: CacheEntry)
    requires
        distinct(s),
        nodes_ok(s),
        e.node.wf(),
    ensures
        distinct(with_entry(s, e)),
        nodes_ok(with_entry(s, e)),
        with_entry(s, e).len() <= s.len() + 1,
        forall|x: u64| holds_id(with_entry(s, e), x) <==> holds_id(s, x) || x == e.id,
{
    if holds_id(s, e.id) {
        lemma_updated(s, place_of(s, e.id), e);
    } else {
        lemma_pushed(s, e);
    }
}

/// Exchanges the entry of a node, or adds it.
pub(crate) fn put_entry(s: &mut Vec<CacheEntry>, e: CacheEntry)
    requires
        distinct(old(s)@),
        nodes_ok(old(s)@),
        e.node.wf(),
    ensures
        final(s)@ == with_entry(old(s)@, e),
        distinct(final(s)@),
        nodes_ok(final(s)@),
{
    proof {
        lemma_with_entry(s@, e);
    }
    match find(s, e.id) {
        Some(i) => {
            s.set(i, e);
        },
        None => {
            s.push(e);
        },
    }
}

impl BtreeCache {
    /// Where there are too many dirty nodes, they are handed over to be written.
    fn drain_dirty(&mut self)
        requires
            distinct(old(self)@.clean) && nodes_ok(old(self)@.clean),
            distinct(old(self)@.dirty) && nodes_ok(old(self)@.dirty),
            distinct(old(self)@.pending) && nodes_ok(old(self)@.pending),
            old(self)@.clean.len() <= MAX_CLEAN,
            forall|i: int, j: int|
                0 <= i < old(self)@.clean.len() && 0 <= j < old(self)@.dirty.len() ==> (
                #[trigger] old(self)@.clean[i]).id != (#[trigger] old(self)@.dirty[j]).id,
            old(self)@.count() <= usize::MAX,
            old(self)@.sizes.len() == crate::evicted::EVICTED_SIZE_MIN_SLOTS,
        ensures
            final(self)@ == old(self)@.drained(),
            final(self)@.wf(),
    {
        if self.dirty.len() < MAX_DIRTY {
            return;
        }
        let ghost o = self@;
        let ghost mut k: int = 0;
        assert(o.dirty.subrange(0, 0) =~= Seq::<CacheEntry>::empty());
        assert(o.dirty.subrange(0, o.dirty.len() as int) =~= o.dirty);
        while self.dirty.len() > 0
            invariant
                0 <= k <= o.dirty.len(),
                nodes_ok(o.dirty),
                self.dirty@ == o.dirty.subrange(k, o.dirty.len() as int),
                self.pending_flush@ == with_entries(o.pending, o.dirty.subrange(0, k)),
                distinct(self.pending_flush@),
                nodes_ok(self.pending_flush@),
                self.pending_flush@.len() <= o.pending.len() + k,
                self@ == (CacheView { dirty: self@.dirty, pending: self@.pending, ..o }),
            decreases self.dirty.len(),
        {
            let e: CacheEntry = self.dirty.remove(0);
            proof {
                assert(e == o.dirty[k]);
                assert(o.dirty.subrange(0, k + 1).drop_last() =~= o.dirty.subrange(0, k));
                assert(o.dirty.subrange(0, k + 1).last() == e);
                lemma_with_entry(self.pending_flush@, e);
            }
            put_entry(&mut self.pending_flush, e);
            proof {
                k = k + 1;
                assert(self.dirty@ =~= o.dirty.subrange(k, o.dirty.len() as int));
            }
        }
        proof {
            assert(o.dirty.subrange(0, k) =~= o.dirty);
            assert(self.dirty@ =~= Seq::<CacheEntry>::empty());
        }
        self.nr_dirty = self.pending_flush.len();
        self.nr_live = self.clean.len() + self.pending_flush.len();
    }

    /// Makes a clean node dirty. Where there are then too many dirty nodes, all of them are handed
    /// over to be written; they stay in the cache until then.
    pub fn mark_dirty(&mut self, node_id: u64)
        requires
            old(self)@.wf(),
        ensures
            final(self)@ == old(self)@.marked_dirty(node_id),
            final(self)@.wf(),
    {
        match find(&self.clean, node_id) {
            Some(i) => {
                let ghost o = self@;
                proof {
                    lemma_removed(self.clean@, i as int);
                    lemma_pushed(self.dirty@, self.clean@[i as int]);
                    if holds_id(o.dirty, node_id) {
                        let j = place_of(o.dirty, node_id);
                        assert(o.clean[i as int].id != o.dirty[j].id);
                    }
                }
                let e: CacheEntry = self.clean.remove(i);
                self.dirty.push(e);
                self.nr_dirty = self.dirty.len() + self.pending_flush.len();
                self.nr_live = self.clean.len() + self.dirty.len() + self.pending_flush.len();
                proof {
                    lemma_disjoint(o.clean, o.dirty, i as int);
                }
                self.drain_dirty();
            },
            None => {},
        }
    }

    pub fn bch2_btree_node_set_dirty(&mut self, node_id: u64)
        requires
            old(self)@.wf(),
        ensures
            final(self)@ == old(self)@.marked_dirty(node_id),
            final(self)@.wf(),
    {
        self.mark_dirty(node_id);
    }

    /// Puts a changed node into the cache, in place of the version that it has of it.
    pub fn insert_dirty(&mut self, node_id: u64, node: Arc<BtreeNode>)
        requires
            old(self)@.wf(),
            old(self)@.count() < usize::MAX,
            node.wf(),
        ensures
            final(self)@ == old(self)@.dirtied(node_id, *node),
            final(self)@.wf(),
    {
        let ghost o = self@;
        match find(&self.dirty, node_id) {
            Some(i) => {
                proof {
                    lemma_updated(
                        self.dirty@,
                        i as int,
                        CacheEntry { node, ..self.dirty@[i as int] },
                    );
                }
                self.dirty[i].node = node;
                proof {
                    assert(self.dirty@ =~= o.dirty.update(
                        i as int,
                        CacheEntry { node, ..o.dirty[i as int] },
                    ));
                    assert(self@ =~= o.dirtied(node_id, *node));
                    assert forall|a: int, b: int|
                        0 <= a < self@.clean.len() && 0 <= b < self@.dirty.len() implies (
                    #[trigger] self@.clean[a]).id != (#[trigger] self@.dirty[b]).id by {
                        assert(o.clean[a].id != o.dirty[b].id);
                    }
                }
                return;
            },
            None => {},
        }
        let mut e = CacheEntry { id: node_id, node, accessed: false, pin_count: 0 };
        match find(&self.clean, node_id) {
            Some(i) => {
                proof {
                    lemma_removed(self.clean@, i as int);
                    lemma_disjoint(o.clean, o.dirty, i as int);
                }
                let was: CacheEntry = self.clean.remove(i);
                e.accessed = was.accessed;
                e.pin_count = was.pin_count;
            },
            None => {
                proof {
                    lemma_disjoint_push(o.clean, o.dirty, e);
                }
            },
        }
        proof {
            assert(e == o.dirty_entry(node_id, *node));
            lemma_pushed(self.dirty@, e);
        }
        self.dirty.push(e);
        self.nr_dirty = self.dirty.len() + self.pending_flush.len();
        self.nr_live = self.clean.len() + self.dirty.len() + self.pending_flush.len();
        proof {
            lemma_disjoint_push(self.clean@, o.dirty, e);
        }
        self.drain_dirty();
    }

    /// Puts a node into the cache as a clean one, as the last one used; where there is no room, a
    /// node goes. One that is dirty stays as it is.
    pub fn insert(&mut self, node_id: u64, node: Arc<BtreeNode>)
        requires
            old(self)@.wf(),
            old(self)@.count() < usize::MAX,
            node.wf(),
        ensures
            final(self)@.inserted(old(self)@, node_id, *node),
            final(self)@.wf(),
            final(self)@.node(node_id) is Some,
    {
        let ghost o = self@;
        if find(&self.dirty, node_id).is_some() {
            return;
        }
        match find(&self.clean, node_id) {
            Some(i) => {
                proof {
                    lemma_removed(self.clean@, i as int);
                    lemma_disjoint(o.clean, o.dirty, i as int);
                }
                let was: CacheEntry = self.clean.remove(i);
                let e = CacheEntry {
                    id: node_id,
                    node,
                    accessed: was.accessed,
                    pin_count: was.pin_count,
                };
                proof {
                    lemma_pushed(self.clean@, e);
                    lemma_disjoint_clean(self.clean@, o.dirty, e);
                }
                self.clean.push(e);
                return;
            },
            None => {},
        }
        self.make_room();
        let ghost m = self@;
        proof {
            lemma_roomy(m, o);
        }
        self.push_clean(node_id, node);
    }

    /// Adds a clean node that is not in the cache.
    pub(crate) fn push_clean(&mut self, node_id: u64, node: Arc<BtreeNode>)
        requires
            old(self)@.wf(),
            old(self)@.count() < usize::MAX,
            old(self)@.clean.len() < MAX_CLEAN,
            !holds_id(old(self)@.clean, node_id),
            !holds_id(old(self)@.dirty, node_id),
            node.wf(),
        ensures
            final(self)@ == old(self)@.with_clean(node_id, *node),
            final(self)@.wf(),
            holds_id(final(self)@.clean, node_id),
    {
        let ghost m = self@;
        let e = CacheEntry { id: node_id, node, accessed: true, pin_count: 0 };
        proof {
            lemma_pushed(m.clean, e);
            lemma_disjoint_clean(m.clean, m.dirty, e);
        }
        self.clean.push(e);
        self.nr_live = self.clean.len() + self.dirty.len() + self.pending_flush.len();
        assert(self@ =~= m.with_clean(node_id, *node));
    }

    /// Takes a node out of the cache.
    pub fn remove(&mut self, node_id: u64) -> (r: Option<Arc<BtreeNode>>)
        requires
            old(self)@.wf(),
        ensures
            final(self)@ == old(self)@.removed(node_id),
            final(self)@.wf(),
            match r {
                Some(n) => old(self)@.removable(node_id) == Some(*n),
                None => old(self)@.removable(node_id) is None,
            },
    {
        let ghost o = self@;
        let mut r: Option<Arc<BtreeNode>> = None;
        match find(&self.clean, node_id) {
            Some(i) => {
                proof {
                    lemma_removed(self.clean@, i as int);
                }
                let e: CacheEntry = self.clean.remove(i);
                r = Some(e.node);
            },
            None => {
                match find(&self.dirty, node_id) {
                    Some(i) => {
                        proof {
                            lemma_removed(self.dirty@, i as int);
                        }
                        let e: CacheEntry = self.dirty.remove(i);
                        r = Some(e.node);
                    },
                    None => {
                        match find(&self.pending_flush, node_id) {
                            Some(i) => {
                                proof {
                                    lemma_removed(self.pending_flush@, i as int);
                                }
                                let e: CacheEntry = self.pending_flush.remove(i);
                                r = Some(e.node);
                            },
                            None => {},
                        }
                    },
                }
            },
        }
        if r.is_some() {
            self.nr_dirty = self.dirty.len() + self.pending_flush.len();
            self.nr_live = self.clean.len() + self.dirty.len() + self.pending_flush.len();
            self.stats.freed = self.stats.freed.wrapping_add(1);
        }
        r
    }

    /// Takes a node out of the cache; reads and writes of it have to be over.
    pub fn bch2_btree_node_evict(&mut self, node_id: u64) -> (r: Option<Arc<BtreeNode>>)
        requires
            old(self)@.wf(),
        ensures
            final(self)@ == old(self)@.removed(node_id),
            final(self)@.wf(),
            match r {
                Some(n) => old(self)@.removable(node_id) == Some(*n),
                None => old(self)@.removable(node_id) is None,
            },
    {
        self.remove(node_id)
    }

    /// Takes a node out of the cache and lets go of it.
    pub fn bch2_btree_node_data_free(&mut self, node_id: u64)
        requires
            old(self)@.wf(),
        ensures
            final(self)@ == old(self)@.removed(node_id),
            final(self)@.wf(),
    {
        let _ = self.remove(node_id);
    }
}

/// One entry goes from the clean to the dirty nodes: none is in both.
pub proof fn lemma_disjoint(c: Seq<CacheEntry>, d: Seq<CacheEntry>, i: int)
    requires
        distinct(c),
        0 <= i < c.len(),
        forall|a: int, b: int|
            0 <= a < c.len() && 0 <= b < d.len() ==> (#[trigger] c[a]).id != (#[trigger] d[b]).id,
    ensures
        forall|a: int, b: int|
            0 <= a < c.remove(i).len() && 0 <= b < d.push(c[i]).len() ==> (#[trigger] c.remove(
                i,
            )[a]).id != (#[trigger] d.push(c[i])[b]).id,
        forall|a: int, b: int|
            0 <= a < c.remove(i).len() && 0 <= b < d.len() ==> (#[trigger] c.remove(i)[a]).id != (
            #[trigger] d[b]).id,
        !holds_id(d, c[i].id),
{
    let t = c.remove(i);
    let u = d.push(c[i]);
    assert forall|a: int, b: int| 0 <= a < t.len() && 0 <= b < d.len() implies (#[trigger] t[a]).id
        != (#[trigger] d[b]).id by {
        let x = if a < i {
            a
        } else {
            a + 1
        };
        assert(t[a] == c[x]);
    }
    assert forall|a: int, b: int| 0 <= a < t.len() && 0 <= b < u.len() implies (#[trigger] t[a]).id
        != (#[trigger] u[b]).id by {
        let x = if a < i {
            a
        } else {
            a + 1
        };
        assert(t[a] == c[x]);
        if b < d.len() {
            assert(u[b] == d[b]);
        } else {
            assert(u[b] == c[i]);
        }
    }
    if holds_id(d, c[i].id) {
        assert(c[i].id != d[place_of(d, c[i].id)].id);
    }
}

/// A dirty entry comes of a node that is not clean: no node is both.
proof fn lemma_disjoint_push(c: Seq<CacheEntry>, d: Seq<CacheEntry>, e: CacheEntry)
    requires
        !holds_id(c, e.id),
        forall|a: int, b: int|
            0 <= a < c.len() && 0 <= b < d.len() ==> (#[trigger] c[a]).id != (#[trigger] d[b]).id,
    ensures
        forall|a: int, b: int|
            0 <= a < c.len() && 0 <= b < d.push(e).len() ==> (#[trigger] c[a]).id != (
            #[trigger] d.push(e)[b]).id,
{
    let u = d.push(e);
    assert forall|a: int, b: int| 0 <= a < c.len() && 0 <= b < u.len() implies (#[trigger] c[a]).id
        != (#[trigger] u[b]).id by {
        if b < d.len() {
            assert(u[b] == d[b]);
        } else {
            assert(u[b] == e);
        }
    }
}

/// A clean entry comes of a node that is not dirty: no node is both.
pub proof fn lemma_disjoint_clean(c: Seq<CacheEntry>, d: Seq<CacheEntry>, e: CacheEntry)
    requires
        !holds_id(d, e.id),
        forall|a: int, b: int|
            0 <= a < c.len() && 0 <= b < d.len() ==> (#[trigger] c[a]).id != (#[trigger] d[b]).id,
    ensures
        forall|a: int, b: int|
            0 <= a < c.push(e).len() && 0 <= b < d.len() ==> (#[trigger] c.push(e)[a]).id != (
            #[trigger] d[b]).id,
{
    let u = c.push(e);
    assert forall|a: int, b: int| 0 <= a < u.len() && 0 <= b < d.len() implies (#[trigger] u[a]).id
        != (#[trigger] d[b]).id by {
        if a < c.len() {
            assert(u[a] == c[a]);
        } else {
            assert(u[a] == e);
        }
    }
}

/// Room is made among the clean nodes only.
pub proof fn lemma_roomy(m: CacheView, o: CacheView)
    requires
        o.wf(),
        m.roomy(o),
    ensures
        m.dirty == o.dirty,
        m.pending == o.pending,
        m.clean.len() <= o.clean.len(),
        forall|x: u64| !holds_id(o.clean, x) ==> !holds_id(m.clean, x),
{
    if o.clean.len() >= MAX_CLEAN {
        let i = choose|i: int| #[trigger] crate::cache::victim(o.clean, i) && m == o.evicted(i);
        lemma_removed(o.clean, i);
        assert forall|x: u64| !holds_id(o.clean, x) implies !holds_id(m.clean, x) by {
            if x == o.clean[i].id {
                assert(o.clean[i].id == x);
            }
        }
    }
}

/// The entry of a node.
pub open spec fn entry_of(s: Seq<CacheEntry>, id: u64) -> Option<CacheEntry> {
    if holds_id(s, id) {
        Some(s[place_of(s, id)])
    } else {
        None
    }
}

proof fn lemma_entry_at(s: Seq<CacheEntry>, i: int, x: u64)
    requires
        distinct(s),
        0 <= i < s.len(),
        s[i].id == x,
    ensures
        entry_of(s, x) == Some(s[i]),
{
    lemma_place(s, i);
}

pub proof fn lemma_entry_removed(s: Seq<CacheEntry>, i: int, x: u64)
    requires
        distinct(s),
        0 <= i < s.len(),
    ensures
        entry_of(s.remove(i), x) == if x == s[i].id {
            None
        } else {
            entry_of(s, x)
        },
{
    lemma_removed(s, i);
    let t = s.remove(i);
    if x != s[i].id && holds_id(s, x) {
        let j = place_of(s, x);
        assert(s[j].id == x);
        let k = if j < i {
            j
        } else {
            j - 1
        };
        assert(t[k] == s[j]);
        lemma_entry_at(t, k, x);
    }
}

pub proof fn lemma_entry_pushed(s: Seq<CacheEntry>, e: CacheEntry, x: u64)
    requires
        distinct(s),
        !holds_id(s, e.id),
    ensures
        entry_of(s.push(e), x) == if x == e.id {
            Some(e)
        } else {
            entry_of(s, x)
        },
{
    lemma_pushed(s, e);
    let t = s.push(e);
    if x == e.id {
        lemma_entry_at(t, s.len() as int, x);
    } else if holds_id(s, x) {
        let j = place_of(s, x);
        assert(t[j] == s[j]);
        lemma_entry_at(t, j, x);
    }
}

pub proof fn lemma_entry_updated(s: Seq<CacheEntry>, i: int, e: CacheEntry, x: u64)
    requires
        distinct(s),
        0 <= i < s.len(),
        s[i].id == e.id,
    ensures
        entry_of(s.update(i, e), x) == if x == e.id {
            Some(e)
        } else {
            entry_of(s, x)
        },
{
    lemma_updated(s, i, e);
    let t = s.update(i, e);
    if x == e.id {
        lemma_entry_at(t, i, x);
    } else if holds_id(s, x) {
        let j = place_of(s, x);
        assert(s[j].id == x);
        assert(t[j] == s[j]);
        lemma_entry_at(t, j, x);
    }
}

pub proof fn lemma_entry_put(s: Seq<CacheEntry>, e: CacheEntry, x: u64)
    requires
        distinct(s),
    ensures
        distinct(with_entry(s, e)),
        entry_of(with_entry(s, e), x) == if x == e.id {
            Some(e)
        } else {
            entry_of(s, x)
        },
{
    if holds_id(s, e.id) {
        let i = place_of(s, e.id);
        assert(s[i].id == e.id);
        lemma_updated(s, i, e);
        lemma_entry_updated(s, i, e, x);
    } else {
        lemma_pushed(s, e);
        lemma_entry_pushed(s, e, x);
    }
}

pub proof fn lemma_entry_dropped(s: Seq<CacheEntry>, id: u64, x: u64)
    requires
        distinct(s),
    ensures
        distinct(without_id(s, id)),
        entry_of(without_id(s, id), x) == if x == id {
            None
        } else {
            entry_of(s, x)
        },
{
    if holds_id(s, id) {
        let i = place_of(s, id);
        assert(s[i].id == id);
        lemma_removed(s, i);
        lemma_entry_removed(s, i, x);
    }
}

proof fn lemma_entries_put(s: Seq<CacheEntry>, t: Seq<CacheEntry>, x: u64)
    requires
        distinct(s),
        distinct(t),
    ensures
        distinct(with_entries(s, t)),
        entry_of(with_entries(s, t), x) == if holds_id(t, x) {
            entry_of(t, x)
        } else {
            entry_of(s, x)
        },
    decreases t.len(),
{
    if t.len() > 0 {
        let p = t.drop_last();
        assert(distinct(p)) by {
            assert forall|i: int, j: int| 0 <= i < j < p.len() implies (#[trigger] p[i]).id != (
            #[trigger] p[j]).id by {
                assert(p[i] == t[i] && p[j] == t[j]);
            }
        }
        lemma_entries_put(s, p, x);
        lemma_entry_put(with_entries(s, p), t.last(), x);
        if x == t.last().id {
            lemma_entry_at(t, t.len() - 1, x);
        } else {
            if holds_id(p, x) {
                let j = place_of(p, x);
                assert(p[j].id == x);
                assert(t[j] == p[j]);
                lemma_entry_at(t, j, x);
            }
            if holds_id(t, x) {
                let j = place_of(t, x);
                assert(t[j].id == x);
                assert(p[j] == t[j]);
            }
        }
    } else {
        assert(!holds_id(t, x));
    }
}

/// Dirty nodes that are handed over to be written are still found; only where they are kept
/// changes. They are handed over from 256 on, all at once.
pub proof fn law_handover_changes_no_node(v: CacheView, x: u64)
    requires
        distinct(v.dirty),
        distinct(v.pending),
    ensures
        v.drained().node(x) == v.node(x),
        v.drained().clean == v.clean,
        v.dirty.len() >= 256 ==> v.drained().dirty.len() == 0,
        v.dirty.len() < 256 ==> v.drained() == v,
{
    if v.dirty.len() >= MAX_DIRTY {
        lemma_entries_put(v.pending, v.dirty, x);
        assert(!holds_id(v.drained().dirty, x));
        assert(v.node(x) == if holds_id(v.dirty, x) {
            Some(*entry_of(v.dirty, x)->0.node)
        } else if holds_id(v.pending, x) {
            Some(*entry_of(v.pending, x)->0.node)
        } else if holds_id(v.clean, x) {
            Some(*entry_of(v.clean, x)->0.node)
        } else {
            None
        });
    }
}

/// A node that is put in as dirty is the one found from then on, and no longer a clean one; all
/// others stay as they are. The cache then counts what it holds.
pub proof fn law_dirty_node_is_found(v: CacheView, id: u64, node: BtreeNode, x: u64)
    requires
        v.wf(),
        v.count() < usize::MAX,
    ensures
        v.dirtied(id, node).node(x) == if x == id {
            Some(node)
        } else {
            v.node(x)
        },
        !holds_id(v.dirtied(id, node).clean, id),
        !holds_id(v.dirty, id) ==> v.dirtied(id, node).nr_dirty == v.dirtied(id, node).dirty.len()
            + v.dirtied(id, node).pending.len(),
        !holds_id(v.dirty, id) ==> v.dirtied(id, node).nr_live == v.dirtied(id, node).clean.len()
            + v.dirtied(id, node).dirty.len() + v.dirtied(id, node).pending.len(),
        v.dirtied(id, node).stats == v.stats,
        v.dirtied(id, node).in_flight == v.in_flight,
{
    if holds_id(v.dirty, id) {
        let i = place_of(v.dirty, id);
        let e = CacheEntry { node: Arc::new(node), ..v.dirty[i] };
        assert(v.dirty[i].id == id);
        lemma_entry_updated(v.dirty, i, e, x);
        lemma_updated(v.dirty, i, e);
        if holds_id(v.clean, id) {
            let k = place_of(v.clean, id);
            assert(v.clean[k].id == id && v.dirty[i].id == id);
        }
        assert(entry_of(v.dirty, x) == if holds_id(v.dirty, x) {
            Some(v.dirty[place_of(v.dirty, x)])
        } else {
            None
        });
        assert(entry_of(v.dirtied(id, node).dirty, x) is Some == holds_id(
            v.dirtied(id, node).dirty,
            x,
        ));
    } else {
        let e = v.dirty_entry(id, node);
        if holds_id(v.clean, id) {
            assert(v.clean[place_of(v.clean, id)].id == id);
        }
        assert(e.id == id);
        let m = CacheView {
            clean: without_id(v.clean, id),
            dirty: v.dirty.push(e),
            ..v
        }.counted();
        lemma_entry_dropped(v.clean, id, x);
        lemma_entry_dropped(v.clean, id, id);
        lemma_entry_pushed(v.dirty, e, x);
        lemma_pushed(v.dirty, e);
        law_handover_changes_no_node(m, x);
        assert(entry_of(m.dirty, x) is Some == holds_id(m.dirty, x));
        assert(entry_of(v.dirty, x) is Some == holds_id(v.dirty, x));
        assert(entry_of(m.clean, x) is Some == holds_id(m.clean, x));
        assert(entry_of(v.clean, x) is Some == holds_id(v.clean, x));
        lemma_drained_len(v.pending, m.dirty);
        assert(m.clean.len() <= v.clean.len());
    }
}

proof fn lemma_drained_len(s: Seq<CacheEntry>, t: Seq<CacheEntry>)
    ensures
        with_entries(s, t).len() <= s.len() + t.len(),
    decreases t.len(),
{
    if t.len() > 0 {
        lemma_drained_len(s, t.drop_last());
    }
}

/// A clean node that is marked dirty is found as before, among the dirty ones or those on their way
/// to be written; so is every other.
pub proof fn law_marked_node_is_found(v: CacheView, id: u64, x: u64)
    requires
        v.wf(),
    ensures
        holds_id(v.clean, id) && !holds_id(v.pending, id) || x != id ==> v.marked_dirty(id).node(x)
            == v.node(x),
        !holds_id(v.clean, id) ==> v.marked_dirty(id) == v,
        !holds_id(v.marked_dirty(id).clean, id),
        holds_id(v.clean, id) ==> holds_id(v.marked_dirty(id).dirty, id) || holds_id(
            v.marked_dirty(id).pending,
            id,
        ),
{
    if holds_id(v.clean, id) {
        let i = place_of(v.clean, id);
        let e = v.clean[i];
        assert(e.id == id);
        if holds_id(v.dirty, id) {
            let k = place_of(v.dirty, id);
            assert(v.dirty[k].id == v.clean[i].id);
        }
        let m = CacheView {
            clean: without_id(v.clean, id),
            dirty: v.dirty.push(e),
            ..v
        }.counted();
        lemma_entry_dropped(v.clean, id, x);
        lemma_entry_dropped(v.clean, id, id);
        lemma_entry_pushed(v.dirty, e, x);
        lemma_entry_pushed(v.dirty, e, id);
        lemma_pushed(v.dirty, e);
        law_handover_changes_no_node(m, x);
        law_handover_changes_no_node(m, id);
        assert(entry_of(m.dirty, x) is Some == holds_id(m.dirty, x));
        assert(entry_of(v.dirty, x) is Some == holds_id(v.dirty, x));
        assert(entry_of(m.clean, x) is Some == holds_id(m.clean, x));
        assert(entry_of(v.clean, x) is Some == holds_id(v.clean, x));
        assert(m.node(id) is Some);
    }
}

/// A node that is put in is found, unless a dirty one or one on its way to be written is there, which
/// has the newer contents. As long as fewer than 1024 clean nodes are kept none leaves for it; then
/// one does.
pub proof fn law_inserted_node_is_found(
    v: CacheView,
    o: CacheView,
    id: u64,
    node: BtreeNode,
    x: u64,
)
    requires
        o.wf(),
        o.count() < usize::MAX,
        v.inserted(o, id, node),
    ensures
        v.dirty == o.dirty,
        v.pending == o.pending,
        holds_id(o.dirty, id) || holds_id(o.pending, id) ==> v.node(id) == o.node(id),
        !holds_id(o.dirty, id) && !holds_id(o.pending, id) ==> v.node(id) == Some(node),
        x != id && o.clean.len() < 1024 ==> v.node(x) == o.node(x),
        x != id && o.clean.len() >= 1024 ==> v.node(x) == o.node(x) || v.node(x) is None && holds_id(
            o.clean,
            x,
        ),
        !holds_id(o.dirty, id) && !holds_id(o.clean, id) ==> v.clean.len() == if o.clean.len()
            < 1024 {
            o.clean.len() + 1
        } else {
            o.clean.len()
        },
        !holds_id(o.dirty, id) && !holds_id(o.clean, id) ==> v.nr_live == v.clean.len()
            + v.dirty.len() + v.pending.len(),
{
    if holds_id(o.dirty, id) {
    } else if holds_id(o.clean, id) {
        let i = place_of(o.clean, id);
        let e = o.clean[i];
        assert(e.id == id);
        let n = CacheEntry { node: Arc::new(node), ..e };
        lemma_removed(o.clean, i);
        lemma_entry_removed(o.clean, i, x);
        lemma_entry_pushed(o.clean.remove(i), n, x);
        lemma_entry_pushed(o.clean.remove(i), n, id);
    } else {
        let m = choose|m: CacheView| #[trigger] m.roomy(o) && v == m.with_clean(id, node);
        let n = CacheEntry { id, node: Arc::new(node), accessed: true, pin_count: 0 };
        if o.clean.len() >= MAX_CLEAN {
            let i = choose|i: int| #[trigger] crate::cache::victim(o.clean, i) && m == o.evicted(i);
            lemma_removed(o.clean, i);
            lemma_entry_removed(o.clean, i, x);
            lemma_entry_removed(o.clean, i, id);
        }
        assert(entry_of(m.clean, id) is None);
        lemma_entry_pushed(m.clean, n, x);
        lemma_entry_pushed(m.clean, n, id);
        assert(entry_of(m.clean, x) is Some == holds_id(m.clean, x));
    }
    assert(entry_of(v.clean, x) is Some == holds_id(v.clean, x));
    assert(entry_of(o.clean, x) is Some == holds_id(o.clean, x));
    assert(entry_of(v.clean, id) is Some == holds_id(v.clean, id));
}

/// A node that is taken out is the one handed back; it is gone where it was kept, every other stays,
/// and one more counts as freed. A node that is not there changes nothing.
pub proof fn law_removed_node_is_gone(v: CacheView, id: u64, x: u64)
    requires
        v.wf(),
    ensures
        v.removable(id) is Some <==> v.node(id) is Some,
        v.node(id) is None ==> v.removed(id) == v,
        v.node(id) is Some ==> v.removed(id).nr_live == v.count() - 1,
        v.node(id) is Some ==> v.removed(id).nr_dirty == v.removed(id).dirty.len() + v.removed(
            id,
        ).pending.len(),
        v.node(id) is Some ==> v.removed(id).count() == v.count() - 1,
        v.node(id) is Some ==> v.removed(id).stats == (CacheStats {
            freed: v.stats.freed.wrapping_add(1),
            ..v.stats
        }),
        x != id ==> v.removed(id).node(x) == v.node(x),
        !holds_id(v.pending, id) ==> v.removable(id) == v.node(id) && v.removed(id).node(id) is None,
        holds_id(v.pending, id) && !holds_id(v.clean, id) && !holds_id(v.dirty, id) ==> v.removable(
            id,
        ) == v.node(id) && v.removed(id).node(id) is None,
{
    lemma_entry_dropped(v.clean, id, x);
    lemma_entry_dropped(v.dirty, id, x);
    lemma_entry_dropped(v.pending, id, x);
    lemma_entry_dropped(v.clean, id, id);
    lemma_entry_dropped(v.dirty, id, id);
    lemma_entry_dropped(v.pending, id, id);
    if holds_id(v.clean, id) && holds_id(v.dirty, id) {
        assert(v.clean[place_of(v.clean, id)].id == v.dirty[place_of(v.dirty, id)].id);
    }
    let w = v.removed(id);
    assert(entry_of(w.dirty, x) is Some == holds_id(w.dirty, x));
    assert(entry_of(v.dirty, x) is Some == holds_id(v.dirty, x));
    assert(entry_of(w.clean, x) is Some == holds_id(w.clean, x));
    assert(entry_of(v.clean, x) is Some == holds_id(v.clean, x));
    assert(entry_of(w.pending, x) is Some == holds_id(w.pending, x));
    assert(entry_of(v.pending, x) is Some == holds_id(v.pending, x));
    assert(entry_of(w.dirty, id) is Some == holds_id(w.dirty, id));
    assert(entry_of(w.clean, id) is Some == holds_id(w.clean, id));
    assert(entry_of(w.pending, id) is Some == holds_id(w.pending, id));
}

/// A node that comes in counts as used and is not pinned; one that is there keeps its pins, whether it
/// is put in again or becomes dirty. A new dirty node is neither used nor pinned.
pub proof fn law_pins_come_along(v: CacheView, o: CacheView, id: u64, node: BtreeNode)
    requires
        o.wf(),
    ensures
        v.inserted(o, id, node) && !holds_id(o.dirty, id) ==> ({
            let e = v.clean.last();
            &&& e.id == id
            &&& holds_id(o.clean, id) ==> e.pin_count == entry_of(o.clean, id)->0.pin_count
                && e.accessed == entry_of(o.clean, id)->0.accessed
            &&& !holds_id(o.clean, id) ==> e.pin_count == 0 && e.accessed
        }),
        holds_id(o.clean, id) ==> o.dirty_entry(id, node).pin_count == entry_of(
            o.clean,
            id,
        )->0.pin_count,
        !holds_id(o.clean, id) ==> o.dirty_entry(id, node).pin_count == 0 && !o.dirty_entry(
            id,
            node,
        ).accessed,
{
    if v.inserted(o, id, node) && !holds_id(o.dirty, id) {
        if holds_id(o.clean, id) {
            assert(o.clean[place_of(o.clean, id)].id == id);
        } else {
            let m = choose|m: CacheView| #[trigger] m.roomy(o) && v == m.with_clean(id, node);
        }
    }
}

} // verus!
