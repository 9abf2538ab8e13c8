//! The use of the cache of nodes: lookups that load what is missing, writes of dirty nodes, pins,
//! and what happens where room is short.

use crate::cache::{
    distinct, find, handles, holds_id, lemma_place, lemma_pushed, lemma_removed, lemma_swept,
    lemma_updated, node_words, nodes_ok, place_of, share, touched, used, with_entries, without_id, BtreeCache,
    CacheEntry, CacheStats, CacheView, MAX_CLEAN, MAX_DIRTY, PREEMPTIVE_SHRINK_SCAN_BUDGET,
};
use crate::cache_ops::{
    entry_of, lemma_disjoint, lemma_disjoint_clean, lemma_entry_dropped, lemma_entry_pushed,
    lemma_entry_removed, lemma_entry_updated, lemma_roomy, lemma_with_entry,
};
use crate::evicted::{law_noted_is_found, noted_size};
use crate::node::BtreeNode;
use std::sync::Arc;
use vstd::prelude::*;
use vstd::string::StringExecFns;

verus! {

impl CacheView {
    /// One more request is counted.
    pub open spec fn asked(self) -> CacheView {
        CacheView {
            stats: CacheStats { requested: self.stats.requested.wrapping_add(1), ..self.stats },
            ..self
        }
    }

    pub open spec fn hit(self) -> CacheView {
        CacheView {
            stats: CacheStats { hits: self.stats.hits.wrapping_add(1), ..self.stats },
            ..self
        }
    }

    pub open spec fn missed(self) -> CacheView {
        CacheView {
            stats: CacheStats { misses: self.stats.misses.wrapping_add(1), ..self.stats },
            ..self
        }
    }

    /// A node of the cache is marked as used; a clean one becomes the last one used.
    pub open spec fn touched(self, id: u64) -> CacheView {
        if holds_id(self.dirty, id) {
            CacheView { dirty: touched(self.dirty, id), ..self }
        } else if holds_id(self.pending, id) {
            CacheView { pending: touched(self.pending, id), ..self }
        } else {
            let i = place_of(self.clean, id);
            CacheView { clean: self.clean.remove(i).push(used(self.clean[i])), ..self }
        }
    }

    /// The cache is swept ahead of need, where that is called for.
    pub open spec fn relieved(self, memory_pressure_high: bool) -> CacheView {
        if memory_pressure_high || self.clean.len() + PREEMPTIVE_SHRINK_SCAN_BUDGET >= MAX_CLEAN {
            self.shrunk(PREEMPTIVE_SHRINK_SCAN_BUDGET as int)
        } else {
            self
        }
    }

    /// A node that was not in the cache comes into it.
    pub open spec fn loaded(
        self,
        o: CacheView,
        memory_pressure_high: bool,
        id: u64,
        node: BtreeNode,
    ) -> bool {
        exists|m: CacheView| #[trigger]
            m.roomy(o.relieved(memory_pressure_high)) && self == m.with_clean(id, node)
    }
}

/// A sweep brings no node into the cache.
proof fn lemma_swept_ids(v: CacheView, from: int, left: int, x: u64)
    requires
        v.wf(),
        0 <= from,
        0 <= left,
        from + left <= v.clean.len(),
        !holds_id(v.clean, x),
    ensures
        !holds_id(v.swept(from, left).clean, x),
    decreases left,
{
    if left > 0 {
        let e = v.clean[from];
        if crate::cache::bound(e) {
            lemma_swept_ids(v, from + 1, left - 1, x);
        } else if e.accessed {
            let w = CacheView {
                clean: v.clean.update(from, CacheEntry { accessed: false, ..e }),
                stats: CacheStats {
                    not_freed_access_bit: v.stats.not_freed_access_bit.wrapping_add(1),
                    ..v.stats
                },
                ..v
            };
            lemma_updated(v.clean, from, CacheEntry { accessed: false, ..e });
            assert(w.wf()) by {
                assert forall|a: int, b: int|
                    0 <= a < w.clean.len() && 0 <= b < w.dirty.len() implies (
                #[trigger] w.clean[a]).id != (#[trigger] w.dirty[b]).id by {
                    assert(v.clean[a].id != v.dirty[b].id);
                }
            }
            lemma_swept_ids(w, from + 1, left - 1, x);
        } else {
            let y = v.evicted(from);
            let w = CacheView {
                stats: CacheStats {
                    freed: y.stats.freed.wrapping_add(1),
                    self_reclaim: y.stats.self_reclaim.wrapping_add(1),
                    ..y.stats
                },
                ..y
            };
            lemma_removed(v.clean, from);
            lemma_disjoint(v.clean, v.dirty, from);
            assert(v.clean[from].id != x);
            lemma_swept_ids(w, from, left - 1, x);
        }
    }
}

impl BtreeCache {
    /// Marks a node of the cache as used and gives it; a clean one becomes the last one used.
    fn touch(&mut self, node_id: u64) -> (r: Option<Arc<BtreeNode>>)
        requires
            old(self)@.wf(),
        ensures
            final(self)@.wf(),
            match r {
                Some(n) => old(self)@.node(node_id) == Some(*n) && final(self)@
                    == old(self)@.touched(node_id),
                None => old(self)@.node(node_id) is None && final(self)@ == old(self)@,
            },
    {
        let ghost o = self@;
        match find(&self.dirty, node_id) {
            Some(i) => {
                proof {
                    lemma_updated(o.dirty, i as int, used(o.dirty[i as int]));
                }
                self.dirty[i].accessed = true;
                proof {
                    assert(self.dirty@ =~= touched(o.dirty, node_id));
                    assert forall|a: int, b: int|
                        0 <= a < self@.clean.len() && 0 <= b < self@.dirty.len() implies (
                    #[trigger] self@.clean[a]).id != (#[trigger] self@.dirty[b]).id by {
                        assert(o.clean[a].id != o.dirty[b].id);
                    }
                }
                return Some(share(&self.dirty[i].node));
            },
            None => {},
        }
        match find(&self.pending_flush, node_id) {
            Some(i) => {
                proof {
                    lemma_updated(o.pending, i as int, used(o.pending[i as int]));
                }
                self.pending_flush[i].accessed = true;
                assert(self.pending_flush@ =~= touched(o.pending, node_id));
                return Some(share(&self.pending_flush[i].node));
            },
            None => {},
        }
        match find(&self.clean, node_id) {
            Some(i) => {
                proof {
                    lemma_removed(o.clean, i as int);
                    lemma_disjoint(o.clean, o.dirty, i as int);
                }
                let mut e: CacheEntry = self.clean.remove(i);
                e.accessed = true;
                let n: Arc<BtreeNode> = share(&e.node);
                proof {
                    lemma_pushed(self.clean@, e);
                    lemma_disjoint_clean(self.clean@, o.dirty, e);
                }
                self.clean.push(e);
                assert(self@ =~= o.touched(node_id));
                Some(n)
            },
            None => None,
        }
    }

    /// Loads a node that is not in the cache.
    fn load<F: FnOnce() -> Arc<BtreeNode>>(
        &mut self,
        node_id: u64,
        load_fn: F,
        memory_pressure_high: bool,
    ) -> (r: Arc<BtreeNode>)
        requires
            old(self)@.wf(),
            old(self)@.count() < usize::MAX,
            old(self)@.node(node_id) is None,
            load_fn.requires(()),
            forall|n: Arc<BtreeNode>| #[trigger] load_fn.ensures((), n) ==> n.wf(),
        ensures
            final(self)@.wf(),
            load_fn.ensures((), r),
            final(self)@.loaded(old(self)@, memory_pressure_high, node_id, *r),
            final(self)@.node(node_id) == Some(*r),
    {
        let ghost o = self@;
        if BtreeCache::should_preemptive_shrink_from(self.clean.len(), memory_pressure_high) {
            let _ = self.shrink(PREEMPTIVE_SHRINK_SCAN_BUDGET);
            proof {
                let n = o.sweep_len(PREEMPTIVE_SHRINK_SCAN_BUDGET as int);
                if n > 0 {
                    lemma_swept(o, 0, n);
                    lemma_swept_ids(o, 0, n, node_id);
                }
            }
        }
        let ghost s = self@;
        assert(s == o.relieved(memory_pressure_high));
        self.make_room();
        proof {
            lemma_roomy(self@, s);
        }
        let ghost m = self@;
        let node: Arc<BtreeNode> = load_fn();
        let r: Arc<BtreeNode> = share(&node);
        self.push_clean(node_id, node);
        proof {
            let c = self@.clean;
            assert(c.last().id == node_id);
            lemma_place(c, c.len() - 1);
            assert(m.roomy(o.relieved(memory_pressure_high)));
        }
        r
    }

    /// The node with number `node_id`. One that is not in the cache is loaded, and comes to the
    /// clean ones; where there is no room, a node goes.
    pub fn get_or_load<F: FnOnce() -> Arc<BtreeNode>>(
        &mut self,
        node_id: u64,
        load_fn: F,
        memory_pressure_high: bool,
    ) -> (r: Arc<BtreeNode>)
        requires
            old(self)@.wf(),
            old(self)@.count() < usize::MAX,
            load_fn.requires(()),
            forall|n: Arc<BtreeNode>| #[trigger] load_fn.ensures((), n) ==> n.wf(),
        ensures
            final(self)@.wf(),
            final(self)@.node(node_id) == Some(*r),
            match old(self)@.node(node_id) {
                Some(n) => *r == n && final(self)@ == old(self)@.asked().touched(node_id),
                None => load_fn.ensures((), r) && final(self)@.loaded(
                    old(self)@.asked(),
                    memory_pressure_high,
                    node_id,
                    *r,
                ),
            },
    {
        self.stats.requested = self.stats.requested.wrapping_add(1);
        let ghost q = self@;
        match self.touch(node_id) {
            Some(n) => {
                proof {
                    lemma_touched_node(q, node_id);
                }
                n
            },
            None => self.load(node_id, load_fn, memory_pressure_high),
        }
    }

    /// The same, with hits and misses counted.
    pub fn bch2_btree_node_get<F: FnOnce() -> Arc<BtreeNode>>(
        &mut self,
        node_id: u64,
        load_fn: F,
        memory_pressure_high: bool,
    ) -> (r: Arc<BtreeNode>)
        requires
            old(self)@.wf(),
            old(self)@.count() < usize::MAX,
            load_fn.requires(()),
            forall|n: Arc<BtreeNode>| #[trigger] load_fn.ensures((), n) ==> n.wf(),
        ensures
            final(self)@.wf(),
            final(self)@.node(node_id) == Some(*r),
            match old(self)@.node(node_id) {
                Some(n) => *r == n && final(self)@ == old(self)@.asked().touched(node_id).hit(),
                None => load_fn.ensures((), r) && final(self)@.loaded(
                    old(self)@.asked().missed(),
                    memory_pressure_high,
                    node_id,
                    *r,
                ),
            },
    {
        self.stats.requested = self.stats.requested.wrapping_add(1);
        let ghost q = self@;
        match self.touch(node_id) {
            Some(n) => {
                proof {
                    lemma_touched_node(q, node_id);
                }
                self.stats.hits = self.stats.hits.wrapping_add(1);
                n
            },
            None => {
                self.stats.misses = self.stats.misses.wrapping_add(1);
                self.load(node_id, load_fn, memory_pressure_high)
            },
        }
    }
}

/// A use of a node does not change which node it is.
proof fn lemma_touched_node(v: CacheView, id: u64)
    requires
        v.wf(),
        v.node(id) is Some,
    ensures
        v.touched(id).node(id) == v.node(id),
{
    if holds_id(v.dirty, id) {
        let i = place_of(v.dirty, id);
        let t = touched(v.dirty, id);
        lemma_updated(v.dirty, i, used(v.dirty[i]));
        assert(t[i].id == id);
        lemma_place(t, i);
    } else if holds_id(v.pending, id) {
        let i = place_of(v.pending, id);
        let t = touched(v.pending, id);
        lemma_updated(v.pending, i, used(v.pending[i]));
        assert(t[i].id == id);
        lemma_place(t, i);
    } else {
        let i = place_of(v.clean, id);
        let e = used(v.clean[i]);
        let t = v.clean.remove(i).push(e);
        lemma_removed(v.clean, i);
        lemma_pushed(v.clean.remove(i), e);
        assert(t[t.len() - 1].id == id);
        lemma_place(t, t.len() - 1);
    }
}

/// A handle of a node with its number.
pub open spec fn pair_of(e: CacheEntry) -> (u64, Arc<BtreeNode>) {
    (e.id, e.node)
}

pub open spec fn pairs_of(s: Seq<CacheEntry>) -> Seq<(u64, Arc<BtreeNode>)> {
    Seq::new(s.len(), |i: int| pair_of(s[i]))
}

/// Nodes of lower levels come before those of higher ones.
pub open spec fn by_level(s: Seq<(u64, Arc<BtreeNode>)>) -> bool {
    forall|i: int, j: int|
        0 <= i < j < s.len() ==> (#[trigger] s[i]).1.level <= (#[trigger] s[j]).1.level
}

/// Puts a node behind all of its level and of lower ones.
fn place_by_level(out: &mut Vec<(u64, Arc<BtreeNode>)>, e: CacheEntry)
    requires
        by_level(old(out)@),
    ensures
        by_level(final(out)@),
        final(out)@.to_multiset() == old(out)@.to_multiset().insert(pair_of(e)),
{
    let ghost s = out@;
    let level: u8 = e.node.level;
    let mut i: usize = out.len();
    while i > 0 && out[i - 1].1.level > level
        invariant
            i <= out.len(),
            out@ == s,
            forall|j: int| i <= j < s.len() ==> (#[trigger] s[j]).1.level > level,
        decreases i,
    {
        i -= 1;
    }
    proof {
        vstd::seq_lib::to_multiset_insert(s, i as int, pair_of(e));
    }
    out.insert(i, (e.id, e.node));
    proof {
        let t = out@;
        assert(t == s.insert(i as int, pair_of(e)));
        assert forall|a: int, b: int| 0 <= a < b < t.len() implies (#[trigger] t[a]).1.level <= (
        #[trigger] t[b]).1.level by {
            if i > 0 {
                assert(s[i - 1].1.level <= level);
            }
            if a < i {
                assert(t[a] == s[a]);
                if a < i - 1 {
                    assert(s[a].1.level <= s[i - 1].1.level);
                }
            } else if a > i {
                assert(t[a] == s[a - 1]);
            }
            if b < i {
                assert(t[b] == s[b]);
            } else if b > i {
                assert(t[b] == s[b - 1]);
            }
        }
    }
}

/// The first entry of a list as one of its nodes.
proof fn lemma_first_pair(s: Seq<CacheEntry>)
    requires
        s.len() > 0,
    ensures
        pairs_of(s).to_multiset() == pairs_of(s.remove(0)).to_multiset().insert(pair_of(s[0])),
{
    let t = pairs_of(s.remove(0));
    assert(pairs_of(s) =~= t.insert(0, pair_of(s[0])));
    vstd::seq_lib::to_multiset_insert(t, 0, pair_of(s[0]));
}

impl CacheView {
    /// The cache without its dirty nodes and without those that await their write.
    pub open spec fn flushed(self) -> CacheView {
        CacheView {
            dirty: Seq::empty(),
            pending: Seq::empty(),
            nr_dirty: 0,
            nr_live: self.clean.len() as usize,
            ..self
        }
    }
}

/// What a flush hands over of the cache `v`: all dirty nodes and all that await their write, leaves
/// first.
pub open spec fn handed_over(v: CacheView, r: Seq<(u64, Arc<BtreeNode>)>) -> bool {
    &&& by_level(r)
    &&& r.to_multiset() == pairs_of(v.dirty).to_multiset().add(pairs_of(v.pending).to_multiset())
}

impl BtreeCache {
    /// Hands over all dirty nodes and all that await their write, leaves first, so that no node is
    /// written before those below it. They leave the cache.
    pub fn flush_dirty(&mut self) -> (r: Vec<(u64, Arc<BtreeNode>)>)
        requires
            old(self)@.wf(),
        ensures
            final(self)@ == old(self)@.flushed(),
            final(self)@.wf(),
            handed_over(old(self)@, r@),
    {
        broadcast use vstd::seq_lib::group_to_multiset_ensures;

        let ghost o = self@;
        let ghost all = pairs_of(o.dirty).to_multiset().add(pairs_of(o.pending).to_multiset());
        let mut out: Vec<(u64, Arc<BtreeNode>)> = Vec::new();
        assert(out@.to_multiset().add(all) =~= all);
        while self.dirty.len() > 0
            invariant
                by_level(out@),
                self@ == (CacheView { dirty: self@.dirty, ..o }),
                out@.to_multiset().add(
                    pairs_of(self.dirty@).to_multiset().add(pairs_of(o.pending).to_multiset()),
                ) == all,
            decreases self.dirty.len(),
        {
            let ghost was = out@.to_multiset();
            proof {
                lemma_first_pair(self.dirty@);
            }
            let e: CacheEntry = self.dirty.remove(0);
            place_by_level(&mut out, e);
            assert(out@.to_multiset().add(
                pairs_of(self.dirty@).to_multiset().add(pairs_of(o.pending).to_multiset()),
            ) =~= all);
        }
        proof {
            assert(pairs_of(self.dirty@) =~= Seq::empty());
            assert(Seq::<(u64, Arc<BtreeNode>)>::empty().to_multiset()
                =~= vstd::multiset::Multiset::empty());
            assert(out@.to_multiset().add(pairs_of(o.pending).to_multiset()) =~= all);
        }
        while self.pending_flush.len() > 0
            invariant
                by_level(out@),
                self@ == (CacheView { dirty: self@.dirty, pending: self@.pending, ..o }),
                self.dirty@.len() == 0,
                out@.to_multiset().add(pairs_of(self.pending_flush@).to_multiset()) == all,
            decreases self.pending_flush.len(),
        {
            proof {
                lemma_first_pair(self.pending_flush@);
            }
            let e: CacheEntry = self.pending_flush.remove(0);
            place_by_level(&mut out, e);
            assert(out@.to_multiset().add(pairs_of(self.pending_flush@).to_multiset()) =~= all);
        }
        proof {
            assert(pairs_of(self.pending_flush@) =~= Seq::empty());
            assert(out@.to_multiset() =~= all);
            assert(self.dirty@ =~= Seq::<CacheEntry>::empty());
            assert(self.pending_flush@ =~= Seq::<CacheEntry>::empty());
        }
        self.nr_dirty = 0;
        self.nr_live = self.clean.len();
        out
    }
}

/// The entries without those of some nodes.
pub open spec fn without_ids(s: Seq<CacheEntry>, ids: Seq<u64>) -> Seq<CacheEntry>
    decreases ids.len(),
{
    if ids.len() == 0 {
        s
    } else {
        without_id(without_ids(s, ids.drop_last()), ids.last())
    }
}

/// Those of the numbers that are marked, or not, in their order.
pub open spec fn picked(ids: Seq<u64>, marks: Seq<bool>, mark: bool) -> Seq<u64>
    decreases ids.len(),
{
    if ids.len() == 0 {
        Seq::empty()
    } else {
        let p = picked(ids.drop_last(), marks.drop_last(), mark);
        if marks.last() == mark {
            p.push(ids.last())
        } else {
            p
        }
    }
}

impl CacheView {
    /// Of the replaced versions those that are not held elsewhere leave the cache; the others stay
    /// in the queue.
    pub open spec fn retired(self, ids: Seq<u64>, held: Seq<bool>) -> CacheView {
        let all = self.retire_queue + ids;
        let gone = picked(all, held, false);
        CacheView {
            clean: without_ids(self.clean, gone),
            dirty: without_ids(self.dirty, gone),
            pending: without_ids(self.pending, gone),
            retire_queue: picked(all, held, true),
            ..self
        }
    }
}

/// Takes the entry of a node out of a list.
fn drop_id(s: &mut Vec<CacheEntry>, id: u64)
    requires
        distinct(old(s)@),
        nodes_ok(old(s)@),
    ensures
        final(s)@ == without_id(old(s)@, id),
        distinct(final(s)@),
        nodes_ok(final(s)@),
        final(s)@.len() <= old(s)@.len(),
        forall|x: u64| holds_id(final(s)@, x) ==> holds_id(old(s)@, x),
{
    match find(s, id) {
        Some(i) => {
            let ghost o = s@;
            proof {
                lemma_removed(o, i as int);
            }
            let _ = s.remove(i);
            assert forall|x: u64| holds_id(s@, x) implies holds_id(o, x) by {
                if x == o[i as int].id {
                    assert(o[i as int].id == x);
                }
            }
        },
        None => {},
    }
}

/// No node is in both lists, told by their numbers.
pub open spec fn apart(c: Seq<CacheEntry>, d: Seq<CacheEntry>) -> bool {
    forall|x: u64| !(#[trigger] holds_id(c, x) && holds_id(d, x))
}

proof fn lemma_apart(c: Seq<CacheEntry>, d: Seq<CacheEntry>)
    ensures
        apart(c, d) <==> (forall|i: int, j: int|
            0 <= i < c.len() && 0 <= j < d.len() ==> (#[trigger] c[i]).id != (#[trigger] d[j]).id),
{
    if apart(c, d) {
        assert forall|i: int, j: int| 0 <= i < c.len() && 0 <= j < d.len() implies (
        #[trigger] c[i]).id != (#[trigger] d[j]).id by {
            assert(holds_id(c, c[i].id));
            if c[i].id == d[j].id {
                assert(holds_id(d, c[i].id));
            }
        }
    }
    if forall|i: int, j: int|
        0 <= i < c.len() && 0 <= j < d.len() ==> (#[trigger] c[i]).id != (#[trigger] d[j]).id {
        assert forall|x: u64| !(#[trigger] holds_id(c, x) && holds_id(d, x)) by {
            if holds_id(c, x) && holds_id(d, x) {
                assert(c[place_of(c, x)].id != d[place_of(d, x)].id);
            }
        }
    }
}

impl BtreeCache {
    /// Of the queued and the given versions those that are not held elsewhere leave the cache; the
    /// others stay in the queue.
    pub fn retire_unheld(&mut self, node_ids: &Vec<u64>, held: &Vec<bool>)
        requires
            old(self)@.wf(),
            held@.len() == old(self)@.retire_queue.len() + node_ids@.len(),
        ensures
            final(self)@ == old(self)@.retired(node_ids@, held@),
            final(self)@.wf(),
    {
        let ghost o = self@;
        let ghost all = o.retire_queue + node_ids@;
        let mut left: Vec<u64> = Vec::new();
        let mut i: usize = 0;
        let queued: usize = self.retire_queue.len();
        proof {
            lemma_apart(o.clean, o.dirty);
            assert(all.subrange(0, 0) =~= Seq::<u64>::empty());
            assert(held@.subrange(0, 0) =~= Seq::<bool>::empty());
            assert(picked(all.subrange(0, 0), held@.subrange(0, 0), false) =~= Seq::<u64>::empty());
        }
        while i < held.len()
            invariant
                i <= held.len(),
                all == o.retire_queue + node_ids@,
                held@.len() == all.len(),
                queued == o.retire_queue.len(),
                o.wf(),
                self.clean@ == without_ids(
                    o.clean,
                    picked(all.subrange(0, i as int), held@.subrange(0, i as int), false),
                ),
                self.dirty@ == without_ids(
                    o.dirty,
                    picked(all.subrange(0, i as int), held@.subrange(0, i as int), false),
                ),
                self.pending_flush@ == without_ids(
                    o.pending,
                    picked(all.subrange(0, i as int), held@.subrange(0, i as int), false),
                ),
                left@ == picked(all.subrange(0, i as int), held@.subrange(0, i as int), true),
                distinct(self.clean@) && nodes_ok(self.clean@),
                distinct(self.dirty@) && nodes_ok(self.dirty@),
                distinct(self.pending_flush@) && nodes_ok(self.pending_flush@),
                self.clean@.len() <= o.clean.len(),
                self.dirty@.len() <= o.dirty.len(),
                self.pending_flush@.len() <= o.pending.len(),
                apart(self.clean@, self.dirty@),
                self@ == (CacheView {
                    clean: self@.clean,
                    dirty: self@.dirty,
                    pending: self@.pending,
                    ..o
                }),
            decreases held.len() - i,
        {
            let id: u64 = if i < queued {
                self.retire_queue[i]
            } else {
                node_ids[i - queued]
            };
            proof {
                assert(id == all[i as int]);
                let a = all.subrange(0, i + 1);
                let h = held@.subrange(0, i + 1);
                assert(a.drop_last() =~= all.subrange(0, i as int));
                assert(h.drop_last() =~= held@.subrange(0, i as int));
                assert(a.last() == id);
                assert(h.last() == held@[i as int]);
                let g = picked(all.subrange(0, i as int), held@.subrange(0, i as int), false);
                assert(g.push(id).drop_last() =~= g);
            }
            if held[i] {
                left.push(id);
            } else {
                drop_id(&mut self.clean, id);
                drop_id(&mut self.dirty, id);
                drop_id(&mut self.pending_flush, id);
            }
            i += 1;
        }
        proof {
            assert(all.subrange(0, i as int) =~= all);
            assert(held@.subrange(0, i as int) =~= held@);
            lemma_apart(self.clean@, self.dirty@);
        }
        self.retire_queue = left;
    }

    /// Lets go of replaced versions of nodes: those that nobody else holds leave the cache, and the
    /// others are queued for the next time.
    pub fn gc_retire(&mut self, node_ids: &Vec<u64>)
        requires
            old(self)@.wf(),
            old(self)@.retire_queue.len() + node_ids@.len() <= usize::MAX,
        ensures
            final(self)@.wf(),
            exists|held: Seq<bool>|
                {
                    let all = old(self)@.retire_queue + node_ids@;
                    &&& held.len() == all.len()
                    &&& #[trigger] old(self)@.retired(node_ids@, held) == final(self)@
                    &&& forall|i: int|
                        0 <= i < all.len() && old(self)@.removable(#[trigger] all[i]) is None
                            ==> !held[i]
                },
    {
        let ghost all = self@.retire_queue + node_ids@;
        let mut held: Vec<bool> = Vec::new();
        let queued: usize = self.retire_queue.len();
        let total: usize = queued + node_ids.len();
        let mut i: usize = 0;
        while i < total
            invariant
                i <= total,
                total == queued + node_ids.len(),
                queued == self.retire_queue.len(),
                *self == *old(self),
                self@.wf(),
                all == self@.retire_queue + node_ids@,
                held@.len() == i,
                forall|j: int|
                    0 <= j < i && self@.removable(#[trigger] all[j]) is None ==> !held@[j],
            decreases total - i,
        {
            let id: u64 = if i < queued {
                self.retire_queue[i]
            } else {
                node_ids[i - queued]
            };
            assert(id == all[i as int]);
            let h: bool = match find(&self.clean, id) {
                Some(k) => handles(&self.clean[k].node) != 1,
                None => match find(&self.dirty, id) {
                    Some(k) => handles(&self.dirty[k].node) != 1,
                    None => match find(&self.pending_flush, id) {
                        Some(k) => handles(&self.pending_flush[k].node) != 1,
                        None => false,
                    },
                },
            };
            held.push(h);
            i += 1;
        }
        self.retire_unheld(node_ids, &held);
    }
}

/// A sweep takes no node that was used since the last one, nor one that is bound.
pub proof fn law_sweep_spares_used(v: CacheView, target: int, i: int)
    requires
        v.wf(),
        0 <= target,
        0 <= i < v.clean.len(),
        v.clean[i].accessed || crate::cache::bound(v.clean[i]),
    ensures
        holds_id(v.shrunk(target).clean, v.clean[i].id),
{
    let n = v.sweep_len(target);
    if n == 0 {
        lemma_place(v.clean, i);
    } else {
        lemma_swept_keeps(v, 0, n, i);
    }
}

/// An entry that a sweep has passed, does not reach, or has to spare stays.
proof fn lemma_swept_keeps(v: CacheView, from: int, left: int, i: int)
    requires
        v.wf(),
        0 <= from,
        0 <= left,
        from + left <= v.clean.len(),
        0 <= i < v.clean.len(),
        i < from || i >= from + left || v.clean[i].accessed || crate::cache::bound(v.clean[i]),
    ensures
        holds_id(v.swept(from, left).clean, v.clean[i].id),
    decreases left,
{
    if left <= 0 {
        lemma_place(v.clean, i);
    } else {
        let e = v.clean[from];
        if crate::cache::bound(e) {
            lemma_swept_keeps(v, from + 1, left - 1, i);
        } else if e.accessed {
            let w = CacheView {
                clean: v.clean.update(from, CacheEntry { accessed: false, ..e }),
                stats: CacheStats {
                    not_freed_access_bit: v.stats.not_freed_access_bit.wrapping_add(1),
                    ..v.stats
                },
                ..v
            };
            lemma_updated(v.clean, from, CacheEntry { accessed: false, ..e });
            assert(w.wf()) by {
                assert forall|a: int, b: int|
                    0 <= a < w.clean.len() && 0 <= b < w.dirty.len() implies (
                #[trigger] w.clean[a]).id != (#[trigger] w.dirty[b]).id by {
                    assert(v.clean[a].id != v.dirty[b].id);
                }
            }
            lemma_swept_keeps(w, from + 1, left - 1, i);
            assert(w.clean[i].id == v.clean[i].id);
        } else {
            let y = v.evicted(from);
            let w = CacheView {
                stats: CacheStats {
                    freed: y.stats.freed.wrapping_add(1),
                    self_reclaim: y.stats.self_reclaim.wrapping_add(1),
                    ..y.stats
                },
                ..y
            };
            lemma_removed(v.clean, from);
            lemma_disjoint(v.clean, v.dirty, from);
            let j = if i < from {
                i
            } else {
                i - 1
            };
            assert(w.clean[j] == v.clean[i]);
            lemma_swept_keeps(w, from, left - 1, j);
        }
    }
}

/// Where a node is evicted for room and some leaf may go, what goes is a leaf that nothing keeps:
/// no inner node, pinned node or node that is about to be linked leaves.
pub proof fn law_leaves_go_first(m: CacheView, o: CacheView, i: int)
    requires
        o.wf(),
        m.roomy(o),
        0 <= i < o.clean.len(),
        exists|j: int| 0 <= j < o.clean.len() && crate::cache::evictable_leaf(#[trigger] o.clean[j]),
        !crate::cache::evictable_leaf(o.clean[i]),
    ensures
        holds_id(m.clean, o.clean[i].id),
{
    if o.clean.len() < MAX_CLEAN {
        lemma_place(o.clean, i);
    } else {
        let k = choose|k: int| #[trigger] crate::cache::victim(o.clean, k) && m == o.evicted(k);
        lemma_removed(o.clean, k);
        if o.clean[i].id == o.clean[k].id {
            lemma_place(o.clean, i);
            lemma_place(o.clean, k);
        } else {
            lemma_place(o.clean, i);
        }
    }
}

/// A flush hands over exactly the dirty nodes and those that await their write, each as the cache
/// gives it. Afterwards the cache holds of a node what it had of it as clean, and nothing else.
pub proof fn law_flush_hands_over_all(v: CacheView, r: Seq<(u64, Arc<BtreeNode>)>, id: u64)
    requires
        v.wf(),
        handed_over(v, r),
    ensures
        holds_id(v.dirty, id) || holds_id(v.pending, id) <==> exists|i: int|
            0 <= i < r.len() && (#[trigger] r[i]).0 == id,
        holds_id(v.dirty, id) || holds_id(v.pending, id) ==> exists|i: int|
            0 <= i < r.len() && (#[trigger] r[i]).0 == id && v.node(id) == Some(*r[i].1),
        v.flushed().node(id) == if holds_id(v.clean, id) {
            Some(*v.clean[place_of(v.clean, id)].node)
        } else {
            None
        },
{
    broadcast use vstd::seq_lib::group_to_multiset_ensures;

    let d = pairs_of(v.dirty);
    let p = pairs_of(v.pending);
    if holds_id(v.dirty, id) {
        let k = place_of(v.dirty, id);
        assert(d[k] == pair_of(v.dirty[k]));
        assert(d.contains(d[k]));
        assert(r.to_multiset().count(d[k]) > 0);
        assert(r.contains(d[k]));
        let i = choose|i: int| 0 <= i < r.len() && r[i] == d[k];
        assert(r[i].0 == id && v.node(id) == Some(*r[i].1));
    } else if holds_id(v.pending, id) {
        let k = place_of(v.pending, id);
        assert(p[k] == pair_of(v.pending[k]));
        assert(p.contains(p[k]));
        assert(r.to_multiset().count(p[k]) > 0);
        assert(r.contains(p[k]));
        let i = choose|i: int| 0 <= i < r.len() && r[i] == p[k];
        assert(r[i].0 == id && v.node(id) == Some(*r[i].1));
    }
    if exists|i: int| 0 <= i < r.len() && (#[trigger] r[i]).0 == id {
        let i = choose|i: int| 0 <= i < r.len() && (#[trigger] r[i]).0 == id;
        assert(r.contains(r[i]));
        assert(r.to_multiset().count(r[i]) > 0);
        if d.contains(r[i]) {
            let k = choose|k: int| 0 <= k < d.len() && d[k] == r[i];
            assert(v.dirty[k].id == id);
        } else {
            assert(p.contains(r[i]));
            let k = choose|k: int| 0 <= k < p.len() && p[k] == r[i];
            assert(v.pending[k].id == id);
        }
    }
}

/// Dirty nodes that are handed over because they are too many stay in the cache.
pub proof fn law_drained_nodes_stay(v: CacheView, id: u64)
    requires
        distinct(v.pending),
        nodes_ok(v.pending),
        nodes_ok(v.dirty),
        holds_id(v.dirty, id) || holds_id(v.pending, id),
    ensures
        holds_id(v.drained().dirty, id) || holds_id(v.drained().pending, id),
{
    if v.dirty.len() >= MAX_DIRTY {
        lemma_with_entries_ids(v.pending, v.dirty, id);
    }
}

proof fn lemma_with_entries_ids(s: Seq<CacheEntry>, t: Seq<CacheEntry>, id: u64)
    requires
        distinct(s),
        nodes_ok(s),
        nodes_ok(t),
    ensures
        distinct(with_entries(s, t)),
        nodes_ok(with_entries(s, t)),
        holds_id(with_entries(s, t), id) <==> holds_id(s, id) || holds_id(t, id),
    decreases t.len(),
{
    if t.len() > 0 {
        let p = t.drop_last();
        assert forall|i: int| 0 <= i < p.len() implies (#[trigger] p[i]).node.wf() by {
            assert(p[i] == t[i]);
        }
        assert(t[t.len() - 1].node.wf());
        lemma_with_entries_ids(s, p, id);
        lemma_with_entry(with_entries(s, p), t.last());
        lemma_pushed(p, t.last());
        assert(p.push(t.last()) =~= t);
    }
}

/// A sweep that reaches the node that was not used for longest takes away its mark of use, or, where
/// it has none, the node itself; one that is bound is not touched.
pub proof fn law_second_chance(v: CacheView)
    requires
        v.wf(),
        v.clean.len() > crate::cache::MIN_KEEP,
    ensures
        crate::cache::bound(v.clean[0]) ==> v.shrunk(1).clean == v.clean,
        !crate::cache::bound(v.clean[0]) && v.clean[0].accessed ==> v.shrunk(1).clean == v.clean.update(
            0,
            CacheEntry { accessed: false, ..v.clean[0] },
        ),
        !crate::cache::bound(v.clean[0]) && !v.clean[0].accessed ==> v.shrunk(1).clean
            == v.clean.remove(0),
{
    assert(v.sweep_len(1) == 1);
    reveal_with_fuel(CacheView::swept, 2);
}

/// A lookup changes no node and no pin: it only notes that the node was used, and a clean node then
/// comes last among the clean ones.
pub proof fn law_lookup_changes_no_node(v: CacheView, id: u64, x: u64)
    requires
        v.wf(),
        v.node(id) is Some,
    ensures
        v.touched(id).node(x) == v.node(x),
        v.touched(id).count() == v.count(),
        v.touched(id).stats == v.stats,
        !holds_id(v.dirty, id) && !holds_id(v.pending, id) ==> ({
            let c = v.touched(id).clean;
            c.last().id == id && c.last().accessed && c.last().pin_count == entry_of(
                v.clean,
                id,
            )->0.pin_count
        }),
        holds_id(v.dirty, id) ==> entry_of(v.touched(id).dirty, id)->0.accessed && entry_of(
            v.touched(id).dirty,
            id,
        )->0.pin_count == entry_of(v.dirty, id)->0.pin_count,
{
    let w = v.touched(id);
    if holds_id(v.dirty, id) {
        let i = place_of(v.dirty, id);
        assert(v.dirty[i].id == id);
        lemma_entry_updated(v.dirty, i, used(v.dirty[i]), x);
        lemma_entry_updated(v.dirty, i, used(v.dirty[i]), id);
    } else if holds_id(v.pending, id) {
        let i = place_of(v.pending, id);
        assert(v.pending[i].id == id);
        lemma_entry_updated(v.pending, i, used(v.pending[i]), x);
    } else {
        let i = place_of(v.clean, id);
        let e = used(v.clean[i]);
        assert(v.clean[i].id == id);
        lemma_removed(v.clean, i);
        lemma_entry_removed(v.clean, i, x);
        lemma_entry_pushed(v.clean.remove(i), e, x);
        assert(w.clean.last() == e);
    }
    assert(entry_of(w.dirty, x) is Some == holds_id(w.dirty, x));
    assert(entry_of(v.dirty, x) is Some == holds_id(v.dirty, x));
    assert(entry_of(w.clean, x) is Some == holds_id(w.clean, x));
    assert(entry_of(v.clean, x) is Some == holds_id(v.clean, x));
    assert(entry_of(w.pending, x) is Some == holds_id(w.pending, x));
    assert(entry_of(v.pending, x) is Some == holds_id(v.pending, x));
}

spec fn entry_words(e: CacheEntry) -> u16 {
    node_words(*e.node)
}

/// A node that is evicted is gone from the clean ones; its words are noted under its number, and its
/// bytes count, eight to the word.
pub proof fn law_eviction_is_noted(v: CacheView, i: int)
    requires
        v.wf(),
        0 <= i < v.clean.len(),
    ensures
        ({
            let e = v.clean[i];
            let w = v.evicted(i);
            &&& !holds_id(w.clean, e.id)
            &&& w.clean.len() == v.clean.len() - 1
            &&& w.dirty == v.dirty
            &&& w.pending == v.pending
            &&& noted_size(w.sizes, e.id) == Some(e.node.total() as u16)
            &&& w.stats.evicted_size == v.stats.evicted_size.wrapping_add(
                (8 * e.node.total()) as u64,
            )
            &&& w.stats.freed == v.stats.freed
            &&& w.stats.hits == v.stats.hits
            &&& w.stats.misses == v.stats.misses
        }),
{
    lemma_removed(v.clean, i);
    law_noted_is_found(v.sizes, v.clean[i].id, entry_words(v.clean[i]));
}

/// Clean nodes leave ahead of time where memory is short or 960 of them are there. At most 64 leave
/// at once, and 64 always stay.
pub proof fn law_relief(v: CacheView, memory_pressure_high: bool)
    requires
        v.wf(),
    ensures
        !memory_pressure_high && v.clean.len() < 960 ==> v.relieved(memory_pressure_high) == v,
        v.relieved(memory_pressure_high).clean.len() + 64 >= v.clean.len(),
        v.relieved(memory_pressure_high).clean.len() >= 64 || v.relieved(memory_pressure_high)
            == v,
        v.relieved(memory_pressure_high).dirty == v.dirty,
        v.relieved(memory_pressure_high).pending == v.pending,
        (memory_pressure_high || v.clean.len() >= 960) && v.clean.len() > 64
            && !v.clean[0].accessed && v.clean[0].pin_count == 0
            && !v.clean[0].node.flags.will_make_reachable ==> v.relieved(
            memory_pressure_high,
        ).clean.len() < v.clean.len(),
{
    let n = v.sweep_len(64);
    if n > 0 {
        lemma_swept(v, 0, n);
        if !v.clean[0].accessed && !crate::cache::bound(v.clean[0]) {
            let w = v.evicted(0);
            lemma_removed(v.clean, 0);
            let u = CacheView {
                stats: CacheStats {
                    freed: w.stats.freed.wrapping_add(1),
                    self_reclaim: w.stats.self_reclaim.wrapping_add(1),
                    ..w.stats
                },
                ..w
            };
            assert(u.wf()) by {
                lemma_swept(v, 0, 1);
                reveal_with_fuel(CacheView::swept, 2);
            }
            lemma_swept(u, 0, n - 1);
            assert(v.swept(0, n) == u.swept(0, n - 1));
        }
    }
}

proof fn lemma_entries_dropped(s: Seq<CacheEntry>, ids: Seq<u64>, x: u64)
    requires
        distinct(s),
    ensures
        distinct(without_ids(s, ids)),
        entry_of(without_ids(s, ids), x) == if ids.contains(x) {
            None
        } else {
            entry_of(s, x)
        },
    decreases ids.len(),
{
    if ids.len() > 0 {
        let p = ids.drop_last();
        lemma_entries_dropped(s, p, x);
        lemma_entry_dropped(without_ids(s, p), ids.last(), x);
        assert(ids.contains(x) <==> p.contains(x) || x == ids.last()) by {
            if p.contains(x) {
                let i = choose|i: int| 0 <= i < p.len() && p[i] == x;
                assert(ids[i] == x);
            }
            if ids.contains(x) && x != ids.last() {
                let i = choose|i: int| 0 <= i < ids.len() && ids[i] == x;
                assert(p[i] == x);
            }
        }
    }
}

proof fn lemma_picked(ids: Seq<u64>, marks: Seq<bool>, mark: bool, x: u64)
    requires
        ids.len() == marks.len(),
    ensures
        picked(ids, marks, mark).contains(x) <==> exists|j: int|
            0 <= j < ids.len() && #[trigger] ids[j] == x && marks[j] == mark,
    decreases ids.len(),
{
    if ids.len() > 0 {
        let p = ids.drop_last();
        let m = marks.drop_last();
        lemma_picked(p, m, mark, x);
        let a = picked(p, m, mark);
        let b = picked(ids, marks, mark);
        assert(forall|j: int| 0 <= j < p.len() ==> #[trigger] ids[j] == p[j] && marks[j] == m[j]);
        if a.contains(x) {
            let i = choose|i: int| 0 <= i < a.len() && a[i] == x;
            assert(b[i] == x);
            let j = choose|j: int| 0 <= j < p.len() && #[trigger] p[j] == x && m[j] == mark;
            assert(ids[j] == x);
        }
        if b.contains(x) && !a.contains(x) {
            let i = choose|i: int| 0 <= i < b.len() && b[i] == x;
            assert(i == a.len());
            assert(ids[p.len() as int] == x);
        }
        if exists|j: int| 0 <= j < ids.len() && #[trigger] ids[j] == x && marks[j] == mark {
            let j = choose|j: int| 0 <= j < ids.len() && #[trigger] ids[j] == x && marks[j] == mark;
            if j < p.len() {
                assert(p[j] == x);
            } else {
                assert(b.last() == x);
            }
        }
    } else {
        assert(picked(ids, marks, mark).len() == 0);
    }
}

/// Replaced versions that nobody else holds leave the cache, wherever they are kept in it; those that
/// are held wait for the next time, and every other node stays.
pub proof fn law_retired_versions_leave(v: CacheView, ids: Seq<u64>, held: Seq<bool>, x: u64)
    requires
        v.wf(),
        held.len() == v.retire_queue.len() + ids.len(),
    ensures
        ({
            let all = v.retire_queue + ids;
            let unheld = exists|j: int| 0 <= j < all.len() && #[trigger] all[j] == x && !held[j];
            let w = v.retired(ids, held);
            &&& unheld ==> w.node(x) is None
            &&& !unheld ==> w.node(x) == v.node(x)
            &&& w.retire_queue.contains(x) <==> exists|j: int|
                0 <= j < all.len() && #[trigger] all[j] == x && held[j]
        }),
{
    let all = v.retire_queue + ids;
    let gone = picked(all, held, false);
    lemma_picked(all, held, false, x);
    lemma_picked(all, held, true, x);
    lemma_entries_dropped(v.clean, gone, x);
    lemma_entries_dropped(v.dirty, gone, x);
    lemma_entries_dropped(v.pending, gone, x);
    let w = v.retired(ids, held);
    assert(entry_of(w.dirty, x) is Some == holds_id(w.dirty, x));
    assert(entry_of(v.dirty, x) is Some == holds_id(v.dirty, x));
    assert(entry_of(w.clean, x) is Some == holds_id(w.clean, x));
    assert(entry_of(v.clean, x) is Some == holds_id(v.clean, x));
    assert(entry_of(w.pending, x) is Some == holds_id(w.pending, x));
    assert(entry_of(v.pending, x) is Some == holds_id(v.pending, x));
    if exists|j: int| 0 <= j < all.len() && #[trigger] all[j] == x && !held[j] {
        let j = choose|j: int| 0 <= j < all.len() && #[trigger] all[j] == x && !held[j];
        assert(all[j] == x && held[j] == false);
    }
}

/// What a lookup counts: a request each time, and a hit or a miss.
pub proof fn law_lookups_are_counted(v: CacheView)
    ensures
        v.asked().stats == (CacheStats {
            requested: v.stats.requested.wrapping_add(1),
            ..v.stats
        }),
        v.hit().stats == (CacheStats { hits: v.stats.hits.wrapping_add(1), ..v.stats }),
        v.missed().stats == (CacheStats { misses: v.stats.misses.wrapping_add(1), ..v.stats }),
        v.asked().count() == v.count() && v.hit().count() == v.count() && v.missed().count()
            == v.count(),
{
}

/// What the sweep of a single node counts: one freed where it goes, one spared where it was used, and
/// nothing where it is bound.
pub proof fn law_sweep_is_counted(v: CacheView)
    requires
        v.wf(),
        v.clean.len() > 64,
    ensures
        ({
            let e = v.clean[0];
            let o = v.stats;
            let n = v.shrunk(1).stats;
            if e.pin_count > 0 || e.node.flags.will_make_reachable {
                n == o
            } else if e.accessed {
                n == (CacheStats {
                    not_freed_access_bit: o.not_freed_access_bit.wrapping_add(1),
                    ..o
                })
            } else {
                n == (CacheStats {
                    freed: o.freed.wrapping_add(1),
                    self_reclaim: o.self_reclaim.wrapping_add(1),
                    evicted_size: o.evicted_size.wrapping_add((8 * e.node.total()) as u64),
                    ..o
                })
            }
        }),
        v.shrunk(1).nr_live == v.shrunk(1).clean.len() + v.dirty.len() + v.pending.len(),
        v.shrunk(1).nr_dirty == v.nr_dirty,
{
    reveal_with_fuel(CacheView::swept, 2);
    lemma_swept(v, 0, 1);
}

/// A node that was loaded is found; dirty nodes and those on their way to be written stay, and a clean
/// one at most leaves.
pub proof fn law_loaded_node_is_found(
    v: CacheView,
    o: CacheView,
    memory_pressure_high: bool,
    id: u64,
    node: BtreeNode,
)
    requires
        o.wf(),
        o.node(id) is None,
        v.loaded(o, memory_pressure_high, id, node),
    ensures
        v.node(id) == Some(node),
        v.dirty == o.dirty,
        v.pending == o.pending,
        v.clean.last().id == id,
        v.clean.last().accessed,
        v.clean.last().pin_count == 0,
        !memory_pressure_high && o.clean.len() < 960 ==> v.clean.drop_last() == o.clean,
{
    let q = o.relieved(memory_pressure_high);
    let m = choose|m: CacheView| #[trigger] m.roomy(q) && v == m.with_clean(id, node);
    let n = o.sweep_len(64);
    let e = CacheEntry { id, node: Arc::new(node), accessed: true, pin_count: 0 };
    lemma_swept(o, 0, n);
    lemma_swept_ids(o, 0, n, id);
    lemma_roomy(m, q);
    if q.clean.len() >= MAX_CLEAN {
        let i = choose|i: int| #[trigger] crate::cache::victim(q.clean, i) && m == q.evicted(i);
        lemma_removed(q.clean, i);
    }
    lemma_entry_pushed(m.clean, e, id);
    assert(v.clean.last() == e);
    assert(v.clean.drop_last() =~= m.clean);
    assert(entry_of(v.clean, id) is Some == holds_id(v.clean, id));
}

/// Nodes that are pinned or about to become reachable are spared by every sweep.
pub proof fn law_sweep_spares_pinned(v: CacheView, target: int, i: int)
    requires
        v.wf(),
        0 <= target,
        0 <= i < v.clean.len(),
        v.clean[i].pin_count > 0 || v.clean[i].node.flags.will_make_reachable
            || v.clean[i].accessed,
    ensures
        holds_id(v.shrunk(target).clean, v.clean[i].id),
{
    law_sweep_spares_used(v, target, i);
}

/// Where room is made for a node, no node goes that is pinned, interior or about to become reachable,
/// as long as there is a leaf that is none of these; where there is none, the one that was not used
/// for longest goes.
pub proof fn law_who_makes_room(m: CacheView, o: CacheView, i: int, j: int)
    requires
        o.wf(),
        m.roomy(o),
        o.clean.len() == 1024,
        0 <= i < o.clean.len(),
        0 <= j < o.clean.len(),
    ensures
        o.clean[j].node.level == 0 && o.clean[j].pin_count == 0
            && !o.clean[j].node.flags.will_make_reachable && (o.clean[i].node.level > 0
            || o.clean[i].pin_count > 0 || o.clean[i].node.flags.will_make_reachable)
            ==> holds_id(m.clean, o.clean[i].id),
        (forall|x: int|
            0 <= x < o.clean.len() ==> (#[trigger] o.clean[x]).node.level > 0
                || o.clean[x].pin_count > 0 || o.clean[x].node.flags.will_make_reachable)
            ==> m.clean == o.clean.remove(0),
{
    if o.clean[j].node.level == 0 && o.clean[j].pin_count == 0
        && !o.clean[j].node.flags.will_make_reachable && (o.clean[i].node.level > 0
        || o.clean[i].pin_count > 0 || o.clean[i].node.flags.will_make_reachable) {
        assert(crate::cache::evictable_leaf(o.clean[j]));
        law_leaves_go_first(m, o, i);
    }
    if forall|x: int|
        0 <= x < o.clean.len() ==> (#[trigger] o.clean[x]).node.level > 0 || o.clean[x].pin_count
            > 0 || o.clean[x].node.flags.will_make_reachable {
        let k = choose|k: int| #[trigger] crate::cache::victim(o.clean, k) && m == o.evicted(k);
        assert(forall|x: int|
            0 <= x < o.clean.len() ==> !crate::cache::evictable_leaf(#[trigger] o.clean[x]));
        assert(k == 0);
    }
}

} // verus!
