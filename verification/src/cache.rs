//! The cache of nodes: clean ones in the order of their last use, dirty ones, and those that await
//! their write.

use crate::evicted::{with_size, EvictedSizeTable};
use crate::node::BtreeNode;
use std::sync::Arc;
use vstd::prelude::*;

verus! {

/// Clean nodes that are kept at most.
pub const MAX_CLEAN: usize = 1024;

/// Dirty nodes from which on they are handed over to be written.
pub const MAX_DIRTY: usize = 256;

/// Another handle of the same node, by `Arc::clone`: it refers to the same value.
#[verifier::external_body]
pub(crate) fn share(node: &Arc<BtreeNode>) -> (r: Arc<BtreeNode>)
    ensures
        r == *node,
{
    Arc::clone(node)
}

/// How many handles of the node there are, by `Arc::strong_count`. Who else holds one is not up to
/// the cache, so nothing is claimed of the number.
#[verifier::external_body]
pub(crate) fn handles(node: &Arc<BtreeNode>) -> (r: usize) {
    Arc::strong_count(node)
}

/// A node in the cache.
#[derive(Debug)]
pub struct CacheEntry {
    pub id: u64,
    pub node: Arc<BtreeNode>,
    /// The node was used since the last sweep.
    pub accessed: bool,
    /// Pins that keep the node in the cache.
    pub pin_count: u32,
}

/// What the cache counts; all counts wrap around.
#[derive(Debug, Clone, Copy, PartialEq, Eq, Structural)]
pub struct CacheStats {
    pub hits: u64,
    pub misses: u64,
    pub requested: u64,
    pub freed: u64,
    pub self_reclaim: u64,
    pub not_freed_access_bit: u64,
    /// Bytes of all nodes that were evicted.
    pub evicted_size: u64,
}

/// The cache of nodes.
#[derive(Debug)]
pub struct BtreeCache {
    /// The one that was not used for longest comes first.
    pub clean: Vec<CacheEntry>,
    pub dirty: Vec<CacheEntry>,
    pub pending_flush: Vec<CacheEntry>,
    /// Replaced versions that leave the cache as soon as nobody else holds them.
    pub retire_queue: Vec<u64>,
    pub nr_dirty: usize,
    pub nr_live: usize,
    pub should_throttle: bool,
    pub evicted_sizes: EvictedSizeTable,
    pub stats: CacheStats,
    /// Writes of nodes on their way.
    pub nr_in_flight_inner: usize,
    pub cannibalize_waiting: bool,
    pub cannibalize_in_progress: bool,
}

/// What a cache holds.
#[verifier::ext_equal]
pub struct CacheView {
    pub clean: Seq<CacheEntry>,
    pub dirty: Seq<CacheEntry>,
    pub pending: Seq<CacheEntry>,
    pub retire_queue: Seq<u64>,
    pub nr_dirty: usize,
    pub nr_live: usize,
    pub should_throttle: bool,
    pub sizes: Seq<u64>,
    pub stats: CacheStats,
    pub in_flight: usize,
    pub waiting: bool,
    pub cannibalizing: bool,
}

impl View for BtreeCache {
    type V = CacheView;

    open spec fn view(&self) -> CacheView {
        CacheView {
            clean: self.clean@,
            dirty: self.dirty@,
            pending: self.pending_flush@,
            retire_queue: self.retire_queue@,
            nr_dirty: self.nr_dirty,
            nr_live: self.nr_live,
            should_throttle: self.should_throttle,
            sizes: self.evicted_sizes@,
            stats: self.stats,
            in_flight: self.nr_in_flight_inner,
            waiting: self.cannibalize_waiting,
            cannibalizing: self.cannibalize_in_progress,
        }
    }
}

/// One of the entries is that of the node.
pub open spec fn holds_id(s: Seq<CacheEntry>, id: u64) -> bool {
    exists|i: int| 0 <= i < s.len() && (#[trigger] s[i]).id == id
}

/// The place of the entry of a node.
pub open spec fn place_of(s: Seq<CacheEntry>, id: u64) -> int {
    choose|i: int| 0 <= i < s.len() && (#[trigger] s[i]).id == id
}

/// No node has two entries.
pub open spec fn distinct(s: Seq<CacheEntry>) -> bool {
    forall|i: int, j: int| 0 <= i < j < s.len() ==> (#[trigger] s[i]).id != (#[trigger] s[j]).id
}

pub open spec fn nodes_ok(s: Seq<CacheEntry>) -> bool {
    forall|i: int| 0 <= i < s.len() ==> (#[trigger] s[i]).node.wf()
}

/// The entries without that of a node.
pub open spec fn without_id(s: Seq<CacheEntry>, id: u64) -> Seq<CacheEntry> {
    if holds_id(s, id) {
        s.remove(place_of(s, id))
    } else {
        s
    }
}

/// The entry, marked as used.
pub open spec fn used(e: CacheEntry) -> CacheEntry {
    CacheEntry { accessed: true, ..e }
}

/// The entries, that of a node marked as used.
pub open spec fn touched(s: Seq<CacheEntry>, id: u64) -> Seq<CacheEntry> {
    s.update(place_of(s, id), used(s[place_of(s, id)]))
}

/// The entries with `e` in place of that of its node.
pub open spec fn with_entry(s: Seq<CacheEntry>, e: CacheEntry) -> Seq<CacheEntry> {
    if holds_id(s, e.id) {
        s.update(place_of(s, e.id), e)
    } else {
        s.push(e)
    }
}

/// The entries with those of `t` in place of those of their nodes.
pub open spec fn with_entries(s: Seq<CacheEntry>, t: Seq<CacheEntry>) -> Seq<CacheEntry>
    decreases t.len(),
{
    if t.len() == 0 {
        s
    } else {
        with_entry(with_entries(s, t.drop_last()), t.last())
    }
}

impl CacheView {
    pub open spec fn count(self) -> nat {
        self.clean.len() + self.dirty.len() + self.pending.len()
    }

    pub open spec fn wf(self) -> bool {
        &&& distinct(self.clean) && nodes_ok(self.clean)
        &&& distinct(self.dirty) && nodes_ok(self.dirty)
        &&& distinct(self.pending) && nodes_ok(self.pending)
        &&& self.clean.len() <= MAX_CLEAN
        &&& self.dirty.len() < MAX_DIRTY
        &&& forall|i: int, j: int|
            0 <= i < self.clean.len() && 0 <= j < self.dirty.len() ==> (
            #[trigger] self.clean[i]).id != (#[trigger] self.dirty[j]).id
        &&& self.count() <= usize::MAX
        &&& self.sizes.len() == crate::evicted::EVICTED_SIZE_MIN_SLOTS
    }

    /// The node with number `id`.
    pub open spec fn node(self, id: u64) -> Option<BtreeNode> {
        if holds_id(self.dirty, id) {
            Some(*self.dirty[place_of(self.dirty, id)].node)
        } else if holds_id(self.pending, id) {
            Some(*self.pending[place_of(self.pending, id)].node)
        } else if holds_id(self.clean, id) {
            Some(*self.clean[place_of(self.clean, id)].node)
        } else {
            None
        }
    }

    /// The cache with all its nodes counted.
    pub open spec fn counted(self) -> CacheView {
        CacheView {
            nr_dirty: (self.dirty.len() + self.pending.len()) as usize,
            nr_live: self.count() as usize,
            ..self
        }
    }

    /// The cache with its live nodes counted.
    pub open spec fn live_counted(self) -> CacheView {
        CacheView { nr_live: self.count() as usize, ..self }
    }

    /// Where there are too many dirty nodes, they await their write.
    pub open spec fn drained(self) -> CacheView {
        if self.dirty.len() >= MAX_DIRTY {
            let pending = with_entries(self.pending, self.dirty);
            CacheView {
                dirty: Seq::empty(),
                pending,
                nr_dirty: pending.len() as usize,
                nr_live: (self.clean.len() + pending.len()) as usize,
                ..self
            }
        } else {
            self
        }
    }
}

/// The node of an entry is a leaf that nothing keeps in the cache.
pub open spec fn evictable_leaf(e: CacheEntry) -> bool {
    e.node.level == 0 && !e.node.flags.will_make_reachable && e.pin_count == 0
}

/// The entry that goes first: the first leaf that nothing keeps, else the first of all.
pub open spec fn victim(s: Seq<CacheEntry>, i: int) -> bool {
    &&& 0 <= i < s.len()
    &&& if exists|j: int| 0 <= j < s.len() && evictable_leaf(#[trigger] s[j]) {
        evictable_leaf(s[i]) && forall|j: int| 0 <= j < i ==> !evictable_leaf(#[trigger] s[j])
    } else {
        i == 0
    }
}

/// The words that a node takes.
pub open spec fn node_words(n: BtreeNode) -> u16 {
    n.total() as u16
}

impl CacheView {
    /// The cache after the clean entry `i` was evicted: its size is noted.
    pub open spec fn evicted(self, i: int) -> CacheView {
        let e = self.clean[i];
        CacheView {
            clean: self.clean.remove(i),
            sizes: with_size(self.sizes, e.id, node_words(*e.node)),
            stats: CacheStats {
                evicted_size: self.stats.evicted_size.wrapping_add((8 * e.node.total()) as u64),
                ..self.stats
            },
            ..self
        }
    }

    /// The cache with room for one more clean node.
    pub open spec fn roomy(self, o: CacheView) -> bool {
        if o.clean.len() < MAX_CLEAN {
            self == o
        } else {
            exists|i: int| #[trigger] victim(o.clean, i) && self == o.evicted(i)
        }
    }
}

/// The place of a node's entry is the only one with its number.
pub proof fn lemma_place(s: Seq<CacheEntry>, i: int)
    requires
        distinct(s),
        0 <= i < s.len(),
    ensures
        holds_id(s, s[i].id),
        place_of(s, s[i].id) == i,
{
    let j = place_of(s, s[i].id);
    assert(0 <= j < s.len() && s[j].id == s[i].id);
}

pub proof fn lemma_removed(s: Seq<CacheEntry>, i: int)
    requires
        distinct(s),
        0 <= i < s.len(),
    ensures
        distinct(s.remove(i)),
        nodes_ok(s) ==> nodes_ok(s.remove(i)),
        !holds_id(s.remove(i), s[i].id),
        forall|x: u64| x != s[i].id ==> holds_id(s.remove(i), x) == holds_id(s, x),
{
    let t = s.remove(i);
    assert forall|j: int| 0 <= j < t.len() implies t[j] == s[if j < i {
        j
    } else {
        j + 1
    }] by {}
    assert forall|x: u64| x != s[i].id && holds_id(s, x) implies holds_id(t, x) by {
        let j = place_of(s, x);
        if j < i {
            assert(t[j].id == x);
        } else {
            assert(t[j - 1].id == x);
        }
    }
}

pub proof fn lemma_pushed(s: Seq<CacheEntry>, e: CacheEntry)
    ensures
        distinct(s) && !holds_id(s, e.id) ==> distinct(s.push(e)),
        nodes_ok(s) && e.node.wf() ==> nodes_ok(s.push(e)),
        forall|x: u64| holds_id(s.push(e), x) <==> holds_id(s, x) || x == e.id,
{
    let t = s.push(e);
    assert(t[s.len() as int] == e);
    assert forall|x: u64| holds_id(s, x) implies holds_id(t, x) by {
        let j = place_of(s, x);
        assert(t[j].id == x);
    }
    assert forall|x: u64| holds_id(t, x) implies holds_id(s, x) || x == e.id by {
        let j = place_of(t, x);
        if j < s.len() {
            assert(s[j].id == x);
        }
    }
}

/// The place of a node's entry.
pub(crate) fn find(s: &Vec<CacheEntry>, id: u64) -> (r: Option<usize>)
    ensures
        match r {
            Some(i) => i < s@.len() && s@[i as int].id == id && holds_id(s@, id) && (distinct(s@)
                ==> i == place_of(s@, id)),
            None => !holds_id(s@, id),
        },
{
    let mut i: usize = 0;
    while i < s.len()
        invariant
            i <= s.len(),
            forall|j: int| 0 <= j < i ==> (#[trigger] s@[j]).id != id,
        decreases s.len() - i,
    {
        if s[i].id == id {
            proof {
                assert(s@[i as int].id == id);
                if distinct(s@) {
                    lemma_place(s@, i as int);
                }
            }
            return Some(i);
        }
        i += 1;
    }
    None
}

impl BtreeCache {
    /// An empty cache.
    pub fn new() -> (r: BtreeCache)
        ensures
            r@.wf(),
            r@.clean.len() == 0,
            r@.dirty.len() == 0,
            r@.pending.len() == 0,
            r@.retire_queue.len() == 0,
            r@.nr_dirty == 0,
            r@.nr_live == 0,
            !r@.should_throttle,
            r@.in_flight == 0,
            !r@.waiting,
            !r@.cannibalizing,
            r@.stats == (CacheStats {
                hits: 0,
                misses: 0,
                requested: 0,
                freed: 0,
                self_reclaim: 0,
                not_freed_access_bit: 0,
                evicted_size: 0,
            }),
            forall|i: int| 0 <= i < r@.sizes.len() ==> r@.sizes[i] == 0,
    {
        BtreeCache {
            clean: Vec::new(),
            dirty: Vec::new(),
            pending_flush: Vec::new(),
            retire_queue: Vec::new(),
            nr_dirty: 0,
            nr_live: 0,
            should_throttle: false,
            evicted_sizes: EvictedSizeTable::with_min_capacity(),
            stats: CacheStats {
                hits: 0,
                misses: 0,
                requested: 0,
                freed: 0,
                self_reclaim: 0,
                not_freed_access_bit: 0,
                evicted_size: 0,
            },
            nr_in_flight_inner: 0,
            cannibalize_waiting: false,
            cannibalize_in_progress: false,
        }
    }

    /// The node with number `node_id`; its last use stays what it was.
    pub fn get(&self, node_id: u64) -> (r: Option<Arc<BtreeNode>>)
        requires
            self@.wf(),
        ensures
            match r {
                Some(n) => self@.node(node_id) == Some(*n),
                None => self@.node(node_id) is None,
            },
    {
        match find(&self.dirty, node_id) {
            Some(i) => {
                return Some(share(&self.dirty[i].node));
            },
            None => {},
        }
        match find(&self.pending_flush, node_id) {
            Some(i) => {
                return Some(share(&self.pending_flush[i].node));
            },
            None => {},
        }
        match find(&self.clean, node_id) {
            Some(i) => Some(share(&self.clean[i].node)),
            None => None,
        }
    }

    /// The number of nodes.
    pub fn len(&self) -> (r: usize)
        requires
            self@.wf(),
        ensures
            r == self@.count(),
    {
        self.clean.len() + self.dirty.len() + self.pending_flush.len()
    }

    pub fn is_empty(&self) -> (r: bool)
        requires
            self@.wf(),
        ensures
            r == (self@.count() == 0),
    {
        self.len() == 0
    }

    /// Evicts the clean entry `i`.
    fn evict_at(&mut self, i: usize)
        requires
            old(self)@.wf(),
            i < old(self)@.clean.len(),
        ensures
            final(self)@ == old(self)@.evicted(i as int),
            final(self)@.wf(),
    {
        proof {
            lemma_removed(self.clean@, i as int);
        }
        let e: CacheEntry = self.clean.remove(i);
        let size: u32 = e.node.total_data_bytes();
        proof {
            self.evicted_sizes.lemma_min_slots();
        }
        self.evicted_sizes.record(e.id, (size / 8) as u16);
        self.stats.evicted_size = self.stats.evicted_size.wrapping_add(size as u64);
    }

    /// Makes room for one more clean node: where there is none, the first leaf that nothing keeps
    /// goes, or else the node that was not used for longest.
    pub(crate) fn make_room(&mut self)
        requires
            old(self)@.wf(),
        ensures
            final(self)@.roomy(old(self)@),
            final(self)@.wf(),
            final(self)@.clean.len() < MAX_CLEAN,
    {
        if self.clean.len() < MAX_CLEAN {
            return;
        }
        let mut i: usize = 0;
        while i < self.clean.len() && !(self.clean[i].node.level == 0
            && !self.clean[i].node.flags.will_make_reachable && self.clean[i].pin_count == 0)
            invariant
                i <= self.clean.len(),
                forall|j: int| 0 <= j < i ==> !evictable_leaf(#[trigger] self.clean@[j]),
            decreases self.clean.len() - i,
        {
            i += 1;
        }
        if i == self.clean.len() {
            i = 0;
        }
        assert(victim(self.clean@, i as int));
        self.evict_at(i);
    }
}

/// Clean nodes that a sweep leaves at least.
pub const MIN_KEEP: usize = 64;

/// Entries that are swept ahead of need.
pub const PREEMPTIVE_SHRINK_SCAN_BUDGET: usize = 64;

/// Nothing may take the node of an entry out of the cache.
pub open spec fn bound(e: CacheEntry) -> bool {
    e.node.flags.will_make_reachable || e.pin_count > 0
}

impl CacheView {
    /// The next `left` clean entries from `from` on are swept: one that was used loses that mark,
    /// and one without the mark is evicted, unless it is bound.
    pub open spec fn swept(self, from: int, left: int) -> CacheView
        decreases left,
    {
        if left <= 0 {
            self
        } else {
            let e = self.clean[from];
            if bound(e) {
                self.swept(from + 1, left - 1)
            } else if e.accessed {
                CacheView {
                    clean: self.clean.update(from, CacheEntry { accessed: false, ..e }),
                    stats: CacheStats {
                        not_freed_access_bit: self.stats.not_freed_access_bit.wrapping_add(1),
                        ..self.stats
                    },
                    ..self
                }.swept(from + 1, left - 1)
            } else {
                let v = self.evicted(from);
                CacheView {
                    stats: CacheStats {
                        freed: v.stats.freed.wrapping_add(1),
                        self_reclaim: v.stats.self_reclaim.wrapping_add(1),
                        ..v.stats
                    },
                    ..v
                }.swept(from, left - 1)
            }
        }
    }

    /// Entries that a sweep for `target` nodes looks at.
    pub open spec fn sweep_len(self, target: int) -> int {
        let spare = if self.clean.len() > MIN_KEEP {
            self.clean.len() - MIN_KEEP
        } else {
            0
        };
        if target < spare {
            target
        } else {
            spare
        }
    }

    /// The cache after a sweep for `target` nodes.
    pub open spec fn shrunk(self, target: int) -> CacheView {
        if self.sweep_len(target) == 0 {
            self
        } else {
            self.swept(0, self.sweep_len(target)).live_counted()
        }
    }
}

/// A sweep takes away no more entries than it looks at, and leaves the others as they are.
pub proof fn lemma_swept(v: CacheView, from: int, left: int)
    requires
        v.wf(),
        0 <= from,
        0 <= left,
        from + left <= v.clean.len(),
    ensures
        v.swept(from, left).wf(),
        v.clean.len() - left <= v.swept(from, left).clean.len() <= v.clean.len(),
        v.swept(from, left).dirty == v.dirty,
        v.swept(from, left).pending == v.pending,
    decreases left,
{
    if left > 0 {
        let e = v.clean[from];
        if bound(e) {
            lemma_swept(v, from + 1, left - 1);
        } else if e.accessed {
            let w = CacheView {
                clean: v.clean.update(from, CacheEntry { accessed: false, ..e }),
                stats: CacheStats {
                    not_freed_access_bit: v.stats.not_freed_access_bit.wrapping_add(1),
                    ..v.stats
                },
                ..v
            };
            lemma_updated(v.clean, from, CacheEntry { accessed: false, ..e });
            lemma_swept(w, from + 1, left - 1);
        } else {
            let x = v.evicted(from);
            let w = CacheView {
                stats: CacheStats {
                    freed: x.stats.freed.wrapping_add(1),
                    self_reclaim: x.stats.self_reclaim.wrapping_add(1),
                    ..x.stats
                },
                ..x
            };
            lemma_removed(v.clean, from);
            lemma_swept(w, from, left - 1);
        }
    }
}

/// The entry of a node is exchanged for another one of the same node.
pub proof fn lemma_updated(s: Seq<CacheEntry>, i: int, e: CacheEntry)
    requires
        0 <= i < s.len(),
        s[i].id == e.id,
    ensures
        distinct(s) ==> distinct(s.update(i, e)),
        nodes_ok(s) && e.node.wf() ==> nodes_ok(s.update(i, e)),
        forall|x: u64| holds_id(s.update(i, e), x) == holds_id(s, x),
{
    let t = s.update(i, e);
    assert forall|j: int| 0 <= j < s.len() implies (#[trigger] t[j]).id == s[j].id by {}
    assert forall|x: u64| holds_id(t, x) == holds_id(s, x) by {
        if holds_id(s, x) {
            let j = place_of(s, x);
            assert(t[j].id == x);
        }
        if holds_id(t, x) {
            let j = place_of(t, x);
            assert(s[j].id == x);
        }
    }
}

impl BtreeCache {
    /// Takes up to `target` clean nodes out of the cache, and leaves at least a minimum: the nodes
    /// that were not used for longest are swept, and one that was used since the last sweep gets
    /// another chance. Gives the number of nodes that went.
    pub fn shrink(&mut self, target: usize) -> (r: usize)
        requires
            old(self)@.wf(),
        ensures
            final(self)@ == old(self)@.shrunk(target as int),
            final(self)@.wf(),
            r == old(self)@.clean.len() - final(self)@.clean.len(),
            r <= target,
            old(self)@.clean.len() >= MIN_KEEP ==> final(self)@.clean.len() >= MIN_KEEP,
            old(self)@.clean.len() < MIN_KEEP ==> r == 0,
    {
        let spare: usize = if self.clean.len() > MIN_KEEP {
            self.clean.len() - MIN_KEEP
        } else {
            0
        };
        let n: usize = if target < spare {
            target
        } else {
            spare
        };
        if n == 0 {
            return 0;
        }
        let ghost o = self@;
        proof {
            lemma_swept(o, 0, n as int);
        }
        let mut at: usize = 0;
        let mut left: usize = n;
        let mut freed: usize = 0;
        while left > 0
            invariant
                self@.wf(),
                at + left <= self@.clean.len(),
                self@.swept(at as int, left as int) == o.swept(0, n as int),
                freed + left <= n,
                freed == o.clean.len() - self@.clean.len(),
            decreases left,
        {
            let ghost v = self@;
            let ghost e = self.clean@[at as int];
            if self.clean[at].node.flags.will_make_reachable || self.clean[at].pin_count > 0 {
                at += 1;
            } else if self.clean[at].accessed {
                self.clean[at].accessed = false;
                self.stats.not_freed_access_bit = self.stats.not_freed_access_bit.wrapping_add(1);
                proof {
                    lemma_updated(v.clean, at as int, CacheEntry { accessed: false, ..e });
                    assert(self.clean@ =~= v.clean.update(
                        at as int,
                        CacheEntry { accessed: false, ..e },
                    ));
                }
                at += 1;
            } else {
                self.evict_at(at);
                self.stats.freed = self.stats.freed.wrapping_add(1);
                self.stats.self_reclaim = self.stats.self_reclaim.wrapping_add(1);
                freed += 1;
            }
            left -= 1;
        }
        self.nr_live = self.len();
        freed
    }

    /// Takes one clean node out of the cache, if the first one may go.
    pub fn shrink_one(&mut self) -> (r: bool)
        requires
            old(self)@.wf(),
        ensures
            final(self)@ == old(self)@.shrunk(1),
            final(self)@.wf(),
            r == (final(self)@.clean.len() < old(self)@.clean.len()),
    {
        self.shrink(1) > 0
    }

    /// Whether clean nodes are swept ahead of need: where memory is short, or nearly as many as
    /// are kept are in the cache.
    pub fn should_preemptive_shrink_from(clean_len: usize, memory_pressure_high: bool) -> (r: bool)
        ensures
            r == (memory_pressure_high || clean_len + PREEMPTIVE_SHRINK_SCAN_BUDGET >= MAX_CLEAN),
    {
        memory_pressure_high || clean_len >= MAX_CLEAN - PREEMPTIVE_SHRINK_SCAN_BUDGET
    }
}

impl Default for BtreeCache {
    fn default() -> (r: BtreeCache)
        ensures
            r@.wf(),
            r@.count() == 0,
    {
        BtreeCache::new()
    }
}

} // verus!
