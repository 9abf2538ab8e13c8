//! What the cache of nodes does where room, memory or writes are short; and its counts as text.

use crate::cache::{
    find, holds_id, lemma_removed, lemma_updated, place_of, with_entry, BtreeCache, CacheEntry,
    CacheView,
};
use crate::cache_ops::{
    entry_of, lemma_entry_put, lemma_entry_removed, lemma_entry_updated, lemma_with_entry, put_entry,
};
use crate::cache::share;
use crate::node::{BtreeNode, DEFAULT_NODE_SIZE};
use crate::text::{decimal, has_part, has_parts, lemma_parts_grow, push_decimal};
use std::sync::Arc;
use vstd::prelude::*;
use vstd::string::StringExecFns;

verus! {

/// Writes on their way from which on new ones have to wait.
pub const BTREE_WRITE_IO_LIMIT: usize = 64;

pub const BTREE_SPLIT_THRESHOLD: usize = 3;

pub const BTREE_FOREGROUND_MERGE_THRESHOLD: usize = 1;

pub const BTREE_FOREGROUND_MERGE_HIGHER: usize = 3;

pub const BTREE_FOREGROUND_MERGE_HYSTERESIS: usize = 2;

/// The entries, that of a node with `n` pins.
pub open spec fn repinned(s: Seq<CacheEntry>, id: u64, n: int) -> Seq<CacheEntry> {
    let i = place_of(s, id);
    s.update(i, CacheEntry { pin_count: n as u32, ..s[i] })
}

impl CacheView {
    /// The pins of a node.
    pub open spec fn pins(self, id: u64) -> Option<u32> {
        if holds_id(self.dirty, id) {
            Some(self.dirty[place_of(self.dirty, id)].pin_count)
        } else if holds_id(self.pending, id) {
            Some(self.pending[place_of(self.pending, id)].pin_count)
        } else if holds_id(self.clean, id) {
            Some(self.clean[place_of(self.clean, id)].pin_count)
        } else {
            None
        }
    }

    /// A node of the cache has `n` pins.
    pub open spec fn with_pins(self, id: u64, n: int) -> CacheView {
        if holds_id(self.dirty, id) {
            CacheView { dirty: repinned(self.dirty, id, n), ..self }
        } else if holds_id(self.pending, id) {
            CacheView { pending: repinned(self.pending, id, n), ..self }
        } else if holds_id(self.clean, id) {
            CacheView { clean: repinned(self.clean, id, n), ..self }
        } else {
            self
        }
    }

    /// New writes have to wait: too many are on their way, or more than three quarters of the
    /// nodes are dirty.
    pub open spec fn throttled(self) -> bool {
        self.in_flight > BTREE_WRITE_IO_LIMIT || (self.nr_live > 0 && self.nr_dirty > self.nr_live
            as int * 3 / 4)
    }

    /// Whether new writes have to wait is determined anew.
    pub open spec fn recalculated(self) -> CacheView {
        CacheView { should_throttle: self.throttled(), ..self }
    }

    /// The first dirty node is handed over to be written.
    pub open spec fn first_handed_over(self) -> CacheView {
        if self.dirty.len() == 0 {
            self
        } else {
            CacheView {
                dirty: self.dirty.remove(0),
                pending: with_entry(self.pending, self.dirty[0]),
                nr_dirty: (self.dirty.len() - 1 + self.pending.len()) as usize,
                ..self
            }
        }
    }
}

/// Gives the entry `i` of a list `n` pins.
fn set_pins(s: &mut Vec<CacheEntry>, i: usize, n: u32)
    requires
        i < old(s)@.len(),
    ensures
        final(s)@ == old(s)@.update(
            i as int,
            CacheEntry { pin_count: n, ..old(s)@[i as int] },
        ),
{
    let ghost o = s@;
    s[i].pin_count = n;
    assert(s@ =~= o.update(i as int, CacheEntry { pin_count: n, ..o[i as int] }));
}

impl BtreeCache {
    /// Gives a node `n` pins.
    fn put_pins(&mut self, node_id: u64, n: u32)
        requires
            old(self)@.wf(),
        ensures
            final(self)@ == old(self)@.with_pins(node_id, n as int),
            final(self)@.wf(),
    {
        let ghost o = self@;
        match find(&self.dirty, node_id) {
            Some(i) => {
                proof {
                    lemma_updated(
                        o.dirty,
                        i as int,
                        CacheEntry { pin_count: n, ..o.dirty[i as int] },
                    );
                }
                set_pins(&mut self.dirty, i, n);
                assert forall|a: int, b: int|
                    0 <= a < self@.clean.len() && 0 <= b < self@.dirty.len() implies (
                #[trigger] self@.clean[a]).id != (#[trigger] self@.dirty[b]).id by {
                    assert(o.clean[a].id != o.dirty[b].id);
                }
                return;
            },
            None => {},
        }
        match find(&self.pending_flush, node_id) {
            Some(i) => {
                proof {
                    lemma_updated(
                        o.pending,
                        i as int,
                        CacheEntry { pin_count: n, ..o.pending[i as int] },
                    );
                }
                set_pins(&mut self.pending_flush, i, n);
                return;
            },
            None => {},
        }
        match find(&self.clean, node_id) {
            Some(i) => {
                proof {
                    lemma_updated(
                        o.clean,
                        i as int,
                        CacheEntry { pin_count: n, ..o.clean[i as int] },
                    );
                }
                set_pins(&mut self.clean, i, n);
                assert forall|a: int, b: int|
                    0 <= a < self@.clean.len() && 0 <= b < self@.dirty.len() implies (
                #[trigger] self@.clean[a]).id != (#[trigger] self@.dirty[b]).id by {
                    assert(o.clean[a].id != o.dirty[b].id);
                }
            },
            None => {},
        }
    }

    /// The pins of a node.
    pub fn pin_count(&self, node_id: u64) -> (r: Option<u32>)
        requires
            self@.wf(),
        ensures
            r == self@.pins(node_id),
    {
        match find(&self.dirty, node_id) {
            Some(i) => {
                return Some(self.dirty[i].pin_count);
            },
            None => {},
        }
        match find(&self.pending_flush, node_id) {
            Some(i) => {
                return Some(self.pending_flush[i].pin_count);
            },
            None => {},
        }
        match find(&self.clean, node_id) {
            Some(i) => Some(self.clean[i].pin_count),
            None => None,
        }
    }

    /// Pins a node of the cache, so that no sweep takes it out.
    pub fn bch2_node_pin(&mut self, node_id: u64)
        requires
            old(self)@.wf(),
            old(self)@.pins(node_id) is Some ==> old(self)@.pins(node_id)->0 < u32::MAX,
        ensures
            final(self)@.wf(),
            match old(self)@.pins(node_id) {
                Some(n) => final(self)@ == old(self)@.with_pins(node_id, n + 1),
                None => final(self)@ == old(self)@,
            },
    {
        match self.pin_count(node_id) {
            Some(n) => {
                self.put_pins(node_id, n + 1);
            },
            None => {},
        }
    }

    /// Takes one pin off a node. A node that is not in the cache is passed over.
    pub fn bch2_btree_cache_unpin(&mut self, node_id: u64)
        requires
            old(self)@.wf(),
            old(self)@.pins(node_id) is Some ==> old(self)@.pins(node_id)->0 > 0,
        ensures
            final(self)@.wf(),
            match old(self)@.pins(node_id) {
                Some(n) => final(self)@ == old(self)@.with_pins(node_id, n - 1),
                None => final(self)@ == old(self)@,
            },
    {
        match self.pin_count(node_id) {
            Some(n) => {
                self.put_pins(node_id, n - 1);
            },
            None => {},
        }
    }

    /// Asks for the lock under which nodes are taken from others; `depth` is how often the caller
    /// holds it. Says whether the caller has to wait. A caller that holds it already goes on
    /// without.
    pub fn bch2_btree_cache_cannibalize_lock(&mut self, depth: &mut u32) -> (r: bool)
        ensures
            ({
                let o = old(self)@;
                if *old(depth) > 0 {
                    !r && *final(depth) == *old(depth) && final(self)@ == o
                } else if o.cannibalizing {
                    r && *final(depth) == 1 && final(self)@ == CacheView { waiting: true, ..o }
                } else {
                    !r && *final(depth) == 1 && final(self)@ == CacheView {
                        cannibalizing: true,
                        ..o
                    }
                }
            }),
            old(self)@.wf() ==> final(self)@.wf(),
    {
        if *depth > 0 {
            return false;
        }
        *depth = 1;
        if self.cannibalize_in_progress {
            self.cannibalize_waiting = true;
            return true;
        }
        self.cannibalize_in_progress = true;
        false
    }

    /// Gives that lock back.
    pub fn bch2_btree_cache_cannibalize_unlock(&mut self, depth: &mut u32)
        ensures
            *final(depth) == if *old(depth) > 0 {
                *old(depth) - 1
            } else {
                0
            },
            final(self)@ == (CacheView { cannibalizing: false, waiting: false, ..old(self)@ }),
            old(self)@.wf() ==> final(self)@.wf(),
    {
        if *depth > 0 {
            *depth = *depth - 1;
        }
        self.cannibalize_in_progress = false;
        self.cannibalize_waiting = false;
    }

    /// Takes a clean node out of the cache, if the first one may go.
    pub fn try_cannibalize_phase1(&mut self) -> (r: bool)
        requires
            old(self)@.wf(),
        ensures
            final(self)@ == old(self)@.shrunk(1),
            final(self)@.wf(),
            r == (final(self)@.clean.len() < old(self)@.clean.len()),
    {
        self.shrink_one()
    }

    /// Hands the first dirty node over to be written.
    pub fn try_cannibalize_phase2(&mut self) -> (r: Option<(u64, Arc<BtreeNode>)>)
        requires
            old(self)@.wf(),
        ensures
            final(self)@ == old(self)@.first_handed_over(),
            final(self)@.wf(),
            match r {
                Some(p) => old(self)@.dirty.len() > 0 && p.0 == old(self)@.dirty[0].id && p.1
                    == old(self)@.dirty[0].node,
                None => old(self)@.dirty.len() == 0,
            },
    {
        if self.dirty.len() == 0 {
            return None;
        }
        let ghost o = self@;
        proof {
            lemma_removed(o.dirty, 0);
            lemma_with_entry(o.pending, o.dirty[0]);
        }
        let e: CacheEntry = self.dirty.remove(0);
        self.nr_dirty = self.dirty.len() + self.pending_flush.len();
        let id: u64 = e.id;
        let node: Arc<BtreeNode> = share(&e.node);
        put_entry(&mut self.pending_flush, e);
        proof {
            assert forall|a: int, b: int|
                0 <= a < self@.clean.len() && 0 <= b < self@.dirty.len() implies (
            #[trigger] self@.clean[a]).id != (#[trigger] self@.dirty[b]).id by {
                assert(self@.dirty[b] == o.dirty[b + 1]);
                assert(o.clean[a].id != o.dirty[b + 1].id);
            }
        }
        Some((id, node))
    }

    /// Makes room for a node: a clean one goes, or else a dirty one is handed over to be written,
    /// or else the lock is asked for. Says whether the caller has to wait.
    pub fn try_cannibalize(&mut self, depth: &mut u32) -> (r: bool)
        requires
            old(self)@.wf(),
        ensures
            final(self)@.wf(),
            ({
                let s = old(self)@.shrunk(1);
                if s.clean.len() < old(self)@.clean.len() {
                    !r && final(self)@ == s && *final(depth) == *old(depth)
                } else if s.dirty.len() > 0 {
                    !r && final(self)@ == s.first_handed_over() && *final(depth) == *old(depth)
                } else if *old(depth) > 0 {
                    !r && final(self)@ == s && *final(depth) == *old(depth)
                } else if s.cannibalizing {
                    r && final(self)@ == CacheView { waiting: true, ..s } && *final(depth) == 1
                } else {
                    !r && final(self)@ == CacheView { cannibalizing: true, ..s } && *final(depth)
                        == 1
                }
            }),
    {
        if self.try_cannibalize_phase1() {
            return false;
        }
        if self.try_cannibalize_phase2().is_some() {
            return false;
        }
        self.bch2_btree_cache_cannibalize_lock(depth)
    }

    /// Determines anew whether new writes have to wait.
    pub fn bch2_recalc_btree_reserve(&mut self)
        ensures
            final(self)@ == old(self)@.recalculated(),
            old(self)@.wf() ==> final(self)@.wf(),
    {
        let limit: u128 = self.nr_live as u128 * 3 / 4;
        self.should_throttle = self.nr_in_flight_inner > BTREE_WRITE_IO_LIMIT || (self.nr_live > 0
            && self.nr_dirty as u128 > limit);
    }

    pub fn bch2_btree_cache_update_throttle(&mut self)
        ensures
            final(self)@ == old(self)@.recalculated(),
            old(self)@.wf() ==> final(self)@.wf(),
    {
        self.bch2_recalc_btree_reserve();
    }

    /// Whether new writes have to wait.
    pub fn bch2_btree_cache_should_throttle(&self) -> (r: bool)
        ensures
            r == self@.should_throttle,
    {
        self.should_throttle
    }

    /// A write begins.
    pub fn inc_in_flight(&mut self)
        ensures
            final(self)@ == (CacheView {
                in_flight: old(self)@.in_flight.wrapping_add(1),
                ..old(self)@
            }).recalculated(),
            old(self)@.wf() ==> final(self)@.wf(),
    {
        self.nr_in_flight_inner = self.nr_in_flight_inner.wrapping_add(1);
        self.bch2_recalc_btree_reserve();
    }

    /// A write is over.
    pub fn dec_in_flight(&mut self)
        ensures
            final(self)@ == (CacheView {
                in_flight: old(self)@.in_flight.wrapping_sub(1),
                ..old(self)@
            }).recalculated(),
            old(self)@.wf() ==> final(self)@.wf(),
    {
        self.nr_in_flight_inner = self.nr_in_flight_inner.wrapping_sub(1);
        self.bch2_recalc_btree_reserve();
    }

    /// Takes a clean node out of the cache, if the first one may go.
    pub fn btree_node_reclaim(&mut self) -> (r: bool)
        requires
            old(self)@.wf(),
        ensures
            final(self)@ == old(self)@.shrunk(1),
            final(self)@.wf(),
            r == (final(self)@.clean.len() < old(self)@.clean.len()),
    {
        self.shrink_one()
    }

    /// Whether memory is short: less than a quarter of it is left, and the nodes take more than a
    /// quarter of what is in use.
    pub fn system_memory_usage_high_from(
        available_bytes: u64,
        total_bytes: u64,
        live_nodes: usize,
        node_size: u64,
    ) -> (r: bool)
        ensures
            r == memory_high(
                available_bytes as int,
                total_bytes as int,
                live_nodes as int,
                node_size as int,
            ),
    {
        if total_bytes == 0 || available_bytes >= total_bytes / 4 {
            return false;
        }
        proof {
            assert(live_nodes as int * node_size as int <= u64::MAX * u64::MAX)
                by (nonlinear_arith)
                requires
                    live_nodes <= u64::MAX,
                    node_size <= u64::MAX,
            ;
            assert(0 <= live_nodes as int * node_size as int) by (nonlinear_arith);
        }
        let nodes: u128 = live_nodes as u128 * node_size as u128;
        nodes > ((total_bytes - available_bytes) / 4) as u128
    }

    /// Whether memory is short, going by what is left and what there is of it, in bytes. Where
    /// that is not known it is not.
    pub fn system_memory_usage_high(&self, snapshot: Option<(u64, u64)>) -> (r: bool)
        ensures
            r == match snapshot {
                Some(p) => memory_high(
                    p.0 as int,
                    p.1 as int,
                    self@.nr_live as int,
                    DEFAULT_NODE_SIZE as int,
                ),
                None => false,
            },
    {
        match snapshot {
            Some((available, total)) => BtreeCache::system_memory_usage_high_from(
                available,
                total,
                self.nr_live,
                DEFAULT_NODE_SIZE as u64,
            ),
            None => false,
        }
    }

    pub fn cache_hits(&self) -> (r: u64)
        ensures
            r == self@.stats.hits,
    {
        self.stats.hits
    }

    pub fn cache_misses(&self) -> (r: u64)
        ensures
            r == self@.stats.misses,
    {
        self.stats.misses
    }

    pub fn nr_live(&self) -> (r: usize)
        ensures
            r == self@.nr_live,
    {
        self.nr_live
    }

    pub fn nr_dirty(&self) -> (r: usize)
        ensures
            r == self@.nr_dirty,
    {
        self.nr_dirty
    }

    /// Bytes of all nodes that were evicted.
    pub fn total_evicted_size(&self) -> (r: u64)
        ensures
            r == self@.stats.evicted_size,
    {
        self.stats.evicted_size
    }

    /// The words that a node took when it was evicted, if that is still noted.
    pub fn lookup_evicted_size(&self, node_id: u64) -> (r: Option<u16>)
        requires
            self@.wf(),
        ensures
            r == crate::evicted::noted_size(self@.sizes, node_id),
    {
        proof {
            self.evicted_sizes.lemma_min_slots();
        }
        self.evicted_sizes.lookup(node_id)
    }
}

/// Memory is short.
pub open spec fn memory_high(available: int, total: int, nodes: int, node_size: int) -> bool {
    &&& total > 0
    &&& available < total / 4
    &&& nodes * node_size > (total - available) / 4
}

/// The entries with a pin, in number.
pub open spec fn pinned_in(s: Seq<CacheEntry>) -> nat
    decreases s.len(),
{
    if s.len() == 0 {
        0
    } else {
        pinned_in(s.drop_last()) + if s.last().pin_count > 0 {
            1nat
        } else {
            0
        }
    }
}

fn count_pinned(s: &Vec<CacheEntry>) -> (r: usize)
    ensures
        r == pinned_in(s@),
        r <= s@.len(),
{
    let mut n: usize = 0;
    let mut i: usize = 0;
    assert(s@.subrange(0, 0) =~= Seq::<CacheEntry>::empty());
    while i < s.len()
        invariant
            i <= s.len(),
            n <= i,
            n == pinned_in(s@.subrange(0, i as int)),
        decreases s.len() - i,
    {
        proof {
            assert(s@.subrange(0, i + 1).drop_last() =~= s@.subrange(0, i as int));
        }
        if s[i].pin_count > 0 {
            n += 1;
        }
        i += 1;
    }
    assert(s@.subrange(0, i as int) =~= s@);
    n
}

/// One line of the text: a name, a tab and a number.
pub open spec fn count_line(name: Seq<char>, n: nat) -> Seq<char> {
    name + ":\t"@ + decimal(n) + "\n"@
}

fn push_count(text: &mut String, name: &str, n: u64)
    ensures
        final(text)@ == old(text)@ + count_line(name@, n as nat),
{
    let ghost was = text@;
    text.append(name);
    text.append(":\t");
    push_decimal(text, n);
    text.append("\n");
    assert(text@ =~= was + count_line(name@, n as nat));
}

/// The counts of a cache as text.
pub open spec fn cache_text(v: CacheView) -> Seq<char> {
    count_line("live"@, v.nr_live as nat) + count_line(
        "pinned"@,
        pinned_in(v.clean) + pinned_in(v.dirty) + pinned_in(v.pending),
    ) + count_line("clean"@, v.clean.len()) + count_line("dirty"@, v.nr_dirty as nat) + count_line(
        "pending flush"@,
        v.pending.len(),
    ) + count_line("clean lru"@, v.clean.len()) + count_line("in flight"@, v.in_flight as nat)
        + "cannibalize lock:\t"@ + (if v.cannibalizing {
        "held\n"@
    } else {
        "not held\n"@
    }) + count_line("evicted size"@, v.stats.evicted_size as nat) + count_line(
        "cache hits"@,
        v.stats.hits as nat,
    ) + count_line("requested"@, v.stats.requested as nat) + count_line(
        "freed"@,
        v.stats.freed as nat,
    ) + count_line("self reclaim"@, v.stats.self_reclaim as nat) + count_line(
        "not freed (access_bit)"@,
        v.stats.not_freed_access_bit as nat,
    ) + count_line("cache misses"@, v.stats.misses as nat) + count_line(
        "retire queue"@,
        v.retire_queue.len(),
    )
}

impl BtreeCache {
    /// The counts of the cache as text, one to a line.
    pub fn bch2_btree_cache_to_text(&self) -> (r: String)
        requires
            self@.wf(),
        ensures
            r@ == cache_text(self@),
    {
        let pinned: usize = count_pinned(&self.clean) + count_pinned(&self.dirty) + count_pinned(
            &self.pending_flush,
        );
        let mut text: String = String::new();
        push_count(&mut text, "live", self.nr_live as u64);
        push_count(&mut text, "pinned", pinned as u64);
        push_count(&mut text, "clean", self.clean.len() as u64);
        push_count(&mut text, "dirty", self.nr_dirty as u64);
        push_count(&mut text, "pending flush", self.pending_flush.len() as u64);
        push_count(&mut text, "clean lru", self.clean.len() as u64);
        push_count(&mut text, "in flight", self.nr_in_flight_inner as u64);
        text.append("cannibalize lock:\t");
        if self.cannibalize_in_progress {
            text.append("held\n");
        } else {
            text.append("not held\n");
        }
        push_count(&mut text, "evicted size", self.stats.evicted_size);
        push_count(&mut text, "cache hits", self.stats.hits);
        push_count(&mut text, "requested", self.stats.requested);
        push_count(&mut text, "freed", self.stats.freed);
        push_count(&mut text, "self reclaim", self.stats.self_reclaim);
        push_count(&mut text, "not freed (access_bit)", self.stats.not_freed_access_bit);
        push_count(&mut text, "cache misses", self.stats.misses);
        push_count(&mut text, "retire queue", self.retire_queue.len() as u64);
        assert(text@ =~= cache_text(self@));
        text
    }
}

/// Pins are those of one node: setting them changes neither a node nor the pins of another.
pub proof fn law_pins_are_per_node(v: CacheView, id: u64, n: u32, x: u64)
    requires
        v.wf(),
        v.node(id) is Some,
    ensures
        v.pins(id) is Some,
        v.with_pins(id, n as int).pins(x) == if x == id {
            Some(n)
        } else {
            v.pins(x)
        },
        v.with_pins(id, n as int).node(x) == v.node(x),
        v.with_pins(id, n as int).count() == v.count(),
{
    let w = v.with_pins(id, n as int);
    if holds_id(v.dirty, id) {
        let i = place_of(v.dirty, id);
        assert(v.dirty[i].id == id);
        lemma_entry_updated(v.dirty, i, CacheEntry { pin_count: n, ..v.dirty[i] }, x);
    } else if holds_id(v.pending, id) {
        let i = place_of(v.pending, id);
        assert(v.pending[i].id == id);
        lemma_entry_updated(v.pending, i, CacheEntry { pin_count: n, ..v.pending[i] }, x);
    } else {
        let i = place_of(v.clean, id);
        assert(v.clean[i].id == id);
        lemma_entry_updated(v.clean, i, CacheEntry { pin_count: n, ..v.clean[i] }, x);
    }
    assert(entry_of(w.dirty, x) is Some == holds_id(w.dirty, x));
    assert(entry_of(v.dirty, x) is Some == holds_id(v.dirty, x));
    assert(entry_of(w.clean, x) is Some == holds_id(w.clean, x));
    assert(entry_of(v.clean, x) is Some == holds_id(v.clean, x));
    assert(entry_of(w.pending, x) is Some == holds_id(w.pending, x));
    assert(entry_of(v.pending, x) is Some == holds_id(v.pending, x));
}

/// New writes have to wait where more than 64 are on their way, or where more than three of four
/// nodes are dirty.
pub proof fn law_when_to_throttle(v: CacheView)
    ensures
        v.recalculated().should_throttle <==> v.in_flight > 64 || (v.nr_live > 0 && 4 * v.nr_dirty
            > 3 * v.nr_live),
        v.recalculated().clean == v.clean,
        v.recalculated().dirty == v.dirty,
        v.recalculated().pending == v.pending,
        v.recalculated().stats == v.stats,
{
}

/// Memory counts as short where less than a quarter of it is left and the nodes take more than a
/// quarter of what is used.
pub proof fn law_when_memory_is_short(available: int, total: int, nodes: int, node_size: int)
    requires
        0 <= available <= total,
    ensures
        memory_high(available, total, nodes, node_size) <==> 4 * (available + 1) <= total && 4 * (
        nodes * node_size) > total - available,
{
}

/// The dirty node that was put in first is the one handed over to be written; it and all others are
/// found as before.
pub proof fn law_first_dirty_goes_first(v: CacheView, x: u64)
    requires
        v.wf(),
    ensures
        v.dirty.len() == 0 ==> v.first_handed_over() == v,
        v.dirty.len() > 0 ==> entry_of(v.first_handed_over().pending, v.dirty[0].id) == Some(
            v.dirty[0],
        ) && !holds_id(v.first_handed_over().dirty, v.dirty[0].id),
        v.first_handed_over().node(x) == v.node(x),
        v.first_handed_over().clean == v.clean,
{
    if v.dirty.len() > 0 {
        let e = v.dirty[0];
        let w = v.first_handed_over();
        lemma_removed(v.dirty, 0);
        lemma_entry_removed(v.dirty, 0, x);
        lemma_entry_put(v.pending, e, x);
        lemma_entry_put(v.pending, e, e.id);
        crate::cache::lemma_place(v.dirty, 0);
        assert(entry_of(v.dirty, e.id) == Some(e));
        assert(entry_of(w.dirty, x) is Some == holds_id(w.dirty, x));
        assert(entry_of(v.dirty, x) is Some == holds_id(v.dirty, x));
        assert(entry_of(w.pending, x) is Some == holds_id(w.pending, x));
        assert(entry_of(v.pending, x) is Some == holds_id(v.pending, x));
    }
}

/// The pinned nodes of two lists are those of one and of the other, and each counts once.
pub proof fn law_pinned_nodes_are_counted(s: Seq<CacheEntry>, e: CacheEntry)
    ensures
        pinned_in(s.push(e)) == pinned_in(s) + if e.pin_count > 0 {
            1nat
        } else {
            0
        },
        pinned_in(Seq::empty()) == 0,
{
    assert(s.push(e).drop_last() =~= s);
}

/// The text has a line of its own for each count, with its name, a tab and the number.
pub proof fn law_cache_text_has_all_counts(v: CacheView)
    ensures
        has_part(cache_text(v), "live"@ + ":\t"@ + decimal(v.nr_live as nat) + "\n"@),
        has_part(cache_text(v), "pinned"@ + ":\t"@ + decimal(pinned_in(v.clean) + pinned_in(v.dirty) + pinned_in(v.pending)) + "\n"@),
        has_part(cache_text(v), "clean"@ + ":\t"@ + decimal(v.clean.len()) + "\n"@),
        has_part(cache_text(v), "dirty"@ + ":\t"@ + decimal(v.nr_dirty as nat) + "\n"@),
        has_part(cache_text(v), "pending flush"@ + ":\t"@ + decimal(v.pending.len()) + "\n"@),
        has_part(cache_text(v), "clean lru"@ + ":\t"@ + decimal(v.clean.len()) + "\n"@),
        has_part(cache_text(v), "in flight"@ + ":\t"@ + decimal(v.in_flight as nat) + "\n"@),
        has_part(cache_text(v), "evicted size"@ + ":\t"@ + decimal(v.stats.evicted_size as nat) + "\n"@),
        has_part(cache_text(v), "cache hits"@ + ":\t"@ + decimal(v.stats.hits as nat) + "\n"@),
        has_part(cache_text(v), "requested"@ + ":\t"@ + decimal(v.stats.requested as nat) + "\n"@),
        has_part(cache_text(v), "freed"@ + ":\t"@ + decimal(v.stats.freed as nat) + "\n"@),
        has_part(cache_text(v), "self reclaim"@ + ":\t"@ + decimal(v.stats.self_reclaim as nat) + "\n"@),
        has_part(cache_text(v), "not freed (access_bit)"@ + ":\t"@ + decimal(v.stats.not_freed_access_bit as nat) + "\n"@),
        has_part(cache_text(v), "cache misses"@ + ":\t"@ + decimal(v.stats.misses as nat) + "\n"@),
        has_part(cache_text(v), "retire queue"@ + ":\t"@ + decimal(v.retire_queue.len()) + "\n"@),
        v.cannibalizing ==> has_part(cache_text(v), "cannibalize lock:\t"@ + "held\n"@),
        !v.cannibalizing ==> has_part(cache_text(v), "cannibalize lock:\t"@ + "not held\n"@),
{
    let t: Seq<char> = Seq::empty();
    let p: Seq<Seq<char>> = Seq::empty();
    assert(has_parts(t, p));
    let x0 = count_line("live"@, v.nr_live as nat);
    lemma_parts_grow(t, p, x0);
    let t0 = t + x0;
    let p0 = p.push(x0);
    let x1 = count_line("pinned"@, pinned_in(v.clean) + pinned_in(v.dirty) + pinned_in(v.pending));
    lemma_parts_grow(t0, p0, x1);
    let t1 = t0 + x1;
    let p1 = p0.push(x1);
    let x2 = count_line("clean"@, v.clean.len());
    lemma_parts_grow(t1, p1, x2);
    let t2 = t1 + x2;
    let p2 = p1.push(x2);
    let x3 = count_line("dirty"@, v.nr_dirty as nat);
    lemma_parts_grow(t2, p2, x3);
    let t3 = t2 + x3;
    let p3 = p2.push(x3);
    let x4 = count_line("pending flush"@, v.pending.len());
    lemma_parts_grow(t3, p3, x4);
    let t4 = t3 + x4;
    let p4 = p3.push(x4);
    let x5 = count_line("clean lru"@, v.clean.len());
    lemma_parts_grow(t4, p4, x5);
    let t5 = t4 + x5;
    let p5 = p4.push(x5);
    let x6 = count_line("in flight"@, v.in_flight as nat);
    lemma_parts_grow(t5, p5, x6);
    let t6 = t5 + x6;
    let p6 = p5.push(x6);
    let lock = if v.cannibalizing {
        "held\n"@
    } else {
        "not held\n"@
    };
    let x8 = "cannibalize lock:\t"@ + lock;
    lemma_parts_grow(t6, p6, x8);
    let t8 = t6 + x8;
    let p8 = p6.push(x8);
    assert(t8 =~= t6 + "cannibalize lock:\t"@ + lock);
    let x9 = count_line("evicted size"@, v.stats.evicted_size as nat);
    lemma_parts_grow(t8, p8, x9);
    let t9 = t8 + x9;
    let p9 = p8.push(x9);
    let x10 = count_line("cache hits"@, v.stats.hits as nat);
    lemma_parts_grow(t9, p9, x10);
    let t10 = t9 + x10;
    let p10 = p9.push(x10);
    let x11 = count_line("requested"@, v.stats.requested as nat);
    lemma_parts_grow(t10, p10, x11);
    let t11 = t10 + x11;
    let p11 = p10.push(x11);
    let x12 = count_line("freed"@, v.stats.freed as nat);
    lemma_parts_grow(t11, p11, x12);
    let t12 = t11 + x12;
    let p12 = p11.push(x12);
    let x13 = count_line("self reclaim"@, v.stats.self_reclaim as nat);
    lemma_parts_grow(t12, p12, x13);
    let t13 = t12 + x13;
    let p13 = p12.push(x13);
    let x14 = count_line("not freed (access_bit)"@, v.stats.not_freed_access_bit as nat);
    lemma_parts_grow(t13, p13, x14);
    let t14 = t13 + x14;
    let p14 = p13.push(x14);
    let x15 = count_line("cache misses"@, v.stats.misses as nat);
    lemma_parts_grow(t14, p14, x15);
    let t15 = t14 + x15;
    let p15 = p14.push(x15);
    let x16 = count_line("retire queue"@, v.retire_queue.len());
    lemma_parts_grow(t15, p15, x16);
    let t16 = t15 + x16;
    let p16 = p15.push(x16);
    assert(t0 =~= x0);
    assert(cache_text(v) == t16);
    assert(p16[0] == x0);
    assert(p16[1] == x1);
    assert(p16[2] == x2);
    assert(p16[3] == x3);
    assert(p16[4] == x4);
    assert(p16[5] == x5);
    assert(p16[6] == x6);
    assert(p16[7] == x8);
    assert(p16[8] == x9);
    assert(p16[9] == x10);
    assert(p16[10] == x11);
    assert(p16[11] == x12);
    assert(p16[12] == x13);
    assert(p16[13] == x14);
    assert(p16[14] == x15);
    assert(p16[15] == x16);
}

} // verus!
