//! Nodes that come into the cache by a read: they stand in it while the read is on its way.

use crate::btree_id::BtreeId;
use crate::cache::{find, holds_id, lemma_updated, place_of, BtreeCache, CacheView};
use crate::key::BtreeKey;
use crate::node::{BtreeNode, NodeFlags, NodeState};
use crate::writer::StorageError;
use std::sync::Arc;
use vstd::prelude::*;

verus! {

/// Lets go of one handle of a node.
pub fn bch2_btree_node_mem_free(node: Arc<BtreeNode>) {
    let _ = node;
}

/// A node goes over to another stage of its life in the cache.
pub fn bch2_btree_node_transition_state_locked(node: &mut BtreeNode, new_state: NodeState)
    ensures
        *final(node) == (BtreeNode { state: new_state, ..*old(node) }),
{
    node.state = new_state;
}

/// The same, for callers that do not hold the lock of the cache.
pub fn bch2_btree_node_transition_state(node: &mut BtreeNode, new_state: NodeState)
    ensures
        *final(node) == (BtreeNode { state: new_state, ..*old(node) }),
{
    bch2_btree_node_transition_state_locked(node, new_state);
}

/// The stage of a node after a good write: alive, unless it is on its way out.
pub open spec fn settled_state(s: NodeState) -> NodeState {
    if s == NodeState::Reclaim || s == NodeState::Deleting {
        s
    } else {
        NodeState::Alive
    }
}

/// Ends a good write of a node.
pub fn bch2_btree_node_write_done_clean(node: &mut BtreeNode)
    ensures
        *final(node) == (BtreeNode {
            flags: NodeFlags { write_in_flight: false, ..old(node).flags },
            state: settled_state(old(node).state),
            ..*old(node)
        }),
{
    if node.flags.write_in_flight {
        node.flags.write_in_flight = false;
    }
    match node.state {
        NodeState::Alive | NodeState::Reclaim | NodeState::Deleting => {},
        _ => {
            bch2_btree_node_transition_state(node, NodeState::Alive);
        },
    }
}

/// The number under which the node of a key stands in the cache.
pub open spec fn node_number(key: BtreeKey, btree_id: BtreeId) -> u64 {
    key.pos.offset.wrapping_mul(31) ^ btree_id.num() as u64
}

pub fn node_id_for(key: &BtreeKey, btree_id: BtreeId) -> (r: u64)
    ensures
        r == node_number(*key, btree_id),
{
    key.get_vaddr().wrapping_mul(31) ^ (btree_id.to_u8() as u64)
}

/// A new node of `level` whose bounds are those of a single key.
pub open spec fn is_node_for(n: BtreeNode, key: BtreeKey, level: u8) -> bool {
    &&& n.wf()
    &&& n.level == level
    &&& n.nr_keys() == 0
    &&& n.min_key == key.pos
    &&& n.max_key == key.pos
    &&& n.fresh()
}

impl BtreeCache {
    /// A new node for a key, in the cache under the key's number.
    pub fn alloc_node_for_key(&mut self, key: &BtreeKey, level: u8, btree_id: BtreeId) -> (r: Arc<
        BtreeNode,
    >)
        requires
            old(self)@.wf(),
            old(self)@.count() < usize::MAX,
        ensures
            is_node_for(*r, *key, level),
            r.flags == NodeFlags::none(),
            r.state == NodeState::Alive,
            final(self)@.inserted(old(self)@, node_number(*key, btree_id), *r),
            final(self)@.wf(),
    {
        let mut node = BtreeNode::new(level);
        node.min_key = key.to_bpos();
        node.max_key = key.to_bpos();
        let handle: Arc<BtreeNode> = Arc::new(node);
        let r: Arc<BtreeNode> = crate::cache::share(&handle);
        self.insert(node_id_for(key, btree_id), handle);
        r
    }

    /// A node that was read comes into the cache under the number of its key; without a device to
    /// read from it is a new one. Where the read failed the cache stays as it is.
    pub fn bch2_btree_node_fill(
        &mut self,
        key: &BtreeKey,
        btree_id: BtreeId,
        level: u8,
        read: Result<Option<BtreeNode>, StorageError>,
    ) -> (r: Result<Arc<BtreeNode>, StorageError>)
        requires
            old(self)@.wf(),
            old(self)@.count() < usize::MAX,
            read is Ok && read->Ok_0 is Some ==> read->Ok_0->0.wf(),
        ensures
            final(self)@.wf(),
            match read {
                Err(e) => r == Err::<Arc<BtreeNode>, StorageError>(e) && final(self)@ == old(self)@,
                Ok(n) => {
                    &&& r is Ok
                    &&& final(self)@.inserted(
                        old(self)@,
                        node_number(*key, btree_id),
                        *r->Ok_0,
                    )
                    &&& r->Ok_0.state == NodeState::Alive
                    &&& !r->Ok_0.flags.read_in_flight
                    &&& match n {
                        Some(m) => *r->Ok_0 == BtreeNode {
                            state: NodeState::Alive,
                            flags: NodeFlags { read_in_flight: false, ..m.flags },
                            ..m
                        },
                        None => is_node_for(*r->Ok_0, *key, level) && r->Ok_0.flags
                            == NodeFlags::none(),
                    }
                },
            },
    {
        let mut node: BtreeNode = match read {
            Err(e) => {
                return Err(e);
            },
            Ok(Some(m)) => m,
            Ok(None) => {
                let mut fresh = BtreeNode::new(level);
                fresh.min_key = key.to_bpos();
                fresh.max_key = key.to_bpos();
                fresh
            },
        };
        node.flags.read_in_flight = false;
        node.state = NodeState::Alive;
        assert(node.wf());
        let handle: Arc<BtreeNode> = Arc::new(node);
        let r: Arc<BtreeNode> = crate::cache::share(&handle);
        self.insert(node_id_for(key, btree_id), handle);
        Ok(r)
    }

    /// A node whose read begins comes into the cache, marked as such.
    fn insert_reading(&mut self, node_id: u64, mut node: BtreeNode) -> (r: Ghost<BtreeNode>)
        requires
            old(self)@.wf(),
            old(self)@.count() < usize::MAX,
            node.wf(),
        ensures
            r@ == (BtreeNode {
                state: NodeState::InFlight,
                flags: NodeFlags { read_in_flight: true, ..node.flags },
                ..node
            }),
            final(self)@.inserted(old(self)@, node_id, r@),
            final(self)@.wf(),
    {
        node.state = NodeState::InFlight;
        node.flags.read_in_flight = true;
        assert(node.wf());
        let ghost n = node;
        self.insert(node_id, Arc::new(node));
        Ghost(n)
    }

    /// Begins the read of the node of a key, unless it is in the cache: gives the number under
    /// which it then stands there and is to be read.
    pub fn bch2_btree_node_prefetch(&mut self, key: &BtreeKey, btree_id: BtreeId, level: u8) -> (r:
        Option<u64>)
        requires
            old(self)@.wf(),
            old(self)@.count() < usize::MAX,
        ensures
            final(self)@.wf(),
            ({
                let id = node_number(*key, btree_id);
                if old(self)@.node(id) is Some {
                    r is None && final(self)@ == old(self)@
                } else {
                    r == Some(id) && exists|n: BtreeNode| #[trigger]
                        is_node_for(n, *key, level) && n.state == NodeState::InFlight && n.flags == (
                        NodeFlags { read_in_flight: true, ..NodeFlags::none() }) && final(self)@.inserted(old(self)@, id, n)
                }
            }),
    {
        let id: u64 = node_id_for(key, btree_id);
        if self.get(id).is_some() {
            return None;
        }
        let mut node = BtreeNode::new(level);
        node.min_key = key.to_bpos();
        node.max_key = key.to_bpos();
        let n = self.insert_reading(id, node);
        assert(is_node_for(n@, *key, level));
        Some(id)
    }

    /// Begins the read of a node by its number, unless it is in the cache. Says whether it is to be
    /// read.
    pub fn btree_node_prefetch_id(&mut self, node_id: u64, level: u8) -> (r: bool)
        requires
            old(self)@.wf(),
            old(self)@.count() < usize::MAX,
        ensures
            final(self)@.wf(),
            r == (old(self)@.node(node_id) is None),
            !r ==> final(self)@ == old(self)@,
            r ==> exists|n: BtreeNode|
                {
                    &&& #[trigger] n.wf()
                    &&& n.level == level
                    &&& n.nr_keys() == 0
                    &&& n.state == NodeState::InFlight
                    &&& n.flags == (NodeFlags { read_in_flight: true, ..NodeFlags::none() })
                    &&& n.min_key == crate::key::Bpos::highest()
                    &&& n.max_key == crate::key::Bpos::lowest()
                    &&& n.fresh()
                    &&& final(self)@.inserted(old(self)@, node_id, n)
                },
    {
        if self.get(node_id).is_some() {
            return false;
        }
        let n = self.insert_reading(node_id, BtreeNode::new(level));
        assert(n@.wf());
        true
    }
}

/// A node after its read: what was read takes the place of its keys and bounds, and it is alive.
pub open spec fn read_into(n: BtreeNode, loaded: Option<BtreeNode>) -> BtreeNode {
    let flags = NodeFlags { read_in_flight: false, ..n.flags };
    match loaded {
        Some(m) => BtreeNode {
            level: m.level,
            node_size: m.node_size,
            entries: m.entries,
            live_u64s: m.live_u64s,
            dead_u64s: m.dead_u64s,
            min_key: m.min_key,
            max_key: m.max_key,
            journal_seq: m.journal_seq,
            flags,
            state: NodeState::Alive,
            ..n
        },
        None => BtreeNode { flags, state: NodeState::Alive, ..n },
    }
}

impl CacheView {
    /// The read of a clean node is over.
    pub open spec fn read_finished(self, o: CacheView, id: u64, loaded: Option<BtreeNode>) -> bool {
        if holds_id(o.clean, id) {
            let i = place_of(o.clean, id);
            let e = o.clean[i];
            &&& self.clean.len() == o.clean.len()
            &&& self.clean[i].id == id
            &&& self.clean[i].accessed == e.accessed
            &&& self.clean[i].pin_count == e.pin_count
            &&& same_node(*self.clean[i].node, read_into(*e.node, loaded))
            &&& self == CacheView { clean: o.clean.update(i, self.clean[i]), ..o }
        } else {
            self == o
        }
    }
}

/// Two nodes with the same contents.
pub open spec fn same_node(a: BtreeNode, b: BtreeNode) -> bool {
    &&& a.keys() == b.keys()
    &&& a.live_u64s == b.live_u64s
    &&& a.dead_u64s == b.dead_u64s
    &&& a.min_key == b.min_key
    &&& a.max_key == b.max_key
    &&& a.same_frame(b)
}

impl BtreeCache {
    /// The read of a node is over, and the node is alive; where it was of no use, it stays as it
    /// was. A node that has left the clean ones meanwhile is left alone.
    pub fn finish_read(&mut self, node_id: u64, loaded: Option<BtreeNode>)
        requires
            old(self)@.wf(),
            loaded is Some ==> loaded->0.wf(),
        ensures
            final(self)@.read_finished(old(self)@, node_id, loaded),
            final(self)@.wf(),
    {
        let ghost o = self@;
        match find(&self.clean, node_id) {
            Some(i) => {
                let was: BtreeNode = self.clean[i].node.duplicate();
                let mut node: BtreeNode = match loaded {
                    Some(m) => BtreeNode {
                        level: m.level,
                        node_size: m.node_size,
                        entries: m.entries,
                        live_u64s: m.live_u64s,
                        dead_u64s: m.dead_u64s,
                        min_key: m.min_key,
                        max_key: m.max_key,
                        journal_seq: m.journal_seq,
                        written: was.written,
                        sib_u64s: was.sib_u64s,
                        lock_seq: was.lock_seq,
                        flags: was.flags,
                        state: was.state,
                    },
                    None => was,
                };
                node.flags.read_in_flight = false;
                node.state = NodeState::Alive;
                assert(node.wf());
                assert(same_node(node, read_into(*o.clean[i as int].node, loaded)));
                self.clean[i].node = Arc::new(node);
                proof {
                    let e = self.clean@[i as int];
                    assert(self.clean@ =~= o.clean.update(i as int, e));
                    lemma_updated(o.clean, i as int, e);
                    assert forall|a: int, b: int|
                        0 <= a < self@.clean.len() && 0 <= b < self@.dirty.len() implies (
                    #[trigger] self@.clean[a]).id != (#[trigger] self@.dirty[b]).id by {
                        assert(o.clean[a].id != o.dirty[b].id);
                    }
                }
            },
            None => {},
        }
    }
}

/// The number of a node is 31 times its offset, wrapped around, with the number of its tree in the
/// lowest bits.
pub proof fn law_node_numbers(key: BtreeKey, a: BtreeId, b: BtreeId)
    ensures
        node_number(key, a) == (key.pos.offset * 31 % 0x1_0000_0000_0000_0000) as u64
            ^ a.num() as u64,
        node_number(key, a) == node_number(key, b) ==> a.num() == b.num(),
{
    let x = key.pos.offset.wrapping_mul(31);
    let p = a.num() as u64;
    let q = b.num() as u64;
    assert(x ^ p == x ^ q ==> p == q) by (bit_vector);
}

/// A read that ends leaves a node that is alive and no longer being read. It has the keys, the words,
/// the bounds, the size, the level and the place in the journal of what was read; where nothing was,
/// it keeps its own.
pub proof fn law_finished_read(n: BtreeNode, m: BtreeNode)
    ensures
        ({
            let r = read_into(n, Some(m));
            &&& r.keys() == m.keys()
            &&& r.live_u64s == m.live_u64s
            &&& r.dead_u64s == m.dead_u64s
            &&& r.min_key == m.min_key
            &&& r.max_key == m.max_key
            &&& r.level == m.level
            &&& r.node_size == m.node_size
            &&& r.journal_seq == m.journal_seq
            &&& r.state == NodeState::Alive
            &&& !r.flags.read_in_flight
            &&& r.flags.write_in_flight == n.flags.write_in_flight
            &&& r.flags.will_make_reachable == n.flags.will_make_reachable
        }),
        ({
            let r = read_into(n, None);
            &&& r.keys() == n.keys()
            &&& r.live_u64s == n.live_u64s
            &&& r.dead_u64s == n.dead_u64s
            &&& r.min_key == n.min_key
            &&& r.max_key == n.max_key
            &&& r.level == n.level
            &&& r.state == NodeState::Alive
            &&& !r.flags.read_in_flight
        }),
{
}

/// A node that is being reclaimed or deleted stays so; in every other stage a write that ends leaves
/// it alive.
pub proof fn law_settled_state(s: NodeState)
    ensures
        settled_state(NodeState::Reclaim) == NodeState::Reclaim,
        settled_state(NodeState::Deleting) == NodeState::Deleting,
        s != NodeState::Reclaim && s != NodeState::Deleting ==> settled_state(s)
            == NodeState::Alive,
{
}

} // verus!
