//! The flags of a node and the stages of its reads and writes.

use crate::cache_fill::bch2_btree_node_write_done_clean;
use crate::node::{BtreeNode, NodeFlags};
use crate::node_buffer::NodeBuffer;
use crate::node_write::sort_node_for_write;
use crate::writer::StorageError;
use vstd::prelude::*;

verus! {

impl NodeFlags {
    pub fn is_write_in_flight(&self) -> (r: bool)
        ensures
            r == self.write_in_flight,
    {
        self.write_in_flight
    }

    pub fn set_write_in_flight(&mut self)
        ensures
            *final(self) == (NodeFlags { write_in_flight: true, ..*old(self) }),
    {
        self.write_in_flight = true;
    }

    pub fn clear_write_in_flight(&mut self)
        ensures
            *final(self) == (NodeFlags { write_in_flight: false, ..*old(self) }),
    {
        self.write_in_flight = false;
    }

    /// Begins a write, unless one is on its way.
    pub fn try_lock_write_in_flight(&mut self) -> (r: bool)
        ensures
            r == !old(self).write_in_flight,
            *final(self) == (NodeFlags { write_in_flight: true, ..*old(self) }),
    {
        if self.write_in_flight {
            return false;
        }
        self.write_in_flight = true;
        true
    }

    pub fn is_read_in_flight(&self) -> (r: bool)
        ensures
            r == self.read_in_flight,
    {
        self.read_in_flight
    }

    pub fn set_read_in_flight(&mut self)
        ensures
            *final(self) == (NodeFlags { read_in_flight: true, ..*old(self) }),
    {
        self.read_in_flight = true;
    }

    pub fn clear_read_in_flight(&mut self)
        ensures
            *final(self) == (NodeFlags { read_in_flight: false, ..*old(self) }),
    {
        self.read_in_flight = false;
    }

    /// Begins a read, unless one is on its way.
    pub fn try_lock_read_in_flight(&mut self) -> (r: bool)
        ensures
            r == !old(self).read_in_flight,
            *final(self) == (NodeFlags { read_in_flight: true, ..*old(self) }),
    {
        if self.read_in_flight {
            return false;
        }
        self.read_in_flight = true;
        true
    }

    pub fn is_just_written(&self) -> (r: bool)
        ensures
            r == self.just_written,
    {
        self.just_written
    }

    pub fn set_just_written(&mut self)
        ensures
            *final(self) == (NodeFlags { just_written: true, ..*old(self) }),
    {
        self.just_written = true;
    }

    pub fn clear_just_written(&mut self)
        ensures
            *final(self) == (NodeFlags { just_written: false, ..*old(self) }),
    {
        self.just_written = false;
    }

    pub fn set_need_rewrite(&mut self)
        ensures
            *final(self) == (NodeFlags { need_rewrite: true, ..*old(self) }),
    {
        self.need_rewrite = true;
    }

    pub fn clear_need_rewrite(&mut self)
        ensures
            *final(self) == (NodeFlags { need_rewrite: false, ..*old(self) }),
    {
        self.need_rewrite = false;
    }

    pub fn set_will_make_reachable(&mut self)
        ensures
            *final(self) == (NodeFlags { will_make_reachable: true, ..*old(self) }),
    {
        self.will_make_reachable = true;
    }

    pub fn clear_will_make_reachable(&mut self)
        ensures
            *final(self) == (NodeFlags { will_make_reachable: false, ..*old(self) }),
    {
        self.will_make_reachable = false;
    }
}

/// The flags of a node whose write is on its way.
pub open spec fn locked(f: NodeFlags) -> NodeFlags {
    NodeFlags { write_in_flight: true, write_in_flight_inner: true, ..f }
}

/// The flags of a node whose write is over.
pub open spec fn unlocked(f: NodeFlags) -> NodeFlags {
    NodeFlags { write_in_flight: false, write_in_flight_inner: false, ..f }
}

/// Begins the write of a node; the last one has to be over.
pub fn bch2_btree_node_io_lock(node: &mut BtreeNode)
    requires
        !old(node).flags.write_in_flight,
    ensures
        *final(node) == (BtreeNode { flags: locked(old(node).flags), ..*old(node) }),
{
    let _ = node.flags.try_lock_write_in_flight();
    node.flags.write_in_flight_inner = true;
}

/// Ends the write of a node.
pub fn bch2_btree_node_io_unlock(node: &mut BtreeNode)
    ensures
        *final(node) == (BtreeNode { flags: unlocked(old(node).flags), ..*old(node) }),
{
    node.flags.write_in_flight_inner = false;
    node.flags.write_in_flight = false;
}

/// Begins the write of a node, unless one is on its way.
pub fn btree_node_io_try_lock(node: &mut BtreeNode) -> (r: bool)
    ensures
        r == !old(node).flags.write_in_flight,
        r ==> *final(node) == (BtreeNode { flags: locked(old(node).flags), ..*old(node) }),
        !r ==> *final(node) == *old(node),
{
    if node.flags.try_lock_write_in_flight() {
        node.flags.write_in_flight_inner = true;
        true
    } else {
        false
    }
}

/// What a node asks for when the journal wants it written.
#[derive(Debug, Clone, Copy, PartialEq, Eq, Structural)]
pub enum PinFlush {
    /// It has no place on disk yet.
    Nothing,
    /// A write is on its way, after which it is written anew.
    Later,
    /// It is to be written now.
    Write,
}

/// The journal wants a node written: it is marked for that, and its write begins unless one is on
/// its way. A node without a place on disk is passed over.
pub fn journal_pin_flush(node: &mut BtreeNode, block_addr: u64) -> (r: PinFlush)
    ensures
        block_addr == 0 ==> r == PinFlush::Nothing && *final(node) == *old(node),
        block_addr != 0 ==> {
            let marked = NodeFlags { need_rewrite: true, ..old(node).flags };
            if old(node).flags.write_in_flight {
                r == PinFlush::Later && *final(node) == BtreeNode { flags: marked, ..*old(node) }
            } else {
                r == PinFlush::Write && *final(node) == BtreeNode {
                    flags: locked(marked),
                    ..*old(node)
                }
            }
        },
{
    if block_addr == 0 {
        return PinFlush::Nothing;
    }
    node.flags.set_need_rewrite();
    if btree_node_io_try_lock(node) {
        PinFlush::Write
    } else {
        PinFlush::Later
    }
}

/// Whether a node that was changed at `journal_seq` has to keep the journal from letting go of
/// that entry.
pub fn wants_journal_pin(journal_seq: u64) -> (r: bool)
    ensures
        r == (journal_seq != 0),
{
    journal_seq != 0
}

/// A write of a node whose lock is held is handed on: what asked for it is done with.
pub fn node_write_submitted(node: &mut BtreeNode)
    ensures
        *final(node) == (BtreeNode {
            flags: NodeFlags { need_rewrite: false, ..old(node).flags },
            ..*old(node)
        }),
{
    node.flags.clear_need_rewrite();
}

/// A write of a node could not be handed on.
pub fn node_write_refused(node: &mut BtreeNode)
    ensures
        *final(node) == (BtreeNode {
            flags: unlocked(NodeFlags { will_make_reachable: false, ..old(node).flags }),
            ..*old(node)
        }),
{
    node.flags.clear_will_make_reachable();
    bch2_btree_node_io_unlock(node);
}

/// The write of a node is over, well or not: the lock is given back, and after a good write the
/// node is alive unless it is on its way out.
pub fn btree_node_write_done(node: &mut BtreeNode, good: bool)
    ensures
        *final(node) == (BtreeNode {
            flags: unlocked(NodeFlags { will_make_reachable: false, ..old(node).flags }),
            state: if good {
                crate::cache_fill::settled_state(old(node).state)
            } else {
                old(node).state
            },
            ..*old(node)
        }),
{
    node.flags.clear_will_make_reachable();
    bch2_btree_node_io_unlock(node);
    if good {
        bch2_btree_node_write_done_clean(node);
    }
}

/// Makes the bytes of a node ready for their write: the lock is taken, the sets are merged and the
/// node is marked as just written.
pub fn prepare_node_write(node: &mut NodeBuffer) -> (r: Result<(), StorageError>)
    requires
        old(node).laid(),
        !old(node).flags.write_in_flight,
    ensures
        r is Ok,
        final(node).laid(),
        final(node).flags == (NodeFlags { just_written: true, ..locked(old(node).flags) }),
        final(node).data@.len() == old(node).data@.len(),
        (NodeBuffer { flags: old(node).flags, ..*final(node) }).same_head(*old(node)),
        (old(node).nsets == 1 && old(node).whiteout_u64s == 0) || (old(node).nsets > 1
            && old(node).runs(old(node).nsets as int).len() == 0) ==> (NodeBuffer {
            flags: old(node).flags,
            ..*final(node)
        }) == *old(node),
        old(node).nsets == 1 && old(node).whiteout_u64s > 0 ==> final(node).compacted(*old(node)),
        old(node).nsets > 1 && old(node).runs(old(node).nsets as int).len() > 0
            ==> final(node).sorted_from(*old(node)),
{
    let ghost o = *node;
    match sort_node_for_write(node) {
        Ok(_) => {},
        Err(e) => {
            return Err(e);
        },
    }
    let ghost m = *node;
    node.flags.write_in_flight = true;
    node.flags.write_in_flight_inner = true;
    node.flags.just_written = true;
    proof {
        assert forall|i: int| 0 <= i < node.nsets implies #[trigger] node.set_ok(i) by {
            assert(m.set_ok(i));
        }
        assert forall|p: NodeBuffer| m.compacted(p) implies #[trigger] node.compacted(p) by {
            let l = choose|l: Seq<int>| #[trigger]
                crate::sort_iter::merged(p.data@, p.key_places(), l) && m.holds(
                    crate::packed::cells(p.data@, l),
                );
            assert(node.holds(crate::packed::cells(p.data@, l)));
        }
        if o.nsets > 1 && o.runs(o.nsets as int).len() > 0 {
            assert(m.sorted_from(o));
            lemma_sorted_flags(m, *node, o);
        }
    }
    Ok(())
}

/// Flags do not matter to what a node holds.
proof fn lemma_sorted_flags(m: NodeBuffer, n: NodeBuffer, o: NodeBuffer)
    requires
        m.sorted_from(o),
        n == (NodeBuffer { flags: n.flags, ..m }),
    ensures
        n.sorted_from(o),
{
    let (l, p) = choose|l: Seq<int>, p: NodeBuffer|
        {
            &&& l.to_multiset() == crate::sort_iter::pool(o.data@, o.runs(o.nsets as int))
            &&& crate::sort_iter::not_descending(o.data@, l)
            &&& p.nsets == 1
            &&& p.places(0) is Some
            &&& p.set_cells(0) == #[trigger] crate::packed::cells(
                o.data@,
                crate::sort_iter::live_keys(o.data@, l),
            )
            &&& #[trigger] m.compacted(p)
            &&& crate::packed::ascending(o.data@, crate::sort_iter::live_keys(o.data@, l))
                ==> m.holds(
                crate::packed::cells(o.data@, crate::sort_iter::live_keys(o.data@, l)),
            )
        };
    let k = choose|k: Seq<int>| #[trigger]
        crate::sort_iter::merged(p.data@, p.key_places(), k) && m.holds(
            crate::packed::cells(p.data@, k),
        );
    assert(n.holds(crate::packed::cells(p.data@, k)));
    assert(n.compacted(p));
    let cs = crate::packed::cells(o.data@, crate::sort_iter::live_keys(o.data@, l));
    assert(p.set_cells(0) == cs);
    if m.holds(cs) {
        assert(n.holds(cs));
    }
}

/// The lock of a write sets its two flags and no other; to let go of it clears them again.
pub proof fn law_write_lock(f: NodeFlags)
    ensures
        locked(f).write_in_flight && locked(f).write_in_flight_inner,
        !unlocked(f).write_in_flight && !unlocked(f).write_in_flight_inner,
        !f.write_in_flight && !f.write_in_flight_inner ==> unlocked(locked(f)) == f,
        locked(f).read_in_flight == f.read_in_flight && unlocked(f).read_in_flight == f.read_in_flight,
        locked(f).just_written == f.just_written && unlocked(f).just_written == f.just_written,
        locked(f).need_rewrite == f.need_rewrite && unlocked(f).need_rewrite == f.need_rewrite,
        locked(f).accessed == f.accessed && unlocked(f).accessed == f.accessed,
        locked(f).will_make_reachable == f.will_make_reachable && unlocked(f).will_make_reachable == f.will_make_reachable,
        locked(f).write_blocked == f.write_blocked && unlocked(f).write_blocked == f.write_blocked,
{
}

} // verus!
