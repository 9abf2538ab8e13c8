//! Updates in place, through an iterator.

use crate::entries::{find, keys, lemma_update_at, lemma_widths_update};
use crate::insert::lemma_leaf_changed;
use crate::iter::{lemma_locks_free, BtreeIter};
use crate::key::{BchVal, EntryView, ExtentValue, KeyEntry, KeyValue, ValueView};
use crate::node::BtreeNode;
use crate::path::{BtreeNodeLockedType, PathLevel};
use crate::shape::{get, top};
use crate::split::in_range;
use crate::tree::Btree;
use vstd::prelude::*;

verus! {

/// Flags of updates and of the triggers that they set off; the bits follow those of iterators.
#[derive(Debug, Clone, Copy, PartialEq, Eq, Hash, Structural)]
pub struct UpdateTriggerFlags {
    bits: u32,
}

impl UpdateTriggerFlags {
    /// The bits that are set.
    pub closed spec fn raw(self) -> u32 {
        self.bits
    }

    pub fn empty() -> (r: UpdateTriggerFlags)
        ensures
            r.raw() == 0,
    {
        UpdateTriggerFlags { bits: 0 }
    }

    pub fn internal_snapshot_node() -> (r: UpdateTriggerFlags)
        ensures
            r.raw() == 0x4_0000,
    {
        UpdateTriggerFlags { bits: 0x4_0000 }
    }

    pub fn nojournal() -> (r: UpdateTriggerFlags)
        ensures
            r.raw() == 0x8_0000,
    {
        UpdateTriggerFlags { bits: 0x8_0000 }
    }

    pub fn key_cache_reclaim() -> (r: UpdateTriggerFlags)
        ensures
            r.raw() == 0x10_0000,
    {
        UpdateTriggerFlags { bits: 0x10_0000 }
    }

    pub fn norun() -> (r: UpdateTriggerFlags)
        ensures
            r.raw() == 0x20_0000,
    {
        UpdateTriggerFlags { bits: 0x20_0000 }
    }

    pub fn transactional() -> (r: UpdateTriggerFlags)
        ensures
            r.raw() == 0x40_0000,
    {
        UpdateTriggerFlags { bits: 0x40_0000 }
    }

    pub fn atomic() -> (r: UpdateTriggerFlags)
        ensures
            r.raw() == 0x80_0000,
    {
        UpdateTriggerFlags { bits: 0x80_0000 }
    }

    pub fn gc() -> (r: UpdateTriggerFlags)
        ensures
            r.raw() == 0x100_0000,
    {
        UpdateTriggerFlags { bits: 0x100_0000 }
    }

    pub fn insert() -> (r: UpdateTriggerFlags)
        ensures
            r.raw() == 0x200_0000,
    {
        UpdateTriggerFlags { bits: 0x200_0000 }
    }

    pub fn overwrite() -> (r: UpdateTriggerFlags)
        ensures
            r.raw() == 0x400_0000,
    {
        UpdateTriggerFlags { bits: 0x400_0000 }
    }

    pub fn is_discard() -> (r: UpdateTriggerFlags)
        ensures
            r.raw() == 0x800_0000,
    {
        UpdateTriggerFlags { bits: 0x800_0000 }
    }

    pub fn set_needs_reconcile_done() -> (r: UpdateTriggerFlags)
        ensures
            r.raw() == 0x1000_0000,
    {
        UpdateTriggerFlags { bits: 0x1000_0000 }
    }

    pub fn bits(&self) -> (r: u32)
        ensures
            r == self.raw(),
    {
        self.bits
    }

    /// All flags of both.
    pub fn union(self, other: UpdateTriggerFlags) -> (r: UpdateTriggerFlags)
        ensures
            r.raw() == self.raw() | other.raw(),
    {
        UpdateTriggerFlags { bits: self.bits | other.bits }
    }

    /// Whether all flags of `other` are set.
    pub fn contains(&self, other: UpdateTriggerFlags) -> (r: bool)
        ensures
            r == (self.raw() & other.raw() == other.raw()),
    {
        self.bits & other.bits == other.bits
    }
}

/// A union holds the flags of both sides.
pub proof fn law_union_contains(a: u32, b: u32)
    ensures
        (a | b) & a == a,
        (a | b) & b == b,
{
    assert((a | b) & a == a) by (bit_vector);
    assert((a | b) & b == b) by (bit_vector);
}

/// An extent entry with another address and version.
pub open spec fn revalued(e: EntryView, v: BchVal) -> EntryView {
    EntryView {
        value: ValueView::Extent(
            ExtentValue { paddr: v.paddr, ver: v.ver, ..e.value->Extent_0 },
        ),
        ..e
    }
}

impl BtreeNode {
    /// Changes address and version of the extent at `slot`.
    fn revalue(&mut self, slot: usize, v: &BchVal)
        requires
            old(self).wf(),
            slot < old(self).nr_keys(),
            old(self).keys()[slot as int].value is Extent,
        ensures
            final(self).wf(),
            final(self).same_frame(*old(self)),
            final(self).min_key == old(self).min_key,
            final(self).max_key == old(self).max_key,
            final(self).dead_u64s == old(self).dead_u64s,
            final(self).keys() == old(self).keys().update(
                slot as int,
                revalued(old(self).keys()[slot as int], *v),
            ),
    {
        let ghost s = self.keys();
        let mut e: KeyEntry = self.entries[slot].clone();
        let ghost e0 = e@;
        assert(e0 == s[slot as int]);
        if let KeyValue::Extent(x) = e.value {
            e.value = KeyValue::Extent(ExtentValue { paddr: v.paddr, ver: v.ver, ..x });
        }
        assert(e@ == revalued(e0, *v));
        let ghost ev = e@;
        self.entries.set(slot, e);
        proof {
            let t = s.update(slot as int, ev);
            assert(self.keys() =~= t);
            lemma_update_at(s, slot as int, ev);
            lemma_widths_update(s, slot as int, ev);
            assert(forall|i: int| 0 <= i < t.len() ==> #[trigger] t[i] == if i == slot {
                ev
            } else {
                s[i]
            });
        }
    }
}

impl Btree {
    /// A change of a leaf leaves the way to it.
    proof fn lemma_path_kept(self, t: Btree, path: Seq<PathLevel>, l: int)
        requires
            self.shape_ok(),
            self.path_ok(path),
            t.root.depth == self.root.depth,
            self.height() > 0 ==> {
                &&& t.root.node.keys() == self.root.node.keys()
                &&& self.cache@.contains_key(path[0].addr)
                &&& self.cache@[path[0].addr].level == 0
                &&& forall|a: u64|
                    a != path[0].addr ==> #[trigger] t.cache@[a] == self.cache@[a]
            },
            1 <= l <= self.height(),
        ensures
            t.path_node(path, l).keys() == self.path_node(path, l).keys(),
            t.path_lo(path, l) == self.path_lo(path, l),
            t.path_hi(path, l) == self.path_hi(path, l),
        decreases self.height() - l,
    {
        if l < self.height() {
            self.lemma_path_kept(t, path, l + 1);
            self.lemma_path(path, 0, l);
            assert(self.path_node(path, l).level == l);
            assert(path[l].addr != path[0].addr);
        }
    }
}

impl BtreeIter {
    /// The iterator may write to its leaf.
    pub open spec fn may_write(self) -> bool {
        self.path@.len() > 0 && (self.path@[0].lock == BtreeNodeLockedType::Intent
            || self.path@[0].lock == BtreeNodeLockedType::Write)
    }

    /// Gives the extent that the iterator is at another address and version. The leaf has to be
    /// held with intent, and is held for writing afterwards.
    pub fn update(&mut self, t: &mut Btree, new_value: &BchVal) -> (r: bool)
        requires
            old(self).wf(*old(t)),
        ensures
            final(self).wf(*final(t)),
            final(self).same_setup(*old(self)),
            final(self).pos == old(self).pos,
            final(self).slot == old(self).slot,
            r == (old(self).may_write() && old(self).cur(*old(t)) is Some && old(self).cur(
                *old(t),
            )->0.value is Extent),
            !r ==> *final(t) == *old(t) && *final(self) == *old(self),
            r ==> {
                let e = old(self).cur(*old(t))->0;
                &&& final(self).path@ == old(self).path@.update(
                    0,
                    PathLevel { lock: BtreeNodeLockedType::Write, ..old(self).path@[0] },
                )
                &&& final(t).root.depth == old(t).root.depth
                &&& final(t).root_modified == old(t).root_modified
                &&& final(t).same_notes(*old(t))
                &&& final(t).cache.dirty_addrs() == old(t).cache.dirty_addrs()
                &&& if old(t).root.depth == 0 {
                    &&& final(t).cache == old(t).cache
                    &&& final(t).root.node.same_frame(old(t).root.node)
                } else {
                    let a = old(self).path@[0].addr;
                    &&& final(t).root == old(t).root
                    &&& final(t).cache@ == old(t).cache@.insert(a, final(t).cache@[a])
                    &&& final(t).cache@[a].same_frame(old(t).cache@[a])
                }
                &&& final(self).cur(*final(t)) == Some(revalued(e, *new_value))
                &&& final(self).cur(*final(t)) matches Some(n) && {
                    &&& n.key() == e.key()
                    &&& n.bch_val() == *new_value
                    &&& n.value is Extent
                    &&& n.value->Extent_0.size == e.value->Extent_0.size
                    &&& n.value->Extent_0.crc32c == e.value->Extent_0.crc32c
                    &&& n.value->Extent_0.crc_offset_blocks == e.value->Extent_0.crc_offset_blocks
                    &&& n.value->Extent_0.dev_idx == e.value->Extent_0.dev_idx
                }
                &&& final(t).same_front(*old(t))
                &&& forall|x: int|
                    0 <= x < top() ==> #[trigger] final(t).tree_get(x) == if x == e.pos.ord() {
                        Some(revalued(e, *new_value))
                    } else {
                        old(t).tree_get(x)
                    }
            },
    {
        if self.path.len() == 0 {
            return false;
        }
        let mut pl: PathLevel = self.path[0];
        if pl.lock != BtreeNodeLockedType::Intent && pl.lock != BtreeNodeLockedType::Write {
            return false;
        }
        let ghost path = self.path@;
        let ghost before = *t;
        let ghost leaf0 = t.path_node(path, 0);
        let ghost s = leaf0.keys();
        proof {
            t.lemma_path(path, 0, 0);
        }
        let leaf: &BtreeNode = t.node_on(&self.path, 0);
        if self.slot >= leaf.entries.len() {
            return false;
        }
        let plain: bool = match &leaf.entries[self.slot].value {
            KeyValue::Extent(_) => true,
            _ => false,
        };
        assert(s[self.slot as int] == leaf.entries@[self.slot as int]@);
        if !plain {
            return false;
        }
        let ghost e = s[self.slot as int];
        let ghost k = e.pos.ord();
        let ghost lo = t.path_lo(path, 0);
        let ghost hi = t.path_hi(path, 0);
        proof {
            t.lemma_path_leaf(path, k);
            lemma_update_at(s, self.slot as int, revalued(e, *new_value));
        }
        pl.lock = BtreeNodeLockedType::Write;
        if t.root.depth == 0 {
            t.root.node.revalue(self.slot, new_value);
        } else {
            let mut node: BtreeNode = match t.cache.take_node(pl.addr) {
                None => {
                    assert(before.link_ok(path, 0));
                    assert(false);
                    return false;
                },
                Some(n) => n,
            };
            node.revalue(self.slot, new_value);
            t.cache.put_node(pl.addr, node);
        }
        self.path.set(0, pl);
        proof {
            let leaf1 = t.path_node(path, 0);
            let m = before.cache@;
            let m2 = t.cache@;
            let s1 = leaf1.keys();
            assert(s1 == s.update(self.slot as int, revalued(e, *new_value)));
            assert(in_range(s1, lo, hi)) by {
                assert forall|i: int| 0 <= i < s1.len() implies lo <= (#[trigger] s1[i]).pos.ord()
                    < hi by {
                    assert(s1[i].pos == s[i].pos);
                }
            }
            if before.height() > 0 {
                assert(m2 =~= m.insert(path[0].addr, leaf1));
                lemma_leaf_changed(m, m2, before.root.node, before.height(), k, leaf1);
                assert forall|l: int| 0 <= l < t.height() implies #[trigger] t.link_ok(
                    path,
                    l,
                ) by {
                    before.lemma_path_kept(*t, path, l + 1);
                    assert(before.link_ok(path, l));
                }
                before.lemma_path_kept(*t, path, 1);
            }
            assert forall|x: int| 0 <= x < top() implies #[trigger] t.tree_get(x) == if x == k {
                Some(revalued(e, *new_value))
            } else {
                before.tree_get(x)
            } by {
                if before.height() > 0 {
                    assert(t.tree_get(x) == get(m2, t.root.node, before.height(), x));
                    if lo <= x < hi {
                        assert(before.tree_get(x) == get(m, leaf0, 0, x));
                        assert(get(m, leaf0, 0, x) == find(s, x));
                    }
                } else {
                    assert(t.tree_get(x) == find(s1, x));
                    assert(before.tree_get(x) == find(s, x));
                }
            }
            lemma_locks_free(*t, path, self.path@);
        }
        true
    }
}

/// An update changes the address and the version of an extent and nothing else of it: it stays at
/// its position, of its type and of its size, on its device, and its checksum stays.
pub proof fn law_update_keeps_the_rest(e: EntryView, v: BchVal)
    requires
        e.value is Extent,
    ensures
        revalued(e, v).key() == e.key(),
        revalued(e, v).bch_val() == v,
        revalued(e, v).value is Extent,
        ({
            let x = e.value->Extent_0;
            let y = revalued(e, v).value->Extent_0;
            &&& y.size == x.size
            &&& y.crc32c == x.crc32c
            &&& y.crc_offset_blocks == x.crc_offset_blocks
            &&& y.dev_idx == x.dev_idx
        }),
{
}

/// The last of two updates counts, and an update to what an extent has already changes nothing.
pub proof fn law_last_update_counts(e: EntryView, v: BchVal, w: BchVal)
    requires
        e.value is Extent,
    ensures
        revalued(revalued(e, v), w) == revalued(e, w),
        revalued(e, e.bch_val()) == e,
{
}

/// An iterator may write only where it holds its leaf with intent or to write.
pub proof fn law_writes_need_the_lock(a: BtreeIter)
    ensures
        a.path@.len() == 0 ==> !a.may_write(),
        a.path@.len() > 0 && a.path@[0].lock == BtreeNodeLockedType::Read ==> !a.may_write(),
        a.path@.len() > 0 && a.path@[0].lock == BtreeNodeLockedType::Unlocked ==> !a.may_write(),
        a.path@.len() > 0 && a.path@[0].lock == BtreeNodeLockedType::Intent ==> a.may_write(),
        a.path@.len() > 0 && a.path@[0].lock == BtreeNodeLockedType::Write ==> a.may_write(),
{
}

} // verus!
