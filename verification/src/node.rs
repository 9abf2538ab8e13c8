//! Btree nodes in memory: a sorted run of live entries with an account of the room they take.

use crate::entries::{
    alive, find, find_entry, holds, keys, lb, lemma_find_none_removed, lemma_lb, lemma_lower_bound,
    lemma_put, lemma_remove_at, lemma_sorted_sub, lemma_widths_concat, lemma_widths_len,
    lemma_widths_remove, lemma_widths_split, lower_bound, packable, put, removed, sorted, upserted,
    widths,
};
use crate::key::{
    extent_entry, lemma_ord, BchVal, Bpos, BtreeKey, EntryView, KeyEntry, KeyType, BKEY_U64S_MAX,
};
use vstd::prelude::*;

verus! {

/// Size of a node unless told otherwise, in bytes.
pub const DEFAULT_NODE_SIZE: u32 = 262144;

/// The smallest node that splits and merges can work with, in bytes.
pub const MIN_NODE_SIZE: u32 = 128;

/// The largest node whose word offsets fit in 16 bits, in bytes.
pub const MAX_NODE_SIZE: u32 = 524280;

/// Words of the header in front of the keys of a set.
pub const BSET_HEADER_U64S: u16 = 3;

/// A merge fills a node to at most this part of it.
pub const MERGE_HIGHER_NUM: u32 = 3;

pub const MERGE_HIGHER_DEN: u32 = 4;

/// Where a node is in its life in the cache.
#[derive(Debug, Clone, Copy, PartialEq, Eq, Hash, Structural)]
pub enum NodeState {
    Alive,
    InFlight,
    Dirty,
    Reclaim,
    Deleting,
}

/// Flags of a node; each is independent of the others.
#[derive(Debug, Clone, Copy, PartialEq, Eq, Hash, Structural)]
pub struct NodeFlags {
    pub write_in_flight: bool,
    pub write_in_flight_inner: bool,
    pub read_in_flight: bool,
    pub just_written: bool,
    pub need_rewrite: bool,
    pub accessed: bool,
    pub will_make_reachable: bool,
    pub write_blocked: bool,
}

impl NodeFlags {
    /// No flag set.
    #[verifier::allow_in_spec]
    pub fn none() -> NodeFlags
        returns
            (NodeFlags {
                write_in_flight: false,
                write_in_flight_inner: false,
                read_in_flight: false,
                just_written: false,
                need_rewrite: false,
                accessed: false,
                will_make_reachable: false,
                write_blocked: false,
            }),
    {
        NodeFlags {
            write_in_flight: false,
            write_in_flight_inner: false,
            read_in_flight: false,
            just_written: false,
            need_rewrite: false,
            accessed: false,
            will_make_reachable: false,
            write_blocked: false,
        }
    }
}

/// Words that the keys of a node of `node_size` bytes may take.
pub open spec fn node_cap(node_size: u32) -> int {
    node_size as int / 8 - BSET_HEADER_U64S
}

/// A node: entries in ascending order, the words that live and dead keys take, and the bounds
/// of its keys.
#[derive(Debug)]
pub struct BtreeNode {
    pub level: u8,
    pub node_size: u32,
    /// The live entries.
    pub entries: Vec<KeyEntry>,
    /// Words taken by the live entries.
    pub live_u64s: u32,
    /// Words taken by deleted keys until the next compaction.
    pub dead_u64s: u32,
    /// Sectors of the node that are on disk; zero where it was never written.
    pub written: u16,
    /// No key of the node stands before this one.
    pub min_key: Bpos,
    /// No key of the node stands after this one.
    pub max_key: Bpos,
    /// What the node would take together with its left and its right sibling; `u16::MAX` where
    /// there is none or none is wanted.
    pub sib_u64s: [u16; 2],
    pub journal_seq: u64,
    /// Version of the node's lock: it changes with every write.
    pub lock_seq: u32,
    pub flags: NodeFlags,
    pub state: NodeState,
}

/// The sibling estimate after a node was written anew.
pub open spec fn sib_estimate(live_u64s: u32, at_border: bool) -> u16 {
    if at_border {
        u16::MAX
    } else if live_u64s < u16::MAX {
        live_u64s as u16
    } else {
        u16::MAX
    }
}

/// The least cut at which the left part holds three fifths of the words, short of the last entry.
pub open spec fn balanced_at(s: Seq<EntryView>, mid: int) -> bool {
    &&& 0 < mid < s.len()
    &&& mid == s.len() - 1 || widths(s.subrange(0, mid)) >= widths(s) * 3 / 5
    &&& mid == 1 || widths(s.subrange(0, mid - 1)) < widths(s) * 3 / 5
}

/// The rule of splits leaves one cut.
pub proof fn lemma_balanced_once(t: Seq<EntryView>, x: int, y: int)
    requires
        balanced_at(t, x),
        balanced_at(t, y),
    ensures
        x == y,
{
    let (p, q) = if x < y {
        (x, y)
    } else {
        (y, x)
    };
    if p < q {
        let u = t.subrange(0, q - 1);
        lemma_widths_split(u, p);
        assert(u.subrange(0, p) =~= t.subrange(0, p));
    }
}

impl BtreeNode {
    pub open spec fn cap(self) -> int {
        node_cap(self.node_size)
    }

    /// Words in use, dead ones included.
    pub open spec fn total(self) -> int {
        self.live_u64s + self.dead_u64s
    }

    pub open spec fn wf(self) -> bool {
        &&& MIN_NODE_SIZE <= self.node_size <= MAX_NODE_SIZE
        &&& sorted(self.keys())
        &&& packable(self.keys())
        &&& alive(self.keys())
        &&& self.live_u64s == widths(self.keys())
        &&& self.total() <= self.cap()
    }

    /// The live entries.
    pub open spec fn keys(self) -> Seq<EntryView> {
        keys(self.entries@)
    }

    /// `self` and `o` differ at most in their keys and in the accounts of them.
    pub open spec fn same_frame(self, o: BtreeNode) -> bool {
        &&& self.level == o.level
        &&& self.node_size == o.node_size
        &&& self.written == o.written
        &&& self.sib_u64s == o.sib_u64s
        &&& self.journal_seq == o.journal_seq
        &&& self.lock_seq == o.lock_seq
        &&& self.flags == o.flags
        &&& self.state == o.state
    }

    /// `self` is a copy of `o`: the same entries, and the same in every other field.
    pub open spec fn copy_of(self, o: BtreeNode) -> bool {
        &&& self.keys() == o.keys()
        &&& self == (BtreeNode { entries: self.entries, ..o })
    }

    /// The bounds are those of `o`, moved out as far as a live key at `pos` needs.
    pub open spec fn spans(self, o: BtreeNode, pos: Bpos, live: bool) -> bool {
        &&& self.min_key == if live && pos.ord() < o.min_key.ord() {
            pos
        } else {
            o.min_key
        }
        &&& self.max_key == if live && o.max_key.ord() < pos.ord() {
            pos
        } else {
            o.max_key
        }
    }

    /// The node has the size of new ones and no keys, and it was never written.
    pub open spec fn fresh(self) -> bool {
        &&& self.node_size == DEFAULT_NODE_SIZE
        &&& self.nr_keys() == 0
        &&& self.live_u64s == 0
        &&& self.dead_u64s == 0
        &&& self.written == 0
        &&& self.sib_u64s@ == seq![u16::MAX, u16::MAX]
        &&& self.journal_seq == 0
        &&& self.lock_seq == 0
    }

    /// There is no room for another extent, even after a compaction.
    pub open spec fn full(self) -> bool {
        self.live_u64s + 6 > self.cap()
    }

    /// The number of live entries.
    pub open spec fn nr_keys(self) -> nat {
        self.keys().len()
    }

    /// An empty node of `level`.
    pub fn new(level: u8) -> (r: BtreeNode)
        ensures
            r.wf(),
            r.level == level,
            r.node_size == DEFAULT_NODE_SIZE,
            r.keys() == Seq::<EntryView>::empty(),
            r.live_u64s == 0,
            r.dead_u64s == 0,
            r.written == 0,
            r.min_key == Bpos::highest(),
            r.max_key == Bpos::lowest(),
            r.sib_u64s@ == seq![u16::MAX, u16::MAX],
            r.journal_seq == 0,
            r.lock_seq == 0,
            r.flags == NodeFlags::none(),
            r.state == NodeState::Alive,
    {
        let entries: Vec<KeyEntry> = Vec::new();
        assert(keys(entries@) =~= Seq::<EntryView>::empty());
        BtreeNode {
            level,
            node_size: DEFAULT_NODE_SIZE,
            entries,
            live_u64s: 0,
            dead_u64s: 0,
            written: 0,
            min_key: Bpos::highest(),
            max_key: Bpos::lowest(),
            sib_u64s: [u16::MAX, u16::MAX],
            journal_seq: 0,
            lock_seq: 0,
            flags: NodeFlags::none(),
            state: NodeState::Alive,
        }
    }

    pub fn new_leaf() -> (r: BtreeNode)
        ensures
            r.wf(),
            r.level == 0,
            r.node_size == DEFAULT_NODE_SIZE,
            r.keys() == Seq::<EntryView>::empty(),
            r.live_u64s == 0,
            r.dead_u64s == 0,
            r.written == 0,
            r.min_key == Bpos::highest(),
            r.max_key == Bpos::lowest(),
            r.sib_u64s@ == seq![u16::MAX, u16::MAX],
            r.journal_seq == 0,
            r.lock_seq == 0,
            r.flags == NodeFlags::none(),
            r.state == NodeState::Alive,
    {
        BtreeNode::new(0)
    }

    pub fn new_internal() -> (r: BtreeNode)
        ensures
            r.wf(),
            r.level == 1,
            r.node_size == DEFAULT_NODE_SIZE,
            r.keys() == Seq::<EntryView>::empty(),
            r.live_u64s == 0,
            r.dead_u64s == 0,
            r.written == 0,
            r.min_key == Bpos::highest(),
            r.max_key == Bpos::lowest(),
            r.sib_u64s@ == seq![u16::MAX, u16::MAX],
            r.journal_seq == 0,
            r.lock_seq == 0,
            r.flags == NodeFlags::none(),
            r.state == NodeState::Alive,
    {
        BtreeNode::new(1)
    }

    /// Words that the keys may take.
    pub fn capacity(&self) -> (r: u32)
        requires
            self.node_size >= MIN_NODE_SIZE,
        ensures
            r == self.cap(),
    {
        self.node_size / 8 - BSET_HEADER_U64S as u32
    }

    /// The number of live entries.
    pub fn key_count(&self) -> (r: usize)
        ensures
            r == self.nr_keys(),
    {
        self.entries.len()
    }

    /// Bytes in use, dead keys included.
    pub fn total_data_bytes(&self) -> (r: u32)
        requires
            self.wf(),
        ensures
            r == self.total() * 8,
    {
        (self.live_u64s + self.dead_u64s) * 8
    }

    /// Bytes in use by live keys.
    pub fn live_data_bytes(&self) -> (r: u32)
        requires
            self.wf(),
        ensures
            r == self.live_u64s * 8,
    {
        self.live_u64s * 8
    }

    /// The live entry at `pos`.
    pub fn lookup(&self, pos: &Bpos) -> (r: Option<&KeyEntry>)
        requires
            self.wf(),
        ensures
            match r {
                Some(e) => find(self.keys(), pos.ord()) == Some(e@),
                None => find(self.keys(), pos.ord()) is None,
            },
    {
        find_entry(&self.entries, pos)
    }

    /// The value under `key`, whatever the type it was stored with.
    pub fn search(&self, key: &BtreeKey) -> (r: Option<BchVal>)
        requires
            self.wf(),
        ensures
            r == (match find(self.keys(), key.pos.ord()) {
                Some(e) => Some(e.bch_val()),
                None => None,
            }),
    {
        match self.lookup(&key.pos) {
            Some(e) => Some(e.to_key_value().1),
            None => None,
        }
    }

    /// Adds `entry`, in place of what stood at its position; a tombstone takes that away and stays
    /// as a dead key. Fails, and changes nothing, where there is no room for the packed entry.
    pub fn insert_entry(&mut self, entry: KeyEntry) -> (r: bool)
        requires
            old(self).wf(),
        ensures
            r == (entry@.u64s() <= BKEY_U64S_MAX && old(self).total() + entry@.u64s()
                <= old(self).cap()),
            !r ==> *final(self) == *old(self),
            r ==> {
                &&& final(self).wf()
                &&& final(self).same_frame(*old(self))
                &&& upserted(old(self).keys(), final(self).keys(), entry@)
                &&& final(self).live_u64s <= old(self).live_u64s + entry@.u64s()
                &&& entry.key_type != KeyType::Deleted ==> final(self).keys() == put(
                    old(self).keys(),
                    entry@,
                )
                &&& entry.key_type == KeyType::Deleted ==> final(self).total() <= old(
                    self,
                ).total() + entry@.u64s()
                &&& entry.key_type == KeyType::Deleted ==> {
                    let gone = match find(old(self).keys(), entry.pos.ord()) {
                        Some(e) => e.u64s() as int,
                        None => 0,
                    };
                    &&& final(self).live_u64s == old(self).live_u64s - gone
                    &&& final(self).dead_u64s == old(self).dead_u64s + entry@.u64s() + if old(
                        self,
                    ).written > 0 {
                        gone
                    } else {
                        0
                    }
                }
                &&& entry.key_type != KeyType::Deleted ==> final(self).dead_u64s == old(
                    self,
                ).dead_u64s
                &&& entry.key_type == KeyType::Deleted ==> final(self).min_key == old(
                    self,
                ).min_key && final(self).max_key == old(self).max_key
                &&& entry.key_type != KeyType::Deleted ==> {
                    &&& final(self).min_key == if entry.pos.ord() < old(self).min_key.ord() {
                        entry.pos
                    } else {
                        old(self).min_key
                    }
                    &&& final(self).max_key == if old(self).max_key.ord() < entry.pos.ord() {
                        entry.pos
                    } else {
                        old(self).max_key
                    }
                }
            },
    {
        let w: u32 = match entry.packed_u64s() {
            None => {
                return false;
            },
            Some(w) => w as u32,
        };
        if self.live_u64s + self.dead_u64s + w > self.capacity() {
            return false;
        }
        if entry.key_type == KeyType::Deleted {
            proof {
                lemma_find_none_removed(self.keys(), entry.pos.ord());
                crate::entries::lemma_find_holds(self.keys(), entry.pos.ord());
            }
            self.remove_pos(&entry.pos);
            self.dead_u64s = self.dead_u64s + w;
            return true;
        }
        self.place(entry, w);
        true
    }

    /// Puts a live entry of `w` words where it belongs.
    fn place(&mut self, entry: KeyEntry, w: u32)
        requires
            old(self).wf(),
            entry.key_type != KeyType::Deleted,
            w == entry@.u64s(),
            w <= BKEY_U64S_MAX,
            old(self).total() + w <= old(self).cap(),
        ensures
            final(self).wf(),
            final(self).same_frame(*old(self)),
            upserted(old(self).keys(), final(self).keys(), entry@),
            final(self).keys() == put(old(self).keys(), entry@),
            final(self).live_u64s <= old(self).live_u64s + w,
            final(self).dead_u64s == old(self).dead_u64s,
            final(self).min_key == if entry.pos.ord() < old(self).min_key.ord() {
                entry.pos
            } else {
                old(self).min_key
            },
            final(self).max_key == if old(self).max_key.ord() < entry.pos.ord() {
                entry.pos
            } else {
                old(self).max_key
            },
    {
        let i: usize = lower_bound(&self.entries, &entry.pos);
        let ghost s = self.keys();
        proof {
            lemma_put(s, entry@, i as int);
        }
        let found: bool = if i < self.entries.len() {
            proof {
                lemma_ord(s[i as int].pos, entry.pos);
            }
            self.entries[i].pos == entry.pos
        } else {
            false
        };
        let pos: Bpos = entry.pos;
        if found {
            proof {
                lemma_widths_remove(s, i as int);
            }
            let old_w: u32 = match self.entries[i].packed_u64s() {
                None => 0,
                Some(x) => x as u32,
            };
            self.entries[i] = entry;
            assert(self.keys() == put(s, entry@)) by {
                assert(self.keys() =~= s.update(i as int, entry@));
            }
            self.live_u64s = self.live_u64s - old_w + w;
        } else {
            self.entries.insert(i, entry);
            assert(self.keys() == put(s, entry@)) by {
                assert(self.keys() =~= s.insert(i as int, entry@));
            }
            self.live_u64s = self.live_u64s + w;
        }
        if pos.precedes(&self.min_key) {
            self.min_key = pos;
        }
        if self.max_key.precedes(&pos) {
            self.max_key = pos;
        }
    }

    /// Adds the extent `value` under `key`.
    pub fn insert(&mut self, key: BtreeKey, value: BchVal) -> (r: bool)
        requires
            old(self).wf(),
        ensures
            r == (old(self).total() + 6 <= old(self).cap()),
            !r ==> *final(self) == *old(self),
            r ==> {
                &&& final(self).wf()
                &&& final(self).same_frame(*old(self))
                &&& upserted(old(self).keys(), final(self).keys(), extent_entry(key, value))
                &&& key.key_type != KeyType::Deleted ==> final(self).keys() == put(
                    old(self).keys(),
                    extent_entry(key, value),
                )
                &&& key.key_type == KeyType::Deleted ==> final(self).total() <= old(self).total() + 6
                &&& key.key_type == KeyType::Deleted ==> {
                    let gone = match find(old(self).keys(), key.pos.ord()) {
                        Some(e) => e.u64s() as int,
                        None => 0,
                    };
                    &&& final(self).live_u64s == old(self).live_u64s - gone
                    &&& final(self).dead_u64s == old(self).dead_u64s + 6 + if old(self).written > 0 {
                        gone
                    } else {
                        0
                    }
                }
                &&& key.key_type != KeyType::Deleted ==> final(self).dead_u64s == old(
                    self,
                ).dead_u64s
                &&& key.key_type == KeyType::Deleted ==> final(self).min_key == old(self).min_key
                    && final(self).max_key == old(self).max_key
                &&& key.key_type != KeyType::Deleted ==> {
                    &&& final(self).min_key == if key.pos.ord() < old(self).min_key.ord() {
                        key.pos
                    } else {
                        old(self).min_key
                    }
                    &&& final(self).max_key == if old(self).max_key.ord() < key.pos.ord() {
                        key.pos
                    } else {
                        old(self).max_key
                    }
                }
            },
    {
        self.insert_entry(KeyEntry::from_key_value(key, value))
    }

    /// Takes away the entry at `pos`. In a node that is on disk its words stay in use until the
    /// next compaction.
    pub fn remove_pos(&mut self, pos: &Bpos) -> (r: bool)
        requires
            old(self).wf(),
        ensures
            r == holds(old(self).keys(), pos.ord()),
            !r ==> *final(self) == *old(self),
            r ==> {
                &&& final(self).wf()
                &&& final(self).same_frame(*old(self))
                &&& final(self).min_key == old(self).min_key
                &&& final(self).max_key == old(self).max_key
                &&& final(self).live_u64s + find(old(self).keys(), pos.ord())->0.u64s() == old(
                    self,
                ).live_u64s
                &&& final(self).dead_u64s == old(self).dead_u64s + if old(self).written > 0 {
                    find(old(self).keys(), pos.ord())->0.u64s()
                } else {
                    0
                }
                &&& removed(old(self).keys(), final(self).keys(), pos.ord())
                &&& final(self).keys() == old(self).keys().remove(
                    lb(old(self).keys(), pos.ord()),
                )
                &&& final(self).nr_keys() + 1 == old(self).nr_keys()
            },
    {
        let i: usize = lower_bound(&self.entries, pos);
        let ghost s = self.keys();
        proof {
            lemma_lower_bound(s, pos.ord(), i as int);
            lemma_lb(s, pos.ord(), i as int);
        }
        if i < self.entries.len() {
            proof {
                lemma_ord(s[i as int].pos, *pos);
            }
            if self.entries[i].pos == *pos {
                proof {
                    lemma_remove_at(s, i as int);
                    lemma_widths_remove(s, i as int);
                }
                let old_w: u32 = match self.entries[i].packed_u64s() {
                    None => 0,
                    Some(x) => x as u32,
                };
                self.entries.remove(i);
                assert(self.keys() =~= s.remove(i as int));
                self.live_u64s = self.live_u64s - old_w;
                if self.written > 0 {
                    self.dead_u64s = self.dead_u64s + old_w;
                }
                return true;
            }
        }
        false
    }

    /// Deletes the entry under `key`; whether there was one.
    pub fn delete_key(&mut self, key: &BtreeKey) -> (r: bool)
        requires
            old(self).wf(),
        ensures
            r == holds(old(self).keys(), key.pos.ord()),
            !r ==> *final(self) == *old(self),
            r ==> {
                &&& final(self).wf()
                &&& final(self).same_frame(*old(self))
                &&& final(self).min_key == old(self).min_key
                &&& final(self).max_key == old(self).max_key
                &&& final(self).live_u64s + find(old(self).keys(), key.pos.ord())->0.u64s()
                    == old(self).live_u64s
                &&& final(self).dead_u64s == old(self).dead_u64s + if old(self).written > 0 {
                    find(old(self).keys(), key.pos.ord())->0.u64s()
                } else {
                    0
                }
                &&& removed(old(self).keys(), final(self).keys(), key.pos.ord())
                &&& final(self).keys() == old(self).keys().remove(
                    lb(old(self).keys(), key.pos.ord()),
                )
                &&& final(self).nr_keys() + 1 == old(self).nr_keys()
            },
    {
        self.remove_pos(&key.pos)
    }

    /// Reclaims the words of dead keys.
    pub fn compact(&mut self)
        requires
            old(self).wf(),
        ensures
            final(self).wf(),
            final(self).same_frame(*old(self)),
            final(self).keys() == old(self).keys(),
            final(self).live_u64s == old(self).live_u64s,
            final(self).dead_u64s == 0,
            final(self).min_key == old(self).min_key,
            final(self).max_key == old(self).max_key,
    {
        self.dead_u64s = 0;
    }

    /// Whether `new_u64s` more words fit beside the live ones.
    pub fn compact_fits(&self, new_u64s: u32) -> (r: bool)
        requires
            self.wf(),
            new_u64s <= 0xFFFF,
        ensures
            r == (self.live_u64s + new_u64s <= self.cap()),
    {
        self.live_u64s + new_u64s <= self.capacity()
    }

    /// Sets the sibling estimates from the live words; a side at the border of the key space
    /// has no sibling.
    pub fn reset_sib_u64s(&mut self)
        ensures
            final(self).sib_u64s@ == seq![
                sib_estimate(old(self).live_u64s, old(self).min_key == Bpos::lowest()),
                sib_estimate(old(self).live_u64s, old(self).max_key == Bpos::highest()),
            ],
            *final(self) == (BtreeNode { sib_u64s: final(self).sib_u64s, ..*old(self) }),
    {
        let live: u16 = if self.live_u64s < 0xFFFF {
            self.live_u64s as u16
        } else {
            0xFFFF
        };
        let left: u16 = if self.min_key == Bpos::lowest() {
            0xFFFF
        } else {
            live
        };
        let right: u16 = if self.max_key == Bpos::highest() {
            0xFFFF
        } else {
            live
        };
        self.sib_u64s = [left, right];
    }
}

/// Where to cut a run of entries so that the left part holds three fifths of the words.
pub fn find_balanced_split(entries: &Vec<KeyEntry>, total_u64s: u32) -> (r: Option<usize>)
    requires
        total_u64s == widths(keys(entries@)),
        total_u64s <= 0xFFFFF,
        packable(keys(entries@)),
    ensures
        match r {
            None => entries@.len() < 2,
            Some(mid) => balanced_at(keys(entries@), mid as int),
        },
{
    if entries.len() < 2 {
        return None;
    }
    let target: u32 = total_u64s * 3 / 5;
    let mut mid: usize = 0;
    let mut acc: u32 = 0;
    let ghost s = keys(entries@);
    assert(s.subrange(0, 0) =~= Seq::<EntryView>::empty());
    loop
        invariant_except_break
            mid + 1 < entries.len(),
            mid >= 1 ==> acc < target,
        invariant
            s == keys(entries@),
            acc == widths(s.subrange(0, mid as int)),
            acc <= total_u64s,
            total_u64s == widths(s),
            total_u64s <= 0xFFFFF,
            packable(s),
            mid < entries.len(),
            mid >= 2 ==> widths(s.subrange(0, mid - 1)) < target,
        ensures
            0 < mid < entries.len(),
            mid == entries.len() - 1 || acc >= target,
        decreases entries.len() - mid,
    {
        let w: u32 = match entries[mid].packed_u64s() {
            None => 0,
            Some(x) => x as u32,
        };
        proof {
            let a = s.subrange(0, mid as int);
            let b = s.subrange(0, mid + 1);
            assert(b.drop_last() =~= a);
            assert(b.last() == s[mid as int]);
            lemma_widths_split(s, mid + 1);
        }
        acc = acc + w;
        mid += 1;
        if mid + 1 >= entries.len() || acc >= target {
            break;
        }
    }
    Some(mid)
}

impl BtreeNode {
    /// What is left of a node, and the new node beside it, once the node was cut at `mid`.
    pub open spec fn cut_at(self, o: BtreeNode, mid: int, median: BtreeKey, right: BtreeNode) -> bool {
        let n = o.keys().len() as int;
        &&& self.wf()
        &&& right.wf()
        &&& self.keys() == o.keys().subrange(0, mid)
        &&& right.keys() == o.keys().subrange(mid, n)
        &&& self.dead_u64s == 0
        &&& right.dead_u64s == 0
        &&& median == (BtreeKey { pos: o.keys()[mid].pos, key_type: KeyType::Normal, size: 0 })
        &&& self.min_key == o.min_key
        &&& self.max_key == o.keys()[mid - 1].pos
        &&& right.min_key == median.pos
        &&& right.max_key == o.max_key
        &&& right.level == o.level
        &&& right.node_size == o.node_size
        &&& right.journal_seq == o.journal_seq
        &&& right.lock_seq == 0
        &&& right.written == 0
        &&& right.flags == NodeFlags::none()
        &&& right.state == NodeState::Alive
        &&& self.same_frame((BtreeNode { sib_u64s: self.sib_u64s, ..o }))
        &&& self.sib_u64s@ == fresh_sibs(self)
        &&& right.sib_u64s@ == fresh_sibs(right)
    }

    /// Splits the node before its entry `mid`. The upper part moves to a new node, which comes back
    /// with its first key.
    pub fn split_at(&mut self, mid: usize) -> (r: (BtreeKey, BtreeNode))
        requires
            old(self).wf(),
            0 < mid < old(self).keys().len(),
        ensures
            final(self).cut_at(*old(self), mid as int, r.0, r.1),
    {
        let ghost s = self.keys();
        let ghost n = s.len() as int;
        let total: u32 = self.live_u64s;
        let upper: Vec<KeyEntry> = self.entries.split_off(mid);
        proof {
            assert(self.keys() =~= s.subrange(0, mid as int));
            assert(keys(upper@) =~= s.subrange(mid as int, n));
            lemma_widths_split(s, mid as int);
            lemma_sorted_sub(s, 0, mid as int);
            lemma_sorted_sub(s, mid as int, n);
        }
        let left_u64s: u32 = sum_u64s(&self.entries);
        let median: BtreeKey = BtreeKey::from_bpos(upper[0].pos, KeyType::Normal);
        let mut right: BtreeNode = BtreeNode::new(self.level);
        right.node_size = self.node_size;
        right.live_u64s = total - left_u64s;
        right.min_key = upper[0].pos;
        right.max_key = self.max_key;
        right.journal_seq = self.journal_seq;
        right.entries = upper;
        right.reset_sib_u64s();
        self.live_u64s = left_u64s;
        self.dead_u64s = 0;
        self.max_key = self.entries[mid - 1].pos;
        self.reset_sib_u64s();
        (median, right)
    }

    /// Splits the node at three fifths of its words. The upper part moves to a new node, which
    /// comes back with its first key. A node with fewer than two entries is left alone.
    pub fn split(&mut self) -> (r: Option<(BtreeKey, BtreeNode)>)
        requires
            old(self).wf(),
        ensures
            match r {
                None => old(self).nr_keys() < 2 && *final(self) == *old(self),
                Some((median, right)) => {
                    let mid = final(self).keys().len() as int;
                    &&& balanced_at(old(self).keys(), mid)
                    &&& final(self).cut_at(*old(self), mid, median, right)
                },
            },
    {
        proof {
            lemma_widths_len(self.keys());
        }
        match find_balanced_split(&self.entries, self.live_u64s) {
            None => None,
            Some(mid) => Some(self.split_at(mid)),
        }
    }
}

/// The nodes `l` and `r`, filled with the entries `t`, cut at `mid`.
pub open spec fn packed_apart(
    l: BtreeNode,
    r: BtreeNode,
    l2: BtreeNode,
    r2: BtreeNode,
    t: Seq<EntryView>,
    mid: int,
) -> bool {
    &&& l2.wf()
    &&& r2.wf()
    &&& l2.same_frame((BtreeNode { sib_u64s: l2.sib_u64s, ..l }))
    &&& r2.same_frame((BtreeNode { sib_u64s: r2.sib_u64s, ..r }))
    &&& l2.keys() == t.subrange(0, mid)
    &&& r2.keys() == t.subrange(mid, t.len() as int)
    &&& l2.dead_u64s == 0
    &&& r2.dead_u64s == 0
    &&& l2.min_key == if t[0].pos.ord() < l.min_key.ord() {
        t[0].pos
    } else {
        l.min_key
    }
    &&& l2.max_key == t[mid - 1].pos
    &&& r2.min_key == t[mid].pos
    &&& r2.max_key == if r.max_key.ord() < t.last().pos.ord() {
        t.last().pos
    } else {
        r.max_key
    }
    &&& l2.sib_u64s@ == fresh_sibs(l2)
    &&& r2.sib_u64s@ == fresh_sibs(r2)
}

/// The sibling estimates that go by the node alone.
pub open spec fn fresh_sibs(n: BtreeNode) -> Seq<u16> {
    seq![
        sib_estimate(n.live_u64s, n.min_key == Bpos::lowest()),
        sib_estimate(n.live_u64s, n.max_key == Bpos::highest()),
    ]
}

impl BtreeNode {

    /// Takes over all keys of `left`, which stand before those of this node.
    pub fn absorb(&mut self, left: BtreeNode)
        requires
            old(self).wf(),
            left.wf(),
            old(self).live_u64s + left.live_u64s <= old(self).cap(),
            sorted(left.keys() + old(self).keys()),
        ensures
            final(self).wf(),
            final(self).same_frame(*old(self)),
            final(self).keys() == left.keys() + old(self).keys(),
            final(self).live_u64s == old(self).live_u64s + left.live_u64s,
            final(self).dead_u64s == 0,
            final(self).min_key == if left.min_key.ord() < old(self).min_key.ord() {
                left.min_key
            } else {
                old(self).min_key
            },
            final(self).max_key == if old(self).max_key.ord() < left.max_key.ord() {
                left.max_key
            } else {
                old(self).max_key
            },
    {
        let mut left: BtreeNode = left;
        let ghost a = left.keys();
        let ghost b = self.keys();
        proof {
            lemma_widths_concat(a, b);
        }
        let mut own: Vec<KeyEntry> = Vec::new();
        own.append(&mut left.entries);
        own.append(&mut self.entries);
        assert(keys(own@) =~= a + b);
        assert(forall|i: int| 0 <= i < (a + b).len() ==> #[trigger] (a + b)[i] == if i < a.len() {
            a[i]
        } else {
            b[i - a.len()]
        });
        self.entries = own;
        self.live_u64s = self.live_u64s + left.live_u64s;
        self.dead_u64s = 0;
        if left.min_key.precedes(&self.min_key) {
            self.min_key = left.min_key;
        }
        if self.max_key.precedes(&left.max_key) {
            self.max_key = left.max_key;
        }
    }

    /// Fills this node with the first `mid` entries and `right` with the others; the bounds of
    /// the two widen where they have to, and meet at the cut.
    pub fn pack_entries_into(&mut self, entries: Vec<KeyEntry>, mid: usize, right: &mut BtreeNode)
        requires
            MIN_NODE_SIZE <= old(self).node_size <= MAX_NODE_SIZE,
            MIN_NODE_SIZE <= old(right).node_size <= MAX_NODE_SIZE,
            sorted(keys(entries@)),
            packable(keys(entries@)),
            alive(keys(entries@)),
            0 < mid < keys(entries@).len(),
            widths(keys(entries@).subrange(0, mid as int)) <= old(self).cap(),
            widths(keys(entries@).subrange(mid as int, keys(entries@).len() as int)) <= old(right).cap(),
        ensures
            packed_apart(
                *old(self),
                *old(right),
                *final(self),
                *final(right),
                keys(entries@),
                mid as int,
            ),
    {
        let mut low: Vec<KeyEntry> = entries;
        let ghost s = keys(low@);
        let n: usize = low.len();
        let high: Vec<KeyEntry> = low.split_off(mid);
        proof {
            assert(keys(low@) =~= s.subrange(0, mid as int));
            assert(keys(high@) =~= s.subrange(mid as int, n as int));
            lemma_sorted_sub(s, 0, mid as int);
            lemma_sorted_sub(s, mid as int, n as int);
        }
        let first: Bpos = low[0].pos;
        let last: Bpos = high[n - mid - 1].pos;
        self.live_u64s = sum_u64s(&low);
        self.dead_u64s = 0;
        if first.precedes(&self.min_key) {
            self.min_key = first;
        }
        self.max_key = low[mid - 1].pos;
        self.entries = low;
        self.reset_sib_u64s();
        right.live_u64s = sum_u64s(&high);
        right.dead_u64s = 0;
        right.min_key = high[0].pos;
        if right.max_key.precedes(&last) {
            right.max_key = last;
        }
        right.entries = high;
        right.reset_sib_u64s();
    }
}

/// A sibling estimate after the node has shrunk by `by` words.
pub open spec fn sib_shrunk(sib: u16, by: int, floor: u16) -> u16 {
    if sib == u16::MAX {
        u16::MAX
    } else if sib - by > floor {
        (sib - by) as u16
    } else {
        floor
    }
}

/// Dead words are worth a compaction: there are more than before, many, and a third of all.
pub open spec fn lazy_compacts(old_dead: int, live: int, dead: int) -> bool {
    dead > old_dead && dead > 64 && dead * 3 > live + dead
}

fn shrink_sib(sib: u16, by: u32, floor: u16) -> (r: u16)
    ensures
        r == sib_shrunk(sib, by as int, floor),
{
    if sib == 0xFFFF {
        0xFFFF
    } else if (sib as u32) > by && (sib as u32) - by > floor as u32 {
        ((sib as u32) - by) as u16
    } else {
        floor
    }
}

impl BtreeNode {
    /// Lets the sibling estimates follow the node as it shrinks by `by` words, down to `floor`.
    pub fn shrink_sibs(&mut self, by: u32, floor: u16)
        ensures
            final(self).sib_u64s@ == seq![
                sib_shrunk(old(self).sib_u64s@[0], by as int, floor),
                sib_shrunk(old(self).sib_u64s@[1], by as int, floor),
            ],
            *final(self) == (BtreeNode { sib_u64s: final(self).sib_u64s, ..*old(self) }),
    {
        let left: u16 = shrink_sib(self.sib_u64s[0], by, floor);
        let right: u16 = shrink_sib(self.sib_u64s[1], by, floor);
        self.sib_u64s = [left, right];
    }

    /// Follows up on a change of the keys: the sibling estimates shrink with the node, and dead
    /// words are reclaimed where there are many new ones.
    pub fn settle(&mut self, old_live: u32, old_dead: u32, floor: u16)
        requires
            old(self).wf(),
        ensures
            final(self).wf(),
            final(self).keys() == old(self).keys(),
            final(self).dead_u64s == if lazy_compacts(
                old_dead as int,
                old(self).live_u64s as int,
                old(self).dead_u64s as int,
            ) {
                0u32
            } else {
                old(self).dead_u64s
            },
            old(self).live_u64s >= old_live ==> final(self).sib_u64s == old(self).sib_u64s,
            old(self).live_u64s < old_live ==> final(self).sib_u64s@ == seq![
                sib_shrunk(old(self).sib_u64s@[0], old_live - old(self).live_u64s, floor),
                sib_shrunk(old(self).sib_u64s@[1], old_live - old(self).live_u64s, floor),
            ],
            *final(self) == (BtreeNode {
                sib_u64s: final(self).sib_u64s,
                dead_u64s: final(self).dead_u64s,
                ..*old(self)
            }),
    {
        if self.live_u64s < old_live {
            self.shrink_sibs(old_live - self.live_u64s, floor);
        }
        if self.dead_u64s > old_dead && self.dead_u64s > 64 && self.dead_u64s * 3 > self.live_u64s
            + self.dead_u64s {
            self.dead_u64s = 0;
        }
    }
}

/// A leaf is split rather than filled beyond two thirds of its words.
pub open spec fn splits_at(total_u64s: int, node_size: u32) -> bool {
    total_u64s > node_size as int / 8 * 2 / 3
}

/// Whether a leaf with `total_u64s` words in use is to be split.
pub fn should_split(total_u64s: u32, node_size: u32) -> (r: bool)
    requires
        node_size <= MAX_NODE_SIZE,
    ensures
        r == splits_at(total_u64s as int, node_size),
{
    total_u64s > node_size / 8 * 2 / 3
}

impl BtreeNode {
    /// A copy of the node.
    pub fn duplicate(&self) -> (r: BtreeNode)
        ensures
            r.keys() == self.keys(),
            r == (BtreeNode { entries: r.entries, ..*self }),
    {
        let mut entries: Vec<KeyEntry> = Vec::with_capacity(self.entries.len());
        let mut i: usize = 0;
        while i < self.entries.len()
            invariant
                i <= self.entries.len(),
                entries@.len() == i,
                forall|j: int| 0 <= j < i ==> (#[trigger] entries@[j])@ == self.entries@[j]@,
            decreases self.entries.len() - i,
        {
            entries.push(self.entries[i].clone());
            i += 1;
        }
        assert(keys(entries@) =~= self.keys());
        BtreeNode {
            level: self.level,
            node_size: self.node_size,
            entries,
            live_u64s: self.live_u64s,
            dead_u64s: self.dead_u64s,
            written: self.written,
            min_key: self.min_key,
            max_key: self.max_key,
            sib_u64s: self.sib_u64s,
            journal_seq: self.journal_seq,
            lock_seq: self.lock_seq,
            flags: self.flags,
            state: self.state,
        }
    }

    /// Readies a node for changes: what a finished write has left behind is cleaned up.
    pub fn prep_for_write(&mut self)
        requires
            old(self).wf(),
        ensures
            final(self).wf(),
            final(self).keys() == old(self).keys(),
            final(self).flags == (if old(self).flags.just_written {
                (NodeFlags { just_written: false, need_rewrite: false, ..old(self).flags })
            } else {
                old(self).flags
            }),
            final(self).dead_u64s == if old(self).flags.just_written {
                0u32
            } else {
                old(self).dead_u64s
            },
            *final(self) == (BtreeNode {
                flags: final(self).flags,
                dead_u64s: final(self).dead_u64s,
                ..*old(self)
            }),
    {
        if self.flags.just_written {
            self.flags.just_written = false;
            self.flags.need_rewrite = false;
            self.dead_u64s = 0;
        }
    }
}

/// Words that a run of entries takes.
pub fn sum_u64s(entries: &Vec<KeyEntry>) -> (r: u32)
    requires
        widths(keys(entries@)) <= 0xFFFFF,
        packable(keys(entries@)),
    ensures
        r == widths(keys(entries@)),
{
    let mut i: usize = 0;
    let mut acc: u32 = 0;
    let ghost s = keys(entries@);
    assert(s.subrange(0, 0) =~= Seq::<EntryView>::empty());
    while i < entries.len()
        invariant
            s == keys(entries@),
            i <= entries.len(),
            acc == widths(s.subrange(0, i as int)),
            widths(s) <= 0xFFFFF,
            packable(s),
        decreases entries.len() - i,
    {
        let w: u32 = match entries[i].packed_u64s() {
            None => 0,
            Some(x) => x as u32,
        };
        proof {
            let b = s.subrange(0, i + 1);
            assert(b.drop_last() =~= s.subrange(0, i as int));
            assert(b.last() == s[i as int]);
            lemma_widths_split(s, i + 1);
        }
        acc = acc + w;
        i += 1;
    }
    assert(s.subrange(0, s.len() as int) =~= s);
    acc
}

impl BtreeNode {
    /// Whether a node that comes from elsewhere is well formed.
    pub fn is_sound(&self) -> (r: bool)
        ensures
            r == self.wf(),
    {
        if self.node_size < MIN_NODE_SIZE || self.node_size > MAX_NODE_SIZE {
            return false;
        }
        let ghost s = self.keys();
        let mut i: usize = 0;
        let mut acc: u64 = 0;
        assert(s.subrange(0, 0) =~= Seq::<EntryView>::empty());
        while i < self.entries.len()
            invariant
                i <= self.entries.len(),
                s == self.keys(),
                sorted(s.subrange(0, i as int)),
                packable(s.subrange(0, i as int)),
                alive(s.subrange(0, i as int)),
                acc == widths(s.subrange(0, i as int)),
                acc <= 255 * i,
            decreases self.entries.len() - i,
        {
            let ghost t = s.subrange(0, i + 1);
            proof {
                assert(t.drop_last() =~= s.subrange(0, i as int));
                assert(t.last() == s[i as int]);
                assert(s.subrange(0, i as int).push(s[i as int]) =~= t);
                if i > 0 {
                    lemma_ord(s[i - 1].pos, s[i as int].pos);
                }
            }
            let w: u64 = match self.entries[i].packed_u64s() {
                None => {
                    return false;
                },
                Some(w) => w as u64,
            };
            if acc > 0xFFFF_FFFF {
                proof {
                    lemma_widths_split(s, i as int);
                }
                return false;
            }
            if self.entries[i].key_type == KeyType::Deleted {
                return false;
            }
            if i > 0 && !self.entries[i - 1].pos.precedes(&self.entries[i].pos) {
                return false;
            }
            acc = acc + w;
            i += 1;
        }
        assert(s.subrange(0, i as int) =~= s);
        acc == self.live_u64s as u64 && self.live_u64s as u64 + self.dead_u64s as u64
            <= self.capacity() as u64
    }
}

/// The words that keys may take are those of the node, at eight bytes each, but for three of a header.
pub proof fn law_capacity(node_size: u32)
    ensures
        8 * (node_cap(node_size) + 3) <= node_size < 8 * (node_cap(node_size) + 4),
{
}

/// A node can take one more extent just where the six words of it fit beside the live ones, once dead
/// ones are reclaimed.
pub proof fn law_full(n: BtreeNode)
    ensures
        n.full() <==> 8 * (n.live_u64s + 6 + 3) > n.node_size,
{
}

/// A split leaves at least three fifths of the words below the cut, as long as there is an entry for
/// the upper part, and no more entries there than that takes.
pub proof fn law_split_at_three_fifths(s: Seq<EntryView>, mid: int)
    ensures
        balanced_at(s, mid) <==> {
            let all = widths(s) as int;
            &&& 1 <= mid <= s.len() - 1
            &&& mid < s.len() - 1 ==> 5 * widths(s.subrange(0, mid)) > 3 * all - 5
            &&& mid > 1 ==> 5 * widths(s.subrange(0, mid - 1)) <= 3 * all - 5
        },
{
    if 1 <= mid < s.len() {
        let all = widths(s) as int;
        let w = widths(s.subrange(0, mid)) as int;
        let v = widths(s.subrange(0, mid - 1)) as int;
        let q = all * 3 / 5;
        assert(5 * q <= 3 * all < 5 * q + 5);
        assert(w >= q <==> 5 * w > 3 * all - 5);
        assert(v < q <==> 5 * v <= 3 * all - 5);
    }
}

/// The estimate for a sibling is the node's own words, or none where the node is at the border of the
/// key space or holds too many words for it.
pub proof fn law_fresh_estimates(n: BtreeNode)
    ensures
        fresh_sibs(n).len() == 2,
        n.min_key == Bpos::lowest() || n.live_u64s > 0xFFFF ==> fresh_sibs(n)[0] == 0xFFFF,
        n.min_key != Bpos::lowest() && n.live_u64s <= 0xFFFF ==> fresh_sibs(n)[0] == n.live_u64s,
        n.max_key == Bpos::highest() || n.live_u64s > 0xFFFF ==> fresh_sibs(n)[1] == 0xFFFF,
        n.max_key != Bpos::highest() && n.live_u64s <= 0xFFFF ==> fresh_sibs(n)[1] == n.live_u64s,
{
}

/// An estimate follows a node that shrinks, word by word, and never goes below the floor; none stays
/// none. To shrink twice is to shrink once by both.
pub proof fn law_estimates_shrink(sib: u16, a: int, b: int, floor: u16)
    requires
        a >= 0,
        b >= 0,
        floor < 0xFFFF,
    ensures
        sib == 0xFFFF ==> sib_shrunk(sib, a, floor) == 0xFFFF,
        sib != 0xFFFF ==> sib_shrunk(sib, a, floor) >= floor,
        sib != 0xFFFF && sib >= floor + a ==> sib_shrunk(sib, a, floor) == sib - a,
        sib != 0xFFFF && sib < floor + a ==> sib_shrunk(sib, a, floor) == floor,
        sib_shrunk(sib_shrunk(sib, a, floor), b, floor) == sib_shrunk(sib, a + b, floor),
{
}

/// Dead words are reclaimed where a change has added some, there are more than 64, and they are more
/// than half as many as the live ones.
pub proof fn law_when_to_compact(old_dead: int, live: int, dead: int)
    ensures
        lazy_compacts(old_dead, live, dead) <==> dead > old_dead && dead > 64 && 2 * dead > live,
{
}

/// A leaf is split beyond two thirds of its words: never one that is less full than another that is
/// not split.
pub proof fn law_when_to_split(a: int, b: int, node_size: u32)
    ensures
        splits_at(a, node_size) <==> 3 * a > 2 * (node_size as int / 8),
        a <= b && splits_at(a, node_size) ==> splits_at(b, node_size),
{
    let q = node_size as int / 8;
    let f = q * 2 / 3;
    assert(3 * f <= 2 * q < 3 * f + 3);
}

/// A split loses no entry and no word, and the two parts do not overlap: the lower one ends before the
/// first key of the upper one, where the upper one begins.
pub proof fn law_split_keeps_entries(
    l: BtreeNode,
    o: BtreeNode,
    mid: int,
    median: BtreeKey,
    r: BtreeNode,
)
    requires
        o.wf(),
        0 < mid < o.keys().len(),
        l.cut_at(o, mid, median, r),
    ensures
        l.keys() + r.keys() == o.keys(),
        l.live_u64s + r.live_u64s == o.live_u64s,
        l.keys().len() > 0,
        r.keys().len() > 0,
        median.pos == r.keys()[0].pos,
        median.pos == r.min_key,
        l.max_key == l.keys().last().pos,
        l.max_key.ord() < r.min_key.ord(),
        l.min_key == o.min_key,
        r.max_key == o.max_key,
        forall|i: int| 0 <= i < l.keys().len() ==> (#[trigger] l.keys()[i]).pos.ord()
            < median.pos.ord(),
        forall|i: int| 0 <= i < r.keys().len() ==> (#[trigger] r.keys()[i]).pos.ord()
            >= median.pos.ord(),
        l.level == r.level == o.level,
        l.node_size == r.node_size == o.node_size,
        l.journal_seq == r.journal_seq == o.journal_seq,
        l.dead_u64s == 0,
        r.dead_u64s == 0,
        r.written == 0,
        l.sib_u64s@[0] == if o.min_key == Bpos::lowest() {
            0xFFFF
        } else if l.live_u64s <= 0xFFFF {
            l.live_u64s as int
        } else {
            0xFFFF
        },
{
    let s = o.keys();
    assert(l.keys() + r.keys() =~= s);
    lemma_widths_split(s, mid);
    assert(s[mid - 1].pos.ord() < s[mid].pos.ord());
    assert forall|i: int| 0 <= i < l.keys().len() implies (#[trigger] l.keys()[i]).pos.ord()
        < median.pos.ord() by {
        assert(l.keys()[i] == s[i]);
        assert(s[i].pos.ord() < s[mid].pos.ord());
    }
    assert forall|i: int| 0 <= i < r.keys().len() implies (#[trigger] r.keys()[i]).pos.ord()
        >= median.pos.ord() by {
        assert(r.keys()[i] == s[i + mid]);
        if i > 0 {
            assert(s[mid].pos.ord() < s[i + mid].pos.ord());
        }
    }
}

/// Two nodes that share some entries hold all of them between them, and nothing else.
pub proof fn law_shared_entries_stay(
    l: BtreeNode,
    r: BtreeNode,
    l2: BtreeNode,
    r2: BtreeNode,
    t: Seq<EntryView>,
    mid: int,
)
    requires
        0 < mid < t.len(),
        sorted(t),
        packed_apart(l, r, l2, r2, t, mid),
    ensures
        l2.keys() + r2.keys() == t,
        l2.live_u64s + r2.live_u64s == widths(t),
        r2.min_key == r2.keys()[0].pos,
        l2.max_key == l2.keys().last().pos,
        l2.min_key.ord() <= l2.keys()[0].pos.ord(),
        l2.min_key.ord() <= l.min_key.ord(),
        r2.keys().last().pos.ord() <= r2.max_key.ord(),
        r.max_key.ord() <= r2.max_key.ord(),
        l2.level == l.level,
        r2.level == r.level,
        l2.dead_u64s == 0,
        r2.dead_u64s == 0,
{
    assert(l2.keys() + r2.keys() =~= t);
    lemma_widths_split(t, mid);
}

/// The upper part of a node that was split is a new node: never written, with no flag set, of the same
/// level, size and journal number; the lower part keeps what it was.
pub proof fn law_upper_part_is_new(
    l: BtreeNode,
    o: BtreeNode,
    mid: int,
    median: BtreeKey,
    r: BtreeNode,
)
    requires
        l.cut_at(o, mid, median, r),
        0 < mid < o.keys().len(),
    ensures
        r.level == o.level && l.level == o.level,
        r.node_size == o.node_size && l.node_size == o.node_size,
        r.journal_seq == o.journal_seq && l.journal_seq == o.journal_seq,
        r.written == 0 && l.written == o.written,
        r.lock_seq == 0 && l.lock_seq == o.lock_seq,
        l.flags == o.flags,
        !r.flags.write_blocked && !r.flags.write_in_flight && !r.flags.read_in_flight
            && !r.flags.just_written && !r.flags.need_rewrite && !r.flags.will_make_reachable
            && !r.flags.accessed,
        median.pos == r.keys()[0].pos,
        median.key_type == KeyType::Normal,
        l.min_key == o.min_key && r.max_key == o.max_key,
        l.max_key == l.keys()[l.keys().len() - 1].pos,
        r.min_key == r.keys()[0].pos,
{
}

/// New nodes have 256 KiB; a node has 128 bytes at least and less than 512 KiB.
pub proof fn law_node_sizes(n: BtreeNode)
    ensures
        n.fresh() ==> n.node_size == 0x4_0000,
        n.wf() ==> 128 <= n.node_size <= 0x7_FFF8,
{
}

} // verus!
