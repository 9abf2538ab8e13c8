//! A btree: a root, the nodes below it, and the keys kept in front of it.

use crate::btree_id::BtreeId;
use crate::entries::{find, keys};
use crate::key::{Bpos, BtreeKey, EntryView};
use crate::key_cache::KeyCache;
use crate::mend::{holed, law_sound_ways_lead_to_leaves, leads, passed};
use crate::node::{BtreeNode, NodeFlags, DEFAULT_NODE_SIZE};
use crate::node_cache::NodeCache;
use crate::shape::{at, child_hi, child_lo, get, kid, sub_wf, top};
use crate::split::{leaf_of, route_idx};
use vstd::prelude::*;

verus! {

/// The root of a tree; its level is the depth of the tree.
#[derive(Debug)]
pub struct BtreeRoot {
    pub node: BtreeNode,
    pub depth: u8,
}

/// A change of the root that the journal is still to be told of.
#[derive(Debug, Clone, Copy, PartialEq, Eq, Structural)]
pub struct PendingRootJournal {
    pub root_addr: u64,
    pub level: u8,
}

/// A btree.
#[derive(Debug)]
pub struct Btree {
    pub root: BtreeRoot,
    pub cache: NodeCache,
    pub key_cache: KeyCache,
    /// A root leaf was changed since the last flush.
    pub root_modified: bool,
    pub btype: BtreeId,
    /// The words up to which nodes are merged with their siblings, where the volume sets them.
    pub merge_threshold: Option<u16>,
    pub pending_root_journal: Option<PendingRootJournal>,
    /// Address and level of the root on disk.
    pub current_root_disk: Option<(u64, u8)>,
}

impl Btree {
    /// The nodes below the root.
    pub open spec fn nodes(self) -> Map<u64, BtreeNode> {
        self.cache@
    }

    pub open spec fn height(self) -> nat {
        self.root.depth as nat
    }

    /// The entry of the nodes at rank `k`.
    pub open spec fn tree_get(self, k: int) -> Option<EntryView> {
        get(self.cache@, self.root.node, self.height(), k)
    }

    /// The entry that a lookup of rank `k` comes upon: what is kept in front of the nodes, or
    /// else what the nodes hold.
    pub open spec fn lookup(self, k: int) -> Option<EntryView> {
        match self.key_cache.cached(k) {
            Some(e) => Some(e),
            None => self.tree_get(k),
        }
    }

    /// Root and nodes form a tree.
    pub open spec fn shape_ok(self) -> bool {
        sub_wf(self.cache@, self.root.node, self.height(), 0, top())
    }

    pub open spec fn wf(self) -> bool {
        &&& self.shape_ok()
        &&& self.key_cache.wf()
    }

    /// The copies of entries in front of the nodes agree with the nodes.
    pub open spec fn coherent(self) -> bool {
        forall|k: int|
            (#[trigger] find(self.key_cache.clean_keys(), k)) is Some ==> find(
                self.key_cache.clean_keys(),
                k,
            ) == self.tree_get(k)
    }

    /// The leaf that rank `k` belongs to.
    pub open spec fn leaf(self, k: int) -> BtreeNode {
        leaf_of(self.cache@, self.root.node, self.height(), k)
    }

    /// An empty tree of the kind `btype`.
    pub fn new_with_type(btype: BtreeId) -> (r: Btree)
        ensures
            r.wf(),
            r.coherent(),
            r.btype == btype,
            r.root.depth == 0,
            r.nodes() == Map::<u64, BtreeNode>::empty(),
            forall|k: int| (#[trigger] r.lookup(k)) is None,
            r.root.node.keys() == Seq::<EntryView>::empty(),
            !r.root_modified,
            r.merge_threshold is None,
            r.pending_root_journal is None,
            r.current_root_disk is None,
            r.root.node.flags == NodeFlags::none(),
            r.root.node.node_size == DEFAULT_NODE_SIZE,
            r.root.node.live_u64s == 0,
            r.root.node.dead_u64s == 0,
            r.root.node.journal_seq == 0,
            r.root.node.min_key == Bpos::highest(),
            r.root.node.max_key == Bpos::lowest(),
            r.cache.dirty_addrs() == Seq::<u64>::empty(),
            r.key_cache.dirty_keys() == Seq::<EntryView>::empty(),
    {
        let r: Btree = Btree {
            root: BtreeRoot { node: BtreeNode::new_leaf(), depth: 0 },
            cache: NodeCache::new(),
            key_cache: KeyCache::new(),
            root_modified: false,
            btype,
            merge_threshold: None,
            pending_root_journal: None,
            current_root_disk: None,
        };
        proof {
            reveal(find);
        }
        r
    }

    /// An empty tree of extents.
    pub fn new() -> (r: Btree)
        ensures
            r.wf(),
            r.coherent(),
            r.btype == BtreeId::Extents,
            r.root.depth == 0,
            r.nodes() == Map::<u64, BtreeNode>::empty(),
            forall|k: int| (#[trigger] r.lookup(k)) is None,
            r.root.node.keys() == Seq::<EntryView>::empty(),
            !r.root_modified,
            r.merge_threshold is None,
            r.pending_root_journal is None,
            r.current_root_disk is None,
            r.root.node.flags == NodeFlags::none(),
            r.root.node.node_size == DEFAULT_NODE_SIZE,
            r.root.node.live_u64s == 0,
            r.root.node.dead_u64s == 0,
            r.root.node.journal_seq == 0,
            r.root.node.min_key == Bpos::highest(),
            r.root.node.max_key == Bpos::lowest(),
            r.cache.dirty_addrs() == Seq::<u64>::empty(),
            r.key_cache.dirty_keys() == Seq::<EntryView>::empty(),
    {
        Btree::new_with_type(BtreeId::Extents)
    }

    /// The addresses of the nodes of level 1 and above on the way to rank `k`, from the top.
    pub open spec fn path_addrs(self, k: int) -> Seq<u64> {
        Seq::new(
            (self.height() - 1) as nat,
            |i: int| at(self.cache@, self.root.node, self.height(), k, (self.height() - 1 - i) as nat),
        )
    }

    /// Walks down to the leaf that `target` belongs to, and notes the nodes passed on the way. A
    /// tree of one leaf has no such way, and a way that comes to a node without children ends there.
    pub fn bch2_btree_path_traverse_one(
        &self,
        target: &BtreeKey,
        path: &mut Vec<u64>,
    ) -> (r: Option<
        u64,
    >)
        requires
            self.holes_ok(),
        ensures
            self.root.depth == 0 ==> r is None && final(path)@ == old(path)@,
            self.root.depth > 0 ==> {
                &&& r == leads(self.cache@, self.root.node, self.height(), target.pos.ord())
                &&& final(path)@ == passed(
                    self.cache@,
                    self.root.node,
                    self.height(),
                    target.pos.ord(),
                )
            },
            self.root.depth > 0 && self.shape_ok() ==> {
                &&& r == Some(
                    at(self.cache@, self.root.node, self.height(), target.pos.ord(), 0),
                )
                &&& final(path)@ == self.path_addrs(target.pos.ord())
            },
    {
        if self.root.depth == 0 {
            return None;
        }
        path.clear();
        let ghost m = self.cache@;
        let ghost k = target.pos.ord();
        let ghost root = self.root.node;
        let ghost h = self.height();
        let mut level: u8 = self.root.depth;
        let mut node: &BtreeNode = &self.root.node;
        let ghost mut lo: int = 0;
        let ghost mut hi: int = top();
        proof {
            if self.shape_ok() {
                law_sound_ways_lead_to_leaves(*self, target.pos);
            }
            assert(path@ + passed(m, root, h, k) =~= passed(m, root, h, k));
        }
        loop
            invariant
                m == self.cache@,
                k == target.pos.ord(),
                root == self.root.node,
                h == self.height(),
                h > 0,
                1 <= level <= h,
                holed(m, *node, level as nat, lo, hi),
                path@ + passed(m, *node, level as nat, k) == passed(m, root, h, k),
                leads(m, *node, level as nat, k) == leads(m, root, h, k),
                self.shape_ok() ==> {
                    &&& leads(m, root, h, k) == Some(at(m, root, h, k, 0))
                    &&& passed(m, root, h, k) == self.path_addrs(k)
                },
            decreases level,
        {
            if node.entries.len() == 0 {
                assert(path@ + passed(m, *node, level as nat, k) =~= path@);
                return None;
            }
            let i: usize = route_idx(node, &target.pos);
            let c: u64 = node.entries[i].to_key_value().1.paddr;
            let ghost s = node.keys();
            assert(c == kid(s, i as int));
            if level == 1 {
                assert(path@ + passed(m, *node, level as nat, k) =~= path@);
                return Some(c);
            }
            let ghost before = path@;
            path.push(c);
            match self.cache.get(c) {
                Some(n) => {
                    proof {
                        lo = child_lo(s, i as int, lo);
                        hi = child_hi(s, i as int, hi);
                        assert(path@ + passed(m, *n, (level - 1) as nat, k) =~= before + passed(
                            m,
                            *node,
                            level as nat,
                            k,
                        ));
                    }
                    node = n;
                    level = level - 1;
                },
                None => {
                    assert(m.contains_key(kid(s, i as int)));
                    return None;
                },
            }
        }
    }
}

} // verus!
