//! Nodes by address.

use crate::node::BtreeNode;
use std::collections::HashMap;
use vstd::prelude::*;

verus! {

broadcast use vstd::std_specs::hash::group_hash_axioms;

/// The nodes below the root of a tree, by block address, and which of them await a write.
#[derive(Debug)]
pub struct NodeCache {
    nodes: HashMap<u64, BtreeNode>,
    dirty: Vec<u64>,
    next_addr: u64,
}

impl View for NodeCache {
    type V = Map<u64, BtreeNode>;

    closed spec fn view(&self) -> Map<u64, BtreeNode> {
        self.nodes@
    }
}

impl NodeCache {
    /// Addresses of nodes that await a write, in the order in which they were marked.
    pub closed spec fn dirty_addrs(&self) -> Seq<u64> {
        self.dirty@
    }

    /// The address that `alloc_addr` hands out next.
    pub closed spec fn next(&self) -> u64 {
        self.next_addr
    }

    pub fn new() -> (r: NodeCache)
        ensures
            r@ == Map::<u64, BtreeNode>::empty(),
            r.dirty_addrs() == Seq::<u64>::empty(),
            r.next() == 1,
    {
        NodeCache { nodes: HashMap::new(), dirty: Vec::new(), next_addr: 1 }
    }

    /// A new address; the addresses count up from one.
    pub fn alloc_addr(&mut self) -> (r: u64)
        requires
            old(self).next() < u64::MAX,
        ensures
            r == old(self).next(),
            final(self).next() == r + 1,
            final(self)@ == old(self)@,
            final(self).dirty_addrs() == old(self).dirty_addrs(),
    {
        let r: u64 = self.next_addr;
        self.next_addr = r + 1;
        r
    }

    /// The number of nodes.
    pub fn len(&self) -> (r: usize)
        ensures
            r == self@.len(),
    {
        self.nodes.len()
    }

    pub fn is_empty(&self) -> (r: bool)
        ensures
            r == (self@.len() == 0),
    {
        self.nodes.len() == 0
    }

    pub fn get(&self, addr: u64) -> (r: Option<&BtreeNode>)
        ensures
            match r {
                Some(n) => self@.contains_key(addr) && self@[addr] == *n,
                None => !self@.contains_key(addr),
            },
    {
        self.nodes.get(&addr)
    }

    /// Takes the node at `addr` out, for a change of it.
    pub fn take_node(&mut self, addr: u64) -> (r: Option<BtreeNode>)
        ensures
            match r {
                Some(n) => old(self)@.contains_key(addr) && old(self)@[addr] == n,
                None => !old(self)@.contains_key(addr),
            },
            final(self)@ == old(self)@.remove(addr),
            final(self).dirty_addrs() == old(self).dirty_addrs(),
            final(self).next() == old(self).next(),
    {
        self.nodes.remove(&addr)
    }

    /// Puts a node back; whether it awaits a write stays as it was.
    pub fn put_node(&mut self, addr: u64, node: BtreeNode)
        ensures
            final(self)@ == old(self)@.insert(addr, node),
            final(self).dirty_addrs() == old(self).dirty_addrs(),
            final(self).next() == old(self).next(),
    {
        self.nodes.insert(addr, node);
    }

    /// Adds a node that is on disk already.
    pub fn insert(&mut self, addr: u64, node: BtreeNode)
        ensures
            final(self)@ == old(self)@.insert(addr, node),
            final(self).dirty_addrs() == old(self).dirty_addrs(),
            final(self).next() == old(self).next(),
    {
        self.nodes.insert(addr, node);
    }

    /// Puts a node back that awaits a write.
    pub fn insert_dirty(&mut self, addr: u64, node: BtreeNode)
        ensures
            final(self)@ == old(self)@.insert(addr, node),
            final(self).dirty_addrs() == if old(self).dirty_addrs().contains(addr) {
                old(self).dirty_addrs()
            } else {
                old(self).dirty_addrs().push(addr)
            },
            final(self).next() == old(self).next(),
    {
        self.nodes.insert(addr, node);
        let mut i: usize = 0;
        while i < self.dirty.len()
            invariant
                i <= self.dirty.len(),
                self.nodes@ == old(self).nodes@.insert(addr, node),
                self.dirty@ == old(self).dirty@,
                self.next_addr == old(self).next_addr,
                forall|j: int| 0 <= j < i ==> self.dirty@[j] != addr,
            decreases self.dirty.len() - i,
        {
            if self.dirty[i] == addr {
                return;
            }
            i += 1;
        }
        self.dirty.push(addr);
    }

    /// Hands out the marked addresses and clears the marks.
    pub fn take_dirty(&mut self) -> (r: Vec<u64>)
        ensures
            r@ == old(self).dirty_addrs(),
            final(self).dirty_addrs() == Seq::<u64>::empty(),
            final(self)@ == old(self)@,
            final(self).next() == old(self).next(),
    {
        let mut out: Vec<u64> = Vec::new();
        out.append(&mut self.dirty);
        assert(out@ =~= old(self).dirty@);
        out
    }
}

} // verus!
