//! Ways from the root of a tree down to one of its leaves.

use crate::key::{lemma_ord, Bpos};
use crate::node::BtreeNode;
use crate::shape::{
    at, at_hi, at_lo, child, child_hi, child_lo, get, kid, kid_ok, lemma_route_range, lemma_unfold,
    route, sub_wf, top,
};
use crate::split::route_idx;
use crate::tree::Btree;
use vstd::prelude::*;

verus! {

/// The address that stands for a root, which is not kept by address.
pub const ROOT_CACHE_ADDR: u64 = 0;

/// How a node on the way is held.
#[derive(Debug, Clone, Copy, PartialEq, Eq, Structural)]
pub enum BtreeNodeLockedType {
    Unlocked,
    Read,
    Intent,
    Write,
}

/// One node on the way down.
#[derive(Debug, Clone, Copy, PartialEq, Eq, Structural)]
pub struct PathLevel {
    pub addr: u64,
    /// Which of the entries of the node above leads here.
    pub child_idx: usize,
    pub lock: BtreeNodeLockedType,
    /// The version of the node's lock when it was taken.
    pub locked_seq: u32,
}

/// Which child to go down to.
#[derive(Debug, Clone, Copy)]
pub enum Descent {
    First,
    Last,
    To(Bpos),
}

impl Btree {
    /// The node of level `l` of a path; the levels count from the leaf.
    pub open spec fn path_node(self, path: Seq<PathLevel>, l: int) -> BtreeNode {
        if l >= self.height() {
            self.root.node
        } else {
            self.cache@[path[l].addr]
        }
    }

    /// Level `l` of a path is where the level above leads.
    pub open spec fn link_ok(self, path: Seq<PathLevel>, l: int) -> bool {
        let s = self.path_node(path, l + 1).keys();
        &&& path[l].child_idx < s.len()
        &&& path[l].addr == kid(s, path[l].child_idx as int)
    }

    /// A path that is valid from level `from` up.
    pub open spec fn path_from(self, path: Seq<PathLevel>, from: int) -> bool {
        &&& path.len() == self.height() + 1
        &&& forall|l: int| from <= l < self.height() ==> #[trigger] self.link_ok(path, l)
    }

    pub open spec fn path_ok(self, path: Seq<PathLevel>) -> bool {
        self.path_from(path, 0)
    }

    /// Every level of a path bears the version that its node has.
    pub open spec fn path_seqs(self, path: Seq<PathLevel>) -> bool {
        forall|i: int|
            0 <= i <= self.height() ==> (#[trigger] path[i]).locked_seq == self.path_node(
                path,
                i,
            ).lock_seq
    }

    /// The ranks below the node of level `l` of a path begin here.
    pub open spec fn path_lo(self, path: Seq<PathLevel>, l: int) -> int
        decreases self.height() - l,
    {
        if l >= self.height() {
            0
        } else {
            child_lo(
                self.path_node(path, l + 1).keys(),
                path[l].child_idx as int,
                self.path_lo(path, l + 1),
            )
        }
    }

    /// The ranks below the node of level `l` of a path end before this.
    pub open spec fn path_hi(self, path: Seq<PathLevel>, l: int) -> int
        decreases self.height() - l,
    {
        if l >= self.height() {
            top()
        } else {
            child_hi(
                self.path_node(path, l + 1).keys(),
                path[l].child_idx as int,
                self.path_hi(path, l + 1),
            )
        }
    }

    /// The node of level `l` of a path covers its range.
    pub proof fn lemma_path(self, path: Seq<PathLevel>, from: int, l: int)
        requires
            self.shape_ok(),
            self.path_from(path, from),
            0 <= from <= l <= self.height(),
        ensures
            sub_wf(
                self.cache@,
                self.path_node(path, l),
                l as nat,
                self.path_lo(path, l),
                self.path_hi(path, l),
            ),
            l < self.height() ==> self.cache@.contains_key(path[l].addr),
            0 <= self.path_lo(path, l) < self.path_hi(path, l) <= top(),
            forall|x: int|
                self.path_lo(path, l) <= x < self.path_hi(path, l) ==> #[trigger] self.tree_get(x)
                    == get(self.cache@, self.path_node(path, l), l as nat, x),
        decreases self.height() - l,
    {
        let m = self.cache@;
        if l < self.height() {
            self.lemma_path(path, from, l + 1);
            let up = self.path_node(path, l + 1);
            let s = up.keys();
            let lo = self.path_lo(path, l + 1);
            let hi = self.path_hi(path, l + 1);
            let j = path[l].child_idx as int;
            assert(self.link_ok(path, l));
            lemma_unfold(m, up, (l + 1) as nat, lo, hi);
            assert(kid_ok(m, s, l as nat, lo, hi, j));
            let c = self.path_node(path, l);
            assert(c == m[child(s[j])]);
            assert forall|x: int| self.path_lo(path, l) <= x < self.path_hi(path, l) implies
                #[trigger] self.tree_get(x) == get(m, c, l as nat, x) by {
                assert forall|i: int| j < i < s.len() implies (#[trigger] s[i]).pos.ord() > x by {
                    if i > j + 1 {
                        assert(s[j + 1].pos.ord() < s[i].pos.ord());
                    }
                }
                crate::shape::lemma_route_is(s, x, j);
                assert(lo <= x) by {
                    if j > 0 {
                        assert(s[0].pos.ord() < s[j].pos.ord());
                    }
                }
                assert(x < hi);
                assert(get(m, up, (l + 1) as nat, x) == get(m, c, l as nat, x));
            }
        }
    }

    /// What a path says of a level depends on that level and those above.
    pub proof fn lemma_path_same(self, p: Seq<PathLevel>, q: Seq<PathLevel>, l: int)
        requires
            p.len() == self.height() + 1,
            q.len() == p.len(),
            0 <= l <= self.height(),
            forall|i: int|
                l <= i < self.height() ==> (#[trigger] q[i]).addr == p[i].addr && q[i].child_idx
                    == p[i].child_idx,
        ensures
            self.path_node(q, l) == self.path_node(p, l),
            self.path_lo(q, l) == self.path_lo(p, l),
            self.path_hi(q, l) == self.path_hi(p, l),
        decreases self.height() - l,
    {
        if l < self.height() {
            self.lemma_path_same(p, q, l + 1);
            assert(q[l].addr == p[l].addr);
        }
    }

    /// The node of level `l` of a path.
    pub fn node_on(&self, path: &Vec<PathLevel>, l: usize) -> (r: &BtreeNode)
        requires
            self.shape_ok(),
            self.path_from(path@, l as int),
            l <= self.root.depth,
        ensures
            *r == self.path_node(path@, l as int),
    {
        if l >= self.root.depth as usize {
            &self.root.node
        } else {
            proof {
                self.lemma_path(path@, l as int, l as int);
            }
            match self.cache.get(path[l].addr) {
                Some(n) => n,
                None => {
                    assert(false);
                    &self.root.node
                },
            }
        }
    }

    /// Renews the part of a path below level `from`.
    pub fn descend(&self, path: &mut Vec<PathLevel>, from: usize, how: Descent)
        requires
            self.shape_ok(),
            self.path_from(old(path)@, from as int),
            from <= self.root.depth,
            how matches Descent::To(pos) ==> self.path_lo(old(path)@, from as int) <= pos.ord()
                < self.path_hi(old(path)@, from as int),
        ensures
            self.path_ok(final(path)@),
            forall|i: int|
                from <= i < final(path)@.len() ==> #[trigger] final(path)@[i] == old(path)@[i],
            forall|i: int|
                0 <= i < from ==> (#[trigger] final(path)@[i]).lock == BtreeNodeLockedType::Read
                    && final(path)@[i].locked_seq == self.path_node(final(path)@, i).lock_seq,
            how is First ==> self.path_lo(final(path)@, 0) == self.path_lo(
                old(path)@,
                from as int,
            ),
            how is Last ==> self.path_hi(final(path)@, 0) == self.path_hi(old(path)@, from as int),
            how matches Descent::To(pos) ==> self.path_lo(final(path)@, 0) <= pos.ord()
                < self.path_hi(final(path)@, 0),
    {
        let ghost p0 = path@;
        let mut l: usize = from;
        while l > 0
            invariant
                self.shape_ok(),
                0 <= l <= from <= self.root.depth,
                self.path_from(path@, l as int),
                path@.len() == p0.len(),
                forall|i: int| from <= i < path@.len() ==> #[trigger] path@[i] == p0[i],
                forall|i: int|
                    l <= i < from ==> (#[trigger] path@[i]).lock == BtreeNodeLockedType::Read
                        && path@[i].locked_seq == self.path_node(path@, i).lock_seq,
                how is First ==> self.path_lo(path@, l as int) == self.path_lo(p0, from as int),
                how is Last ==> self.path_hi(path@, l as int) == self.path_hi(p0, from as int),
                how matches Descent::To(pos) ==> self.path_lo(path@, l as int) <= pos.ord()
                    < self.path_hi(path@, l as int),
            decreases l,
        {
            let ghost before = path@;
            let ghost lo = self.path_lo(before, l as int);
            let ghost hi = self.path_hi(before, l as int);
            proof {
                self.lemma_path(before, l as int, l as int);
            }
            let up: &BtreeNode = self.node_on(path, l);
            let ghost s = up.keys();
            proof {
                lemma_unfold(self.cache@, *up, l as nat, lo, hi);
            }
            let n: usize = up.entries.len();
            let idx: usize = match how {
                Descent::First => 0,
                Descent::Last => n - 1,
                Descent::To(pos) => {
                    proof {
                        lemma_route_range(s, lo, hi, pos.ord());
                    }
                    route_idx(up, &pos)
                },
            };
            let addr: u64 = up.entries[idx].to_key_value().1.paddr;
            proof {
                assert(kid_ok(self.cache@, s, (l - 1) as nat, lo, hi, idx as int));
                assert(addr == kid(s, idx as int));
            }
            let seq: u32 = match self.cache.get(addr) {
                Some(c) => c.lock_seq,
                None => {
                    assert(false);
                    0
                },
            };
            path.set(
                l - 1,
                PathLevel { addr, child_idx: idx, lock: BtreeNodeLockedType::Read, locked_seq: seq },
            );
            proof {
                let p = path@;
                self.lemma_path_same(before, p, l as int);
                assert(self.link_ok(p, l - 1));
                assert forall|i: int| l - 1 <= i < self.height() implies #[trigger] self.link_ok(
                    p,
                    i,
                ) by {
                    if i >= l {
                        self.lemma_path_same(before, p, i);
                        self.lemma_path_same(before, p, i + 1);
                        assert(self.link_ok(before, i));
                        assert(p[i] == before[i]);
                    }
                }
                assert forall|i: int| l - 1 <= i < from implies (#[trigger] p[i]).lock
                    == BtreeNodeLockedType::Read && p[i].locked_seq == self.path_node(
                    p,
                    i,
                ).lock_seq by {
                    if i >= l {
                        self.lemma_path_same(before, p, i);
                        assert(p[i] == before[i]);
                    }
                }
                assert(forall|i: int| from <= i < p.len() ==> #[trigger] p[i] == before[i]);
            }
            l -= 1;
        }
    }

    /// The path to the leaf that `target` belongs to.
    pub fn path_to(&self, target: &Bpos) -> (r: Vec<PathLevel>)
        requires
            self.shape_ok(),
        ensures
            self.path_ok(r@),
            self.path_lo(r@, 0) <= target.ord() < self.path_hi(r@, 0),
            forall|i: int|
                0 <= i <= self.height() ==> (#[trigger] r@[i]).lock == BtreeNodeLockedType::Read
                    && r@[i].locked_seq == self.path_node(r@, i).lock_seq,
            r@[self.height() as int].addr == ROOT_CACHE_ADDR,
    {
        proof {
            lemma_ord(*target, *target);
        }
        let mut path: Vec<PathLevel> = Vec::new();
        let blank: PathLevel = PathLevel {
            addr: ROOT_CACHE_ADDR,
            child_idx: 0,
            lock: BtreeNodeLockedType::Read,
            locked_seq: self.root.node.lock_seq,
        };
        let mut i: u8 = 0;
        let depth: u8 = self.root.depth;
        while i < depth
            invariant
                i <= depth,
                path@.len() == i,
            decreases depth - i,
        {
            path.push(blank);
            i += 1;
        }
        path.push(blank);
        self.descend(&mut path, depth as usize, Descent::To(*target));
        path
    }

    /// Moves a path on to the next leaf; there may be none.
    pub fn next_leaf(&self, path: &mut Vec<PathLevel>) -> (r: bool)
        requires
            self.shape_ok(),
            self.path_ok(old(path)@),
        ensures
            self.path_ok(final(path)@),
            r ==> self.path_lo(final(path)@, 0) == self.path_hi(old(path)@, 0),
            !r ==> final(path)@ == old(path)@ && self.path_hi(old(path)@, 0) == top(),
            self.path_seqs(old(path)@) ==> self.path_seqs(final(path)@),
    {
        let ghost p0 = path@;
        let depth: usize = self.root.depth as usize;
        let mut l: usize = 0;
        while l < depth
            invariant
                self.shape_ok(),
                depth == self.height(),
                l <= depth,
                p0 == old(path)@,
                path@ == p0,
                self.path_ok(p0),
                self.path_hi(p0, 0) == self.path_hi(p0, l as int),
            decreases depth - l,
        {
            let up: &BtreeNode = self.node_on(path, l + 1);
            let ghost s = up.keys();
            let n: usize = up.entries.len();
            let j: usize = path[l].child_idx;
            assert(self.link_ok(p0, l as int));
            if j + 1 < n {
                let addr: u64 = up.entries[j + 1].to_key_value().1.paddr;
                assert(addr == kid(s, j + 1));
                let ghost lo = self.path_lo(p0, l + 1);
                let ghost hi = self.path_hi(p0, l + 1);
                proof {
                    self.lemma_path(p0, 0, l + 1);
                    lemma_unfold(self.cache@, *up, (l + 1) as nat, lo, hi);
                    assert(kid_ok(self.cache@, s, l as nat, lo, hi, j + 1));
                    assert(self.path_hi(p0, l as int) == child_hi(s, j as int, hi));
                }
                let seq: u32 = match self.cache.get(addr) {
                    Some(c) => c.lock_seq,
                    None => 0,
                };
                path.set(
                    l,
                    PathLevel {
                        addr,
                        child_idx: j + 1,
                        lock: BtreeNodeLockedType::Read,
                        locked_seq: seq,
                    },
                );
                proof {
                    self.lemma_relinked(p0, path@, l as int);
                }
                let ghost p1 = path@;
                self.descend(path, l, Descent::First);
                proof {
                    let p2 = path@;
                    if self.path_seqs(p0) {
                        assert forall|i: int| 0 <= i <= self.height() implies (
                        #[trigger] p2[i]).locked_seq == self.path_node(p2, i).lock_seq by {
                            if i > l {
                                assert(p2[i] == p1[i] && p1[i] == p0[i]);
                                assert(p0[i].locked_seq == self.path_node(p0, i).lock_seq);
                            } else if i == l {
                                assert(p2[i] == p1[i]);
                            }
                        }
                    }
                }
                return true;
            }
            l += 1;
        }
        false
    }

    /// Moves a path back to the leaf before; there may be none.
    pub fn prev_leaf(&self, path: &mut Vec<PathLevel>) -> (r: bool)
        requires
            self.shape_ok(),
            self.path_ok(old(path)@),
        ensures
            self.path_ok(final(path)@),
            r ==> self.path_hi(final(path)@, 0) == self.path_lo(old(path)@, 0),
            !r ==> final(path)@ == old(path)@ && self.path_lo(old(path)@, 0) == 0,
    {
        let ghost p0 = path@;
        let depth: usize = self.root.depth as usize;
        let mut l: usize = 0;
        while l < depth
            invariant
                self.shape_ok(),
                depth == self.height(),
                l <= depth,
                p0 == old(path)@,
                path@ == p0,
                self.path_ok(p0),
                self.path_lo(p0, 0) == self.path_lo(p0, l as int),
            decreases depth - l,
        {
            let up: &BtreeNode = self.node_on(path, l + 1);
            let ghost s = up.keys();
            let j: usize = path[l].child_idx;
            assert(self.link_ok(p0, l as int));
            if j > 0 {
                let addr: u64 = up.entries[j - 1].to_key_value().1.paddr;
                assert(addr == kid(s, j - 1));
                let ghost lo = self.path_lo(p0, l + 1);
                let ghost hi = self.path_hi(p0, l + 1);
                proof {
                    self.lemma_path(p0, 0, l + 1);
                    lemma_unfold(self.cache@, *up, (l + 1) as nat, lo, hi);
                    assert(kid_ok(self.cache@, s, l as nat, lo, hi, j - 1));
                    assert(self.path_lo(p0, l as int) == child_lo(s, j as int, lo));
                }
                let seq: u32 = match self.cache.get(addr) {
                    Some(c) => c.lock_seq,
                    None => 0,
                };
                path.set(
                    l,
                    PathLevel {
                        addr,
                        child_idx: j - 1,
                        lock: BtreeNodeLockedType::Read,
                        locked_seq: seq,
                    },
                );
                proof {
                    self.lemma_relinked(p0, path@, l as int);
                }
                self.descend(path, l, Descent::Last);
                return true;
            }
            l += 1;
        }
        false
    }

    /// A path with another child at level `l` is valid from there up.
    proof fn lemma_relinked(self, p: Seq<PathLevel>, q: Seq<PathLevel>, l: int)
        requires
            self.path_ok(p),
            0 <= l < self.height(),
            q == p.update(l, q[l]),
            q[l].child_idx < self.path_node(p, l + 1).keys().len(),
            q[l].addr == kid(self.path_node(p, l + 1).keys(), q[l].child_idx as int),
        ensures
            self.path_from(q, l),
            self.path_lo(q, l) == child_lo(
                self.path_node(p, l + 1).keys(),
                q[l].child_idx as int,
                self.path_lo(p, l + 1),
            ),
            self.path_hi(q, l) == child_hi(
                self.path_node(p, l + 1).keys(),
                q[l].child_idx as int,
                self.path_hi(p, l + 1),
            ),
    {
        self.lemma_path_same(p, q, l + 1);
        assert forall|i: int| l <= i < self.height() implies #[trigger] self.link_ok(q, i) by {
            self.lemma_path_same(p, q, i + 1);
            if i > l {
                assert(self.link_ok(p, i));
            }
        }
    }
}

impl Btree {
    /// The ranks below the leaf that rank `k` belongs to begin here.
    pub open spec fn leaf_lo(self, k: int) -> int {
        if self.height() == 0 {
            0
        } else {
            at_lo(self.cache@, self.root.node, self.height(), 0, k, 0)
        }
    }

    /// The ranks below the leaf that rank `k` belongs to end before this.
    pub open spec fn leaf_hi(self, k: int) -> int {
        if self.height() == 0 {
            top()
        } else {
            at_hi(self.cache@, self.root.node, self.height(), top(), k, 0)
        }
    }

    /// Ranges shrink on the way down.
    proof fn lemma_path_nested(self, path: Seq<PathLevel>, l: int)
        requires
            self.shape_ok(),
            self.path_ok(path),
            0 <= l <= self.height(),
        ensures
            self.path_lo(path, l) <= self.path_lo(path, 0),
            self.path_hi(path, 0) <= self.path_hi(path, l),
        decreases l,
    {
        if l > 0 {
            self.lemma_path_nested(path, l - 1);
            self.lemma_path(path, 0, l);
            let up = self.path_node(path, l);
            let s = up.keys();
            let lo = self.path_lo(path, l);
            let hi = self.path_hi(path, l);
            lemma_unfold(self.cache@, up, l as nat, lo, hi);
            assert(self.link_ok(path, l - 1));
            let j = path[l - 1].child_idx as int;
            assert(lo <= s[j].pos.ord() < hi);
            if j + 1 < s.len() {
                assert(lo <= s[j + 1].pos.ord() < hi);
            }
        }
    }

    proof fn lemma_path_at(self, path: Seq<PathLevel>, k: int, l: int)
        requires
            self.shape_ok(),
            self.path_ok(path),
            self.path_lo(path, 0) <= k < self.path_hi(path, 0),
            1 <= l <= self.height(),
        ensures
            at(self.cache@, self.root.node, self.height(), k, 0) == at(
                self.cache@,
                self.path_node(path, l),
                l as nat,
                k,
                0,
            ),
            at_lo(self.cache@, self.root.node, self.height(), 0, k, 0) == at_lo(
                self.cache@,
                self.path_node(path, l),
                l as nat,
                self.path_lo(path, l),
                k,
                0,
            ),
            at_hi(self.cache@, self.root.node, self.height(), top(), k, 0) == at_hi(
                self.cache@,
                self.path_node(path, l),
                l as nat,
                self.path_hi(path, l),
                k,
                0,
            ),
        decreases self.height() - l,
    {
        if l < self.height() {
            self.lemma_path_at(path, k, l + 1);
            self.lemma_path_route(path, k, l);
        }
    }

    /// A path to rank `k` goes where `k` is routed.
    proof fn lemma_path_route(self, path: Seq<PathLevel>, k: int, l: int)
        requires
            self.shape_ok(),
            self.path_ok(path),
            self.path_lo(path, 0) <= k < self.path_hi(path, 0),
            0 <= l < self.height(),
        ensures
            path[l].child_idx == route(self.path_node(path, l + 1).keys(), k),
            path[l].addr == child(
                self.path_node(path, l + 1).keys()[path[l].child_idx as int],
            ),
    {
        self.lemma_path_nested(path, l);
        self.lemma_path(path, 0, l + 1);
        let up = self.path_node(path, l + 1);
        let s = up.keys();
        lemma_unfold(
            self.cache@,
            up,
            (l + 1) as nat,
            self.path_lo(path, l + 1),
            self.path_hi(path, l + 1),
        );
        assert(self.link_ok(path, l));
        let j = path[l].child_idx as int;
        assert(child_lo(s, j, self.path_lo(path, l + 1)) <= k < child_hi(
            s,
            j,
            self.path_hi(path, l + 1),
        ));
        assert forall|i: int| j < i < s.len() implies (#[trigger] s[i]).pos.ord() > k by {
            if i > j + 1 {
                assert(s[j + 1].pos.ord() < s[i].pos.ord());
            }
        }
        crate::shape::lemma_route_is(s, k, j);
    }

    /// A path that covers rank `k` ends in the leaf of `k`.
    pub proof fn lemma_path_leaf(self, path: Seq<PathLevel>, k: int)
        requires
            self.shape_ok(),
            self.path_ok(path),
            self.path_lo(path, 0) <= k < self.path_hi(path, 0),
        ensures
            self.path_node(path, 0) == self.leaf(k),
            self.path_lo(path, 0) == self.leaf_lo(k),
            self.path_hi(path, 0) == self.leaf_hi(k),
            self.height() > 0 ==> path[0].addr == at(
                self.cache@,
                self.root.node,
                self.height(),
                k,
                0,
            ),
    {
        if self.height() > 0 {
            self.lemma_path_at(path, k, 1);
            self.lemma_path_route(path, k, 0);
            let up = self.path_node(path, 1);
            assert(at(self.cache@, up, 1, k, 0) == path[0].addr);
        }
    }
}

} // verus!
