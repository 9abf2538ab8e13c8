//! Checks that nodes that come from elsewhere form a tree.

use crate::key::{lemma_ord, Bpos, EntryView, KeyValue};
use crate::mend::{holed, holed_kid, holed_node, lemma_holed, lemma_holed_level};
use crate::node::BtreeNode;
use crate::node_cache::NodeCache;
use crate::shape::{child, child_hi, child_lo, kid, lemma_within, reach, top, within};
use crate::topology::{
    apart, lemma_apart_cat, lemma_head_apart, lemma_no_duplicates, lemma_visits_prefix, seen_with,
    visits, visits_kids,
};
use crate::tree::Btree;
use std::collections::HashSet;
use vstd::prelude::*;

verus! {

broadcast use vstd::std_specs::hash::group_hash_axioms;

/// `node` is the top of a subtree of `level` that covers `lo..hi`, apart from whether a node hangs
/// at two places.
pub open spec fn ranged(
    m: Map<u64, BtreeNode>,
    node: BtreeNode,
    level: nat,
    lo: int,
    hi: int,
) -> bool
    decreases level,
{
    &&& holed_node(node, level, lo, hi)
    &&& level > 0 ==> forall|i: int|
        0 <= i < node.keys().len() ==> {
            &&& m.contains_key(#[trigger] kid(node.keys(), i))
            &&& ranged(
                m,
                m[kid(node.keys(), i)],
                (level - 1) as nat,
                child_lo(node.keys(), i, lo),
                child_hi(node.keys(), i, hi),
            )
        }
}

/// The rank that a range ends before; without an end it goes up to the last one.
pub open spec fn end_of(hi: Option<Bpos>) -> int {
    match hi {
        Some(p) => p.ord(),
        None => top(),
    }
}

/// Checks a node by itself.
fn node_fits(node: &BtreeNode, level: u8, lo: &Bpos, hi: Option<Bpos>) -> (r: bool)
    ensures
        r == holed_node(*node, level as nat, lo.ord(), end_of(hi)),
{
    let ghost s = node.keys();
    proof {
        lemma_ord(*lo, Bpos::highest());
    }
    if !node.is_sound() || node.level != level {
        return false;
    }
    if let Some(p) = hi {
        proof {
            lemma_ord(*lo, p);
            lemma_ord(p, Bpos::highest());
        }
        if !lo.precedes(&p) {
            return false;
        }
    }
    let mut i: usize = 0;
    while i < node.entries.len()
        invariant
            s == node.keys(),
            i <= node.entries.len(),
            s.len() == node.entries.len(),
            forall|j: int| 0 <= j < i ==> lo.ord() <= (#[trigger] s[j]).pos.ord() < end_of(hi),
            level > 0 ==> forall|j: int| 0 <= j < i ==> (#[trigger] s[j]).value is Extent,
        decreases node.entries.len() - i,
    {
        let p: Bpos = node.entries[i].pos;
        proof {
            assert(s[i as int] == node.entries@[i as int]@);
            lemma_ord(p, *lo);
            lemma_ord(p, Bpos::highest());
        }
        if p.precedes(lo) {
            return false;
        }
        if let Some(q) = hi {
            proof {
                lemma_ord(p, q);
            }
            if !p.precedes(&q) {
                return false;
            }
        }
        if level > 0 {
            match &node.entries[i].value {
                KeyValue::Extent(_) => {},
                _ => {
                    return false;
                },
            }
        }
        i += 1;
    }
    if level > 0 && node.entries.len() > 0 {
        proof {
            lemma_ord(node.entries@[0].pos, *lo);
            assert(s[0] == node.entries@[0]@);
        }
        if node.entries[0].pos != *lo {
            return false;
        }
    }
    true
}

/// Checks a node and all below it, each by itself.
fn nodes_fit(
    cache: &NodeCache,
    node: &BtreeNode,
    level: u8,
    lo: &Bpos,
    hi: Option<Bpos>,
) -> (r: bool)
    ensures
        r == ranged(cache@, *node, level as nat, lo.ord(), end_of(hi)),
    decreases level,
{
    let ghost s = node.keys();
    let ghost m = cache@;
    if !node_fits(node, level, lo, hi) {
        return false;
    }
    if level == 0 {
        return true;
    }
    let n: usize = node.entries.len();
    let mut i: usize = 0;
    while i < n
        invariant
            s == node.keys(),
            m == cache@,
            n == s.len(),
            n == node.entries.len(),
            i <= n,
            level > 0,
            forall|j: int|
                0 <= j < i ==> {
                    &&& m.contains_key(#[trigger] kid(s, j))
                    &&& ranged(
                        m,
                        m[kid(s, j)],
                        (level - 1) as nat,
                        child_lo(s, j, lo.ord()),
                        child_hi(s, j, end_of(hi)),
                    )
                },
        decreases n - i,
    {
        let addr: u64 = node.entries[i].to_key_value().1.paddr;
        assert(addr == kid(s, i as int));
        let c: &BtreeNode = match cache.get(addr) {
            None => {
                return false;
            },
            Some(c) => c,
        };
        let clo: Bpos = if i == 0 {
            *lo
        } else {
            node.entries[i].pos
        };
        let chi: Option<Bpos> = if i + 1 < n {
            Some(node.entries[i + 1].pos)
        } else {
            hi
        };
        assert(clo.ord() == child_lo(s, i as int, lo.ord()));
        assert(end_of(chi) == child_hi(s, i as int, end_of(hi)));
        if !nodes_fit(cache, c, level - 1, &clo, chi) {
            return false;
        }
        i += 1;
    }
    true
}

/// Whether no node hangs at two places, nor at one that was seen before.
fn hang_once(cache: &NodeCache, node: &BtreeNode, level: u8, seen: &mut HashSet<u64>) -> (r: bool)
    requires
        exists|lo: int, hi: int| #[trigger] ranged(cache@, *node, level as nat, lo, hi),
    ensures
        r <==> {
            let v = visits(cache@, *node, level as nat);
            v.no_duplicates() && apart(v, old(seen)@)
        },
        r ==> final(seen)@ == seen_with(visits(cache@, *node, level as nat), old(seen)@),
    decreases level,
{
    let ghost m = cache@;
    let ghost s = node.keys();
    let ghost h = level as nat;
    let ghost seen0 = seen@;
    let ghost (lo, hi) = choose|lo: int, hi: int| #[trigger] ranged(m, *node, h, lo, hi);
    if level == 0 {
        assert(seen_with(Seq::<u64>::empty(), seen0) =~= seen0);
        return true;
    }
    let n: usize = node.entries.len();
    let mut i: usize = 0;
    proof {
        assert(visits_kids(m, s, h, 0) =~= Seq::<u64>::empty());
        assert(seen_with(visits_kids(m, s, h, 0), seen0) =~= seen0);
    }
    while i < n
        invariant
            n == node.entries.len(),
            n == s.len(),
            s == node.keys(),
            m == cache@,
            h == level,
            h > 0,
            seen0 == old(seen)@,
            i <= n,
            ranged(m, *node, h, lo, hi),
            visits_kids(m, s, h, i as nat).no_duplicates(),
            apart(visits_kids(m, s, h, i as nat), seen0),
            seen@ == seen_with(visits_kids(m, s, h, i as nat), seen0),
        decreases n - i,
    {
        let ghost before = visits_kids(m, s, h, i as nat);
        let ghost seen1 = seen@;
        let addr: u64 = node.entries[i].to_key_value().1.paddr;
        assert(addr == kid(s, i as int));
        let ghost below = visits(m, m[addr], (h - 1) as nat);
        proof {
            let one = seq![addr];
            lemma_visits_prefix(m, s, h, (i + 1) as nat, n as nat);
            assert(before.push(addr) =~= before + one);
            assert((before + one) + below == visits_kids(m, s, h, (i + 1) as nat));
            lemma_apart_cat(before, one, seen0);
            lemma_apart_cat(before + one, below, seen0);
            assert(one[0] == addr);
            lemma_head_apart(visits(m, *node, h), visits_kids(m, s, h, (i + 1) as nat), seen0);
            assert(seen_with(one, seen1) =~= seen1.insert(addr));
        }
        if !seen.insert(addr) {
            return false;
        }
        match cache.get(addr) {
            None => {
                assert(m.contains_key(kid(s, i as int)));
                return false;
            },
            Some(c) => {
                assert(ranged(
                    m,
                    *c,
                    (h - 1) as nat,
                    child_lo(s, i as int, lo),
                    child_hi(s, i as int, hi),
                ));
                if !hang_once(cache, c, level - 1, seen) {
                    return false;
                }
            },
        }
        i += 1;
    }
    true
}

/// The addresses that a walk visits below the first `n` children are those that belong to them.
proof fn lemma_visits_are(m: Map<u64, BtreeNode>, s: Seq<EntryView>, level: nat, n: nat, a: u64)
    requires
        level > 0,
        n <= s.len(),
    ensures
        visits_kids(m, s, level, n).contains(a) <==> exists|i: int|
            0 <= i < n && reach(m, child(#[trigger] s[i]), (level - 1) as nat, a),
    decreases level, n,
{
    let l = (level - 1) as nat;
    if n > 0 {
        let j = n - 1;
        let c = kid(s, j);
        let p = visits_kids(m, s, level, j as nat);
        let v = visits(m, m[c], l);
        let all = visits_kids(m, s, level, n);
        lemma_visits_are(m, s, level, j as nat, a);
        assert(v.contains(a) <==> within(m, m[c], l, a)) by {
            if l > 0 {
                let t = m[c].keys();
                lemma_visits_are(m, t, l, t.len(), a);
                lemma_within(m, m[c], l, a);
            }
        }
        if all.contains(a) {
            let x = choose|x: int| 0 <= x < all.len() && all[x] == a;
            if x < p.len() {
                assert(p[x] == a);
                let i = choose|i: int| 0 <= i < j && reach(m, child(#[trigger] s[i]), l, a);
                assert(reach(m, child(s[i]), l, a));
            } else if x == p.len() {
                assert(reach(m, child(s[j]), l, a));
            } else {
                assert(v[x - p.len() - 1] == a);
                assert(reach(m, child(s[j]), l, a));
            }
        }
        if exists|i: int| 0 <= i < n && reach(m, child(#[trigger] s[i]), l, a) {
            let i = choose|i: int| 0 <= i < n && reach(m, child(#[trigger] s[i]), l, a);
            if i < j {
                assert(p.contains(a));
                let x = choose|x: int| 0 <= x < p.len() && p[x] == a;
                assert(all[x] == a);
            } else if a == c {
                assert(all[p.len() as int] == a);
            } else {
                let x = choose|x: int| 0 <= x < v.len() && v[x] == a;
                assert(all[x + p.len() + 1] == a);
            }
        }
    }
}

/// In a tree no node hangs at two places.
proof fn lemma_hangs_once(
    m: Map<u64, BtreeNode>,
    node: BtreeNode,
    level: nat,
    lo: int,
    hi: int,
    n: nat,
)
    requires
        level > 0,
        holed(m, node, level, lo, hi),
        n <= node.keys().len(),
    ensures
        visits_kids(m, node.keys(), level, n).no_duplicates(),
    decreases level, n,
{
    let s = node.keys();
    let l = (level - 1) as nat;
    if n > 0 {
        let j = n - 1;
        let c = kid(s, j);
        let p = visits_kids(m, s, level, j as nat);
        let v = visits(m, m[c], l);
        let clo = child_lo(s, j, lo);
        let chi = child_hi(s, j, hi);
        lemma_holed(m, node, level, lo, hi);
        assert(holed_kid(m, s, l, lo, hi, j));
        lemma_hangs_once(m, node, level, lo, hi, j as nat);
        if l > 0 {
            lemma_hangs_once(m, m[c], l, clo, chi, m[c].keys().len());
        }
        assert forall|a: u64| #[trigger] v.contains(a) implies within(m, m[c], l, a) by {
            if l > 0 {
                let t = m[c].keys();
                lemma_visits_are(m, t, l, t.len(), a);
                lemma_within(m, m[c], l, a);
            }
        }
        if v.contains(c) {
            lemma_holed_level(m, m[c], l, clo, chi, c);
        }
        assert forall|a: u64| #[trigger] p.contains(a) implies !reach(m, c, l, a) by {
            lemma_visits_are(m, s, level, j as nat, a);
            let i = choose|i: int| 0 <= i < j && reach(m, child(#[trigger] s[i]), l, a);
            if reach(m, c, l, a) {
                assert(reach(m, child(s[i]), l, a) && reach(m, child(s[j]), l, a));
            }
        }
        assert(reach(m, c, l, c));
        assert forall|a: u64| #[trigger] p.contains(a) implies !v.contains(a) by {
            assert(!reach(m, c, l, a));
        }
        lemma_no_duplicates(p, c, v);
    }
}

/// Nodes that fit, each by itself, form a tree if none hangs at two places.
proof fn lemma_fit_together(m: Map<u64, BtreeNode>, node: BtreeNode, level: nat, lo: int, hi: int)
    requires
        ranged(m, node, level, lo, hi),
        visits(m, node, level).no_duplicates(),
    ensures
        holed(m, node, level, lo, hi),
    decreases level,
{
    if level > 0 {
        let s = node.keys();
        let l = (level - 1) as nat;
        let all = visits_kids(m, s, level, s.len());
        assert forall|i: int| 0 <= i < s.len() implies #[trigger] holed_kid(m, s, l, lo, hi, i) by {
            let c = kid(s, i);
            assert(m.contains_key(c));
            let p = visits_kids(m, s, level, i as nat);
            let v = visits(m, m[c], l);
            let q = visits_kids(m, s, level, (i + 1) as nat);
            lemma_visits_prefix(m, s, level, (i + 1) as nat, s.len());
            assert forall|x: int, y: int| 0 <= x < y < v.len() implies v[x] != v[y] by {
                assert(q[x + p.len() + 1] == v[x]);
                assert(q[y + p.len() + 1] == v[y]);
                assert(all[x + p.len() + 1] == v[x]);
                assert(all[y + p.len() + 1] == v[y]);
            }
            lemma_fit_together(m, m[c], l, child_lo(s, i, lo), child_hi(s, i, hi));
        }
        assert forall|i: int, j: int, a: u64|
            #![trigger reach(m, child(s[i]), l, a), reach(m, child(s[j]), l, a)]
            0 <= i < j < s.len() implies !(reach(m, child(s[i]), l, a) && reach(
            m,
            child(s[j]),
            l,
            a,
        )) by {
            if reach(m, child(s[i]), l, a) && reach(m, child(s[j]), l, a) {
                let c = kid(s, j);
                let p = visits_kids(m, s, level, j as nat);
                let v = visits(m, m[c], l);
                let q = visits_kids(m, s, level, (j + 1) as nat);
                lemma_visits_prefix(m, s, level, (j + 1) as nat, s.len());
                lemma_visits_are(m, s, level, j as nat, a);
                assert(q == p.push(c) + v);
                assert(p.contains(a));
                let x = choose|x: int| 0 <= x < p.len() && p[x] == a;
                assert(q[x] == a);
                assert(all[x] == a);
                if a == c {
                    assert(q[p.len() as int] == a && all[p.len() as int] == a);
                } else {
                    if l > 0 {
                        let t = m[c].keys();
                        lemma_visits_are(m, t, l, t.len(), a);
                        lemma_within(m, m[c], l, a);
                    }
                    assert(v.contains(a));
                    let y = choose|y: int| 0 <= y < v.len() && v[y] == a;
                    assert(q[y + p.len() + 1] == a);
                    assert(all[y + p.len() + 1] == a);
                }
            }
        }
        lemma_holed(m, node, level, lo, hi);
    }
}

/// A tree is made of nodes that fit, each by itself.
proof fn lemma_each_fits(m: Map<u64, BtreeNode>, node: BtreeNode, level: nat, lo: int, hi: int)
    requires
        holed(m, node, level, lo, hi),
    ensures
        ranged(m, node, level, lo, hi),
    decreases level,
{
    if level > 0 {
        let s = node.keys();
        let l = (level - 1) as nat;
        lemma_holed(m, node, level, lo, hi);
        assert forall|i: int| 0 <= i < s.len() implies {
            &&& m.contains_key(#[trigger] kid(s, i))
            &&& ranged(m, m[kid(s, i)], l, child_lo(s, i, lo), child_hi(s, i, hi))
        } by {
            assert(holed_kid(m, s, l, lo, hi, i));
            lemma_each_fits(m, m[kid(s, i)], l, child_lo(s, i, lo), child_hi(s, i, hi));
        }
    }
}

impl Btree {
    /// Whether root and nodes form a tree, in which nodes above the leaves may be without children.
    pub fn hangs_together(&self) -> (r: bool)
        ensures
            r == self.holes_ok(),
    {
        let lo: Bpos = Bpos::lowest();
        assert(lo.ord() == 0);
        let ghost m = self.cache@;
        let ghost root = self.root.node;
        let ghost h = self.height();
        proof {
            if self.holes_ok() {
                lemma_each_fits(m, root, h, 0, top());
                if h > 0 {
                    lemma_hangs_once(m, root, h, 0, top(), root.keys().len());
                }
            }
            if ranged(m, root, h, 0, top()) && visits(m, root, h).no_duplicates() {
                lemma_fit_together(m, root, h, 0, top());
            }
        }
        if !nodes_fit(&self.cache, &self.root.node, self.root.depth, &lo, None) {
            return false;
        }
        let mut seen: HashSet<u64> = HashSet::new();
        hang_once(&self.cache, &self.root.node, self.root.depth, &mut seen)
    }
}

} // verus!
