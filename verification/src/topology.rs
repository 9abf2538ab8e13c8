//! Checks that the nodes of a tree hang together.

use crate::btree_id::NR_BTREE_IDS;
use crate::contents::{lemma_listed, walk, walk_kids};
use crate::entries::keys;
use crate::key::{lemma_ord, Bpos, EntryView, KeyEntry, KeyType};
use crate::node::BtreeNode;
use crate::node_cache::NodeCache;
use crate::shape::{
    child, child_hi, child_lo, kid, kid_ok, lemma_unfold, lemma_within_level, reach, sub_wf, top,
    within,
};
use crate::tree::Btree;
use crate::volume::BchVol;
use crate::writer::StorageError;
use std::collections::HashSet;
use vstd::prelude::*;

verus! {

broadcast use vstd::std_specs::hash::group_hash_axioms;

/// The addresses of the nodes below a node, each node ahead of those below it.
pub open spec fn visits(m: Map<u64, BtreeNode>, node: BtreeNode, level: nat) -> Seq<u64>
    decreases level, 1int, 0nat,
{
    if level == 0 {
        Seq::empty()
    } else {
        visits_kids(m, node.keys(), level, node.keys().len())
    }
}

/// The addresses of the first `n` children and of the nodes below them.
pub open spec fn visits_kids(m: Map<u64, BtreeNode>, s: Seq<EntryView>, level: nat, n: nat) -> Seq<
    u64,
>
    decreases level, 0int, n,
{
    if n == 0 || level == 0 {
        Seq::empty()
    } else {
        visits_kids(m, s, level, (n - 1) as nat).push(kid(s, n - 1)) + visits(
            m,
            m[kid(s, n - 1)],
            (level - 1) as nat,
        )
    }
}

/// The bounds of a leaf include its keys; a bound that was never set includes everything.
pub open spec fn bounds_ok(node: BtreeNode) -> bool {
    let s = node.keys();
    s.len() > 0 ==> {
        &&& node.min_key == Bpos::highest() || node.min_key.ord() <= s[0].pos.ord()
        &&& node.max_key == Bpos::lowest() || s[s.len() - 1].pos.ord() <= node.max_key.ord()
    }
}

/// Child `i` is there, one level down, and begins after its left neighbour ends.
pub open spec fn link_valid(m: Map<u64, BtreeNode>, s: Seq<EntryView>, level: nat, i: int) -> bool {
    let c = kid(s, i);
    &&& c != 0
    &&& m.contains_key(c)
    &&& m[c].level + 1 == level
    &&& i > 0 ==> m[kid(s, i - 1)].max_key.ord() < m[c].min_key.ord()
}

/// The nodes below a node hang together.
#[verifier::opaque]
pub open spec fn valid(m: Map<u64, BtreeNode>, node: BtreeNode, level: nat) -> bool
    decreases level,
{
    if level == 0 {
        bounds_ok(node)
    } else {
        let s = node.keys();
        &&& s.len() > 0
        &&& forall|i: int|
            0 <= i < s.len() ==> #[trigger] link_valid(m, s, level, i) && valid(
                m,
                m[kid(s, i)],
                (level - 1) as nat,
            )
    }
}

/// The first `n` children hang together.
pub open spec fn kids_valid(m: Map<u64, BtreeNode>, s: Seq<EntryView>, level: nat, n: int) -> bool {
    forall|i: int|
        0 <= i < n ==> #[trigger] link_valid(m, s, level, i) && valid(
            m,
            m[kid(s, i)],
            (level - 1) as nat,
        )
}

/// The entries that are not deleted are in strictly ascending order.
pub open spec fn live_sorted(s: Seq<EntryView>) -> bool {
    forall|i: int, j: int|
        0 <= i < j < s.len() && (#[trigger] s[i]).key_type != KeyType::Deleted && (
        #[trigger] s[j]).key_type != KeyType::Deleted ==> s[i].pos.ord() < s[j].pos.ord()
}

impl Btree {
    /// The nodes hang together, none twice, and the entries of the leaves that are not deleted are
    /// in strictly ascending order.
    pub open spec fn topology_ok(self) -> bool {
        let m = self.cache@;
        let root = self.root.node;
        let level = root.level as nat;
        &&& valid(m, root, level)
        &&& visits(m, root, level).no_duplicates()
        &&& live_sorted(walk(m, root, level))
    }
}

/// No address of `s` is in `seen`.
pub open spec fn apart(s: Seq<u64>, seen: Set<u64>) -> bool {
    forall|i: int| 0 <= i < s.len() ==> !seen.contains(#[trigger] s[i])
}

/// The addresses of `s`, in addition to `seen`.
pub open spec fn seen_with(s: Seq<u64>, seen: Set<u64>) -> Set<u64> {
    seen.union(s.to_set())
}

/// One after the other, two lists of addresses hold nothing twice and nothing seen before, if that
/// holds of the first, and of the second with the first seen too.
pub(crate) proof fn lemma_apart_cat(a: Seq<u64>, b: Seq<u64>, seen: Set<u64>)
    ensures
        (a + b).no_duplicates() && apart(a + b, seen) <==> a.no_duplicates() && apart(a, seen)
            && b.no_duplicates() && apart(b, seen_with(a, seen)),
        seen_with(a + b, seen) == seen_with(b, seen_with(a, seen)),
{
    let c = a + b;
    assert(forall|i: int| 0 <= i < a.len() ==> #[trigger] a[i] == c[i]);
    assert(forall|i: int| 0 <= i < b.len() ==> #[trigger] b[i] == c[i + a.len()]);
    if c.no_duplicates() && apart(c, seen) {
        assert forall|i: int| 0 <= i < b.len() implies !seen_with(a, seen).contains(
            #[trigger] b[i],
        ) by {
            assert(c[i + a.len()] == b[i]);
            if a.to_set().contains(b[i]) {
                let j = choose|j: int| 0 <= j < a.len() && a[j] == b[i];
                assert(c[j] == a[j]);
            }
        }
        assert forall|i: int, j: int| 0 <= i < j < b.len() implies b[i] != b[j] by {
            assert(c[i + a.len()] != c[j + a.len()]);
        }
        assert forall|i: int, j: int| 0 <= i < j < a.len() implies a[i] != a[j] by {
            assert(c[i] != c[j]);
        }
        assert(apart(a, seen));
    }
    if a.no_duplicates() && apart(a, seen) && b.no_duplicates() && apart(b, seen_with(a, seen)) {
        assert forall|i: int| 0 <= i < c.len() implies !seen.contains(#[trigger] c[i]) by {
            if i < a.len() {
                assert(a[i] == c[i]);
            } else {
                assert(b[i - a.len()] == c[i]);
                assert(!seen_with(a, seen).contains(b[i - a.len()]));
            }
        }
        assert forall|i: int, j: int| 0 <= i < j < c.len() implies c[i] != c[j] by {
            if j < a.len() {
                assert(a[i] != a[j]);
            } else if i >= a.len() {
                assert(b[i - a.len()] != b[j - a.len()]);
            } else {
                assert(!seen_with(a, seen).contains(b[j - a.len()]));
                assert(a.to_set().contains(a[i]));
            }
        }
    }
    assert(seen_with(c, seen) =~= seen_with(b, seen_with(a, seen))) by {
        assert forall|x: u64| c.to_set().contains(x) <==> a.to_set().contains(x)
            || b.to_set().contains(x) by {
            if c.contains(x) {
                let i = choose|i: int| 0 <= i < c.len() && c[i] == x;
                if i < a.len() {
                    assert(a[i] == x);
                } else {
                    assert(b[i - a.len()] == x);
                }
            }
            if a.contains(x) {
                let i = choose|i: int| 0 <= i < a.len() && a[i] == x;
                assert(c[i] == x);
            }
            if b.contains(x) {
                let i = choose|i: int| 0 <= i < b.len() && b[i] == x;
                assert(c[i + a.len()] == x);
            }
        }
    }
}

/// A node above the leaves hangs together where it has children, and they do.
proof fn lemma_valid(m: Map<u64, BtreeNode>, node: BtreeNode, level: nat)
    requires
        level > 0,
    ensures
        valid(m, node, level) <==> node.keys().len() > 0 && kids_valid(
            m,
            node.keys(),
            level,
            node.keys().len() as int,
        ),
{
    reveal(valid);
}

proof fn lemma_kid_valid(m: Map<u64, BtreeNode>, s: Seq<EntryView>, level: nat, i: int)
    requires
        level > 0,
        kids_valid(m, s, level, i),
        link_valid(m, s, level, i),
        valid(m, m[kid(s, i)], (level - 1) as nat),
    ensures
        kids_valid(m, s, level, i + 1),
{
}

/// Goes over the nodes below `node`; none of them may have been seen before.
fn validate_tree_node(
    node: &BtreeNode,
    cache: &NodeCache,
    visited: &mut HashSet<u64>,
) -> (r: Result<
    (),
    StorageError,
>)
    ensures
        r is Ok <==> {
            let v = visits(cache@, *node, node.level as nat);
            &&& valid(cache@, *node, node.level as nat)
            &&& v.no_duplicates()
            &&& apart(v, old(visited)@)
        },
        r is Ok ==> final(visited)@ == seen_with(
            visits(cache@, *node, node.level as nat),
            old(visited)@,
        ),
        r is Err ==> r->Err_0 == StorageError::Transaction,
    decreases node.level,
{
    let ghost m = cache@;
    let ghost s = node.keys();
    let ghost level = node.level as nat;
    let ghost seen0 = visited@;
    proof {
        reveal(valid);
    }
    if node.level == 0 {
        assert(seen_with(Seq::<u64>::empty(), seen0) =~= seen0);
        let n: usize = node.entries.len();
        if n == 0 {
            return Ok(());
        }
        let first: Bpos = node.entries[0].pos;
        let last: Bpos = node.entries[n - 1].pos;
        assert(first == s[0].pos && last == s[n - 1].pos);
        proof {
            lemma_ord(first, node.min_key);
            lemma_ord(node.max_key, last);
        }
        if node.min_key != Bpos::highest() && first.precedes(&node.min_key) {
            return Err(StorageError::Transaction);
        }
        if node.max_key != Bpos::lowest() && node.max_key.precedes(&last) {
            return Err(StorageError::Transaction);
        }
        return Ok(());
    }
    let n: usize = node.entries.len();
    if n == 0 {
        return Err(StorageError::Transaction);
    }
    let mut prev_max: Option<Bpos> = None;
    let mut i: usize = 0;
    proof {
        assert(visits_kids(m, s, level, 0) =~= Seq::<u64>::empty());
        assert(seen_with(visits_kids(m, s, level, 0), seen0) =~= seen0);
    }
    while i < n
        invariant
            n == node.entries.len(),
            n == s.len(),
            s == node.keys(),
            m == cache@,
            level == node.level,
            level > 0,
            seen0 == old(visited)@,
            i <= n,
            kids_valid(m, s, level, i as int),
            visits_kids(m, s, level, i as nat).no_duplicates(),
            apart(visits_kids(m, s, level, i as nat), seen0),
            visited@ == seen_with(visits_kids(m, s, level, i as nat), seen0),
            prev_max == if i == 0 {
                None::<Bpos>
            } else {
                Some(m[kid(s, i - 1)].max_key)
            },
        decreases n - i,
    {
        let ghost before = visits_kids(m, s, level, i as nat);
        let ghost seen1 = visited@;
        let addr: u64 = node.entries[i].to_key_value().1.paddr;
        assert(addr == kid(s, i as int));
        proof {
            lemma_valid(m, *node, level);
            if valid(m, *node, level) {
                assert(link_valid(m, s, level, i as int));
            }
            lemma_visits_prefix(m, s, level, (i + 1) as nat, n as nat);
        }
        if addr == 0 {
            return Err(StorageError::Transaction);
        }
        let ghost below = visits(m, m[addr], (level - 1) as nat);
        proof {
            let one = seq![addr];
            assert(before.push(addr) =~= before + one);
            assert((before + one) + below == visits_kids(m, s, level, (i + 1) as nat));
            lemma_apart_cat(before, one, seen0);
            lemma_apart_cat(before + one, below, seen0);
            assert(one[0] == addr);
            lemma_head_apart(visits(m, *node, level), visits_kids(m, s, level, (i + 1) as nat), seen0);
            assert(seen_with(one, seen1) =~= seen1.insert(addr));
        }
        if !visited.insert(addr) {
            return Err(StorageError::Transaction);
        }
        let kid_node: &BtreeNode = match cache.get(addr) {
            None => {
                return Err(StorageError::Transaction);
            },
            Some(c) => c,
        };
        if kid_node.level != node.level - 1 {
            return Err(StorageError::Transaction);
        }
        if let Some(pm) = prev_max {
            proof {
                lemma_ord(pm, kid_node.min_key);
            }
            if !pm.precedes(&kid_node.min_key) {
                return Err(StorageError::Transaction);
            }
        }
        assert(link_valid(m, s, level, i as int));
        match validate_tree_node(kid_node, cache, visited) {
            Err(e) => {
                return Err(e);
            },
            Ok(_) => {},
        }
        prev_max = Some(kid_node.max_key);
        proof {
            assert(kid_node.level as nat == (level - 1) as nat);
            lemma_kid_valid(m, s, level, i as int);
        }
        i += 1;
    }
    proof {
        lemma_valid(m, *node, level);
    }
    Ok(())
}

/// What the first children lead to comes first of what all children lead to.
pub(crate) proof fn lemma_visits_prefix(
    m: Map<u64, BtreeNode>,
    s: Seq<EntryView>,
    level: nat,
    a: nat,
    b: nat,
)
    requires
        a <= b,
    ensures
        visits_kids(m, s, level, a).is_prefix_of(visits_kids(m, s, level, b)),
    decreases b,
{
    if a < b && level > 0 {
        lemma_visits_prefix(m, s, level, a, (b - 1) as nat);
        let p = visits_kids(m, s, level, a);
        let q = visits_kids(m, s, level, (b - 1) as nat);
        let r = visits_kids(m, s, level, b);
        assert(r.subrange(0, q.len() as int) =~= q);
        assert(p =~= r.subrange(0, p.len() as int)) by {
            assert(p =~= q.subrange(0, p.len() as int));
        }
    }
}

/// The head of a list without faults has none.
pub(crate) proof fn lemma_head_apart(all: Seq<u64>, head: Seq<u64>, seen: Set<u64>)
    requires
        head.is_prefix_of(all),
    ensures
        all.no_duplicates() && apart(all, seen) ==> head.no_duplicates() && apart(head, seen),
{
    let tail = all.subrange(head.len() as int, all.len() as int);
    assert(all =~= head + tail);
    lemma_apart_cat(head, tail, seen);
}

/// Adds the entries of the leaves below `node`, from left to right.
fn collect(node: &BtreeNode, cache: &NodeCache, out: &mut Vec<KeyEntry>)
    requires
        valid(cache@, *node, node.level as nat),
    ensures
        keys(final(out)@) == keys(old(out)@) + walk(cache@, *node, node.level as nat),
    decreases node.level,
{
    let ghost m = cache@;
    let ghost s = node.keys();
    let ghost level = node.level as nat;
    let ghost before = keys(out@);
    if node.level == 0 {
        let mut i: usize = 0;
        assert(before + s.subrange(0, 0) =~= before);
        while i < node.entries.len()
            invariant
                i <= node.entries.len(),
                s == node.keys(),
                keys(out@) == before + s.subrange(0, i as int),
            decreases node.entries.len() - i,
        {
            let e: KeyEntry = node.entries[i].clone();
            let ghost o1 = out@;
            out.push(e);
            proof {
                assert(e@ == s[i as int]);
                assert(keys(out@) =~= keys(o1).push(e@));
                assert(s.subrange(0, i + 1) =~= s.subrange(0, i as int).push(s[i as int]));
                assert(keys(out@) =~= before + s.subrange(0, i + 1));
            }
            i += 1;
        }
        assert(s.subrange(0, s.len() as int) =~= s);
        return;
    }
    let mut i: usize = 0;
    assert(before + walk_kids(m, s, level, 0) =~= before);
    while i < node.entries.len()
        invariant
            i <= node.entries.len(),
            s == node.keys(),
            m == cache@,
            level == node.level,
            level > 0,
            valid(m, *node, level),
            keys(out@) == before + walk_kids(m, s, level, i as nat),
        decreases node.entries.len() - i,
    {
        let addr: u64 = node.entries[i].to_key_value().1.paddr;
        assert(addr == kid(s, i as int));
        proof {
            lemma_valid(m, *node, level);
            assert(link_valid(m, s, level, i as int));
        }
        if let Some(c) = cache.get(addr) {
            collect(c, cache, out);
            assert(keys(out@) =~= before + walk_kids(m, s, level, (i + 1) as nat));
        } else {
            assert(false);
        }
        i += 1;
    }
}

impl Btree {
    /// The entries of all leaves from left to right, if the nodes hang together.
    pub fn checked_entries(&self) -> (r: Result<Vec<KeyEntry>, StorageError>)
        ensures
            r is Ok <==> self.topology_ok(),
            r is Ok ==> keys(r->Ok_0@) == walk(
                self.cache@,
                self.root.node,
                self.root.node.level as nat,
            ),
            r is Err ==> r->Err_0 == StorageError::Transaction,
    {
        let mut visited: HashSet<u64> = HashSet::new();
        match validate_tree_node(&self.root.node, &self.cache, &mut visited) {
            Err(e) => {
                return Err(e);
            },
            Ok(_) => {},
        }
        let mut out: Vec<KeyEntry> = Vec::new();
        collect(&self.root.node, &self.cache, &mut out);
        let ghost w = walk(self.cache@, self.root.node, self.root.node.level as nat);
        assert(keys(out@) =~= w);
        let mut last: Option<Bpos> = None;
        let mut i: usize = 0;
        while i < out.len()
            invariant
                w == keys(out@),
                w == walk(self.cache@, self.root.node, self.root.node.level as nat),
                i <= out.len(),
                live_sorted(w.subrange(0, i as int)),
                match last {
                    Some(p) => {
                        &&& exists|a: int|
                            0 <= a < i && (#[trigger] w[a]).key_type != KeyType::Deleted
                                && w[a].pos == p
                        &&& forall|a: int|
                            0 <= a < i && (#[trigger] w[a]).key_type != KeyType::Deleted
                                ==> w[a].pos.ord() <= p.ord()
                    },
                    None => forall|a: int|
                        0 <= a < i ==> (#[trigger] w[a]).key_type == KeyType::Deleted,
                },
            decreases out.len() - i,
        {
            let q: Bpos = out[i].pos;
            assert(w[i as int] == out@[i as int]@);
            if out[i].key_type != KeyType::Deleted {
                if let Some(p) = last {
                    proof {
                        lemma_ord(p, q);
                    }
                    if !p.precedes(&q) {
                        assert(!live_sorted(w));
                        return Err(StorageError::Transaction);
                    }
                }
                last = Some(q);
            }
            proof {
                let s0 = w.subrange(0, i as int);
                let s1 = w.subrange(0, i + 1);
                assert forall|a: int, b: int|
                    0 <= a < b < s1.len() && (#[trigger] s1[a]).key_type != KeyType::Deleted && (
                    #[trigger] s1[b]).key_type != KeyType::Deleted implies s1[a].pos.ord()
                    < s1[b].pos.ord() by {
                    assert(s1[a] == w[a]);
                    if b < i {
                        assert(s0[a] == s1[a] && s0[b] == s1[b]);
                    }
                }
            }
            i += 1;
        }
        assert(w.subrange(0, w.len() as int) =~= w);
        Ok(out)
    }
}

impl BchVol {
    /// All trees pass the check.
    pub open spec fn topology_ok(self) -> bool {
        forall|i: int| 0 <= i < NR_BTREE_IDS ==> (#[trigger] self.btrees@[i]).topology_ok()
    }
}

/// Checks that the nodes of all trees hang together and that their entries are in order.
pub fn bch2_check_topology(vol: &BchVol) -> (r: Result<(), StorageError>)
    requires
        vol.btrees@.len() == NR_BTREE_IDS,
    ensures
        r is Ok <==> vol.topology_ok(),
        r is Err ==> r->Err_0 == StorageError::Transaction,
{
    let mut i: usize = 0;
    while i < vol.btrees.len()
        invariant
            vol.btrees@.len() == NR_BTREE_IDS,
            i <= vol.btrees.len(),
            forall|j: int| 0 <= j < i ==> (#[trigger] vol.btrees@[j]).topology_ok(),
        decreases vol.btrees.len() - i,
    {
        match vol.btrees[i].checked_entries() {
            Err(e) => {
                assert(!vol.btrees@[i as int].topology_ok());
                return Err(e);
            },
            Ok(_) => {},
        }
        i += 1;
    }
    Ok(())
}

/// Address `a` belongs to one of the first `n` subtrees that `s` leads to.
spec fn among(m: Map<u64, BtreeNode>, s: Seq<EntryView>, level: nat, n: int, a: u64) -> bool {
    exists|i: int| 0 <= i < n && reach(m, child(#[trigger] s[i]), level, a)
}

/// A list, an address behind it and a second list hold nothing twice, if none of the three has
/// anything of another.
pub(crate) proof fn lemma_no_duplicates(p: Seq<u64>, c: u64, v: Seq<u64>)
    requires
        p.no_duplicates(),
        v.no_duplicates(),
        !p.contains(c),
        !v.contains(c),
        forall|a: u64| #[trigger] p.contains(a) ==> !v.contains(a),
    ensures
        (p.push(c) + v).no_duplicates(),
        forall|a: u64| #[trigger]
            (p.push(c) + v).contains(a) ==> p.contains(a) || a == c || v.contains(a),
{
    let r = p.push(c) + v;
    assert(forall|i: int| 0 <= i < p.len() ==> #[trigger] r[i] == p[i] && p.contains(r[i]));
    assert(r[p.len() as int] == c);
    assert forall|i: int| p.len() < i < r.len() implies v.contains(#[trigger] r[i]) by {
        assert(v[i - p.len() - 1] == r[i]);
    }
    assert forall|x: int, y: int| 0 <= x < y < r.len() implies r[x] != r[y] by {
        if y < p.len() {
            assert(p[x] != p[y]);
        } else if x > p.len() {
            assert(v[x - p.len() - 1] != v[y - p.len() - 1]);
        }
    }
}

/// The addresses that a walk visits below the first `n` children belong to these.
proof fn lemma_visits_kids(
    m: Map<u64, BtreeNode>,
    node: BtreeNode,
    level: nat,
    lo: int,
    hi: int,
    n: nat,
)
    requires
        level > 0,
        sub_wf(m, node, level, lo, hi),
        n <= node.keys().len(),
    ensures
        visits_kids(m, node.keys(), level, n).no_duplicates(),
        forall|a: u64| #[trigger]
            visits_kids(m, node.keys(), level, n).contains(a) ==> among(
                m,
                node.keys(),
                (level - 1) as nat,
                n as int,
                a,
            ),
    decreases level, 0int, n,
{
    let s = node.keys();
    let l = (level - 1) as nat;
    if n > 0 {
        let j = n - 1;
        let c = kid(s, j);
        let p = visits_kids(m, s, level, j as nat);
        let v = visits(m, m[c], l);
        let clo = child_lo(s, j, lo);
        let chi = child_hi(s, j, hi);
        lemma_unfold(m, node, level, lo, hi);
        assert(kid_ok(m, s, l, lo, hi, j));
        lemma_visits_kids(m, node, level, lo, hi, j as nat);
        lemma_visits(m, m[c], l, clo, chi);
        assert forall|a: u64| #[trigger] p.contains(a) implies !reach(m, c, l, a) by {
            let i = choose|i: int| 0 <= i < j && reach(m, child(#[trigger] s[i]), l, a);
            if reach(m, c, l, a) {
                assert(reach(m, child(s[i]), l, a) && reach(m, child(s[j]), l, a));
            }
        }
        assert(reach(m, c, l, c));
        if v.contains(c) {
            lemma_within_level(m, m[c], l, clo, chi, c);
        }
        assert forall|a: u64| #[trigger] p.contains(a) implies !v.contains(a) by {
            assert(!reach(m, c, l, a));
        }
        lemma_no_duplicates(p, c, v);
        assert forall|a: u64| #[trigger] visits_kids(m, s, level, n).contains(a) implies among(
            m,
            s,
            l,
            n as int,
            a,
        ) by {
            if p.contains(a) {
                let i = choose|i: int| 0 <= i < j && reach(m, child(#[trigger] s[i]), l, a);
                assert(reach(m, child(s[i]), l, a));
            } else {
                assert(reach(m, child(s[j]), l, a));
            }
        }
    }
}

/// A walk over a sound subtree visits nodes of it, none twice.
proof fn lemma_visits(m: Map<u64, BtreeNode>, node: BtreeNode, level: nat, lo: int, hi: int)
    requires
        sub_wf(m, node, level, lo, hi),
    ensures
        visits(m, node, level).no_duplicates(),
        forall|a: u64| #[trigger] visits(m, node, level).contains(a) ==> within(m, node, level, a),
    decreases level, 1int, 0nat,
{
    if level > 0 {
        let s = node.keys();
        let l = (level - 1) as nat;
        lemma_visits_kids(m, node, level, lo, hi, s.len());
        assert forall|a: u64| #[trigger] visits(m, node, level).contains(a) implies within(
            m,
            node,
            level,
            a,
        ) by {
            let i = choose|i: int| 0 <= i < s.len() && reach(m, child(#[trigger] s[i]), l, a);
            assert(a == child(s[i]) || within(m, m[child(s[i])], l, a));
        }
    }
}

/// A walk over the leaves of a well-formed tree comes upon what the tree holds, in order.
pub proof fn law_walk_is_contents(t: Btree)
    requires
        t.shape_ok(),
    ensures
        walk(t.cache@, t.root.node, t.root.node.level as nat) == t.contents(),
{
    let w = walk(t.cache@, t.root.node, t.height());
    lemma_listed(t.cache@, t.root.node, t.height(), 0, top());
    t.lemma_contents_is(w);
}

/// The check of a well-formed tree can fail only on the bounds that its nodes are marked with and
/// on a node at address zero.
pub proof fn law_sound_tree_topology(t: Btree)
    requires
        t.shape_ok(),
    ensures
        t.topology_ok() <==> valid(t.cache@, t.root.node, t.root.node.level as nat),
{
    lemma_visits(t.cache@, t.root.node, t.height(), 0, top());
    law_walk_is_contents(t);
    t.lemma_contents();
}

/// A tree that is one empty node passes the check.
pub proof fn law_empty_tree_topology(t: Btree)
    requires
        t.shape_ok(),
        t.root.depth == 0,
        t.root.node.keys().len() == 0,
    ensures
        t.topology_ok(),
{
    reveal(valid);
    law_sound_tree_topology(t);
}

/// What a sound tree is: every child of an interior node is there, one level down and sound itself,
/// and it lies behind the one before it; every leaf has its keys between its bounds, where it has
/// any.
pub proof fn law_sound_links(m: Map<u64, BtreeNode>, node: BtreeNode, level: nat, i: int)
    requires
        valid(m, node, level),
        0 <= i < node.keys().len(),
    ensures
        ({
            let s = node.keys();
            let c = kid(s, i);
            if level > 0 {
                &&& c != 0
                &&& m.contains_key(c)
                &&& m[c].level == level - 1
                &&& valid(m, m[c], (level - 1) as nat)
                &&& i > 0 ==> m[kid(s, i - 1)].max_key.ord() < m[c].min_key.ord()
            } else {
                &&& node.min_key.inode == u64::MAX && node.min_key.offset == u64::MAX
                    && node.min_key.snapshot == u32::MAX || node.min_key.ord() <= s[0].pos.ord()
                &&& node.max_key.inode == 0 && node.max_key.offset == 0 && node.max_key.snapshot
                    == 0 || s[s.len() - 1].pos.ord() <= node.max_key.ord()
            }
        }),
{
    reveal(valid);
    if level > 0 {
        assert(link_valid(m, node.keys(), level, i));
    }
}

/// An interior node without a child is not sound, nor is one with a child that is missing, of another
/// level or in front of the one before it.
pub proof fn law_broken_links(m: Map<u64, BtreeNode>, node: BtreeNode, level: nat, i: int)
    requires
        level > 0,
    ensures
        node.keys().len() == 0 ==> !valid(m, node, level),
        0 <= i < node.keys().len() ==> ({
            let s = node.keys();
            let c = kid(s, i);
            c == 0 || !m.contains_key(c) || m[c].level + 1 != level || (i > 0 && m[kid(
                s,
                i - 1,
            )].max_key.ord() >= m[c].min_key.ord()) || !valid(m, m[c], (level - 1) as nat)
                ==> !valid(m, node, level)
        }),
{
    if node.keys().len() == 0 {
        lemma_valid(m, node, level);
    }
    if valid(m, node, level) && 0 <= i < node.keys().len() {
        law_sound_links(m, node, level, i);
    }
}

/// A sound tree has no node twice, and its live keys ascend over all leaves.
pub proof fn law_sound_tree(t: Btree, i: int, j: int)
    requires
        t.topology_ok(),
    ensures
        ({
            let v = visits(t.cache@, t.root.node, t.root.node.level as nat);
            0 <= i < j < v.len() ==> v[i] != v[j]
        }),
        ({
            let w = walk(t.cache@, t.root.node, t.root.node.level as nat);
            0 <= i < j < w.len() && w[i].key_type != KeyType::Deleted && w[j].key_type
                != KeyType::Deleted ==> w[i].pos.ord() < w[j].pos.ord()
        }),
{
}

} // verus!
