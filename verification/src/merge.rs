//! Merging underfull nodes with their neighbours.

use crate::entries::{
    alive, keys, lemma_widths_concat, lemma_widths_split, packable, sorted, widths,
};
use crate::key::{BchVal, Bpos, BtreeKey, EntryView, KeyEntry, KeyType};
use crate::merge_shape::{
    is_kid, kids_cat, lemma_joined, lemma_kids_cat, lemma_rerouted, lemma_run_kid, lemma_shared,
    one, only_kids, pair,
};
use crate::node::{
    balanced_at, find_balanced_split, lemma_balanced_once, packed_apart, BtreeNode, MAX_NODE_SIZE,
    MERGE_HIGHER_DEN, MERGE_HIGHER_NUM, MIN_NODE_SIZE,
};
use crate::node_cache::NodeCache;
use crate::runs::{lemma_run_first, run_get, run_has, run_ok, spliced};
use crate::shape::{child, child_hi, get, kid, reach};
use crate::split::{lemma_marked, marks_kept, route_entry};
use vstd::prelude::*;

verus! {

/// What to do with an underfull node and its siblings.
#[derive(Debug, Clone, Copy, PartialEq, Eq, Structural)]
pub enum MergePlan {
    /// Leave the nodes as they are.
    Keep,
    /// Merge the node with its left sibling.
    Left,
    /// Merge the node with its right sibling.
    Right,
    /// Merge the node and both siblings into one node.
    Both,
    /// Spread the keys of the node and both siblings over two nodes.
    Share,
}

/// Words that a merged node may hold: three quarters of a node.
pub open spec fn higher_u64s(node_size: u32) -> int {
    node_size as int * 3 / 4 / 8
}

/// The plan for a node with `pivot` live words and the live words of the siblings that come in
/// question. Everything goes into as few nodes as three quarters of a node allow. Where three
/// nodes would stay three, the larger sibling is left out, and the others must fit in half a node.
pub open spec fn merge_plan(
    node_size: u32,
    left: Option<u32>,
    pivot: u32,
    right: Option<u32>,
) -> MergePlan {
    let higher = higher_u64s(node_size);
    let half = node_size as int / 8 / 2;
    match (left, right) {
        (None, None) => MergePlan::Keep,
        (Some(l), None) => if l + pivot <= higher {
            MergePlan::Left
        } else {
            MergePlan::Keep
        },
        (None, Some(r)) => if pivot + r <= higher {
            MergePlan::Right
        } else {
            MergePlan::Keep
        },
        (Some(l), Some(r)) => if l + pivot + r <= higher {
            MergePlan::Both
        } else if l + pivot + r <= 2 * higher {
            MergePlan::Share
        } else if l > r {
            if pivot + r <= half {
                MergePlan::Right
            } else {
                MergePlan::Keep
            }
        } else {
            if l + pivot <= half {
                MergePlan::Left
            } else {
                MergePlan::Keep
            }
        },
    }
}

/// The sibling estimate after a merge with that sibling did not come about: the sum of both, half
/// way back to the point up to which a merge is tried.
pub open spec fn sib_hysteresis(node_size: u32, sum: int) -> u16 {
    let third = node_size as int / 8 / 3;
    let edge = third + third / 4;
    let est = if sum > edge {
        sum - (sum - edge) / 2
    } else {
        sum
    };
    if est < u16::MAX - 1 {
        est as u16
    } else {
        (u16::MAX - 1) as u16
    }
}

/// The estimates of the node after the plan was made: those of the siblings left out are renewed.
pub open spec fn planned_sibs(
    node_size: u32,
    left: Option<u32>,
    pivot: u32,
    right: Option<u32>,
    sibs: Seq<u16>,
) -> Seq<u16> {
    let plan = merge_plan(node_size, left, pivot, right);
    seq![
        if left is Some && (plan is Keep || plan is Right) {
            sib_hysteresis(node_size, left->0 + pivot)
        } else {
            sibs[0]
        },
        if right is Some && (plan is Keep || plan is Left) {
            sib_hysteresis(node_size, right->0 + pivot)
        } else {
            sibs[1]
        },
    ]
}

/// How many nodes `total` words go into with `per` words in each, at least one.
fn nodes_for(total: u32, per: u32) -> (r: u32)
    requires
        per > 0,
        total + per <= u32::MAX,
    ensures
        r >= 1,
        r <= 1 <==> total <= per,
        r <= 2 <==> total <= 2 * per,
{
    let n: u32 = (total + per - 1) / per;
    proof {
        let t = total as int;
        let p = per as int;
        vstd::arithmetic::div_mod::lemma_fundamental_div_mod(t + p - 1, p);
        let q = (t + p - 1) / p;
        let rem = (t + p - 1) % p;
        assert(0 <= rem < p);
        assert(t + p - 1 == p * q + rem);
        assert(q <= 1 <==> t <= p) by (nonlinear_arith)
            requires
                t + p - 1 == p * q + rem,
                0 <= rem < p,
                p > 0,
                t >= 0,
        ;
        assert(q <= 2 <==> t <= 2 * p) by (nonlinear_arith)
            requires
                t + p - 1 == p * q + rem,
                0 <= rem < p,
                p > 0,
                t >= 0,
        ;
    }
    if n < 1 {
        1
    } else {
        n
    }
}

fn hysteresis(node_size: u32, sum: u32) -> (r: u16)
    requires
        sum <= 0xFFFFFF,
        node_size <= MAX_NODE_SIZE,
    ensures
        r == sib_hysteresis(node_size, sum as int),
{
    let third: u32 = node_size / 8 / 3;
    let edge: u32 = third + third / 4;
    let est: u32 = if sum > edge {
        sum - (sum - edge) / 2
    } else {
        sum
    };
    if est < 0xFFFE {
        est as u16
    } else {
        0xFFFE
    }
}

/// Decides what to do with an underfull node and the siblings that come in question.
pub fn compute_merge(node_size: u32, left: Option<u32>, pivot: u32, right: Option<u32>) -> (r:
    MergePlan)
    requires
        MIN_NODE_SIZE <= node_size <= MAX_NODE_SIZE,
        pivot <= 0xFFFFF,
        left is Some ==> left->0 <= 0xFFFFF,
        right is Some ==> right->0 <= 0xFFFFF,
    ensures
        r == merge_plan(node_size, left, pivot, right),
{
    let higher: u32 = node_size * MERGE_HIGHER_NUM / MERGE_HIGHER_DEN / 8;
    let half: u32 = node_size / 8 / 2;
    match (left, right) {
        (None, None) => MergePlan::Keep,
        (Some(l), None) => if nodes_for(l + pivot, higher) < 2 {
            MergePlan::Left
        } else {
            MergePlan::Keep
        },
        (None, Some(r)) => if nodes_for(pivot + r, higher) < 2 {
            MergePlan::Right
        } else {
            MergePlan::Keep
        },
        (Some(l), Some(r)) => {
            let nr: u32 = nodes_for(l + pivot + r, higher);
            if nr < 2 {
                MergePlan::Both
            } else if nr < 3 {
                MergePlan::Share
            } else if l > r {
                if nodes_for(pivot + r, half) < 2 {
                    MergePlan::Right
                } else {
                    MergePlan::Keep
                }
            } else {
                if nodes_for(l + pivot, half) < 2 {
                    MergePlan::Left
                } else {
                    MergePlan::Keep
                }
            }
        },
    }
}

/// Cutting the joined entries of neighbours at a border between them.
proof fn lemma_cat_split(m: Map<u64, BtreeNode>, s: Seq<EntryView>, a: int, j: int, b: int)
    requires
        a <= j <= b,
    ensures
        kids_cat(m, s, a, b) == kids_cat(m, s, a, j) + kids_cat(m, s, j, b),
    decreases b - j,
{
    if j == b {
        assert(kids_cat(m, s, j, b) =~= Seq::<EntryView>::empty());
        assert(kids_cat(m, s, a, b) =~= kids_cat(m, s, a, j) + kids_cat(m, s, j, b));
    } else {
        lemma_cat_split(m, s, a, j, b - 1);
        assert(kids_cat(m, s, a, b) =~= kids_cat(m, s, a, j) + kids_cat(m, s, j, b));
    }
}

proof fn lemma_cat_one(m: Map<u64, BtreeNode>, s: Seq<EntryView>, a: int)
    ensures
        kids_cat(m, s, a, a + 1) == m[kid(s, a)].keys(),
{
    assert(kids_cat(m, s, a, a) =~= Seq::<EntryView>::empty());
    assert(kids_cat(m, s, a, a + 1) =~= m[kid(s, a)].keys());
}

/// The addresses below two entries of a run differ.
proof fn lemma_kids_distinct(
    m: Map<u64, BtreeNode>,
    s: Seq<EntryView>,
    level: nat,
    lo: int,
    hi: int,
    i: int,
    j: int,
)
    requires
        run_ok(m, s, level + 1, lo, hi),
        0 <= i < s.len(),
        0 <= j < s.len(),
        i != j,
    ensures
        kid(s, i) != kid(s, j),
{
    reveal(run_ok);
    let (x, y) = if i < j {
        (i, j)
    } else {
        (j, i)
    };
    if kid(s, i) == kid(s, j) {
        assert(reach(m, child(s[x]), level, kid(s, i)));
        assert(reach(m, child(s[y]), level, kid(s, i)));
    }
}

/// Replaces the routing entries from `a` to before `b`.
fn update_routing(parent: &mut BtreeNode, a: usize, b: usize, routes: Vec<KeyEntry>)
    requires
        old(parent).wf(),
        a < b <= old(parent).keys().len(),
        routes@.len() <= b - a,
        forall|i: int|
            0 <= i < old(parent).keys().len() ==> (#[trigger] old(parent).keys()[i]).value is Extent,
        forall|i: int| 0 <= i < keys(routes@).len() ==> (#[trigger] keys(routes@)[i]).value is Extent,
        sorted(spliced(old(parent).keys(), a as int, b as int, keys(routes@))),
        alive(spliced(old(parent).keys(), a as int, b as int, keys(routes@))),
    ensures
        final(parent).wf(),
        final(parent).same_frame(*old(parent)),
        final(parent).keys() == spliced(old(parent).keys(), a as int, b as int, keys(routes@)),
        final(parent).dead_u64s == 0,
        final(parent).min_key == old(parent).min_key,
        final(parent).max_key == old(parent).max_key,
{
    let ghost s = parent.keys();
    let ghost n = s.len() as int;
    let ghost mid = keys(routes@);
    let ghost t = spliced(s, a as int, b as int, mid);
    let mut routes: Vec<KeyEntry> = routes;
    let gone: u32 = (b - a - routes.len()) as u32;
    proof {
        crate::split::lemma_extent_widths(s);
        assert(forall|i: int| 0 <= i < t.len() ==> #[trigger] t[i] == if i < a {
            s[i]
        } else if i < a + mid.len() {
            mid[i - a]
        } else {
            s[i - a - mid.len() + b]
        });
        crate::split::lemma_extent_widths(t);
    }
    let mut tail: Vec<KeyEntry> = parent.entries.split_off(b);
    let dropped: Vec<KeyEntry> = parent.entries.split_off(a);
    parent.entries.append(&mut routes);
    parent.entries.append(&mut tail);
    assert(parent.keys() =~= t);
    parent.live_u64s = parent.live_u64s - 6 * gone;
    parent.dead_u64s = 0;
}

/// The entry that routes keys from `at` on to `addr`.
fn make_route(at: Bpos, addr: u64) -> (r: KeyEntry)
    ensures
        r@ == route_entry(at, addr),
{
    KeyEntry::from_key_value(BtreeKey::from_bpos(at, KeyType::Normal), BchVal::new(addr, 0))
}

/// What merging children of a parent must keep.
pub open spec fn merge_kept(
    m: Map<u64, BtreeNode>,
    parent: BtreeNode,
    m2: Map<u64, BtreeNode>,
    parent2: BtreeNode,
    level: nat,
    lo: int,
    hi: int,
) -> bool {
    &&& parent2.wf()
    &&& parent2.same_frame(parent)
    &&& run_ok(m2, parent2.keys(), level + 1, lo, hi)
    &&& forall|c: u64| #[trigger]
        run_has(m2, parent2.keys(), level + 1, c) ==> run_has(m, parent.keys(), level + 1, c)
    &&& forall|x: int|
        lo <= x < hi ==> #[trigger] run_get(m2, parent2.keys(), level + 1, x) == run_get(
            m,
            parent.keys(),
            level + 1,
            x,
        )
    &&& forall|c: u64| #[trigger] m2.contains_key(c) ==> m.contains_key(c)
    &&& forall|c: u64|
        m.contains_key(c) && !#[trigger] run_has(m, parent.keys(), level + 1, c)
            ==> m2.contains_key(c) && m2[c] == m[c]
}

/// The live words of the children from `a` to before `b` fit in the last of these.
pub open spec fn join_fits(m: Map<u64, BtreeNode>, s: Seq<EntryView>, a: int, b: int) -> bool {
    widths(kids_cat(m, s, a, b)) <= m[kid(s, b - 1)].cap()
}

/// The children of a run are nodes of its level, each with an address of its own.
pub open spec fn kids_there(m: Map<u64, BtreeNode>, s: Seq<EntryView>, level: nat) -> bool {
    &&& forall|i: int|
        0 <= i < s.len() ==> m.contains_key(#[trigger] kid(s, i)) && m[kid(s, i)].wf() && m[kid(
            s,
            i,
        )].level == level
    &&& forall|x: int, y: int|
        0 <= x < y < s.len() ==> #[trigger] kid(s, x) != #[trigger] kid(s, y)
}

/// The least of the lower bounds of the children from `a` to before `b`.
pub open spec fn low_key(m: Map<u64, BtreeNode>, s: Seq<EntryView>, a: int, b: int) -> Bpos
    decreases b - a,
{
    let own = m[kid(s, a)].min_key;
    if a + 1 >= b {
        own
    } else {
        let rest = low_key(m, s, a + 1, b);
        if own.ord() < rest.ord() {
            own
        } else {
            rest
        }
    }
}

/// The greatest of the upper bounds of the children from `a` to before `b`.
pub open spec fn high_key(m: Map<u64, BtreeNode>, s: Seq<EntryView>, a: int, b: int) -> Bpos
    decreases b - a,
{
    let own = m[kid(s, a)].max_key;
    if a + 1 >= b {
        own
    } else {
        let rest = high_key(m, s, a + 1, b);
        if rest.ord() < own.ord() {
            own
        } else {
            rest
        }
    }
}

/// A node that has taken in the keys of the children from `a` to before `b`, of which it was the
/// last.
pub open spec fn join_of(
    m: Map<u64, BtreeNode>,
    s: Seq<EntryView>,
    a: int,
    b: int,
    n: BtreeNode,
) -> bool {
    &&& n.wf()
    &&& n.same_frame(m[kid(s, b - 1)])
    &&& n.keys() == kids_cat(m, s, a, b)
    &&& n.dead_u64s == 0
    &&& n.min_key == low_key(m, s, a, b)
    &&& n.max_key == high_key(m, s, a, b)
}

/// Of the children from `a` to before `b` those that are not in `left` are gone, and all other
/// nodes are as they were.
pub open spec fn others_kept(
    m: Map<u64, BtreeNode>,
    m2: Map<u64, BtreeNode>,
    s: Seq<EntryView>,
    a: int,
    b: int,
    left: Set<u64>,
) -> bool {
    &&& forall|c: u64| #[trigger]
        m2.contains_key(c) <==> m.contains_key(c) && (!is_kid(s, a, b, c) || left.contains(c))
    &&& forall|c: u64| #[trigger]
        m2.contains_key(c) && !is_kid(s, a, b, c) ==> m2[c] == m[c]
}

/// Where the routing entry for `n` goes, the first of the nodes that the children from `a` to
/// before `b` have become: at the lower bound of the node, as long as no key would be led astray
/// by that. The bound must lie between where child `a` began and the first key of the node, or, if
/// that is empty, the next child. The first entry of a parent stays where it is: it leads to all
/// keys before the second one, wherever it stands, and a later split of the child tells the order
/// of its halves by that place.
pub open spec fn route_pos(s: Seq<EntryView>, a: int, b: int, n: BtreeNode) -> Bpos {
    let low = n.min_key;
    let fits = if n.keys().len() > 0 {
        low.ord() <= n.keys()[0].pos.ord()
    } else {
        b < s.len() && low.ord() < s[b].pos.ord()
    };
    if a > 0 && s[a].pos.ord() <= low.ord() && fits {
        low
    } else {
        s[a].pos
    }
}

/// The children from `a` to before `b` have become one, and one routing entry leads there.
pub open spec fn joined_run(
    m: Map<u64, BtreeNode>,
    s: Seq<EntryView>,
    m2: Map<u64, BtreeNode>,
    s2: Seq<EntryView>,
    a: int,
    b: int,
) -> bool {
    let last = kid(s, b - 1);
    &&& s2 == spliced(s, a, b, one(route_entry(route_pos(s, a, b, m2[last]), last)))
    &&& others_kept(m, m2, s, a, b, set![last])
    &&& join_of(m, s, a, b, m2[last])
}

/// The keys of the three children from `a` on, cut at `mid`, are in the first and the last of
/// these, and two routing entries lead there.
pub open spec fn shared_run(
    m: Map<u64, BtreeNode>,
    s: Seq<EntryView>,
    m2: Map<u64, BtreeNode>,
    s2: Seq<EntryView>,
    a: int,
    mid: int,
) -> bool {
    let t = kids_cat(m, s, a, a + 3);
    let first = kid(s, a);
    let last = kid(s, a + 2);
    &&& balanced_at(t, mid)
    &&& s2 == spliced(
        s,
        a,
        a + 3,
        pair(
            route_entry(route_pos(s, a, a + 3, m2[first]), first),
            route_entry(t[mid].pos, last),
        ),
    )
    &&& others_kept(m, m2, s, a, a + 3, set![first, last])
    &&& packed_apart(m[first], m[last], m2[first], m2[last], t, mid)
}

proof fn lemma_kids_there(m: Map<u64, BtreeNode>, s: Seq<EntryView>, level: nat, lo: int, hi: int)
    requires
        run_ok(m, s, level + 1, lo, hi),
    ensures
        kids_there(m, s, level),
{
    assert forall|j: int| 0 <= j < s.len() implies m.contains_key(#[trigger] kid(s, j))
        && m[kid(s, j)].wf() && m[kid(s, j)].level == level by {
        lemma_run_kid(m, s, level, lo, hi, j);
    }
    assert forall|i: int, j: int| 0 <= i < j < s.len() implies #[trigger] kid(s, i)
        != #[trigger] kid(s, j) by {
        lemma_kids_distinct(m, s, level, lo, hi, i, j);
    }
}

/// The live words of the children from `a` to before `b`.
fn live_words(
    cache: &NodeCache,
    parent: &BtreeNode,
    a: usize,
    b: usize,
    Ghost(level): Ghost<nat>,
) -> (r: u64)
    requires
        kids_there(cache@, parent.keys(), level),
        a < b <= parent.keys().len(),
        b - a <= 3,
    ensures
        r == widths(kids_cat(cache@, parent.keys(), a as int, b as int)),
        r <= 0x30000,
{
    let ghost m = cache@;
    let ghost s = parent.keys();
    let mut total: u64 = 0;
    let mut j: usize = b;
    assert(kids_cat(m, s, b as int, b as int) =~= Seq::<EntryView>::empty());
    while j > a
        invariant
            a <= j <= b <= s.len(),
            b - a <= 3,
            s == parent.keys(),
            m == cache@,
            kids_there(m, s, level),
            total == widths(kids_cat(m, s, j as int, b as int)),
            total <= (b - j) * 0x10000,
        decreases j,
    {
        let addr: u64 = parent.entries[j - 1].to_key_value().1.paddr;
        assert(addr == kid(s, j - 1));
        let w: u32 = match cache.get(addr) {
            Some(n) => n.live_u64s,
            None => 0,
        };
        proof {
            lemma_cat_one(m, s, j - 1);
            lemma_cat_split(m, s, j - 1, j as int, b as int);
            lemma_widths_concat(m[kid(s, j - 1)].keys(), kids_cat(m, s, j as int, b as int));
        }
        total = total + w as u64;
        j -= 1;
    }
    total
}

/// The entries of one more child in front of those joined so far.
proof fn lemma_absorb_step(
    m: Map<u64, BtreeNode>,
    s: Seq<EntryView>,
    level: nat,
    lo: int,
    hi: int,
    a: int,
    j: int,
    b: int,
)
    requires
        run_ok(m, s, level + 1, lo, hi),
        0 <= a < j < b <= s.len(),
    ensures
        kids_cat(m, s, j - 1, b) == m[kid(s, j - 1)].keys() + kids_cat(m, s, j, b),
        sorted(kids_cat(m, s, j - 1, b)),
        widths(m[kid(s, j - 1)].keys()) + widths(kids_cat(m, s, j, b)) <= widths(
            kids_cat(m, s, a, b),
        ),
{
    lemma_cat_one(m, s, j - 1);
    lemma_cat_split(m, s, j - 1, j, b);
    lemma_kids_cat(m, s, level, lo, hi, j - 1, b);
    lemma_run_first(
        m,
        kids_cat(m, s, j - 1, b),
        level,
        s[j - 1].pos.ord(),
        child_hi(s, b - 1, hi),
    );
    lemma_widths_concat(m[kid(s, j - 1)].keys(), kids_cat(m, s, j, b));
    lemma_cat_split(m, s, a, j - 1, b);
    lemma_widths_concat(kids_cat(m, s, a, j - 1), kids_cat(m, s, j - 1, b));
}

proof fn lemma_is_kid_step(s: Seq<EntryView>, j: int, b: int, c: u64)
    requires
        j < b,
    ensures
        is_kid(s, j - 1, b, c) <==> c == kid(s, j - 1) || is_kid(s, j, b, c),
{
    if is_kid(s, j - 1, b, c) {
        let i = choose|i: int| j - 1 <= i < b && #[trigger] kid(s, i) == c;
        if i >= j {
            assert(is_kid(s, j, b, c));
        }
    }
    if is_kid(s, j, b, c) {
        let i = choose|i: int| j <= i < b && #[trigger] kid(s, i) == c;
        assert(is_kid(s, j - 1, b, c));
    }
    if c == kid(s, j - 1) {
        assert(is_kid(s, j - 1, b, c));
    }
}

/// Takes the children from `a` to before `b` out, merged into the last of these.
fn absorb_children(
    cache: &mut NodeCache,
    parent: &BtreeNode,
    a: usize,
    b: usize,
    Ghost(level): Ghost<nat>,
    Ghost(lo): Ghost<int>,
    Ghost(hi): Ghost<int>,
) -> (r: BtreeNode)
    requires
        run_ok(old(cache)@, parent.keys(), level + 1, lo, hi),
        kids_there(old(cache)@, parent.keys(), level),
        a < b <= parent.keys().len(),
        join_fits(old(cache)@, parent.keys(), a as int, b as int),
    ensures
        join_of(old(cache)@, parent.keys(), a as int, b as int, r),
        forall|c: u64| #[trigger]
            final(cache)@.contains_key(c) <==> old(cache)@.contains_key(c) && !is_kid(
                parent.keys(),
                a as int,
                b as int,
                c,
            ),
        forall|c: u64| #[trigger]
            final(cache)@.contains_key(c) ==> final(cache)@[c] == old(cache)@[c],
        final(cache).dirty_addrs() == old(cache).dirty_addrs(),
{
    let ghost m = cache@;
    let ghost s = parent.keys();
    let last: u64 = parent.entries[b - 1].to_key_value().1.paddr;
    assert(last == kid(s, b - 1));
    let mut sv: BtreeNode = match cache.take_node(last) {
        None => {
            assert(false);
            BtreeNode::new_leaf()
        },
        Some(n) => n,
    };
    let mut j: usize = b - 1;
    proof {
        lemma_cat_one(m, s, b - 1);
        assert forall|c: u64| #[trigger]
            cache@.contains_key(c) <==> m.contains_key(c) && !is_kid(s, b - 1, b as int, c) by {
            if is_kid(s, b - 1, b as int, c) {
                assert(c == kid(s, b - 1));
            }
        }
    }
    while j > a
        invariant
            a <= j < b <= s.len(),
            s == parent.keys(),
            run_ok(m, s, level + 1, lo, hi),
            kids_there(m, s, level),
            sv.wf(),
            sv.same_frame(m[kid(s, b - 1)]),
            sv.keys() == kids_cat(m, s, j as int, b as int),
            sv.min_key == low_key(m, s, j as int, b as int),
            sv.max_key == high_key(m, s, j as int, b as int),
            join_fits(m, s, a as int, b as int),
            forall|c: u64| #[trigger]
                cache@.contains_key(c) <==> m.contains_key(c) && !is_kid(s, j as int, b as int, c),
            forall|c: u64| #[trigger] cache@.contains_key(c) ==> cache@[c] == m[c],
            cache.dirty_addrs() == old(cache).dirty_addrs(),
        decreases j,
    {
        let addr: u64 = parent.entries[j - 1].to_key_value().1.paddr;
        assert(addr == kid(s, j - 1));
        assert(!is_kid(s, j as int, b as int, addr)) by {
            if is_kid(s, j as int, b as int, addr) {
                let i = choose|i: int| j <= i < b && #[trigger] kid(s, i) == addr;
                assert(kid(s, j - 1) != kid(s, i));
            }
        }
        let ghost before = cache@;
        let other: BtreeNode = match cache.take_node(addr) {
            Some(n) => n,
            None => {
                assert(false);
                BtreeNode::new_leaf()
            },
        };
        proof {
            lemma_absorb_step(m, s, level, lo, hi, a as int, j as int, b as int);
        }
        sv.absorb(other);
        proof {
            assert forall|c: u64| #[trigger]
                cache@.contains_key(c) <==> m.contains_key(c) && !is_kid(
                    s,
                    j - 1,
                    b as int,
                    c,
                ) by {
                lemma_is_kid_step(s, j as int, b as int, c);
                assert(cache@.contains_key(c) <==> before.contains_key(c) && c != addr);
            }
        }
        j -= 1;
    }
    sv.compact();
    sv
}

/// Where the routing entry for `n` goes, which holds the first keys of the children from `a` to
/// before `b`.
fn find_route_pos(parent: &BtreeNode, a: usize, b: usize, n: &BtreeNode) -> (r: Bpos)
    requires
        a < b <= parent.keys().len(),
    ensures
        r == route_pos(parent.keys(), a as int, b as int, *n),
{
    let ghost s = parent.keys();
    let at: Bpos = parent.entries[a].pos;
    if a == 0 || n.min_key.precedes(&at) {
        return at;
    }
    let fits: bool = if n.entries.len() > 0 {
        !n.entries[0].pos.precedes(&n.min_key)
    } else {
        b < parent.entries.len() && n.min_key.precedes(&parent.entries[b].pos)
    };
    if fits {
        n.min_key
    } else {
        at
    }
}

/// The place of the routing entry is one at which it leads to the same keys.
proof fn lemma_route_pos(
    m: Map<u64, BtreeNode>,
    s: Seq<EntryView>,
    level: nat,
    lo: int,
    hi: int,
    a: int,
    b: int,
    n: BtreeNode,
    cut: int,
)
    requires
        run_ok(m, s, level + 1, lo, hi),
        0 <= a < b <= s.len(),
        0 <= cut <= kids_cat(m, s, a, b).len(),
        n.keys() == kids_cat(m, s, a, b).subrange(0, cut),
        cut == 0 ==> kids_cat(m, s, a, b).len() == 0,
    ensures
        ({
            let p = route_pos(s, a, b, n).ord();
            &&& s[a].pos.ord() <= p < child_hi(s, b - 1, hi)
            &&& cut < kids_cat(m, s, a, b).len() ==> p < kids_cat(m, s, a, b)[cut].pos.ord()
            &&& a == 0 || level > 0 ==> p == s[a].pos.ord()
            &&& forall|j: int| 0 <= j < n.keys().len() ==> p <= (#[trigger] n.keys()[j]).pos.ord()
        }),
{
    let t = kids_cat(m, s, a, b);
    lemma_kids_cat(m, s, level, lo, hi, a, b);
    lemma_run_first(m, t, level, s[a].pos.ord(), child_hi(s, b - 1, hi));
    if t.len() > 0 {
        assert(n.keys()[0] == t[0]);
    }
    assert forall|j: int| 0 <= j < n.keys().len() implies n.keys()[0].pos.ord() <= (
    #[trigger] n.keys()[j]).pos.ord() && s[a].pos.ord() <= n.keys()[j].pos.ord() by {
        assert(n.keys()[j] == t[j]);
        assert(n.keys()[0] == t[0]);
    }
}

/// Merges the children from `a` to before `b` into the last of these, if they fit.
fn join_children(
    cache: &mut NodeCache,
    parent: &mut BtreeNode,
    a: usize,
    b: usize,
    Ghost(level): Ghost<nat>,
    Ghost(lo): Ghost<int>,
    Ghost(hi): Ghost<int>,
) -> (r: bool)
    requires
        old(parent).wf(),
        run_ok(old(cache)@, old(parent).keys(), level + 1, lo, hi),
        a + 1 < b <= old(parent).keys().len(),
        b - a <= 3,
    ensures
        r == join_fits(old(cache)@, old(parent).keys(), a as int, b as int),
        !r ==> *final(parent) == *old(parent) && final(cache)@ == old(cache)@,
        merge_kept(old(cache)@, *old(parent), final(cache)@, *final(parent), level, lo, hi),
        r ==> joined_run(
            old(cache)@,
            old(parent).keys(),
            final(cache)@,
            final(parent).keys(),
            a as int,
            b as int,
        ),
        marks_kept(*old(cache), *final(cache)),
        !r ==> final(cache).dirty_addrs() == old(cache).dirty_addrs(),
        r ==> final(cache).dirty_addrs().contains(kid(old(parent).keys(), b - 1)),
{
    let ghost m = cache@;
    let ghost s = parent.keys();
    proof {
        lemma_run_first(m, s, level + 1, lo, hi);
        lemma_kids_there(m, s, level, lo, hi);
        assert(kid(s, b - 1) == child(s[b - 1]));
    }
    let last: u64 = parent.entries[b - 1].to_key_value().1.paddr;
    let cap: u32 = match cache.get(last) {
        None => {
            assert(false);
            0
        },
        Some(n) => n.capacity(),
    };
    if live_words(cache, parent, a, b, Ghost(level)) > cap as u64 {
        return false;
    }
    let sv: BtreeNode = absorb_children(
        cache,
        parent,
        a,
        b,
        Ghost(level),
        Ghost(lo),
        Ghost(hi),
    );
    let ghost gone = cache@;
    let ghost dirty = cache.dirty_addrs();
    let at: Bpos = find_route_pos(parent, a, b, &sv);
    cache.insert_dirty(last, sv);
    proof {
        lemma_marked(dirty, cache.dirty_addrs(), last);
    }
    let route: KeyEntry = make_route(at, last);
    let ghost e = route@;
    let mut routes: Vec<KeyEntry> = Vec::new();
    routes.push(route);
    proof {
        let m2 = cache@;
        assert(keys(routes@) =~= one(e));
        assert(child(e) == last);
        assert(is_kid(s, a as int, b as int, last));
        assert forall|c: u64| #[trigger]
            m.contains_key(c) && !is_kid(s, a as int, b as int, c) implies m2.contains_key(c)
            && m2[c] == m[c] by {
            assert(gone.contains_key(c));
        }
        let t = kids_cat(m, s, a as int, b as int);
        let e0 = route_entry(s[a as int].pos, last);
        let s0 = spliced(s, a as int, b as int, one(e0));
        let s2 = spliced(s, a as int, b as int, one(e));
        lemma_joined(m, m2, s, level, lo, hi, a as int, b as int, e0);
        assert(t.subrange(0, t.len() as int) =~= t);
        lemma_route_pos(m, s, level, lo, hi, a as int, b as int, sv, t.len() as int);
        assert(s0[a as int] == e0);
        assert(child_hi(s0, a as int, hi) == child_hi(s, b - 1, hi));
        lemma_rerouted(m2, s0, level, lo, hi, a as int, e);
        assert(s0.update(a as int, e) =~= s2);
        lemma_run_first(m2, s2, level + 1, lo, hi);
        lemma_parent_extents(m, s, level, lo, hi);
        assert forall|c: u64| #[trigger] m2.contains_key(c) implies m.contains_key(c) by {
            if c != last {
                assert(gone.contains_key(c));
            }
        }
        assert forall|c: u64|
            m.contains_key(c) && !#[trigger] run_has(m, s, level + 1, c) implies m2.contains_key(c)
            && m2[c] == m[c] by {
            lemma_kids_in_run(m, s, level, lo, hi, a as int, b as int, c);
        }
    }
    update_routing(parent, a, b, routes);
    true
}

/// Routing entries are extents.
proof fn lemma_parent_extents(
    m: Map<u64, BtreeNode>,
    s: Seq<EntryView>,
    level: nat,
    lo: int,
    hi: int,
)
    requires
        run_ok(m, s, level + 1, lo, hi),
    ensures
        forall|i: int| 0 <= i < s.len() ==> (#[trigger] s[i]).value is Extent,
{
    reveal(run_ok);
}

/// What is not below a run is no child of it.
proof fn lemma_kids_in_run(
    m: Map<u64, BtreeNode>,
    s: Seq<EntryView>,
    level: nat,
    lo: int,
    hi: int,
    a: int,
    b: int,
    c: u64,
)
    requires
        run_ok(m, s, level + 1, lo, hi),
        0 <= a <= b <= s.len(),
        !run_has(m, s, level + 1, c),
    ensures
        !is_kid(s, a, b, c),
{
    if is_kid(s, a, b, c) {
        let i = choose|i: int| a <= i < b && #[trigger] kid(s, i) == c;
        lemma_run_kid(m, s, level, lo, hi, i);
        assert(reach(m, kid(s, i), level, c));
    }
}

/// The joined entries of the children from `a` to before `b`.
fn joined_entries(
    cache: &NodeCache,
    parent: &BtreeNode,
    a: usize,
    b: usize,
    Ghost(level): Ghost<nat>,
) -> (r: Vec<KeyEntry>)
    requires
        kids_there(cache@, parent.keys(), level),
        a <= b <= parent.keys().len(),
    ensures
        keys(r@) == kids_cat(cache@, parent.keys(), a as int, b as int),
{
    let ghost m = cache@;
    let ghost s = parent.keys();
    let mut out: Vec<KeyEntry> = Vec::new();
    let mut j: usize = a;
    assert(kids_cat(m, s, a as int, a as int) =~= Seq::<EntryView>::empty());
    assert(keys(out@) =~= Seq::<EntryView>::empty());
    while j < b
        invariant
            a <= j <= b <= s.len(),
            s == parent.keys(),
            m == cache@,
            kids_there(m, s, level),
            keys(out@) == kids_cat(m, s, a as int, j as int),
        decreases b - j,
    {
        let addr: u64 = parent.entries[j].to_key_value().1.paddr;
        assert(addr == kid(s, j as int));
        let ghost before = keys(out@);
        if let Some(n) = cache.get(addr) {
            let mut copy: Vec<KeyEntry> = n.duplicate().entries;
            let ghost ck = keys(copy@);
            out.append(&mut copy);
            assert(keys(out@) =~= before + ck);
        }
        assert(kids_cat(m, s, a as int, j + 1) == kids_cat(m, s, a as int, j as int) + m[kid(
            s,
            j as int,
        )].keys());
        j += 1;
    }
    out
}

/// The words of the first `mid` entries.
fn prefix_u64s(entries: &Vec<KeyEntry>, mid: usize) -> (r: u32)
    requires
        mid <= entries@.len(),
        widths(keys(entries@)) <= 0xFFFFF,
        packable(keys(entries@)),
    ensures
        r == widths(keys(entries@).subrange(0, mid as int)),
{
    let ghost s = keys(entries@);
    let mut i: usize = 0;
    let mut acc: u32 = 0;
    assert(s.subrange(0, 0) =~= Seq::<EntryView>::empty());
    while i < mid
        invariant
            s == keys(entries@),
            i <= mid <= entries@.len(),
            acc == widths(s.subrange(0, i as int)),
            widths(s) <= 0xFFFFF,
            packable(s),
        decreases mid - i,
    {
        let w: u32 = match entries[i].packed_u64s() {
            None => 0,
            Some(x) => x as u32,
        };
        proof {
            let b = s.subrange(0, i + 1);
            assert(b.drop_last() =~= s.subrange(0, i as int));
            assert(b.last() == s[i as int]);
            lemma_widths_split(s, i + 1);
        }
        acc = acc + w;
        i += 1;
    }
    acc
}

/// The joined entries of three neighbours from `a` on, cut by the rule of splits, fit in the first
/// and in the last of these.
pub open spec fn share_fits(m: Map<u64, BtreeNode>, s: Seq<EntryView>, a: int) -> bool {
    let t = kids_cat(m, s, a, a + 3);
    exists|mid: int| #[trigger]
        balanced_at(t, mid) && widths(t.subrange(0, mid)) <= m[kid(s, a)].cap() && widths(
            t.subrange(mid, t.len() as int),
        ) <= m[kid(s, a + 2)].cap()
}

/// The joined entries of three neighbours from `a` on and where to cut them, if the parts fit.
fn share_cut(
    cache: &NodeCache,
    parent: &BtreeNode,
    a: usize,
    Ghost(level): Ghost<nat>,
) -> (r: Option<
    (Vec<KeyEntry>, usize),
>)
    requires
        kids_there(cache@, parent.keys(), level),
        a + 3 <= parent.keys().len(),
        packable(kids_cat(cache@, parent.keys(), a as int, a + 3)),
    ensures
        r is Some <==> share_fits(cache@, parent.keys(), a as int),
        r matches Some((entries, mid)) ==> {
            let t = kids_cat(cache@, parent.keys(), a as int, a + 3);
            &&& keys(entries@) == t
            &&& balanced_at(t, mid as int)
            &&& widths(t.subrange(0, mid as int)) <= cache@[kid(parent.keys(), a as int)].cap()
            &&& widths(t.subrange(mid as int, t.len() as int)) <= cache@[kid(
                parent.keys(),
                a + 2,
            )].cap()
        },
{
    let ghost m = cache@;
    let ghost s = parent.keys();
    let ghost t = kids_cat(m, s, a as int, a + 3);
    assert(parent.entries.len() == s.len());
    let total: u32 = live_words(cache, parent, a, a + 3, Ghost(level)) as u32;
    let entries: Vec<KeyEntry> = joined_entries(cache, parent, a, a + 3, Ghost(level));
    let mid: usize = match find_balanced_split(&entries, total) {
        None => {
            return None;
        },
        Some(mid) => mid,
    };
    let lw: u32 = prefix_u64s(&entries, mid);
    proof {
        lemma_widths_split(t, mid as int);
        assert(kid(s, a as int) == child(s[a as int]));
        assert(kid(s, a + 2) == child(s[a + 2]));
    }
    let la: u64 = parent.entries[a].to_key_value().1.paddr;
    let ra: u64 = parent.entries[a + 2].to_key_value().1.paddr;
    let lcap: u32 = match cache.get(la) {
        None => {
            assert(false);
            0
        },
        Some(n) => n.capacity(),
    };
    let rcap: u32 = match cache.get(ra) {
        None => {
            assert(false);
            0
        },
        Some(n) => n.capacity(),
    };
    if lw > lcap || total - lw > rcap {
        proof {
            if share_fits(m, s, a as int) {
                let other = choose|mid: int| #[trigger]
                    balanced_at(t, mid) && widths(t.subrange(0, mid)) <= m[kid(s, a as int)].cap()
                        && widths(t.subrange(mid, t.len() as int)) <= m[kid(s, a + 2)].cap();
                lemma_balanced_once(t, mid as int, other);
            }
        }
        return None;
    }
    Some((entries, mid))
}

/// Packs entries into the nodes at `la` and `ra`; the node at `ma` goes.
fn pack_children(
    cache: &mut NodeCache,
    la: u64,
    ma: u64,
    ra: u64,
    entries: Vec<KeyEntry>,
    mid: usize,
)
    requires
        la != ma,
        ma != ra,
        la != ra,
        old(cache)@.contains_key(la),
        old(cache)@.contains_key(ma),
        old(cache)@.contains_key(ra),
        old(cache)@[la].wf(),
        old(cache)@[ra].wf(),
        sorted(keys(entries@)),
        packable(keys(entries@)),
        alive(keys(entries@)),
        0 < mid < keys(entries@).len(),
        widths(keys(entries@).subrange(0, mid as int)) <= old(cache)@[la].cap(),
        widths(keys(entries@).subrange(mid as int, keys(entries@).len() as int)) <= old(
            cache,
        )@[ra].cap(),
    ensures
        ({
            let m = old(cache)@;
            let m2 = final(cache)@;
            &&& m2 == m.remove(ma).insert(la, m2[la]).insert(ra, m2[ra])
            &&& packed_apart(m[la], m[ra], m2[la], m2[ra], keys(entries@), mid as int)
        }),
        marks_kept(*old(cache), *final(cache)),
        final(cache).dirty_addrs().contains(la),
        final(cache).dirty_addrs().contains(ra),
{
    let taken = (cache.take_node(la), cache.take_node(ma), cache.take_node(ra));
    let (mut left, mut right): (BtreeNode, BtreeNode) = match taken {
        (Some(l), Some(_), Some(r)) => (l, r),
        _ => {
            assert(false);
            return;
        },
    };
    left.pack_entries_into(entries, mid, &mut right);
    left.compact();
    right.compact();
    let ghost gl = left;
    let ghost gr = right;
    let ghost d0 = cache.dirty_addrs();
    cache.insert_dirty(la, left);
    let ghost d1 = cache.dirty_addrs();
    cache.insert_dirty(ra, right);
    proof {
        lemma_marked(d0, d1, la);
        lemma_marked(d1, cache.dirty_addrs(), ra);
    }
    assert(cache@ =~= old(cache)@.remove(ma).insert(la, gl).insert(ra, gr));
}

/// Of three neighbours the middle one is gone.
proof fn lemma_middle_gone(
    m: Map<u64, BtreeNode>,
    m2: Map<u64, BtreeNode>,
    s: Seq<EntryView>,
    a: int,
)
    requires
        m.contains_key(kid(s, a)),
        m.contains_key(kid(s, a + 2)),
        kid(s, a) != kid(s, a + 1),
        kid(s, a + 2) != kid(s, a + 1),
        m2 == m.remove(kid(s, a + 1)).insert(kid(s, a), m2[kid(s, a)]).insert(
            kid(s, a + 2),
            m2[kid(s, a + 2)],
        ),
    ensures
        others_kept(m, m2, s, a, a + 3, set![kid(s, a), kid(s, a + 2)]),
        only_kids(m, m2, s, a, a + 3),
{
    assert(is_kid(s, a, a + 3, kid(s, a)));
    assert(is_kid(s, a, a + 3, kid(s, a + 1)));
    assert(is_kid(s, a, a + 3, kid(s, a + 2)));
    let b = a + 3;
    assert forall|c: u64| #[trigger] is_kid(s, a, b, c) implies c == kid(s, a) || c == kid(s, a + 1)
        || c == kid(s, a + 2) by {
        let j = choose|j: int| a <= j < a + 3 && #[trigger] kid(s, j) == c;
        assert(j == a || j == a + 1 || j == a + 2);
    }
}

/// Spreads the keys of three neighbours from `a` on over the first and the last of these, if they
/// fit.
fn share_children(
    cache: &mut NodeCache,
    parent: &mut BtreeNode,
    a: usize,
    Ghost(level): Ghost<nat>,
    Ghost(lo): Ghost<int>,
    Ghost(hi): Ghost<int>,
) -> (r: bool)
    requires
        old(parent).wf(),
        run_ok(old(cache)@, old(parent).keys(), level + 1, lo, hi),
        a + 3 <= old(parent).keys().len(),
    ensures
        r == share_fits(old(cache)@, old(parent).keys(), a as int),
        !r ==> *final(parent) == *old(parent) && final(cache)@ == old(cache)@,
        merge_kept(old(cache)@, *old(parent), final(cache)@, *final(parent), level, lo, hi),
        r ==> exists|mid: int| #[trigger]
            shared_run(
                old(cache)@,
                old(parent).keys(),
                final(cache)@,
                final(parent).keys(),
                a as int,
                mid,
            ),
        marks_kept(*old(cache), *final(cache)),
        !r ==> final(cache).dirty_addrs() == old(cache).dirty_addrs(),
        r ==> final(cache).dirty_addrs().contains(kid(old(parent).keys(), a as int))
            && final(cache).dirty_addrs().contains(kid(old(parent).keys(), a + 2)),
{
    let ghost m = cache@;
    let ghost s = parent.keys();
    let ghost t = kids_cat(m, s, a as int, a + 3);
    proof {
        lemma_run_first(m, s, level + 1, lo, hi);
        lemma_kids_there(m, s, level, lo, hi);
        lemma_kids_cat(m, s, level, lo, hi, a as int, a + 3);
        lemma_run_first(m, t, level, s[a as int].pos.ord(), child_hi(s, a + 2, hi));
        assert(kid(s, a as int) != kid(s, a + 1));
        assert(kid(s, a + 1) != kid(s, a + 2));
        assert(kid(s, a as int) != kid(s, a + 2));
        assert(kid(s, a as int) == child(s[a as int]));
        assert(kid(s, a + 1) == child(s[a + 1]));
        assert(kid(s, a + 2) == child(s[a + 2]));
    }
    assert(parent.entries.len() == s.len());
    let (entries, mid): (Vec<KeyEntry>, usize) = match share_cut(cache, parent, a, Ghost(level)) {
        None => {
            return false;
        },
        Some(x) => x,
    };
    let la: u64 = parent.entries[a].to_key_value().1.paddr;
    let ma: u64 = parent.entries[a + 1].to_key_value().1.paddr;
    let ra: u64 = parent.entries[a + 2].to_key_value().1.paddr;
    let med: Bpos = entries[mid].pos;
    assert(med == t[mid as int].pos);
    pack_children(cache, la, ma, ra, entries, mid);
    let at: Bpos = match cache.get(la) {
        None => {
            assert(false);
            med
        },
        Some(n) => find_route_pos(parent, a, a + 3, n),
    };
    let r1: KeyEntry = make_route(at, la);
    let r2: KeyEntry = make_route(med, ra);
    let ghost e = r1@;
    let ghost f = r2@;
    let mut routes: Vec<KeyEntry> = Vec::new();
    routes.push(r1);
    routes.push(r2);
    proof {
        let m2 = cache@;
        assert(keys(routes@) =~= pair(e, f));
        lemma_middle_gone(m, m2, s, a as int);
        let e0 = route_entry(s[a as int].pos, la);
        let s0 = spliced(s, a as int, a + 3, pair(e0, f));
        let s2 = spliced(s, a as int, a + 3, pair(e, f));
        lemma_shared(m, m2, s, level, lo, hi, a as int, a + 3, mid as int, e0, f);
        lemma_route_pos(m, s, level, lo, hi, a as int, a + 3, m2[la], mid as int);
        assert(s0[a as int] == e0);
        assert(s0[a + 1] == f);
        lemma_rerouted(m2, s0, level, lo, hi, a as int, e);
        assert(s0.update(a as int, e) =~= s2);
        lemma_run_first(m2, s2, level + 1, lo, hi);
        lemma_parent_extents(m, s, level, lo, hi);
        assert forall|c: u64|
            m.contains_key(c) && !#[trigger] run_has(m, s, level + 1, c) implies m2.contains_key(c)
            && m2[c] == m[c] by {
            lemma_kids_in_run(m, s, level, lo, hi, a as int, a + 3, c);
        }
        assert(shared_run(m, s, m2, s2, a as int, mid as int));
    }
    update_routing(parent, a, a + 3, routes);
    true
}

/// A child that was changed in nothing but its accounts.
proof fn lemma_touched(
    m: Map<u64, BtreeNode>,
    m2: Map<u64, BtreeNode>,
    parent: BtreeNode,
    level: nat,
    lo: int,
    hi: int,
    i: int,
)
    requires
        parent.wf(),
        run_ok(m, parent.keys(), level + 1, lo, hi),
        0 <= i < parent.keys().len(),
        m2 == m.insert(kid(parent.keys(), i), m2[kid(parent.keys(), i)]),
        m2[kid(parent.keys(), i)].wf(),
        m2[kid(parent.keys(), i)].level == level,
        m2[kid(parent.keys(), i)].keys() == m[kid(parent.keys(), i)].keys(),
    ensures
        merge_kept(m, parent, m2, parent, level, lo, hi),
{
    let s = parent.keys();
    let e = s[i];
    let c = kid(s, i);
    lemma_run_first(m, s, level + 1, lo, hi);
    lemma_parent_extents(m, s, level, lo, hi);
    lemma_run_kid(m, s, level, lo, hi, i);
    lemma_cat_one(m, s, i);
    assert(is_kid(s, i, i + 1, c));
    lemma_joined(m, m2, s, level, lo, hi, i, i + 1, e);
    assert(spliced(s, i, i + 1, one(e)) =~= s);
    assert forall|d: u64| m.contains_key(d) && !#[trigger] run_has(m, s, level + 1, d) implies
        m2.contains_key(d) && m2[d] == m[d] by {
        lemma_kids_in_run(m, s, level, lo, hi, i, i + 1, d);
    }
}

proof fn lemma_kept_twice(
    m: Map<u64, BtreeNode>,
    p: BtreeNode,
    m2: Map<u64, BtreeNode>,
    p2: BtreeNode,
    m3: Map<u64, BtreeNode>,
    p3: BtreeNode,
    level: nat,
    lo: int,
    hi: int,
)
    requires
        merge_kept(m, p, m2, p2, level, lo, hi),
        merge_kept(m2, p2, m3, p3, level, lo, hi),
    ensures
        merge_kept(m, p, m3, p3, level, lo, hi),
{
    assert forall|c: u64| #[trigger] run_has(m3, p3.keys(), level + 1, c) implies run_has(
        m,
        p.keys(),
        level + 1,
        c,
    ) by {
        assert(run_has(m2, p2.keys(), level + 1, c));
    }
    assert forall|x: int| lo <= x < hi implies #[trigger] run_get(m3, p3.keys(), level + 1, x)
        == run_get(m, p.keys(), level + 1, x) by {
        assert(run_get(m3, p3.keys(), level + 1, x) == run_get(m2, p2.keys(), level + 1, x));
    }
    assert forall|c: u64| #[trigger] m3.contains_key(c) implies m.contains_key(c) by {
        assert(m2.contains_key(c));
    }
    assert forall|c: u64| m.contains_key(c) && !#[trigger] run_has(m, p.keys(), level + 1, c) implies
        m3.contains_key(c) && m3[c] == m[c] by {
        assert(!run_has(m2, p2.keys(), level + 1, c));
    }
}

/// The joined entries are the same where the children have the same entries.
proof fn lemma_cat_same(
    m: Map<u64, BtreeNode>,
    m2: Map<u64, BtreeNode>,
    s: Seq<EntryView>,
    a: int,
    b: int,
)
    requires
        forall|j: int| a <= j < b ==> m2[#[trigger] kid(s, j)].keys() == m[kid(s, j)].keys(),
    ensures
        kids_cat(m2, s, a, b) == kids_cat(m, s, a, b),
    decreases b - a,
{
    if a < b {
        assert(m2[kid(s, b - 1)].keys() == m[kid(s, b - 1)].keys());
        lemma_cat_same(m, m2, s, a, b - 1);
    }
}

/// The words up to which a node is merged with its siblings: those set for the volume, or else a
/// third of the node.
pub open spec fn merge_limit(node: BtreeNode, set: Option<u16>) -> int {
    match set {
        Some(t) => t as int,
        None => node.node_size as int / 8 / 3,
    }
}

/// A node is worth a try to merge it: it is empty, or one of its sibling estimates is low.
pub open spec fn wants_merge(node: BtreeNode, set: Option<u16>) -> bool {
    ||| node.keys().len() == 0
    ||| node.sib_u64s@[0] <= merge_limit(node, set)
    ||| node.sib_u64s@[1] <= merge_limit(node, set)
}

/// The sibling estimates of a node, with none at the ends of the key space.
pub open spec fn open_sibs(node: BtreeNode) -> Seq<u16> {
    seq![
        if node.min_key == Bpos::lowest() {
            u16::MAX
        } else {
            node.sib_u64s@[0]
        },
        if node.max_key == Bpos::highest() {
            u16::MAX
        } else {
            node.sib_u64s@[1]
        },
    ]
}

/// The live words of the left sibling of child `i`, if that comes in question.
pub open spec fn plan_left(
    m: Map<u64, BtreeNode>,
    s: Seq<EntryView>,
    i: int,
    set: Option<u16>,
) -> Option<u32> {
    let node = m[kid(s, i)];
    if i > 0 && open_sibs(node)[0] <= merge_limit(node, set) {
        Some(m[kid(s, i - 1)].live_u64s)
    } else {
        None
    }
}

/// The live words of the right sibling of child `i`, if that comes in question.
pub open spec fn plan_right(
    m: Map<u64, BtreeNode>,
    s: Seq<EntryView>,
    i: int,
    set: Option<u16>,
) -> Option<u32> {
    let node = m[kid(s, i)];
    if i + 1 < s.len() && open_sibs(node)[1] <= merge_limit(node, set) {
        Some(m[kid(s, i + 1)].live_u64s)
    } else {
        None
    }
}

/// The node size that the plan goes by: that of the leftmost node of the plan.
pub open spec fn plan_size(
    m: Map<u64, BtreeNode>,
    s: Seq<EntryView>,
    i: int,
    set: Option<u16>,
) -> u32 {
    if plan_left(m, s, i, set) is Some {
        m[kid(s, i - 1)].node_size
    } else {
        m[kid(s, i)].node_size
    }
}

/// The plan for the child below entry `i` of a run.
pub open spec fn merge_choice(
    m: Map<u64, BtreeNode>,
    s: Seq<EntryView>,
    i: int,
    set: Option<u16>,
) -> MergePlan {
    if wants_merge(m[kid(s, i)], set) {
        merge_plan(
            plan_size(m, s, i, set),
            plan_left(m, s, i, set),
            m[kid(s, i)].live_u64s,
            plan_right(m, s, i, set),
        )
    } else {
        MergePlan::Keep
    }
}

/// The nodes of the plan have room for the keys that they are to take in.
pub open spec fn plan_fits(
    m: Map<u64, BtreeNode>,
    s: Seq<EntryView>,
    i: int,
    plan: MergePlan,
) -> bool {
    match plan {
        MergePlan::Keep => false,
        MergePlan::Left => join_fits(m, s, i - 1, i + 1),
        MergePlan::Right => join_fits(m, s, i, i + 2),
        MergePlan::Both => join_fits(m, s, i - 1, i + 2),
        MergePlan::Share => share_fits(m, s, i - 1),
    }
}

/// What the plan has made of a run and of the nodes below.
pub open spec fn plan_done(
    m: Map<u64, BtreeNode>,
    s: Seq<EntryView>,
    m2: Map<u64, BtreeNode>,
    s2: Seq<EntryView>,
    i: int,
    plan: MergePlan,
) -> bool {
    match plan {
        MergePlan::Keep => false,
        MergePlan::Left => joined_run(m, s, m2, s2, i - 1, i + 1),
        MergePlan::Right => joined_run(m, s, m2, s2, i, i + 2),
        MergePlan::Both => joined_run(m, s, m2, s2, i - 1, i + 2),
        MergePlan::Share => exists|mid: int| #[trigger] shared_run(m, s, m2, s2, i - 1, mid),
    }
}

/// The nodes that a plan has put keys into await a write.
pub open spec fn survivors_marked(
    s: Seq<EntryView>,
    i: int,
    plan: MergePlan,
    c: NodeCache,
) -> bool {
    let dirty = c.dirty_addrs();
    match plan {
        MergePlan::Keep => true,
        MergePlan::Left => dirty.contains(kid(s, i)),
        MergePlan::Right => dirty.contains(kid(s, i + 1)),
        MergePlan::Both => dirty.contains(kid(s, i + 1)),
        MergePlan::Share => dirty.contains(kid(s, i - 1)) && dirty.contains(kid(s, i + 1)),
    }
}

/// The child below entry `i` after a try to merge it: dead words are reclaimed, and the sibling
/// estimates are those of the plan.
pub open spec fn tried(
    m: Map<u64, BtreeNode>,
    s: Seq<EntryView>,
    i: int,
    set: Option<u16>,
    n: BtreeNode,
) -> bool {
    let node = m[kid(s, i)];
    &&& n.wf()
    &&& n.same_frame((BtreeNode { sib_u64s: n.sib_u64s, ..node }))
    &&& n.keys() == node.keys()
    &&& n.live_u64s == node.live_u64s
    &&& n.dead_u64s == 0
    &&& n.min_key == node.min_key
    &&& n.max_key == node.max_key
    &&& n.sib_u64s@ == planned_sibs(
        plan_size(m, s, i, set),
        plan_left(m, s, i, set),
        node.live_u64s,
        plan_right(m, s, i, set),
        open_sibs(node),
    )
}

/// What a try to merge the child below entry `i` of the run `s` comes to: whether it is merged,
/// and the run and the nodes after that. A child that is not worth a try is left alone.
pub open spec fn merge_step(
    m: Map<u64, BtreeNode>,
    s: Seq<EntryView>,
    i: int,
    set: Option<u16>,
    merged: bool,
    m2: Map<u64, BtreeNode>,
    s2: Seq<EntryView>,
) -> bool {
    let plan = merge_choice(m, s, i, set);
    &&& merged == plan_fits(m, s, i, plan)
    &&& !merged ==> s2 == s
    &&& if wants_merge(m[kid(s, i)], set) {
        exists|n: BtreeNode| #[trigger]
            tried(m, s, i, set, n) && {
                let m1 = m.insert(kid(s, i), n);
                if merged {
                    plan_done(m1, s, m2, s2, i, plan)
                } else {
                    m2 == m1
                }
            }
    } else {
        m2 == m
    }
}

/// Live words and size of the child below entry `j`.
fn child_size(cache: &NodeCache, parent: &BtreeNode, j: usize, Ghost(level): Ghost<nat>) -> (r: (
    u32,
    u32,
))
    requires
        kids_there(cache@, parent.keys(), level),
        j < parent.keys().len(),
    ensures
        r.0 == cache@[kid(parent.keys(), j as int)].live_u64s,
        r.1 == cache@[kid(parent.keys(), j as int)].node_size,
        r.0 <= 0xFFFFF,
        MIN_NODE_SIZE <= r.1 <= MAX_NODE_SIZE,
{
    let addr: u64 = parent.entries[j].to_key_value().1.paddr;
    assert(addr == kid(parent.keys(), j as int));
    match cache.get(addr) {
        Some(n) => (n.live_u64s, n.node_size),
        None => {
            assert(false);
            (0, 0)
        },
    }
}

/// Readies the child below entry `i` for a merge, if it is worth a try: dead words are reclaimed,
/// and there are no siblings beyond the ends of the key space. Gives the size of the node, its
/// live words, the words up to which it is merged, and its sibling estimates.
fn ready_child(
    cache: &mut NodeCache,
    parent: &BtreeNode,
    i: usize,
    set: Option<u16>,
    Ghost(level): Ghost<nat>,
    Ghost(lo): Ghost<int>,
    Ghost(hi): Ghost<int>,
) -> (r: Option<(u32, u32, u32, u16, u16)>)
    requires
        parent.wf(),
        run_ok(old(cache)@, parent.keys(), level + 1, lo, hi),
        kids_there(old(cache)@, parent.keys(), level),
        i < parent.keys().len(),
    ensures
        ({
            let m = old(cache)@;
            let m2 = final(cache)@;
            let c = kid(parent.keys(), i as int);
            let sibs = open_sibs(m[c]);
            match r {
                None => !wants_merge(m[c], set) && m2 == m,
                Some((size, live, limit, s0, s1)) => {
                    &&& wants_merge(m[c], set)
                    &&& m2.contains_key(c)
                    &&& m2 == m.insert(c, m2[c])
                    &&& m2[c].wf()
                    &&& m2[c].same_frame((BtreeNode { sib_u64s: m2[c].sib_u64s, ..m[c] }))
                    &&& m2[c].keys() == m[c].keys()
                    &&& m2[c].live_u64s == m[c].live_u64s
                    &&& m2[c].dead_u64s == 0
                    &&& m2[c].min_key == m[c].min_key
                    &&& m2[c].max_key == m[c].max_key
                    &&& size == m[c].node_size
                    &&& live == m[c].live_u64s
                    &&& limit == merge_limit(m[c], set)
                    &&& s0 == sibs[0]
                    &&& s1 == sibs[1]
                },
            }
        }),
        kids_there(final(cache)@, parent.keys(), level),
        final(cache).dirty_addrs() == old(cache).dirty_addrs(),
{
    let ghost m = cache@;
    let ghost s = parent.keys();
    let addr: u64 = parent.entries[i].to_key_value().1.paddr;
    assert(addr == kid(s, i as int));
    let mut node: BtreeNode = match cache.take_node(addr) {
        None => {
            assert(false);
            return None;
        },
        Some(n) => n,
    };
    let limit: u32 = match set {
        Some(t) => t as u32,
        None => node.node_size / 8 / 3,
    };
    let s0: u16 = node.sib_u64s[0];
    let s1: u16 = node.sib_u64s[1];
    if node.entries.len() > 0 && (s0 as u32) > limit && (s1 as u32) > limit {
        cache.put_node(addr, node);
        assert(cache@ =~= m);
        return None;
    }
    node.compact();
    let s0: u16 = if node.min_key == Bpos::lowest() {
        0xFFFF
    } else {
        s0
    };
    let s1: u16 = if node.max_key == Bpos::highest() {
        0xFFFF
    } else {
        s1
    };
    node.sib_u64s = [s0, s1];
    let size: u32 = node.node_size;
    let live: u32 = node.live_u64s;
    let ghost gnode = node;
    cache.put_node(addr, node);
    assert(cache@ =~= m.insert(addr, gnode));
    Some((size, live, limit, s0, s1))
}

/// Renews the sibling estimates of the child below entry `i` after the plan.
fn note_plan(
    cache: &mut NodeCache,
    parent: &BtreeNode,
    i: usize,
    s0: u16,
    s1: u16,
    Ghost(level): Ghost<nat>,
)
    requires
        kids_there(old(cache)@, parent.keys(), level),
        i < parent.keys().len(),
    ensures
        ({
            let m = old(cache)@;
            let m2 = final(cache)@;
            let c = kid(parent.keys(), i as int);
            &&& m2.contains_key(c)
            &&& m2 == m.insert(c, m2[c])
            &&& m2[c].wf()
            &&& m2[c] == (BtreeNode { sib_u64s: m2[c].sib_u64s, ..m[c] })
            &&& m2[c].sib_u64s@ == seq![s0, s1]
        }),
        kids_there(final(cache)@, parent.keys(), level),
        final(cache).dirty_addrs() == old(cache).dirty_addrs(),
{
    let ghost m = cache@;
    let ghost s = parent.keys();
    let addr: u64 = parent.entries[i].to_key_value().1.paddr;
    assert(addr == kid(s, i as int));
    let mut node: BtreeNode = match cache.take_node(addr) {
        None => {
            assert(false);
            return;
        },
        Some(n) => n,
    };
    node.sib_u64s = [s0, s1];
    let ghost gnode = node;
    cache.put_node(addr, node);
    assert(cache@ =~= m.insert(addr, gnode));
}

/// Whether a plan still fits depends on the keys and sizes of the children alone.
proof fn lemma_plan_fits(
    m: Map<u64, BtreeNode>,
    m2: Map<u64, BtreeNode>,
    s: Seq<EntryView>,
    i: int,
    plan: MergePlan,
)
    requires
        0 <= i < s.len(),
        plan is Left || plan is Both || plan is Share ==> i > 0,
        plan is Right || plan is Both || plan is Share ==> i + 1 < s.len(),
        forall|j: int|
            0 <= j < s.len() ==> m2[#[trigger] kid(s, j)].keys() == m[kid(s, j)].keys() && m2[kid(
                s,
                j,
            )].node_size == m[kid(s, j)].node_size,
    ensures
        plan_fits(m2, s, i, plan) == plan_fits(m, s, i, plan),
{
    match plan {
        MergePlan::Keep => {},
        MergePlan::Left => {
            lemma_cat_same(m, m2, s, i - 1, i + 1);
            assert(m2[kid(s, i)].cap() == m[kid(s, i)].cap());
        },
        MergePlan::Right => {
            lemma_cat_same(m, m2, s, i, i + 2);
            assert(m2[kid(s, i + 1)].cap() == m[kid(s, i + 1)].cap());
        },
        MergePlan::Both => {
            lemma_cat_same(m, m2, s, i - 1, i + 2);
            assert(m2[kid(s, i + 1)].cap() == m[kid(s, i + 1)].cap());
        },
        MergePlan::Share => {
            lemma_cat_same(m, m2, s, i - 1, i + 2);
            assert(m2[kid(s, i - 1)].cap() == m[kid(s, i - 1)].cap());
            assert(m2[kid(s, i + 1)].cap() == m[kid(s, i + 1)].cap());
        },
    }
}

/// Readies the child below entry `i` of `parent` for a merge, if it is worth a try, and decides
/// what to merge it with.
fn plan_child(
    cache: &mut NodeCache,
    parent: &BtreeNode,
    i: usize,
    set: Option<u16>,
    Ghost(level): Ghost<nat>,
    Ghost(lo): Ghost<int>,
    Ghost(hi): Ghost<int>,
) -> (r: Option<MergePlan>)
    requires
        parent.wf(),
        run_ok(old(cache)@, parent.keys(), level + 1, lo, hi),
        i < parent.keys().len(),
    ensures
        ({
            let m = old(cache)@;
            let m2 = final(cache)@;
            let s = parent.keys();
            let c = kid(s, i as int);
            match r {
                None => !wants_merge(m[c], set) && m2 == m,
                Some(plan) => {
                    &&& wants_merge(m[c], set)
                    &&& plan == merge_choice(m, s, i as int, set)
                    &&& m2 == m.insert(c, m2[c])
                    &&& tried(m, s, i as int, set, m2[c])
                    &&& plan_fits(m2, s, i as int, plan) == plan_fits(m, s, i as int, plan)
                },
            }
        }),
        merge_kept(old(cache)@, *parent, final(cache)@, *parent, level, lo, hi),
        final(cache).dirty_addrs() == old(cache).dirty_addrs(),
{
    let ghost m = cache@;
    let ghost s = parent.keys();
    proof {
        lemma_kids_there(m, s, level, lo, hi);
    }
    let n: usize = parent.entries.len();
    let (size, live, limit, s0, s1): (u32, u32, u32, u16, u16) = match ready_child(
        cache,
        parent,
        i,
        set,
        Ghost(level),
        Ghost(lo),
        Ghost(hi),
    ) {
        None => {
            proof {
                lemma_kept_same(m, *parent, level, lo, hi);
            }
            return None;
        },
        Some(x) => x,
    };
    let ghost m1 = cache@;
    proof {
        if i > 0 {
            assert(kid(s, i - 1) != kid(s, i as int));
        }
        if i + 1 < n {
            assert(kid(s, i as int) != kid(s, i + 1));
        }
    }
    let mut node_size: u32 = size;
    let left: Option<u32> = if i > 0 && (s0 as u32) <= limit {
        let (w, sz): (u32, u32) = child_size(cache, parent, i - 1, Ghost(level));
        node_size = sz;
        Some(w)
    } else {
        None
    };
    let right: Option<u32> = if i + 1 < n && (s1 as u32) <= limit {
        Some(child_size(cache, parent, i + 1, Ghost(level)).0)
    } else {
        None
    };
    let ghost c = kid(s, i as int);
    proof {
        assert(m[c].wf());
    }
    let plan: MergePlan = compute_merge(node_size, left, live, right);
    assert(plan == merge_choice(m, s, i as int, set));
    let n0: u16 = match (left, plan) {
        (Some(l), MergePlan::Keep) => hysteresis(node_size, l + live),
        (Some(l), MergePlan::Right) => hysteresis(node_size, l + live),
        _ => s0,
    };
    let n1: u16 = match (right, plan) {
        (Some(r), MergePlan::Keep) => hysteresis(node_size, r + live),
        (Some(r), MergePlan::Left) => hysteresis(node_size, r + live),
        _ => s1,
    };
    note_plan(cache, parent, i, n0, n1, Ghost(level));
    let ghost m2 = cache@;
    proof {
        assert(m2 =~= m.insert(c, m2[c]));
        lemma_touched(m, m2, *parent, level, lo, hi, i as int);
        assert forall|j: int| 0 <= j < s.len() implies m2[#[trigger] kid(s, j)].keys() == m[kid(
            s,
            j,
        )].keys() && m2[kid(s, j)].node_size == m[kid(s, j)].node_size by {
            if j != i {
                lemma_kids_distinct(m, s, level, lo, hi, i as int, j);
            }
        }
        lemma_plan_fits(m, m2, s, i as int, plan);
        assert(tried(m, s, i as int, set, m2[c]));
    }
    Some(plan)
}

/// Does to the child below entry `i` and its siblings what the plan says, if they have the room.
fn apply_plan(
    cache: &mut NodeCache,
    parent: &mut BtreeNode,
    i: usize,
    plan: MergePlan,
    Ghost(level): Ghost<nat>,
    Ghost(lo): Ghost<int>,
    Ghost(hi): Ghost<int>,
) -> (r: bool)
    requires
        old(parent).wf(),
        run_ok(old(cache)@, old(parent).keys(), level + 1, lo, hi),
        i < old(parent).keys().len(),
        plan is Left || plan is Both || plan is Share ==> i > 0,
        plan is Right || plan is Both || plan is Share ==> i + 1 < old(parent).keys().len(),
    ensures
        merge_kept(old(cache)@, *old(parent), final(cache)@, *final(parent), level, lo, hi),
        r == plan_fits(old(cache)@, old(parent).keys(), i as int, plan),
        !r ==> *final(parent) == *old(parent) && final(cache)@ == old(cache)@,
        r ==> final(parent).nr_keys() < old(parent).nr_keys() && plan_done(
            old(cache)@,
            old(parent).keys(),
            final(cache)@,
            final(parent).keys(),
            i as int,
            plan,
        ) && survivors_marked(old(parent).keys(), i as int, plan, *final(cache)),
        marks_kept(*old(cache), *final(cache)),
        !r ==> final(cache).dirty_addrs() == old(cache).dirty_addrs(),
{
    assert(parent.entries.len() == parent.keys().len());
    proof {
        lemma_kept_same(cache@, *parent, level, lo, hi);
    }
    match plan {
        MergePlan::Keep => false,
        MergePlan::Left => join_children(
            cache,
            parent,
            i - 1,
            i + 1,
            Ghost(level),
            Ghost(lo),
            Ghost(hi),
        ),
        MergePlan::Right => join_children(
            cache,
            parent,
            i,
            i + 2,
            Ghost(level),
            Ghost(lo),
            Ghost(hi),
        ),
        MergePlan::Both => join_children(
            cache,
            parent,
            i - 1,
            i + 2,
            Ghost(level),
            Ghost(lo),
            Ghost(hi),
        ),
        MergePlan::Share => share_children(
            cache,
            parent,
            i - 1,
            Ghost(level),
            Ghost(lo),
            Ghost(hi),
        ),
    }
}

/// Merges the child below entry `i` of `parent` with its siblings where that is worth while;
/// whether it did.
pub(crate) fn merge_child(
    cache: &mut NodeCache,
    parent: &mut BtreeNode,
    i: usize,
    set: Option<u16>,
    Ghost(level): Ghost<nat>,
    Ghost(lo): Ghost<int>,
    Ghost(hi): Ghost<int>,
) -> (r: bool)
    requires
        old(parent).wf(),
        run_ok(old(cache)@, old(parent).keys(), level + 1, lo, hi),
        i < old(parent).keys().len(),
    ensures
        merge_kept(old(cache)@, *old(parent), final(cache)@, *final(parent), level, lo, hi),
        r ==> final(parent).nr_keys() < old(parent).nr_keys(),
        !r ==> *final(parent) == *old(parent),
        merge_step(
            old(cache)@,
            old(parent).keys(),
            i as int,
            set,
            r,
            final(cache)@,
            final(parent).keys(),
        ),
        marks_kept(*old(cache), *final(cache)),
        !r ==> final(cache).dirty_addrs() == old(cache).dirty_addrs(),
        r ==> survivors_marked(
            old(parent).keys(),
            i as int,
            merge_choice(old(cache)@, old(parent).keys(), i as int, set),
            *final(cache),
        ),
{
    let ghost m = cache@;
    let ghost p0 = *parent;
    let plan: MergePlan = match plan_child(
        cache,
        parent,
        i,
        set,
        Ghost(level),
        Ghost(lo),
        Ghost(hi),
    ) {
        None => {
            return false;
        },
        Some(plan) => plan,
    };
    let ghost m2 = cache@;
    let r: bool = apply_plan(cache, parent, i, plan, Ghost(level), Ghost(lo), Ghost(hi));
    proof {
        lemma_kept_twice(m, p0, m2, p0, cache@, *parent, level, lo, hi);
    }
    r
}

proof fn lemma_kept_same(m: Map<u64, BtreeNode>, p: BtreeNode, level: nat, lo: int, hi: int)
    requires
        p.wf(),
        run_ok(m, p.keys(), level + 1, lo, hi),
    ensures
        merge_kept(m, p, m, p, level, lo, hi),
{
}

/// The plan for nodes of `n` bytes: a lone sibling is merged with where both fit in three quarters of
/// a node; both siblings where all three do; the three are spread over two nodes where that is twice
/// as much; and else the smaller sibling is merged with where the two fit in half a node.
pub proof fn law_merge_plan(n: u32, l: u32, pivot: u32, r: u32)
    ensures
        merge_plan(n, None, pivot, None) is Keep,
        merge_plan(n, Some(l), pivot, None) is Left || merge_plan(n, Some(l), pivot, None) is Keep,
        merge_plan(n, Some(l), pivot, None) is Left <==> 32 * (l + pivot) <= 3 * n,
        merge_plan(n, None, pivot, Some(r)) is Right || merge_plan(n, None, pivot, Some(r)) is Keep,
        merge_plan(n, None, pivot, Some(r)) is Right <==> 32 * (pivot + r) <= 3 * n,
        ({
            let plan = merge_plan(n, Some(l), pivot, Some(r));
            let all = l + pivot + r;
            let in_two = exists|h: int| #![trigger three_quarters(n, h)] three_quarters(n, h) && all
                <= 2 * h;
            &&& plan is Both <==> three_quarters(n, all)
            &&& plan is Share <==> !(plan is Both) && in_two
            &&& plan is Right <==> !in_two && !(plan is Both) && l > r && 16 * (pivot + r) <= n
            &&& plan is Left <==> !in_two && !(plan is Both) && l <= r && 16 * (l + pivot) <= n
        }),
{
    let q = n as int * 3 / 4 / 8;
    assert(q == n as int * 3 / 32);
    assert(32 * q <= 3 * n < 32 * (q + 1));
    assert(three_quarters(n, q));
    let half = n as int / 8 / 2;
    assert(half == n as int / 16);
    assert(16 * half <= n < 16 * (half + 1));
}

/// So many words fit in three quarters of a node of `n` bytes.
pub open spec fn three_quarters(n: u32, words: int) -> bool {
    32 * words <= 3 * n
}

/// The estimate after a failed merge: the words of both, as long as these are within the reach of a
/// merge, and else half way back to that, rounded up; never none, and never more than both have. The
/// reach is a third of a node of `n` bytes and a quarter of that.
pub proof fn law_failed_merge_estimate(n: u32, sum: int)
    requires
        sum >= 0,
    ensures
        ({
            let e = sib_hysteresis(n, sum) as int;
            let reach = n as int / 24 + n as int / 96;
            &&& e <= 0xFFFE
            &&& e <= sum
            &&& sum <= reach ==> e == sum || e == 0xFFFE
            &&& sum > reach && e < 0xFFFE ==> sum + reach <= 2 * e <= sum + reach + 1
            &&& e == 0xFFFE ==> sum >= 0xFFFE
        }),
{
    assert(n as int / 8 / 3 == n as int / 24);
    assert(n as int / 24 / 4 == n as int / 96);
}

/// A plan renews the estimate of a sibling that it leaves out, and no other.
pub proof fn law_left_out_siblings_are_estimated(
    n: u32,
    left: Option<u32>,
    pivot: u32,
    right: Option<u32>,
    sibs: Seq<u16>,
)
    requires
        sibs.len() == 2,
    ensures
        ({
            let plan = merge_plan(n, left, pivot, right);
            let s = planned_sibs(n, left, pivot, right, sibs);
            &&& s.len() == 2
            &&& left is None || plan is Left || plan is Both || plan is Share ==> s[0] == sibs[0]
            &&& right is None || plan is Right || plan is Both || plan is Share ==> s[1] == sibs[1]
            &&& left is Some && (plan is Keep || plan is Right) ==> s[0] == sib_hysteresis(
                n,
                left->0 + pivot,
            )
            &&& right is Some && (plan is Keep || plan is Left) ==> s[1] == sib_hysteresis(
                n,
                pivot + right->0,
            )
        }),
{
}

/// Only a node that is empty, or whose estimate for a side is within a third of it or what the volume
/// says, is tried to be merged; the node at an end of the key space has no sibling there.
pub proof fn law_when_to_merge(node: BtreeNode, set: Option<u16>)
    ensures
        ({
            let limit = match set {
                Some(t) => t as int,
                None => node.node_size as int / 24,
            };
            &&& wants_merge(node, set) <==> node.keys().len() == 0 || node.sib_u64s@[0] <= limit
                || node.sib_u64s@[1] <= limit
            &&& merge_limit(node, set) == limit
        }),
        open_sibs(node).len() == 2,
        node.min_key == Bpos::lowest() ==> open_sibs(node)[0] == 0xFFFF,
        node.min_key != Bpos::lowest() ==> open_sibs(node)[0] == node.sib_u64s@[0],
        node.max_key == Bpos::highest() ==> open_sibs(node)[1] == 0xFFFF,
        node.max_key != Bpos::highest() ==> open_sibs(node)[1] == node.sib_u64s@[1],
{
    assert(node.node_size as int / 8 / 3 == node.node_size as int / 24);
}

/// A sibling comes in question where there is one and the estimate for its side is low enough; it does
/// with its live words.
pub proof fn law_siblings_in_question(
    m: Map<u64, BtreeNode>,
    s: Seq<EntryView>,
    i: int,
    set: Option<u16>,
)
    requires
        0 <= i < s.len(),
    ensures
        ({
            let node = m[kid(s, i)];
            let limit = match set {
                Some(t) => t as int,
                None => node.node_size as int / 24,
            };
            let left = i > 0 && node.min_key != Bpos::lowest() && node.sib_u64s@[0] <= limit;
            let right = i < s.len() - 1 && node.max_key != Bpos::highest() && node.sib_u64s@[1]
                <= limit;
            &&& limit < 0xFFFF && left ==> plan_left(m, s, i, set) == Some(
                m[kid(s, i - 1)].live_u64s,
            )
            &&& limit < 0xFFFF && !left ==> plan_left(m, s, i, set) is None
            &&& limit < 0xFFFF && right ==> plan_right(m, s, i, set) == Some(
                m[kid(s, i + 1)].live_u64s,
            )
            &&& limit < 0xFFFF && !right ==> plan_right(m, s, i, set) is None
        }),
{
    law_when_to_merge(m[kid(s, i)], set);
}

proof fn lemma_low_high(m: Map<u64, BtreeNode>, s: Seq<EntryView>, a: int, b: int, j: int)
    requires
        a <= j < b,
    ensures
        low_key(m, s, a, b).ord() <= m[kid(s, j)].min_key.ord(),
        m[kid(s, j)].max_key.ord() <= high_key(m, s, a, b).ord(),
    decreases b - a,
{
    if a < j {
        lemma_low_high(m, s, a + 1, b, j);
    }
}

/// Merging loses no key: the node that children were merged into has the keys of all of them, one after
/// the other, with bounds that take in those of each, and the others are gone.
pub proof fn law_merged_node_has_all_keys(
    m: Map<u64, BtreeNode>,
    s: Seq<EntryView>,
    m2: Map<u64, BtreeNode>,
    s2: Seq<EntryView>,
    a: int,
    b: int,
    j: int,
    x: int,
)
    requires
        0 <= a <= j < b <= s.len(),
        joined_run(m, s, m2, s2, a, b),
        0 <= x < m[kid(s, j)].keys().len(),
    ensures
        ({
            let n = m2[kid(s, b - 1)];
            let e = m[kid(s, j)].keys()[x];
            &&& n.keys().contains(e)
            &&& n.min_key.ord() <= m[kid(s, j)].min_key.ord()
            &&& m[kid(s, j)].max_key.ord() <= n.max_key.ord()
            &&& n.dead_u64s == 0
        }),
        j < b - 1 && kid(s, j) != kid(s, b - 1) ==> !m2.contains_key(kid(s, j)),
        s2.len() == s.len() - (b - a) + 1,
        child(s2[a]) == kid(s, b - 1),
{
    let n = m2[kid(s, b - 1)];
    let e = m[kid(s, j)].keys()[x];
    lemma_cat_split(m, s, a, j, b);
    lemma_cat_split(m, s, j, j + 1, b);
    lemma_cat_one(m, s, j);
    let p = kids_cat(m, s, a, j).len() as int;
    assert(n.keys()[p + x] == e);
    lemma_low_high(m, s, a, b, j);
    assert(is_kid(s, a, b, kid(s, j)));
}

/// A node that a merge changed awaits its write; all others are as they were.
pub proof fn law_merged_nodes_await_their_write(
    m: Map<u64, BtreeNode>,
    s: Seq<EntryView>,
    m2: Map<u64, BtreeNode>,
    s2: Seq<EntryView>,
    i: int,
    plan: MergePlan,
    c: NodeCache,
    a: u64,
)
    requires
        plan_done(m, s, m2, s2, i, plan),
        survivors_marked(s, i, plan, c),
        m2.contains_key(a),
        !c.dirty_addrs().contains(a),
    ensures
        m.contains_key(a),
        m2[a] == m[a],
{
    match plan {
        MergePlan::Keep => {},
        MergePlan::Left => {
            assert(others_kept(m, m2, s, i - 1, i + 1, set![kid(s, i)]));
        },
        MergePlan::Right => {
            assert(others_kept(m, m2, s, i, i + 2, set![kid(s, i + 1)]));
        },
        MergePlan::Both => {
            assert(others_kept(m, m2, s, i - 1, i + 2, set![kid(s, i + 1)]));
        },
        MergePlan::Share => {
            let mid = choose|mid: int| #[trigger] shared_run(m, s, m2, s2, i - 1, mid);
            assert(others_kept(m, m2, s, i - 1, i + 2, set![kid(s, i - 1), kid(s, i + 1)]));
        },
    }
}

/// A merged node is led to from where its first part began, or from its own lowest key where that is
/// further up and in front of all its keys. The first node of all is led to from where it began.
pub proof fn law_route_of_merged_node(s: Seq<EntryView>, a: int, b: int, n: BtreeNode)
    requires
        0 <= a < b <= s.len(),
    ensures
        a == 0 ==> route_pos(s, a, b, n) == s[a].pos,
        s[a].pos.ord() <= route_pos(s, a, b, n).ord(),
        n.keys().len() > 0 && s[a].pos.ord() <= n.keys()[0].pos.ord() ==> route_pos(
            s,
            a,
            b,
            n,
        ).ord() <= n.keys()[0].pos.ord(),
        a > 0 && n.keys().len() > 0 && s[a].pos.ord() <= n.min_key.ord() && n.min_key.ord()
            <= n.keys()[0].pos.ord() ==> route_pos(s, a, b, n) == n.min_key,
{
}

/// How many nodes take part in a merge, and how many are left of them.
pub proof fn law_merge_leaves_fewer_nodes(
    m: Map<u64, BtreeNode>,
    s: Seq<EntryView>,
    m2: Map<u64, BtreeNode>,
    s2: Seq<EntryView>,
    i: int,
    plan: MergePlan,
)
    requires
        plan_done(m, s, m2, s2, i, plan),
        plan is Right || 0 < i,
        0 <= i < s.len(),
        plan is Left || i + 1 < s.len(),
    ensures
        !(plan is Keep),
        plan is Both ==> s2.len() == s.len() - 2,
        !(plan is Both) ==> s2.len() == s.len() - 1,
{
    if plan is Share {
        let mid = choose|mid: int| #[trigger] shared_run(m, s, m2, s2, i - 1, mid);
    }
}

} // verus!
