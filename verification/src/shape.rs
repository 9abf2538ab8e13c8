//! The shape of a tree of nodes: which nodes hang below which, and where a key is found.
//!
//! A tree is a node together with a map from addresses to nodes. A subtree of some level covers
//! the ranks from `lo` up to, and without, `hi`.

use crate::entries::{find, lemma_find_some, sorted};
use crate::key::{Bpos, EntryView};
use crate::node::BtreeNode;
use vstd::prelude::*;

verus! {

/// One more than the rank of the last position.
pub open spec fn top() -> int {
    Bpos::highest().ord() + 1
}

/// The address that a routing entry points at.
pub open spec fn child(e: EntryView) -> u64 {
    e.bch_val().paddr
}

/// The routing entry for rank `k`: the last one at or before `k`, or else the first.
pub open spec fn route(s: Seq<EntryView>, k: int) -> int
    decreases s.len(),
{
    if s.len() <= 1 {
        0
    } else if s.last().pos.ord() <= k {
        s.len() - 1
    } else {
        route(s.drop_last(), k)
    }
}

/// Index `i` is where rank `k` is routed.
pub open spec fn route_at(s: Seq<EntryView>, k: int, i: int) -> bool {
    &&& 0 <= i < s.len()
    &&& i == 0 || s[i].pos.ord() <= k
    &&& forall|j: int| i < j < s.len() ==> (#[trigger] s[j]).pos.ord() > k
}

pub proof fn lemma_route(s: Seq<EntryView>, k: int)
    requires
        s.len() > 0,
    ensures
        route_at(s, k, route(s, k)),
    decreases s.len(),
{
    if s.len() > 1 && s.last().pos.ord() > k {
        lemma_route(s.drop_last(), k);
        let i = route(s.drop_last(), k);
        assert(s[i] == s.drop_last()[i]);
        assert forall|j: int| i < j < s.len() implies (#[trigger] s[j]).pos.ord() > k by {
            if j < s.len() - 1 {
                assert(s.drop_last()[j] == s[j]);
            }
        }
    }
}

pub proof fn lemma_route_is(s: Seq<EntryView>, k: int, i: int)
    requires
        sorted(s),
        route_at(s, k, i),
    ensures
        route(s, k) == i,
{
    lemma_route(s, k);
    let r = route(s, k);
    if r < i {
        assert(s[i].pos.ord() > k);
    }
    if i < r {
        assert(s[r].pos.ord() > k);
    }
}

/// Lower end of the ranks below entry `i`.
pub open spec fn child_lo(s: Seq<EntryView>, i: int, lo: int) -> int {
    if i == 0 {
        lo
    } else {
        s[i].pos.ord()
    }
}

/// Upper end of the ranks below entry `i`.
pub open spec fn child_hi(s: Seq<EntryView>, i: int, hi: int) -> int {
    if i + 1 < s.len() {
        s[i + 1].pos.ord()
    } else {
        hi
    }
}

/// What holds of a node that covers `lo..hi`, apart from the nodes below it.
pub open spec fn node_ok(node: BtreeNode, level: nat, lo: int, hi: int) -> bool {
    &&& node.wf()
    &&& node.level == level
    &&& 0 <= lo < hi <= top()
    &&& forall|i: int|
        0 <= i < node.keys().len() ==> lo <= (#[trigger] node.keys()[i]).pos.ord() < hi
    &&& level > 0 ==> {
        &&& node.keys().len() > 0
        &&& node.keys()[0].pos.ord() == lo
        &&& forall|i: int|
            0 <= i < node.keys().len() ==> (#[trigger] node.keys()[i]).value is Extent
    }
}

/// The address below entry `i`.
pub open spec fn kid(s: Seq<EntryView>, i: int) -> u64 {
    child(s[i])
}

/// `node` is the top of a subtree of `level` that covers `lo..hi`.
pub open spec fn sub_wf(
    m: Map<u64, BtreeNode>,
    node: BtreeNode,
    level: nat,
    lo: int,
    hi: int,
) -> bool
    decreases level,
{
    &&& node_ok(node, level, lo, hi)
    &&& level > 0 ==> {
        &&& forall|i: int|
            0 <= i < node.keys().len() ==> {
                &&& m.contains_key(#[trigger] kid(node.keys(), i))
                &&& sub_wf(
                    m,
                    m[kid(node.keys(), i)],
                    (level - 1) as nat,
                    child_lo(node.keys(), i, lo),
                    child_hi(node.keys(), i, hi),
                )
            }
        &&& kids_apart(m, node.keys(), (level - 1) as nat)
    }
}

/// Entry `i` of the routing entries `s` leads to a subtree of `level` that covers its part of
/// `lo..hi`.
pub open spec fn kid_ok(
    m: Map<u64, BtreeNode>,
    s: Seq<EntryView>,
    level: nat,
    lo: int,
    hi: int,
    i: int,
) -> bool {
    &&& m.contains_key(child(s[i]))
    &&& sub_wf(m, m[child(s[i])], level, child_lo(s, i, lo), child_hi(s, i, hi))
}

/// The routing entries `s` lead to subtrees of `level` that cover `lo..hi` between them.
pub open spec fn kids_wf(
    m: Map<u64, BtreeNode>,
    s: Seq<EntryView>,
    level: nat,
    lo: int,
    hi: int,
) -> bool {
    forall|i: int| 0 <= i < s.len() ==> #[trigger] kid_ok(m, s, level, lo, hi, i)
}

/// A subtree above the leaves is a node with subtrees below it.
pub proof fn lemma_unfold(m: Map<u64, BtreeNode>, node: BtreeNode, level: nat, lo: int, hi: int)
    requires
        level > 0,
    ensures
        sub_wf(m, node, level, lo, hi) == {
            &&& node_ok(node, level, lo, hi)
            &&& kids_wf(m, node.keys(), (level - 1) as nat, lo, hi)
            &&& kids_apart(m, node.keys(), (level - 1) as nat)
        },
{
    let s = node.keys();
    let l = (level - 1) as nat;
    if sub_wf(m, node, level, lo, hi) {
        assert forall|i: int| 0 <= i < s.len() implies #[trigger] kid_ok(m, s, l, lo, hi, i) by {
            assert(m.contains_key(kid(s, i)));
        }
    }
    if node_ok(node, level, lo, hi) && kids_wf(m, s, l, lo, hi) && kids_apart(m, s, l) {
        assert forall|i: int| 0 <= i < s.len() implies {
            &&& m.contains_key(#[trigger] kid(s, i))
            &&& sub_wf(m, m[kid(s, i)], l, child_lo(s, i, lo), child_hi(s, i, hi))
        } by {
            assert(kid_ok(m, s, l, lo, hi, i));
        }
    }
}

/// Address `a` is that of a node below `node`.
pub open spec fn within(m: Map<u64, BtreeNode>, node: BtreeNode, level: nat, a: u64) -> bool
    decreases level,
{
    level > 0 && exists|i: int|
        0 <= i < node.keys().len() && (a == child(#[trigger] node.keys()[i]) || within(
            m,
            m[child(node.keys()[i])],
            (level - 1) as nat,
            a,
        ))
}

/// Address `a` belongs to the subtree of `level` whose top is at `c`.
pub open spec fn reach(m: Map<u64, BtreeNode>, c: u64, level: nat, a: u64) -> bool {
    a == c || within(m, m[c], level, a)
}

/// No address belongs to two of the subtrees that `s` leads to.
pub open spec fn kids_apart(m: Map<u64, BtreeNode>, s: Seq<EntryView>, level: nat) -> bool {
    forall|i: int, j: int, a: u64|
        #![trigger reach(m, child(s[i]), level, a), reach(m, child(s[j]), level, a)]
        0 <= i < j < s.len() ==> !(reach(m, child(s[i]), level, a) && reach(
            m,
            child(s[j]),
            level,
            a,
        ))
}

/// Address `a` belongs to a subtree that `s` leads to.
pub open spec fn kid_has(m: Map<u64, BtreeNode>, s: Seq<EntryView>, level: nat, a: u64) -> bool {
    exists|i: int| 0 <= i < s.len() && reach(m, child(#[trigger] s[i]), level, a)
}

/// The entry at rank `k` that the descent from `node` comes upon.
pub open spec fn get(
    m: Map<u64, BtreeNode>,
    node: BtreeNode,
    level: nat,
    k: int,
) -> Option<EntryView>
    decreases level,
{
    if level == 0 {
        find(node.keys(), k)
    } else {
        get(m, m[child(node.keys()[route(node.keys(), k)])], (level - 1) as nat, k)
    }
}

pub proof fn lemma_within(m: Map<u64, BtreeNode>, node: BtreeNode, level: nat, a: u64)
    requires
        level > 0,
    ensures
        within(m, node, level, a) <==> kid_has(m, node.keys(), (level - 1) as nat, a),
{
    let s = node.keys();
    let l = (level - 1) as nat;
    if within(m, node, level, a) {
        let i = choose|i: int|
            0 <= i < s.len() && (a == child(#[trigger] s[i]) || within(m, m[child(s[i])], l, a));
        assert(reach(m, child(s[i]), l, a));
    }
    if kid_has(m, s, l, a) {
        let i = choose|i: int| 0 <= i < s.len() && reach(m, child(#[trigger] s[i]), l, a);
        assert(a == child(s[i]) || within(m, m[child(s[i])], l, a));
    }
}

/// Nodes below a node are in the map, on a lower level.
pub proof fn lemma_within_level(
    m: Map<u64, BtreeNode>,
    node: BtreeNode,
    level: nat,
    lo: int,
    hi: int,
    a: u64,
)
    requires
        sub_wf(m, node, level, lo, hi),
        within(m, node, level, a),
    ensures
        m.contains_key(a),
        m[a].level < level,
    decreases level,
{
    let s = node.keys();
    let l = (level - 1) as nat;
    let i = choose|i: int|
        0 <= i < s.len() && (a == child(#[trigger] s[i]) || within(m, m[child(s[i])], l, a));
    lemma_unfold(m, node, level, lo, hi);
    assert(kid_ok(m, s, l, lo, hi, i));
    let c = child(s[i]);
    assert(sub_wf(m, m[c], l, child_lo(s, i, lo), child_hi(s, i, hi)));
    if a != c {
        lemma_within_level(m, m[c], l, child_lo(s, i, lo), child_hi(s, i, hi), a);
    }
}

/// What a descent finds stands at the rank asked for.
pub proof fn lemma_get_pos(m: Map<u64, BtreeNode>, node: BtreeNode, level: nat, k: int)
    ensures
        get(m, node, level, k) is Some ==> get(m, node, level, k)->0.pos.ord() == k,
    decreases level,
{
    if level == 0 {
        if find(node.keys(), k) is Some {
            let i = lemma_find_some(node.keys(), k);
        }
    } else {
        lemma_get_pos(
            m,
            m[child(node.keys()[route(node.keys(), k)])],
            (level - 1) as nat,
            k,
        );
    }
}

/// A subtree is the same in every map that agrees on the nodes below its top.
pub proof fn lemma_frame(
    m: Map<u64, BtreeNode>,
    m2: Map<u64, BtreeNode>,
    node: BtreeNode,
    level: nat,
    lo: int,
    hi: int,
)
    requires
        sub_wf(m, node, level, lo, hi),
        forall|a: u64| #[trigger]
            within(m, node, level, a) ==> m2.contains_key(a) && m2[a] == m[a],
    ensures
        sub_wf(m2, node, level, lo, hi),
        forall|k: int| #[trigger] get(m2, node, level, k) == get(m, node, level, k),
        forall|a: u64| #[trigger] within(m2, node, level, a) == within(m, node, level, a),
    decreases level,
{
    if level > 0 {
        let s = node.keys();
        let l = (level - 1) as nat;
        lemma_unfold(m, node, level, lo, hi);
        assert forall|i: int| 0 <= i < s.len() implies {
            let c = child(#[trigger] s[i]);
            &&& m2.contains_key(c)
            &&& m2[c] == m[c]
            &&& sub_wf(m2, m2[c], l, child_lo(s, i, lo), child_hi(s, i, hi))
            &&& forall|k: int| get(m2, m2[c], l, k) == get(m, m[c], l, k)
            &&& forall|a: u64| #[trigger] within(m2, m2[c], l, a) == within(m, m[c], l, a)
        } by {
            let c = child(s[i]);
            assert(kid_ok(m, s, l, lo, hi, i));
            assert(within(m, node, level, c)) by {
                assert(c == child(s[i]));
            }
            assert forall|a: u64| #[trigger] within(m, m[c], l, a) implies m2.contains_key(a)
                && m2[a] == m[a] by {
                assert(within(m, node, level, a)) by {
                    assert(within(m, m[child(s[i])], l, a));
                }
            }
            lemma_frame(m, m2, m[c], l, child_lo(s, i, lo), child_hi(s, i, hi));
        }
        assert forall|k: int| #[trigger] get(m2, node, level, k) == get(m, node, level, k) by {
            lemma_route(s, k);
            let c = child(s[route(s, k)]);
            assert(get(m2, m2[c], l, k) == get(m, m[c], l, k));
        }
        assert forall|i: int, a: u64| 0 <= i < s.len() implies #[trigger] reach(
            m2,
            child(s[i]),
            l,
            a,
        ) == reach(m, child(s[i]), l, a) by {
            let c = child(s[i]);
            assert(within(m2, m2[c], l, a) == within(m, m[c], l, a));
        }
        assert forall|a: u64| #[trigger] within(m2, node, level, a) == within(
            m,
            node,
            level,
            a,
        ) by {
            lemma_within(m, node, level, a);
            lemma_within(m2, node, level, a);
            if kid_has(m, s, l, a) {
                let i = choose|i: int| 0 <= i < s.len() && reach(m, child(#[trigger] s[i]), l, a);
                assert(reach(m2, child(s[i]), l, a));
            }
            if kid_has(m2, s, l, a) {
                let i = choose|i: int| 0 <= i < s.len() && reach(m2, child(#[trigger] s[i]), l, a);
                assert(reach(m, child(s[i]), l, a));
            }
        }
        assert(kids_wf(m2, s, l, lo, hi)) by {
            assert forall|i: int| 0 <= i < s.len() implies #[trigger] kid_ok(
                m2,
                s,
                l,
                lo,
                hi,
                i,
            ) by {
                assert(m2.contains_key(child(s[i])));
            }
        }
        assert(kids_apart(m2, s, l)) by {
            assert forall|i: int, j: int, a: u64|
                #![trigger reach(m2, child(s[i]), l, a), reach(m2, child(s[j]), l, a)]
                0 <= i < j < s.len() implies !(reach(m2, child(s[i]), l, a) && reach(
                m2,
                child(s[j]),
                l,
                a,
            )) by {
                assert(reach(m2, child(s[i]), l, a) == reach(m, child(s[i]), l, a));
                assert(reach(m2, child(s[j]), l, a) == reach(m, child(s[j]), l, a));
            }
        }
        lemma_unfold(m2, node, level, lo, hi);
    }
}

/// A subtree may be said to reach further up.
pub proof fn lemma_widen(
    m: Map<u64, BtreeNode>,
    node: BtreeNode,
    level: nat,
    lo: int,
    hi: int,
    hi2: int,
)
    requires
        sub_wf(m, node, level, lo, hi),
        hi <= hi2 <= top(),
    ensures
        sub_wf(m, node, level, lo, hi2),
    decreases level,
{
    if level > 0 {
        let s = node.keys();
        let l = (level - 1) as nat;
        lemma_unfold(m, node, level, lo, hi);
        assert forall|i: int| 0 <= i < s.len() implies #[trigger] kid_ok(
            m,
            s,
            l,
            lo,
            hi2,
            i,
        ) by {
            let c = child(s[i]);
            assert(kid_ok(m, s, l, lo, hi, i));
            if i + 1 >= s.len() {
                lemma_widen(m, m[c], l, child_lo(s, i, lo), hi, hi2);
            }
        }
        lemma_unfold(m, node, level, lo, hi2);
    }
}

/// Where the routing entries `s` lead for rank `k`.
pub open spec fn get_kids(
    m: Map<u64, BtreeNode>,
    s: Seq<EntryView>,
    level: nat,
    k: int,
) -> Option<EntryView> {
    get(m, m[child(s[route(s, k)])], level, k)
}

/// `m2` holds every node of `m` outside the subtree at `c` unchanged.
pub open spec fn changed_only(
    m: Map<u64, BtreeNode>,
    m2: Map<u64, BtreeNode>,
    c: u64,
    level: nat,
) -> bool {
    forall|a: u64| #[trigger]
        m.contains_key(a) && !reach(m, c, level, a) ==> m2.contains_key(a) && m2[a] == m[a]
}

/// The subtree at `t` in `m2` is made of nodes of the subtree at `c` in `m` and of new ones.
pub open spec fn built_from(
    m: Map<u64, BtreeNode>,
    c: u64,
    m2: Map<u64, BtreeNode>,
    t: u64,
    level: nat,
) -> bool {
    forall|a: u64| #[trigger]
        reach(m2, t, level, a) ==> reach(m, c, level, a) || !m.contains_key(a)
}

/// A sibling of a changed subtree is as it was.
proof fn lemma_sibling(
    m: Map<u64, BtreeNode>,
    m2: Map<u64, BtreeNode>,
    s: Seq<EntryView>,
    level: nat,
    lo: int,
    hi: int,
    i: int,
    j: int,
)
    requires
        kids_wf(m, s, level, lo, hi),
        kids_apart(m, s, level),
        0 <= i < s.len(),
        0 <= j < s.len(),
        i != j,
        changed_only(m, m2, child(s[i]), level),
    ensures
        m2.contains_key(child(s[j])),
        m2[child(s[j])] == m[child(s[j])],
        sub_wf(m2, m2[child(s[j])], level, child_lo(s, j, lo), child_hi(s, j, hi)),
        forall|k: int|
            #[trigger] get(m2, m2[child(s[j])], level, k) == get(m, m[child(s[j])], level, k),
        forall|a: u64|
            #[trigger] reach(m2, child(s[j]), level, a) == reach(m, child(s[j]), level, a),
        forall|a: u64| #[trigger] reach(m, child(s[j]), level, a) ==> m.contains_key(a),
{
    let c = child(s[i]);
    let d = child(s[j]);
    assert(kid_ok(m, s, level, lo, hi, j));
    assert forall|a: u64| #[trigger] reach(m, d, level, a) implies m.contains_key(a)
        && m2.contains_key(a) && m2[a] == m[a] by {
        if a != d {
            lemma_within_level(m, m[d], level, child_lo(s, j, lo), child_hi(s, j, hi), a);
        }
        assert(!reach(m, c, level, a)) by {
            if i < j {
                assert(!(reach(m, child(s[i]), level, a) && reach(m, child(s[j]), level, a)));
            } else {
                assert(!(reach(m, child(s[j]), level, a) && reach(m, child(s[i]), level, a)));
            }
        }
    }
    assert(reach(m, d, level, d));
    assert forall|a: u64| #[trigger] within(m, m[d], level, a) implies m2.contains_key(a)
        && m2[a] == m[a] by {
        assert(reach(m, d, level, a));
    }
    lemma_frame(m, m2, m[d], level, child_lo(s, j, lo), child_hi(s, j, hi));
}

/// A change inside the subtree below entry `i` leaves the other subtrees alone.
pub proof fn lemma_kid_changed(
    m: Map<u64, BtreeNode>,
    m2: Map<u64, BtreeNode>,
    s: Seq<EntryView>,
    level: nat,
    lo: int,
    hi: int,
    i: int,
)
    requires
        kids_wf(m, s, level, lo, hi),
        kids_apart(m, s, level),
        0 <= i < s.len(),
        changed_only(m, m2, child(s[i]), level),
        m2.contains_key(child(s[i])),
        sub_wf(m2, m2[child(s[i])], level, child_lo(s, i, lo), child_hi(s, i, hi)),
        built_from(m, child(s[i]), m2, child(s[i]), level),
    ensures
        kids_wf(m2, s, level, lo, hi),
        kids_apart(m2, s, level),
        forall|a: u64| #[trigger]
            kid_has(m2, s, level, a) ==> kid_has(m, s, level, a) || !m.contains_key(a),
        forall|k: int| #[trigger]
            get_kids(m2, s, level, k) == if route(s, k) == i {
                get(m2, m2[child(s[i])], level, k)
            } else {
                get_kids(m, s, level, k)
            },
{
    let c = child(s[i]);
    assert forall|j: int| 0 <= j < s.len() && j != i implies {
        let d = child(#[trigger] s[j]);
        &&& m2.contains_key(d)
        &&& m2[d] == m[d]
        &&& sub_wf(m2, m2[d], level, child_lo(s, j, lo), child_hi(s, j, hi))
        &&& forall|k: int| #[trigger] get(m2, m2[d], level, k) == get(m, m[d], level, k)
        &&& forall|a: u64| #[trigger] reach(m2, d, level, a) == reach(m, d, level, a)
        &&& forall|a: u64| #[trigger] reach(m, d, level, a) ==> m.contains_key(a)
    } by {
        lemma_sibling(m, m2, s, level, lo, hi, i, j);
    }
    assert forall|j: int| 0 <= j < s.len() implies #[trigger] kid_ok(
        m2,
        s,
        level,
        lo,
        hi,
        j,
    ) by {
        if j != i {
            assert(m2.contains_key(child(s[j])));
        }
    }
    assert forall|x: int, y: int, a: u64|
        #![trigger reach(m2, child(s[x]), level, a), reach(m2, child(s[y]), level, a)]
        0 <= x < y < s.len() implies !(reach(m2, child(s[x]), level, a) && reach(
        m2,
        child(s[y]),
        level,
        a,
    )) by {
        if reach(m2, child(s[x]), level, a) && reach(m2, child(s[y]), level, a) {
            if x == i {
                assert(reach(m, child(s[y]), level, a));
                assert(m.contains_key(a));
                assert(reach(m, child(s[x]), level, a));
            } else if y == i {
                assert(reach(m, child(s[x]), level, a));
                assert(m.contains_key(a));
                assert(reach(m, child(s[y]), level, a));
            } else {
                assert(reach(m, child(s[x]), level, a));
                assert(reach(m, child(s[y]), level, a));
            }
        }
    }
    assert forall|a: u64| #[trigger] kid_has(m2, s, level, a) implies kid_has(m, s, level, a)
        || !m.contains_key(a) by {
        let j = choose|j: int| 0 <= j < s.len() && reach(m2, child(#[trigger] s[j]), level, a);
        if j != i {
            assert(reach(m, child(s[j]), level, a));
        } else {
            assert(reach(m2, c, level, a));
            if m.contains_key(a) {
                assert(reach(m, child(s[i]), level, a));
            }
        }
    }
    assert forall|k: int| #[trigger] get_kids(m2, s, level, k) == if route(s, k) == i {
        get(m2, m2[child(s[i])], level, k)
    } else {
        get_kids(m, s, level, k)
    } by {
        lemma_route(s, k);
        let j = route(s, k);
        if j != i {
            let d = child(s[j]);
            assert(get(m2, m2[d], level, k) == get(m, m[d], level, k));
        }
    }
}

/// A routing entry put in after entry `i`, short of the next one, keeps the order.
proof fn lemma_split_sorted(s: Seq<EntryView>, i: int, e: EntryView)
    requires
        sorted(s),
        0 <= i < s.len(),
        s[i].pos.ord() < e.pos.ord(),
        i + 1 < s.len() ==> e.pos.ord() < s[i + 1].pos.ord(),
    ensures
        sorted(s.insert(i + 1, e)),
{
    let t = s.insert(i + 1, e);
    assert forall|x: int, y: int| 0 <= x < y < t.len() implies (#[trigger] t[x]).pos.ord() < (
    #[trigger] t[y]).pos.ord() by {
        let a = if x <= i { x } else { x - 1 };
        let b = if y <= i { y } else { y - 1 };
        if x == i + 1 {
            if b > i + 1 {
                assert(s[i + 1].pos.ord() < s[b].pos.ord());
            }
        } else if y == i + 1 {
            if a < i {
                assert(s[a].pos.ord() < s[i].pos.ord());
            }
        } else {
            assert(s[a].pos.ord() < s[b].pos.ord());
        }
    }
}

/// Where a rank is routed once an entry was put in after entry `i`.
proof fn lemma_split_route(s: Seq<EntryView>, i: int, e: EntryView, k: int)
    requires
        sorted(s),
        sorted(s.insert(i + 1, e)),
        0 <= i < s.len(),
    ensures
        route(s.insert(i + 1, e), k) == if route(s, k) < i {
            route(s, k)
        } else if route(s, k) > i {
            route(s, k) + 1
        } else if k < e.pos.ord() {
            i
        } else {
            i + 1
        },
{
    let t = s.insert(i + 1, e);
    lemma_route(s, k);
    let j = route(s, k);
    assert(forall|y: int| 0 <= y < t.len() ==> #[trigger] t[y] == if y <= i {
        s[y]
    } else if y == i + 1 {
        e
    } else {
        s[y - 1]
    });
    assert(t[i].pos.ord() < t[i + 1].pos.ord());
    if j < i {
        assert(s[i].pos.ord() > k);
        lemma_route_is(t, k, j);
    } else if j > i {
        assert(s[i].pos.ord() < s[j].pos.ord());
        lemma_route_is(t, k, j + 1);
    } else if k < e.pos.ord() {
        lemma_route_is(t, k, i);
    } else {
        lemma_route_is(t, k, i + 1);
    }
}

/// The subtrees after a split, one by one.
proof fn lemma_split_kids(
    m2: Map<u64, BtreeNode>,
    s: Seq<EntryView>,
    level: nat,
    lo: int,
    hi: int,
    i: int,
    e: EntryView,
)
    requires
        0 <= i < s.len(),
        forall|j: int| 0 <= j < s.len() && j != i ==> #[trigger] kid_ok(m2, s, level, lo, hi, j),
        m2.contains_key(child(s[i])),
        m2.contains_key(child(e)),
        sub_wf(m2, m2[child(s[i])], level, child_lo(s, i, lo), e.pos.ord()),
        sub_wf(m2, m2[child(e)], level, e.pos.ord(), child_hi(s, i, hi)),
    ensures
        kids_wf(m2, s.insert(i + 1, e), level, lo, hi),
{
    let t = s.insert(i + 1, e);
    assert forall|x: int| 0 <= x < t.len() implies #[trigger] kid_ok(
        m2,
        t,
        level,
        lo,
        hi,
        x,
    ) by {
        if x < i {
            assert(kid_ok(m2, s, level, lo, hi, x));
            assert(t[x] == s[x] && t[x + 1] == s[x + 1]);
        } else if x > i + 1 {
            assert(kid_ok(m2, s, level, lo, hi, x - 1));
            assert(t[x] == s[x - 1]);
            if x + 1 < t.len() {
                assert(t[x + 1] == s[x]);
            }
        } else if x == i {
            assert(t[i] == s[i] && t[i + 1] == e);
        } else {
            assert(t[i + 1] == e);
            if x + 1 < t.len() {
                assert(t[x + 1] == s[x]);
            }
        }
    }
}

/// The subtree below entry `i` has become two: the old one up to the rank of `e`, and one at
/// the address in `e` from there on.
#[verifier::spinoff_prover]
pub proof fn lemma_kid_split(
    m: Map<u64, BtreeNode>,
    m2: Map<u64, BtreeNode>,
    s: Seq<EntryView>,
    level: nat,
    lo: int,
    hi: int,
    i: int,
    e: EntryView,
)
    requires
        sorted(s),
        kids_wf(m, s, level, lo, hi),
        kids_apart(m, s, level),
        0 <= i < s.len(),
        changed_only(m, m2, child(s[i]), level),
        m2.contains_key(child(s[i])),
        m2.contains_key(child(e)),
        sub_wf(m2, m2[child(s[i])], level, child_lo(s, i, lo), e.pos.ord()),
        sub_wf(m2, m2[child(e)], level, e.pos.ord(), child_hi(s, i, hi)),
        built_from(m, child(s[i]), m2, child(s[i]), level),
        built_from(m, child(s[i]), m2, child(e), level),
        forall|a: u64| !(#[trigger] reach(m2, child(s[i]), level, a) && #[trigger] reach(
            m2,
            child(e),
            level,
            a,
        )),
        s[i].pos.ord() < e.pos.ord(),
    ensures
        sorted(s.insert(i + 1, e)),
        kids_wf(m2, s.insert(i + 1, e), level, lo, hi),
        kids_apart(m2, s.insert(i + 1, e), level),
        forall|a: u64| #[trigger]
            kid_has(m2, s.insert(i + 1, e), level, a) ==> kid_has(m, s, level, a)
                || !m.contains_key(a),
        forall|k: int| #[trigger]
            get_kids(m2, s.insert(i + 1, e), level, k) == if route(s, k) != i {
                get_kids(m, s, level, k)
            } else if k < e.pos.ord() {
                get(m2, m2[child(s[i])], level, k)
            } else {
                get(m2, m2[child(e)], level, k)
            },
{
    let t = s.insert(i + 1, e);
    // the node at the new address covers a proper range, so the new entry stands before the next
    assert(e.pos.ord() < child_hi(s, i, hi));
    lemma_split_sorted(s, i, e);
    assert forall|j: int| 0 <= j < s.len() && j != i implies #[trigger] kid_ok(
        m2,
        s,
        level,
        lo,
        hi,
        j,
    ) by {
        lemma_sibling(m, m2, s, level, lo, hi, i, j);
    }
    lemma_split_kids(m2, s, level, lo, hi, i, e);
    assert forall|x: int, a: u64|
        0 <= x < t.len() && #[trigger] reach(m2, child(t[x]), level, a) implies {
        let p = if x <= i {
            x
        } else {
            x - 1
        };
        &&& p == i ==> reach(m, child(s[i]), level, a) || !m.contains_key(a)
        &&& p != i ==> reach(m, child(s[p]), level, a) && m.contains_key(a)
    } by {
        if x != i && x != i + 1 {
            let p = if x <= i { x } else { x - 1 };
            lemma_sibling(m, m2, s, level, lo, hi, i, p);
            assert(t[x] == s[p]);
            assert(reach(m2, child(s[p]), level, a));
            assert(reach(m, child(s[p]), level, a));
        } else if x == i {
            assert(t[x] == s[i]);
        } else {
            assert(t[x] == e);
        }
    }
    assert forall|x: int, y: int, a: u64|
        #![trigger reach(m2, child(t[x]), level, a), reach(m2, child(t[y]), level, a)]
        0 <= x < y < t.len() implies !(reach(m2, child(t[x]), level, a) && reach(
        m2,
        child(t[y]),
        level,
        a,
    )) by {
        if reach(m2, child(t[x]), level, a) && reach(m2, child(t[y]), level, a) {
            let p = if x <= i { x } else { x - 1 };
            let q = if y <= i { y } else { y - 1 };
            if p == i && q == i {
                assert(t[x] == s[i] && t[y] == e);
                assert(reach(m2, child(s[i]), level, a) && reach(m2, child(e), level, a));
            } else {
                assert(reach(m, child(s[p]), level, a) && reach(m, child(s[q]), level, a));
            }
        }
    }
    assert forall|a: u64| #[trigger] kid_has(m2, t, level, a) implies kid_has(m, s, level, a)
        || !m.contains_key(a) by {
        let x = choose|x: int| 0 <= x < t.len() && reach(m2, child(#[trigger] t[x]), level, a);
        let p = if x <= i { x } else { x - 1 };
        if m.contains_key(a) {
            assert(reach(m, child(s[p]), level, a));
        }
    }
    assert forall|k: int| #[trigger] get_kids(m2, t, level, k) == if route(s, k) != i {
        get_kids(m, s, level, k)
    } else if k < e.pos.ord() {
        get(m2, m2[child(s[i])], level, k)
    } else {
        get(m2, m2[child(e)], level, k)
    } by {
        lemma_route(s, k);
        lemma_split_route(s, i, e, k);
        let j = route(s, k);
        if j != i {
            lemma_sibling(m, m2, s, level, lo, hi, i, j);
            assert(get(m2, m2[child(s[j])], level, k) == get(m, m[child(s[j])], level, k));
        }
    }
}

/// A run of routing entries out of `s` leads to what it led to within `s`.
pub proof fn lemma_kids_sub(
    m: Map<u64, BtreeNode>,
    s: Seq<EntryView>,
    level: nat,
    lo: int,
    hi: int,
    x: int,
    y: int,
)
    requires
        kids_wf(m, s, level, lo, hi),
        kids_apart(m, s, level),
        0 <= x < y <= s.len(),
    ensures
        kids_wf(m, s.subrange(x, y), level, child_lo(s, x, lo), child_hi(s, y - 1, hi)),
        kids_apart(m, s.subrange(x, y), level),
        forall|a: u64| #[trigger]
            kid_has(m, s.subrange(x, y), level, a) ==> kid_has(m, s, level, a),
{
    let t = s.subrange(x, y);
    let lo2 = child_lo(s, x, lo);
    let hi2 = child_hi(s, y - 1, hi);
    assert(kids_wf(m, t, level, lo2, hi2)) by {
        assert forall|i: int| 0 <= i < t.len() implies #[trigger] kid_ok(
            m,
            t,
            level,
            lo2,
            hi2,
            i,
        ) by {
            assert(t[i] == s[x + i]);
            assert(kid_ok(m, s, level, lo, hi, x + i));
            assert(child_lo(t, i, lo2) == child_lo(s, x + i, lo));
            assert(child_hi(t, i, hi2) == child_hi(s, x + i, hi));
        }
    }
    assert(kids_apart(m, t, level)) by {
        assert forall|i: int, j: int, a: u64|
            #![trigger reach(m, child(t[i]), level, a), reach(m, child(t[j]), level, a)]
            0 <= i < j < t.len() implies !(reach(m, child(t[i]), level, a) && reach(
            m,
            child(t[j]),
            level,
            a,
        )) by {
            assert(t[i] == s[x + i] && t[j] == s[x + j]);
            assert(!(reach(m, child(s[x + i]), level, a) && reach(m, child(s[x + j]), level, a)));
        }
    }
    assert forall|a: u64| #[trigger] kid_has(m, t, level, a) implies kid_has(m, s, level, a) by {
        let i = choose|i: int| 0 <= i < t.len() && reach(m, child(#[trigger] t[i]), level, a);
        assert(reach(m, child(s[x + i]), level, a));
    }
}

/// Cutting the routing entries in two cuts the covered ranks in two.
pub proof fn lemma_kids_cut(
    m: Map<u64, BtreeNode>,
    s: Seq<EntryView>,
    level: nat,
    lo: int,
    hi: int,
    mid: int,
)
    requires
        kids_wf(m, s, level, lo, hi),
        kids_apart(m, s, level),
        0 < mid < s.len(),
    ensures
        kids_wf(m, s.subrange(0, mid), level, lo, s[mid].pos.ord()),
        kids_wf(m, s.subrange(mid, s.len() as int), level, s[mid].pos.ord(), hi),
        kids_apart(m, s.subrange(0, mid), level),
        kids_apart(m, s.subrange(mid, s.len() as int), level),
        forall|a: u64| !(#[trigger] kid_has(m, s.subrange(0, mid), level, a)
            && #[trigger] kid_has(m, s.subrange(mid, s.len() as int), level, a)),
        forall|a: u64| #[trigger]
            kid_has(m, s.subrange(0, mid), level, a) ==> kid_has(m, s, level, a),
        forall|a: u64| #[trigger]
            kid_has(m, s.subrange(mid, s.len() as int), level, a) ==> kid_has(m, s, level, a),
{
    let x = s.subrange(0, mid);
    let y = s.subrange(mid, s.len() as int);
    lemma_kids_sub(m, s, level, lo, hi, 0, mid);
    lemma_kids_sub(m, s, level, lo, hi, mid, s.len() as int);
    assert forall|a: u64| !(#[trigger] kid_has(m, x, level, a) && #[trigger] kid_has(
        m,
        y,
        level,
        a,
    )) by {
        if kid_has(m, x, level, a) && kid_has(m, y, level, a) {
            let i = choose|i: int| 0 <= i < x.len() && reach(m, child(#[trigger] x[i]), level, a);
            let j = choose|j: int| 0 <= j < y.len() && reach(m, child(#[trigger] y[j]), level, a);
            assert(x[i] == s[i] && y[j] == s[mid + j]);
            assert(!(reach(m, child(s[i]), level, a) && reach(m, child(s[mid + j]), level, a)));
        }
    }
}

/// After a cut each rank is routed as before.
pub proof fn lemma_route_cut(m: Map<u64, BtreeNode>, s: Seq<EntryView>, level: nat, mid: int)
    requires
        sorted(s),
        0 < mid < s.len(),
    ensures
        forall|k: int| k < s[mid].pos.ord() ==> #[trigger] get_kids(m, s.subrange(0, mid), level, k)
            == get_kids(m, s, level, k),
        forall|k: int|
            k >= s[mid].pos.ord() ==> #[trigger] get_kids(
                m,
                s.subrange(mid, s.len() as int),
                level,
                k,
            ) == get_kids(m, s, level, k),
{
    let x = s.subrange(0, mid);
    let y = s.subrange(mid, s.len() as int);
    crate::entries::lemma_sorted_sub(s, 0, mid);
    crate::entries::lemma_sorted_sub(s, mid, s.len() as int);
    assert forall|k: int| k < s[mid].pos.ord() implies #[trigger] get_kids(m, x, level, k)
        == get_kids(m, s, level, k) by {
        lemma_route(x, k);
        let i = route(x, k);
        assert(x[i] == s[i]);
        assert forall|j: int| i < j < s.len() implies (#[trigger] s[j]).pos.ord() > k by {
            if j < mid {
                assert(x[j] == s[j]);
            } else if j > mid {
                assert(s[mid].pos.ord() < s[j].pos.ord());
            }
        }
        lemma_route_is(s, k, i);
    }
    assert forall|k: int| k >= s[mid].pos.ord() implies #[trigger] get_kids(m, y, level, k)
        == get_kids(m, s, level, k) by {
        lemma_route(y, k);
        let i = route(y, k);
        assert(y[i] == s[mid + i]);
        assert forall|j: int| mid + i < j < s.len() implies (#[trigger] s[j]).pos.ord() > k by {
            assert(y[j - mid] == s[j]);
        }
        lemma_route_is(s, k, mid + i);
    }
}

/// Nodes below routing entries are in the map, none above the level of the subtrees.
pub proof fn lemma_kids_level(
    m: Map<u64, BtreeNode>,
    s: Seq<EntryView>,
    level: nat,
    lo: int,
    hi: int,
    a: u64,
)
    requires
        kids_wf(m, s, level, lo, hi),
        kid_has(m, s, level, a),
    ensures
        m.contains_key(a),
        m[a].level <= level,
{
    let i = choose|i: int| 0 <= i < s.len() && reach(m, child(#[trigger] s[i]), level, a);
    assert(kid_ok(m, s, level, lo, hi, i));
    if a != child(s[i]) {
        lemma_within_level(
            m,
            m[child(s[i])],
            level,
            child_lo(s, i, lo),
            child_hi(s, i, hi),
            a,
        );
    }
}

/// Subtrees are the same in every map that agrees on their nodes.
pub proof fn lemma_kids_frame(
    m: Map<u64, BtreeNode>,
    m2: Map<u64, BtreeNode>,
    s: Seq<EntryView>,
    level: nat,
    lo: int,
    hi: int,
)
    requires
        s.len() > 0,
        kids_wf(m, s, level, lo, hi),
        kids_apart(m, s, level),
        forall|a: u64| #[trigger] kid_has(m, s, level, a) ==> m2.contains_key(a) && m2[a] == m[a],
    ensures
        kids_wf(m2, s, level, lo, hi),
        kids_apart(m2, s, level),
        forall|a: u64| #[trigger] kid_has(m2, s, level, a) == kid_has(m, s, level, a),
        forall|k: int| #[trigger] get_kids(m2, s, level, k) == get_kids(m, s, level, k),
{
    assert forall|i: int| 0 <= i < s.len() implies {
        let c = child(#[trigger] s[i]);
        &&& m2.contains_key(c)
        &&& m2[c] == m[c]
        &&& sub_wf(m2, m2[c], level, child_lo(s, i, lo), child_hi(s, i, hi))
        &&& forall|k: int| #[trigger] get(m2, m2[c], level, k) == get(m, m[c], level, k)
        &&& forall|a: u64| #[trigger] reach(m2, c, level, a) == reach(m, c, level, a)
    } by {
        let c = child(s[i]);
        assert(kid_ok(m, s, level, lo, hi, i));
        assert(kid_has(m, s, level, c)) by {
            assert(reach(m, child(s[i]), level, c));
        }
        assert forall|a: u64| #[trigger] within(m, m[c], level, a) implies m2.contains_key(a)
            && m2[a] == m[a] by {
            assert(reach(m, child(s[i]), level, a));
            assert(kid_has(m, s, level, a));
        }
        lemma_frame(m, m2, m[c], level, child_lo(s, i, lo), child_hi(s, i, hi));
    }
    assert forall|i: int| 0 <= i < s.len() implies #[trigger] kid_ok(
        m2,
        s,
        level,
        lo,
        hi,
        i,
    ) by {
        assert(m2.contains_key(child(s[i])));
    }
    assert forall|i: int, j: int, a: u64|
        #![trigger reach(m2, child(s[i]), level, a), reach(m2, child(s[j]), level, a)]
        0 <= i < j < s.len() implies !(reach(m2, child(s[i]), level, a) && reach(
        m2,
        child(s[j]),
        level,
        a,
    )) by {
        assert(m2[child(s[i])] == m[child(s[i])] && m2[child(s[j])] == m[child(s[j])]);
        assert(reach(m2, child(s[i]), level, a) == reach(m, child(s[i]), level, a));
        assert(reach(m2, child(s[j]), level, a) == reach(m, child(s[j]), level, a));
    }
    assert forall|a: u64| #[trigger] kid_has(m2, s, level, a) == kid_has(m, s, level, a) by {
        if kid_has(m, s, level, a) {
            let i = choose|i: int| 0 <= i < s.len() && reach(m, child(#[trigger] s[i]), level, a);
            assert(reach(m2, child(s[i]), level, a));
        }
        if kid_has(m2, s, level, a) {
            let i = choose|i: int| 0 <= i < s.len() && reach(m2, child(#[trigger] s[i]), level, a);
            assert(reach(m, child(s[i]), level, a));
        }
    }
    assert forall|k: int| #[trigger] get_kids(m2, s, level, k) == get_kids(m, s, level, k) by {
        lemma_route(s, k);
        let c = child(s[route(s, k)]);
        assert(get(m2, m2[c], level, k) == get(m, m[c], level, k));
    }
}

/// Nothing is found outside the ranks that a subtree covers.
pub proof fn lemma_get_outside(
    m: Map<u64, BtreeNode>,
    node: BtreeNode,
    level: nat,
    lo: int,
    hi: int,
    k: int,
)
    requires
        sub_wf(m, node, level, lo, hi),
        k < lo || k >= hi,
    ensures
        get(m, node, level, k) is None,
    decreases level,
{
    let s = node.keys();
    if level == 0 {
        if find(s, k) is Some {
            let i = lemma_find_some(s, k);
        }
    } else {
        let l = (level - 1) as nat;
        lemma_unfold(m, node, level, lo, hi);
        lemma_route(s, k);
        let i = route(s, k);
        assert(kid_ok(m, s, l, lo, hi, i));
        if k < lo {
            if i > 0 {
                assert(s[0].pos.ord() < s[i].pos.ord());
            }
        } else {
            if i + 1 < s.len() {
                assert(s[i + 1].pos.ord() < hi);
            }
        }
        lemma_get_outside(m, m[child(s[i])], l, child_lo(s, i, lo), child_hi(s, i, hi), k);
    }
}

/// A rank of the covered range is routed to the entry that covers it.
pub proof fn lemma_route_range(s: Seq<EntryView>, lo: int, hi: int, k: int)
    requires
        sorted(s),
        s.len() > 0,
        s[0].pos.ord() == lo,
        lo <= k < hi,
    ensures
        0 <= route(s, k) < s.len(),
        child_lo(s, route(s, k), lo) <= k < child_hi(s, route(s, k), hi),
{
    lemma_route(s, k);
}

/// The address of the node of level `p` on the way from `node` to rank `k`.
pub open spec fn at(m: Map<u64, BtreeNode>, node: BtreeNode, level: nat, k: int, p: nat) -> u64
    decreases level,
{
    let c = child(node.keys()[route(node.keys(), k)]);
    if level <= p + 1 {
        c
    } else {
        at(m, m[c], (level - 1) as nat, k, p)
    }
}

/// Lower end of the ranks below the node of level `p` on the way to rank `k`.
pub open spec fn at_lo(
    m: Map<u64, BtreeNode>,
    node: BtreeNode,
    level: nat,
    lo: int,
    k: int,
    p: nat,
) -> int
    decreases level,
{
    let s = node.keys();
    let c = child(s[route(s, k)]);
    if level <= p + 1 {
        child_lo(s, route(s, k), lo)
    } else {
        at_lo(m, m[c], (level - 1) as nat, child_lo(s, route(s, k), lo), k, p)
    }
}

/// Upper end of the ranks below the node of level `p` on the way to rank `k`.
pub open spec fn at_hi(
    m: Map<u64, BtreeNode>,
    node: BtreeNode,
    level: nat,
    hi: int,
    k: int,
    p: nat,
) -> int
    decreases level,
{
    let s = node.keys();
    let c = child(s[route(s, k)]);
    if level <= p + 1 {
        child_hi(s, route(s, k), hi)
    } else {
        at_hi(m, m[c], (level - 1) as nat, child_hi(s, route(s, k), hi), k, p)
    }
}

/// The node of level `p` on the way to a rank covers that rank.
pub proof fn lemma_at(
    m: Map<u64, BtreeNode>,
    node: BtreeNode,
    level: nat,
    lo: int,
    hi: int,
    k: int,
    p: nat,
)
    requires
        sub_wf(m, node, level, lo, hi),
        lo <= k < hi,
        p < level,
    ensures
        ({
            let a = at(m, node, level, k, p);
            let plo = at_lo(m, node, level, lo, k, p);
            let phi = at_hi(m, node, level, hi, k, p);
            &&& m.contains_key(a)
            &&& sub_wf(m, m[a], p, plo, phi)
            &&& lo <= plo <= k < phi <= hi
            &&& within(m, node, level, a)
            &&& forall|x: int|
                plo <= x < phi ==> #[trigger] get(m, node, level, x) == get(m, m[a], p, x)
            &&& forall|b: u64| #[trigger] reach(m, a, p, b) ==> within(m, node, level, b)
        }),
    decreases level,
{
    let s = node.keys();
    let l = (level - 1) as nat;
    let i = route(s, k);
    let c = child(s[i]);
    let clo = child_lo(s, i, lo);
    let chi = child_hi(s, i, hi);
    lemma_unfold(m, node, level, lo, hi);
    lemma_route_range(s, lo, hi, k);
    assert(kid_ok(m, s, l, lo, hi, i));
    assert forall|b: u64| reach(m, c, l, b) implies #[trigger] within(m, node, level, b) by {
        lemma_within(m, node, level, b);
        assert(reach(m, child(s[i]), l, b));
    }
    assert(reach(m, c, l, c));
    assert forall|x: int| clo <= x < chi implies #[trigger] get(m, node, level, x) == get(
        m,
        m[c],
        l,
        x,
    ) by {
        assert(route_at(s, x, i)) by {
            assert forall|j: int| i < j < s.len() implies (#[trigger] s[j]).pos.ord() > x by {
                if j > i + 1 {
                    assert(s[i + 1].pos.ord() < s[j].pos.ord());
                }
            }
        }
        lemma_route_is(s, x, i);
    }
    if level > p + 1 {
        lemma_at(m, m[c], l, clo, chi, k, p);
        let a = at(m, m[c], l, k, p);
        assert(reach(m, c, l, a));
        assert forall|b: u64| #[trigger] reach(m, a, p, b) implies within(m, node, level, b) by {
            assert(within(m, m[c], l, b));
            assert(reach(m, c, l, b));
        }
    }
}

/// The subtree of level `p` on the way to rank `k` was changed; seen from above.
pub proof fn lemma_replaced(
    m: Map<u64, BtreeNode>,
    m2: Map<u64, BtreeNode>,
    node: BtreeNode,
    level: nat,
    lo: int,
    hi: int,
    k: int,
    p: nat,
)
    requires
        sub_wf(m, node, level, lo, hi),
        lo <= k < hi,
        p < level,
        ({
            let a = at(m, node, level, k, p);
            &&& changed_only(m, m2, a, p)
            &&& m2.contains_key(a)
            &&& sub_wf(
                m2,
                m2[a],
                p,
                at_lo(m, node, level, lo, k, p),
                at_hi(m, node, level, hi, k, p),
            )
            &&& built_from(m, a, m2, a, p)
        }),
    ensures
        sub_wf(m2, node, level, lo, hi),
        forall|b: u64| #[trigger]
            within(m2, node, level, b) ==> within(m, node, level, b) || !m.contains_key(b),
        ({
            let a = at(m, node, level, k, p);
            let plo = at_lo(m, node, level, lo, k, p);
            let phi = at_hi(m, node, level, hi, k, p);
            forall|x: int|
                lo <= x < hi ==> #[trigger] get(m2, node, level, x) == if plo <= x < phi {
                    get(m2, m2[a], p, x)
                } else {
                    get(m, node, level, x)
                }
        }),
    decreases level,
{
    let s = node.keys();
    let l = (level - 1) as nat;
    let i = route(s, k);
    let c = child(s[i]);
    let clo = child_lo(s, i, lo);
    let chi = child_hi(s, i, hi);
    let a = at(m, node, level, k, p);
    let plo = at_lo(m, node, level, lo, k, p);
    let phi = at_hi(m, node, level, hi, k, p);
    lemma_at(m, node, level, lo, hi, k, p);
    lemma_unfold(m, node, level, lo, hi);
    lemma_route_range(s, lo, hi, k);
    assert(kid_ok(m, s, l, lo, hi, i));
    if level > p + 1 {
        lemma_at(m, m[c], l, clo, chi, k, p);
        lemma_replaced(m, m2, m[c], l, clo, chi, k, p);
        assert(!reach(m, a, p, c)) by {
            if reach(m, a, p, c) {
                if a == c {
                    assert(m[a].level == p);
                } else {
                    lemma_within_level(m, m[a], p, plo, phi, c);
                }
            }
        }
        assert(m.contains_key(c));
        assert(m2[c] == m[c]);
        assert forall|b: u64| #[trigger] m.contains_key(b) && !reach(m, c, l, b) implies
            m2.contains_key(b) && m2[b] == m[b] by {
            if reach(m, a, p, b) {
                assert(within(m, m[c], l, b));
            }
        }
        assert forall|b: u64| #[trigger] reach(m2, c, l, b) implies reach(m, c, l, b)
            || !m.contains_key(b) by {}
    }
    lemma_kid_changed(m, m2, s, l, lo, hi, i);
    lemma_unfold(m2, node, level, lo, hi);
    assert forall|b: u64| #[trigger] within(m2, node, level, b) implies within(m, node, level, b)
        || !m.contains_key(b) by {
        lemma_within(m, node, level, b);
        lemma_within(m2, node, level, b);
        assert(kid_has(m2, s, l, b));
    }
    assert forall|x: int| lo <= x < hi implies #[trigger] get(m2, node, level, x) == if plo <= x
        < phi {
        get(m2, m2[a], p, x)
    } else {
        get(m, node, level, x)
    } by {
        assert(get(m2, node, level, x) == get_kids(m2, s, l, x));
        assert(get(m, node, level, x) == get_kids(m, s, l, x));
        lemma_route_range(s, lo, hi, x);
        if route(s, x) == i {
            assert(clo <= x < chi);
        } else {
            // ranks of other entries lie outside the changed subtree
            if plo <= x < phi {
                assert(clo <= plo && phi <= chi) by {
                    if level > p + 1 {
                        lemma_at(m, m[c], l, clo, chi, k, p);
                    }
                }
                assert(route_at(s, x, i)) by {
                    assert forall|j: int| i < j < s.len() implies (#[trigger] s[j]).pos.ord()
                        > x by {
                        if j > i + 1 {
                            assert(s[i + 1].pos.ord() < s[j].pos.ord());
                        }
                    }
                }
                lemma_route_is(s, x, i);
            }
        }
    }
}

/// The way down to level `p` only depends on the nodes above that level.
pub proof fn lemma_at_frame(
    m: Map<u64, BtreeNode>,
    m2: Map<u64, BtreeNode>,
    node: BtreeNode,
    level: nat,
    lo: int,
    hi: int,
    k: int,
    p: nat,
)
    requires
        sub_wf(m, node, level, lo, hi),
        lo <= k < hi,
        p < level,
        forall|a: u64| #[trigger]
            within(m, node, level, a) && m[a].level > p ==> m2[a].keys() == m[a].keys(),
    ensures
        at(m2, node, level, k, p) == at(m, node, level, k, p),
        at_lo(m2, node, level, lo, k, p) == at_lo(m, node, level, lo, k, p),
        at_hi(m2, node, level, hi, k, p) == at_hi(m, node, level, hi, k, p),
    decreases level,
{
    lemma_at_frame2(m, m2, node, node, level, lo, hi, k, p);
}

proof fn lemma_at_frame2(
    m: Map<u64, BtreeNode>,
    m2: Map<u64, BtreeNode>,
    node: BtreeNode,
    node2: BtreeNode,
    level: nat,
    lo: int,
    hi: int,
    k: int,
    p: nat,
)
    requires
        sub_wf(m, node, level, lo, hi),
        node2.keys() == node.keys(),
        lo <= k < hi,
        p < level,
        forall|a: u64| #[trigger]
            within(m, node, level, a) && m[a].level > p ==> m2[a].keys() == m[a].keys(),
    ensures
        at(m2, node2, level, k, p) == at(m, node, level, k, p),
        at_lo(m2, node2, level, lo, k, p) == at_lo(m, node, level, lo, k, p),
        at_hi(m2, node2, level, hi, k, p) == at_hi(m, node, level, hi, k, p),
    decreases level,
{
    let s = node.keys();
    let l = (level - 1) as nat;
    if level > p + 1 {
        lemma_unfold(m, node, level, lo, hi);
        lemma_route_range(s, lo, hi, k);
        let i = route(s, k);
        let c = child(s[i]);
        assert(kid_ok(m, s, l, lo, hi, i));
        assert(within(m, node, level, c)) by {
            assert(c == child(s[i]));
        }
        assert forall|a: u64| #[trigger]
            within(m, m[c], l, a) && m[a].level > p implies m2[a].keys() == m[a].keys() by {
            assert(within(m, node, level, a)) by {
                assert(within(m, m[child(s[i])], l, a));
            }
        }
        lemma_at_frame2(
            m,
            m2,
            m[c],
            m2[c],
            l,
            child_lo(s, i, lo),
            child_hi(s, i, hi),
            k,
            p,
        );
    }
}

/// A rank is routed to the last key that is not behind it, or to the first key where all are.
pub proof fn law_route(s: Seq<EntryView>, k: int, j: int)
    requires
        sorted(s),
        0 <= j < s.len(),
    ensures
        0 <= route(s, k) < s.len(),
        s[0].pos.ord() <= k ==> s[route(s, k)].pos.ord() <= k,
        j > route(s, k) ==> k < s[j].pos.ord(),
        k < s[0].pos.ord() ==> route(s, k) == 0,
{
    lemma_route(s, k);
    let r = route(s, k);
    if k < s[0].pos.ord() && r > 0 {
        assert(s[0].pos.ord() < s[r].pos.ord());
    }
}

} // verus!
