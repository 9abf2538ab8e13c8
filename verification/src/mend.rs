//! Trees with inner nodes that lead nowhere, and their repair.
//!
//! A node above the leaves that has lost its last child holds no key and leads to none. The repair
//! gives it an empty leaf of its own, so that every way down the tree ends at a leaf again.

use crate::entries::{find, lemma_put};
use crate::key::{lemma_ord, BchVal, Bpos, BtreeKey, EntryView, KeyType};
use crate::node::BtreeNode;
use crate::node_cache::NodeCache;
use crate::shape::{
    at, child, child_hi, child_lo, get, kid, kid_has, kid_ok, kids_apart, kids_wf, lemma_frame,
    lemma_route, lemma_route_range, lemma_unfold, lemma_within, lemma_within_level, node_ok, reach,
    route, sub_wf, top, within,
};
use crate::split::{changes_marked, lemma_marked, marks_kept};
use crate::tree::Btree;
use crate::writer::{
    fails_with, new_written, on_disk, takes_room, writes_kept, BtreeNodeWriter, StorageError,
};
use vstd::prelude::*;

verus! {

/// What holds of a node that covers `lo..hi`, apart from the nodes below it, where it may be
/// without children.
pub open spec fn holed_node(node: BtreeNode, level: nat, lo: int, hi: int) -> bool {
    &&& node.wf()
    &&& node.level == level
    &&& 0 <= lo < hi <= top()
    &&& forall|i: int|
        0 <= i < node.keys().len() ==> lo <= (#[trigger] node.keys()[i]).pos.ord() < hi
    &&& level > 0 ==> {
        &&& node.keys().len() > 0 ==> node.keys()[0].pos.ord() == lo
        &&& forall|i: int|
            0 <= i < node.keys().len() ==> (#[trigger] node.keys()[i]).value is Extent
    }
}

/// `node` is the top of a subtree of `level` that covers `lo..hi`, in which nodes above the leaves
/// may be without children.
pub open spec fn holed(
    m: Map<u64, BtreeNode>,
    node: BtreeNode,
    level: nat,
    lo: int,
    hi: int,
) -> bool
    decreases level,
{
    &&& holed_node(node, level, lo, hi)
    &&& level > 0 ==> {
        &&& forall|i: int|
            0 <= i < node.keys().len() ==> {
                &&& m.contains_key(#[trigger] kid(node.keys(), i))
                &&& holed(
                    m,
                    m[kid(node.keys(), i)],
                    (level - 1) as nat,
                    child_lo(node.keys(), i, lo),
                    child_hi(node.keys(), i, hi),
                )
            }
        &&& kids_apart(m, node.keys(), (level - 1) as nat)
    }
}

/// Entry `i` of the routing entries `s` leads to a subtree of `level` with its part of `lo..hi`.
pub open spec fn holed_kid(
    m: Map<u64, BtreeNode>,
    s: Seq<EntryView>,
    level: nat,
    lo: int,
    hi: int,
    i: int,
) -> bool {
    &&& m.contains_key(child(s[i]))
    &&& holed(m, m[child(s[i])], level, child_lo(s, i, lo), child_hi(s, i, hi))
}

/// The entry at rank `k` that the descent from `node` comes upon, if it ends at a leaf.
pub open spec fn held(m: Map<u64, BtreeNode>, node: BtreeNode, level: nat, k: int) -> Option<
    EntryView,
>
    decreases level,
{
    if level == 0 {
        find(node.keys(), k)
    } else if node.keys().len() == 0 {
        None
    } else {
        held(m, m[child(node.keys()[route(node.keys(), k)])], (level - 1) as nat, k)
    }
}

/// Every routing entry of `s` leads to a subtree.
pub open spec fn holed_kids(
    m: Map<u64, BtreeNode>,
    s: Seq<EntryView>,
    level: nat,
    lo: int,
    hi: int,
) -> bool {
    forall|i: int| 0 <= i < s.len() ==> #[trigger] holed_kid(m, s, level, lo, hi, i)
}

pub(crate) proof fn lemma_holed(
    m: Map<u64, BtreeNode>,
    node: BtreeNode,
    level: nat,
    lo: int,
    hi: int,
)
    requires
        level > 0,
    ensures
        holed(m, node, level, lo, hi) == {
            &&& holed_node(node, level, lo, hi)
            &&& holed_kids(m, node.keys(), (level - 1) as nat, lo, hi)
            &&& kids_apart(m, node.keys(), (level - 1) as nat)
        },
{
    let s = node.keys();
    let l = (level - 1) as nat;
    if holed(m, node, level, lo, hi) {
        assert forall|i: int| 0 <= i < s.len() implies #[trigger] holed_kid(m, s, l, lo, hi, i) by {
            assert(m.contains_key(kid(s, i)));
        }
    }
    if holed_node(node, level, lo, hi) && holed_kids(m, s, l, lo, hi) && kids_apart(m, s, l) {
        assert forall|i: int| 0 <= i < s.len() implies {
            &&& m.contains_key(#[trigger] kid(s, i))
            &&& holed(m, m[kid(s, i)], l, child_lo(s, i, lo), child_hi(s, i, hi))
        } by {
            assert(holed_kid(m, s, l, lo, hi, i));
        }
    }
}

/// A tree without such nodes is a tree in which there may be some.
pub proof fn lemma_sound_is_holed(
    m: Map<u64, BtreeNode>,
    node: BtreeNode,
    level: nat,
    lo: int,
    hi: int,
)
    requires
        sub_wf(m, node, level, lo, hi),
    ensures
        holed(m, node, level, lo, hi),
        forall|k: int| #[trigger] held(m, node, level, k) == get(m, node, level, k),
    decreases level,
{
    if level > 0 {
        let s = node.keys();
        let l = (level - 1) as nat;
        lemma_unfold(m, node, level, lo, hi);
        assert forall|i: int| 0 <= i < s.len() implies {
            &&& #[trigger] holed_kid(m, s, l, lo, hi, i)
            &&& forall|k: int| #[trigger]
                held(m, m[child(s[i])], l, k) == get(m, m[child(s[i])], l, k)
        } by {
            assert(kid_ok(m, s, l, lo, hi, i));
            lemma_sound_is_holed(m, m[child(s[i])], l, child_lo(s, i, lo), child_hi(s, i, hi));
        }
        lemma_holed(m, node, level, lo, hi);
        assert forall|k: int| #[trigger] held(m, node, level, k) == get(m, node, level, k) by {
            lemma_route(s, k);
            let c = child(s[route(s, k)]);
            assert(holed_kid(m, s, l, lo, hi, route(s, k)));
            assert(held(m, m[c], l, k) == get(m, m[c], l, k));
        }
    }
}

/// Nodes below a node are in the map, on a lower level.
pub(crate) proof fn lemma_holed_level(
    m: Map<u64, BtreeNode>,
    node: BtreeNode,
    level: nat,
    lo: int,
    hi: int,
    a: u64,
)
    requires
        holed(m, node, level, lo, hi),
        within(m, node, level, a),
    ensures
        m.contains_key(a),
        m[a].level < level,
    decreases level,
{
    let s = node.keys();
    let l = (level - 1) as nat;
    let i = choose|i: int|
        0 <= i < s.len() && (a == child(#[trigger] s[i]) || within(m, m[child(s[i])], l, a));
    lemma_holed(m, node, level, lo, hi);
    assert(holed_kid(m, s, l, lo, hi, i));
    let c = child(s[i]);
    if a != c {
        lemma_holed_level(m, m[c], l, child_lo(s, i, lo), child_hi(s, i, hi), a);
    }
}

/// A subtree is the same in every map that agrees on the nodes below its top.
proof fn lemma_holed_frame(
    m: Map<u64, BtreeNode>,
    m2: Map<u64, BtreeNode>,
    node: BtreeNode,
    level: nat,
    lo: int,
    hi: int,
)
    requires
        holed(m, node, level, lo, hi),
        forall|a: u64| #[trigger]
            within(m, node, level, a) ==> m2.contains_key(a) && m2[a] == m[a],
    ensures
        holed(m2, node, level, lo, hi),
        forall|k: int| #[trigger] held(m2, node, level, k) == held(m, node, level, k),
        forall|a: u64| #[trigger] within(m2, node, level, a) == within(m, node, level, a),
    decreases level,
{
    if level > 0 {
        let s = node.keys();
        let l = (level - 1) as nat;
        lemma_holed(m, node, level, lo, hi);
        assert forall|i: int| 0 <= i < s.len() implies {
            &&& #[trigger] holed_kid(m2, s, l, lo, hi, i)
            &&& m2[child(s[i])] == m[child(s[i])]
            &&& forall|k: int| #[trigger]
                held(m2, m[child(s[i])], l, k) == held(m, m[child(s[i])], l, k)
            &&& forall|a: u64| #[trigger]
                within(m2, m[child(s[i])], l, a) == within(m, m[child(s[i])], l, a)
        } by {
            let c = child(s[i]);
            assert(holed_kid(m, s, l, lo, hi, i));
            assert(within(m, node, level, c)) by {
                assert(c == child(s[i]));
            }
            assert forall|a: u64| #[trigger] within(m, m[c], l, a) implies m2.contains_key(a)
                && m2[a] == m[a] by {
                assert(within(m, node, level, a)) by {
                    assert(within(m, m[child(s[i])], l, a));
                }
            }
            lemma_holed_frame(m, m2, m[c], l, child_lo(s, i, lo), child_hi(s, i, hi));
        }
        assert forall|k: int| #[trigger] held(m2, node, level, k) == held(m, node, level, k) by {
            if s.len() > 0 {
                lemma_route(s, k);
                let c = child(s[route(s, k)]);
                assert(holed_kid(m2, s, l, lo, hi, route(s, k)));
                assert(held(m2, m[c], l, k) == held(m, m[c], l, k));
            }
        }
        assert forall|i: int, a: u64| 0 <= i < s.len() implies #[trigger] reach(
            m2,
            child(s[i]),
            l,
            a,
        ) == reach(m, child(s[i]), l, a) by {
            assert(holed_kid(m2, s, l, lo, hi, i));
            assert(within(m2, m[child(s[i])], l, a) == within(m, m[child(s[i])], l, a));
        }
        assert forall|a: u64| #[trigger] within(m2, node, level, a) == within(
            m,
            node,
            level,
            a,
        ) by {
            lemma_within(m, node, level, a);
            lemma_within(m2, node, level, a);
            if kid_has(m, s, l, a) {
                let i = choose|i: int| 0 <= i < s.len() && reach(m, child(#[trigger] s[i]), l, a);
                assert(reach(m2, child(s[i]), l, a));
            }
            if kid_has(m2, s, l, a) {
                let i = choose|i: int| 0 <= i < s.len() && reach(m2, child(#[trigger] s[i]), l, a);
                assert(reach(m, child(s[i]), l, a));
            }
        }
        assert(kids_apart(m2, s, l)) by {
            assert forall|i: int, j: int, a: u64|
                #![trigger reach(m2, child(s[i]), l, a), reach(m2, child(s[j]), l, a)]
                0 <= i < j < s.len() implies !(reach(m2, child(s[i]), l, a) && reach(
                m2,
                child(s[j]),
                l,
                a,
            )) by {
                assert(reach(m2, child(s[i]), l, a) == reach(m, child(s[i]), l, a));
                assert(reach(m2, child(s[j]), l, a) == reach(m, child(s[j]), l, a));
            }
        }
        lemma_holed(m2, node, level, lo, hi);
    }
}

/// One of several subtrees was changed, and made of nodes of its own and of new ones; the others
/// stay what they were.
proof fn lemma_holed_kid_changed(
    m: Map<u64, BtreeNode>,
    m2: Map<u64, BtreeNode>,
    s: Seq<EntryView>,
    level: nat,
    lo: int,
    hi: int,
    i: int,
)
    requires
        holed_kids(m, s, level, lo, hi),
        kids_apart(m, s, level),
        0 <= i < s.len(),
        forall|a: u64| #[trigger]
            m.contains_key(a) && !reach(m, child(s[i]), level, a) ==> m2.contains_key(a) && m2[a]
                == m[a],
        m2.contains_key(child(s[i])),
        holed(m2, m2[child(s[i])], level, child_lo(s, i, lo), child_hi(s, i, hi)),
        forall|a: u64| #[trigger]
            reach(m2, child(s[i]), level, a) ==> reach(m, child(s[i]), level, a)
                || !m.contains_key(a),
        forall|k: int| #[trigger]
            held(m2, m2[child(s[i])], level, k) == held(m, m[child(s[i])], level, k),
    ensures
        holed_kids(m2, s, level, lo, hi),
        kids_apart(m2, s, level),
        forall|a: u64| #[trigger]
            kid_has(m2, s, level, a) ==> kid_has(m, s, level, a) || !m.contains_key(a),
        forall|j: int, k: int|
            0 <= j < s.len() ==> #[trigger] held(m2, m2[child(s[j])], level, k) == held(
                m,
                m[child(s[j])],
                level,
                k,
            ),
        forall|j: int|
            0 <= j < s.len() && j != i && #[trigger] kid_ok(m, s, level, lo, hi, j) ==> kid_ok(
                m2,
                s,
                level,
                lo,
                hi,
                j,
            ),
        forall|j: int, a: u64|
            0 <= j < s.len() && j != i ==> #[trigger] reach(m2, child(s[j]), level, a) == reach(
                m,
                child(s[j]),
                level,
                a,
            ),
{
    let c = child(s[i]);
    assert(holed_kid(m, s, level, lo, hi, i));
    assert forall|j: int| 0 <= j < s.len() && j != i implies {
        &&& #[trigger] holed_kid(m2, s, level, lo, hi, j)
        &&& m2[child(s[j])] == m[child(s[j])]
        &&& kid_ok(m, s, level, lo, hi, j) ==> kid_ok(m2, s, level, lo, hi, j)
        &&& forall|k: int| #[trigger]
            held(m2, m[child(s[j])], level, k) == held(m, m[child(s[j])], level, k)
        &&& forall|a: u64| #[trigger]
            reach(m2, child(s[j]), level, a) == reach(m, child(s[j]), level, a)
    } by {
        let d = child(s[j]);
        assert(holed_kid(m, s, level, lo, hi, j));
        assert forall|a: u64| reach(m, d, level, a) implies m.contains_key(a) && !reach(
            m,
            c,
            level,
            a,
        ) by {
            if a != d {
                lemma_holed_level(m, m[d], level, child_lo(s, j, lo), child_hi(s, j, hi), a);
            }
            assert(reach(m, child(s[j]), level, a));
            if reach(m, c, level, a) {
                assert(reach(m, child(s[i]), level, a));
            }
        }
        assert(reach(m, d, level, d));
        assert forall|a: u64| #[trigger] within(m, m[d], level, a) implies m2.contains_key(a)
            && m2[a] == m[a] by {
            assert(reach(m, d, level, a));
            assert(m.contains_key(a) && !reach(m, child(s[i]), level, a));
        }
        lemma_holed_frame(m, m2, m[d], level, child_lo(s, j, lo), child_hi(s, j, hi));
        if kid_ok(m, s, level, lo, hi, j) {
            lemma_frame(m, m2, m[d], level, child_lo(s, j, lo), child_hi(s, j, hi));
        }
        assert forall|a: u64| #[trigger] reach(m2, d, level, a) == reach(m, d, level, a) by {
            assert(within(m2, m[d], level, a) == within(m, m[d], level, a));
        }
    }
    assert(holed_kid(m2, s, level, lo, hi, i));
    assert forall|j: int|
        0 <= j < s.len() && j != i && #[trigger] kid_ok(m, s, level, lo, hi, j) implies kid_ok(
        m2,
        s,
        level,
        lo,
        hi,
        j,
    ) by {
        assert(holed_kid(m2, s, level, lo, hi, j));
    }
    assert forall|j: int, a: u64| 0 <= j < s.len() && j != i implies #[trigger] reach(
        m2,
        child(s[j]),
        level,
        a,
    ) == reach(m, child(s[j]), level, a) by {
        assert(holed_kid(m2, s, level, lo, hi, j));
    }
    assert forall|j: int, k: int| 0 <= j < s.len() implies #[trigger] held(
        m2,
        m2[child(s[j])],
        level,
        k,
    ) == held(m, m[child(s[j])], level, k) by {
        if j != i {
            assert(holed_kid(m2, s, level, lo, hi, j));
        }
    }
    assert forall|x: int, y: int, a: u64|
        #![trigger reach(m2, child(s[x]), level, a), reach(m2, child(s[y]), level, a)]
        0 <= x < y < s.len() implies !(reach(m2, child(s[x]), level, a) && reach(
        m2,
        child(s[y]),
        level,
        a,
    )) by {
        assert(holed_kid(m2, s, level, lo, hi, x) && holed_kid(m2, s, level, lo, hi, y));
        if reach(m2, child(s[x]), level, a) && reach(m2, child(s[y]), level, a) {
            let j = if x == i { y } else { x };
            if x != i {
                assert(reach(m, child(s[x]), level, a));
            }
            if y != i {
                assert(reach(m, child(s[y]), level, a));
            }
            assert(holed_kid(m, s, level, lo, hi, j));
            if a != child(s[j]) {
                lemma_holed_level(
                    m,
                    m[child(s[j])],
                    level,
                    child_lo(s, j, lo),
                    child_hi(s, j, hi),
                    a,
                );
            }
            if x == i || y == i {
                assert(reach(m, child(s[i]), level, a));
            }
            assert(reach(m, child(s[x]), level, a) && reach(m, child(s[y]), level, a));
        }
    }
    assert forall|a: u64| #[trigger] kid_has(m2, s, level, a) implies kid_has(m, s, level, a)
        || !m.contains_key(a) by {
        let j = choose|j: int| 0 <= j < s.len() && reach(m2, child(#[trigger] s[j]), level, a);
        if j != i {
            assert(holed_kid(m2, s, level, lo, hi, j));
            assert(reach(m, child(s[j]), level, a));
        } else if m.contains_key(a) {
            assert(reach(m, child(s[i]), level, a));
        }
    }
}

/// A subtree all of whose children are whole is whole itself.
proof fn lemma_whole(m: Map<u64, BtreeNode>, node: BtreeNode, level: nat, lo: int, hi: int)
    requires
        level > 0,
        holed_node(node, level, lo, hi),
        node.keys().len() > 0,
        kids_apart(m, node.keys(), (level - 1) as nat),
        forall|i: int|
            0 <= i < node.keys().len() ==> #[trigger] kid_ok(
                m,
                node.keys(),
                (level - 1) as nat,
                lo,
                hi,
                i,
            ),
    ensures
        sub_wf(m, node, level, lo, hi),
{
    lemma_unfold(m, node, level, lo, hi);
    assert(node_ok(node, level, lo, hi));
    assert(kids_wf(m, node.keys(), (level - 1) as nat, lo, hi));
}

/// The writer knows of every address in the map.
pub open spec fn all_known<W: BtreeNodeWriter>(m: Map<u64, BtreeNode>, w: W) -> bool {
    forall|a: u64| #[trigger] m.contains_key(a) ==> w.in_use().contains(a)
}

/// What a repair does to the nodes: none is lost, new ones are at addresses that were free and were
/// written as they are, and those that changed await a write.
pub open spec fn mended<W: BtreeNodeWriter>(c: NodeCache, d: NodeCache, o: W, n: W) -> bool {
    &&& writes_kept(o, n)
    &&& marks_kept(c, d)
    &&& changes_marked(c@, d)
    &&& all_known(d@, n)
    &&& new_written(c@, d@, n)
    &&& forall|a: u64| #[trigger] c@.contains_key(a) ==> d@.contains_key(a)
    &&& forall|a: u64| #[trigger]
        d@.contains_key(a) && !c@.contains_key(a) ==> !o.in_use().contains(a)
}

/// One repair after another, where the second leaves alone what the first has made.
proof fn lemma_mended_twice<W: BtreeNodeWriter>(
    c: NodeCache,
    d: NodeCache,
    e: NodeCache,
    o: W,
    p: W,
    n: W,
)
    requires
        mended(c, d, o, p),
        mended(d, e, p, n),
        forall|a: u64| #[trigger] d@.contains_key(a) && !c@.contains_key(a) ==> e@[a] == d@[a],
    ensures
        mended(c, e, o, n),
{
    assert forall|a: u64| #[trigger]
        c@.contains_key(a) && e@.contains_key(a) && e@[a] != c@[a] implies e.dirty_addrs().contains(
        a,
    ) by {
        assert(d@.contains_key(a));
        if d@[a] != c@[a] {
            assert(d.dirty_addrs().contains(a));
        }
    }
    assert forall|a: u64| #[trigger] e@.contains_key(a) && !c@.contains_key(a) implies on_disk(
        n,
        a,
        e@[a],
    ) && !o.in_use().contains(a) by {
        if d@.contains_key(a) {
            assert(on_disk(p, a, d@[a]));
            assert(p.in_use().contains(a));
        } else {
            assert(!p.in_use().contains(a));
        }
    }
}

/// A repair below a node that is taken out for it and put back, seen from outside.
proof fn lemma_mended_around<W: BtreeNodeWriter>(
    c: NodeCache,
    t: NodeCache,
    d: NodeCache,
    e: NodeCache,
    o: W,
    n: W,
    addr: u64,
)
    requires
        c@.contains_key(addr),
        all_known(c@, o),
        t@ == c@.remove(addr),
        t.dirty_addrs() == c.dirty_addrs(),
        mended(t, d, o, n),
        e@.contains_key(addr),
        e@ == d@.insert(addr, e@[addr]),
        marks_kept(d, e),
        e@[addr] != c@[addr] ==> e.dirty_addrs().contains(addr),
    ensures
        mended(c, e, o, n),
        !d@.contains_key(addr),
{
    assert(!t@.contains_key(addr));
    assert forall|a: u64| #[trigger]
        c@.contains_key(a) && e@.contains_key(a) && e@[a] != c@[a] implies e.dirty_addrs().contains(
        a,
    ) by {
        if a != addr {
            assert(t@.contains_key(a) && d@.contains_key(a));
            assert(d.dirty_addrs().contains(a));
        }
    }
    assert forall|a: u64| #[trigger] c.dirty_addrs().contains(a) implies e.dirty_addrs().contains(
        a,
    ) by {
        assert(t.dirty_addrs().contains(a));
        assert(d.dirty_addrs().contains(a));
    }
    assert forall|a: u64| #[trigger] e@.contains_key(a) && !c@.contains_key(a) implies on_disk(
        n,
        a,
        e@[a],
    ) && !o.in_use().contains(a) by {
        assert(d@.contains_key(a) && !t@.contains_key(a));
    }
    assert forall|a: u64| #[trigger] c@.contains_key(a) implies e@.contains_key(a) by {
        if a != addr {
            assert(t@.contains_key(a));
        }
    }
    assert forall|a: u64| #[trigger] e@.contains_key(a) implies n.in_use().contains(a) by {
        if a == addr {
            assert(c@.contains_key(a));
        }
    }
}

/// A node with nothing but the way to `c`, from `lo` on.
proof fn lemma_one_route(m: Map<u64, BtreeNode>, node: BtreeNode, level: nat, lo: int, hi: int)
    requires
        level > 0,
        node.wf(),
        node.level == level,
        0 <= lo < hi <= top(),
        node.keys().len() == 1,
        node.keys()[0].pos.ord() == lo,
        node.keys()[0].value is Extent,
        m.contains_key(child(node.keys()[0])),
        sub_wf(m, m[child(node.keys()[0])], (level - 1) as nat, lo, hi),
    ensures
        sub_wf(m, node, level, lo, hi),
        forall|k: int| #[trigger]
            get(m, node, level, k) == get(m, m[child(node.keys()[0])], (level - 1) as nat, k),
        forall|a: u64| #[trigger]
            within(m, node, level, a) ==> reach(m, child(node.keys()[0]), (level - 1) as nat, a),
{
    let s = node.keys();
    let l = (level - 1) as nat;
    lemma_unfold(m, node, level, lo, hi);
    assert(kids_wf(m, s, l, lo, hi)) by {
        assert(kid_ok(m, s, l, lo, hi, 0));
    }
    assert(node_ok(node, level, lo, hi));
    assert forall|a: u64| #[trigger] within(m, node, level, a) implies reach(
        m,
        child(s[0]),
        l,
        a,
    ) by {
        lemma_within(m, node, level, a);
    }
}

/// The nodes that the repair of what is below `node` takes.
pub open spec fn lacking(m: Map<u64, BtreeNode>, node: BtreeNode, level: nat) -> nat
    decreases level, 0nat,
{
    if level == 0 {
        0
    } else if node.keys().len() == 0 {
        level
    } else {
        lacking_kids(m, node.keys(), (level - 1) as nat, node.keys().len())
    }
}

/// The nodes that the repair of what is below the first `n` children takes.
pub open spec fn lacking_kids(
    m: Map<u64, BtreeNode>,
    s: Seq<EntryView>,
    level: nat,
    n: nat,
) -> nat
    decreases level, n + 1,
{
    if n == 0 {
        0
    } else {
        lacking_kids(m, s, level, (n - 1) as nat) + lacking(m, m[child(s[n - 1])], level)
    }
}

proof fn lemma_lacking_part(m: Map<u64, BtreeNode>, s: Seq<EntryView>, level: nat, i: nat, n: nat)
    requires
        i <= n,
    ensures
        lacking_kids(m, s, level, i) <= lacking_kids(m, s, level, n),
    decreases n,
{
    if i < n {
        lemma_lacking_part(m, s, level, i, (n - 1) as nat);
    }
}

/// What the repair takes depends on the nodes below alone.
proof fn lemma_lacking_frame(
    m: Map<u64, BtreeNode>,
    m2: Map<u64, BtreeNode>,
    node: BtreeNode,
    level: nat,
)
    requires
        forall|a: u64| #[trigger] within(m, node, level, a) ==> m2[a] == m[a],
    ensures
        lacking(m2, node, level) == lacking(m, node, level),
    decreases level, 0nat,
{
    if level > 0 {
        let s = node.keys();
        let l = (level - 1) as nat;
        assert forall|a: u64| #[trigger] kid_has(m, s, l, a) implies m2[a] == m[a] by {
            lemma_within(m, node, level, a);
        }
        lemma_lacking_kids_frame(m, m2, s, l, s.len());
    }
}

proof fn lemma_lacking_kids_frame(
    m: Map<u64, BtreeNode>,
    m2: Map<u64, BtreeNode>,
    s: Seq<EntryView>,
    level: nat,
    n: nat,
)
    requires
        n <= s.len(),
        forall|a: u64| #[trigger] kid_has(m, s, level, a) ==> m2[a] == m[a],
    ensures
        lacking_kids(m2, s, level, n) == lacking_kids(m, s, level, n),
    decreases level, n + 1,
{
    if n > 0 {
        let c = child(s[n - 1]);
        lemma_lacking_kids_frame(m, m2, s, level, (n - 1) as nat);
        assert(reach(m, child(s[n - 1]), level, c));
        assert(kid_has(m, s, level, c));
        assert forall|a: u64| #[trigger] within(m, m[c], level, a) implies m2[a] == m[a] by {
            assert(reach(m, child(s[n - 1]), level, a));
            assert(kid_has(m, s, level, a));
        }
        lemma_lacking_frame(m, m2, m[c], level);
    }
}

/// Leads an empty node of level 1 or above to `c`.
fn lead_to(node: &mut BtreeNode, lo: &Bpos, c: u64)
    requires
        old(node).wf(),
        old(node).keys().len() == 0,
    ensures
        final(node).wf(),
        final(node).level == old(node).level,
        final(node).node_size == old(node).node_size,
        final(node).keys().len() == 1,
        final(node).keys()[0].pos == *lo,
        final(node).keys()[0].value is Extent,
        child(final(node).keys()[0]) == c,
{
    let ghost s = node.keys();
    let key: BtreeKey = BtreeKey::from_bpos(*lo, KeyType::Normal);
    let value: BchVal = BchVal::new(c, 0);
    node.compact();
    let done: bool = node.insert(key, value);
    proof {
        let e = crate::key::extent_entry(key, value);
        assert(s =~= Seq::<EntryView>::empty());
        lemma_put(s, e, 0);
        assert(node.keys() =~= seq![e]);
    }
}

/// Makes a subtree of `level` without any key, of new nodes that are written at once.
fn empty_subtree<W: BtreeNodeWriter>(
    cache: &mut NodeCache,
    w: &mut W,
    level: u8,
    node_size: u32,
    lo: &Bpos,
    Ghost(hi): Ghost<int>,
) -> (r: Result<u64, StorageError>)
    requires
        crate::node::MIN_NODE_SIZE <= node_size <= crate::node::MAX_NODE_SIZE,
        lo.ord() < hi <= top(),
        all_known(old(cache)@, *old(w)),
    ensures
        mended(*old(cache), *final(cache), *old(w), *final(w)),
        fails_with(*old(w), *final(w), r),
        takes_room(*old(w), *final(w), r, level + 1),
        final(cache).dirty_addrs() == old(cache).dirty_addrs(),
        forall|a: u64| #[trigger]
            old(cache)@.contains_key(a) ==> final(cache)@[a] == old(cache)@[a],
        r matches Ok(c) ==> {
            &&& final(cache)@.contains_key(c)
            &&& sub_wf(final(cache)@, final(cache)@[c], level as nat, lo.ord(), hi)
            &&& forall|k: int|
                (#[trigger] get(final(cache)@, final(cache)@[c], level as nat, k)) is None
            &&& forall|a: u64| #[trigger]
                reach(final(cache)@, c, level as nat, a) ==> !old(w).in_use().contains(a)
        },
    decreases level,
{
    let ghost m0 = cache@;
    let ghost c0 = *cache;
    let ghost w0 = *w;
    let mut node: BtreeNode = BtreeNode::new(level);
    node.node_size = node_size;
    assert(node.keys() =~= Seq::<EntryView>::empty());
    proof {
        lemma_ord(*lo, *lo);
    }
    if level > 0 {
        let c: u64 = match empty_subtree(cache, w, level - 1, node_size, lo, Ghost(hi)) {
            Err(e) => {
                return Err(e);
            },
            Ok(c) => c,
        };
        lead_to(&mut node, lo, c);
    }
    let ghost c1 = *cache;
    let ghost m1 = cache@;
    let ghost w1 = *w;
    match w.write_btree_node(&node) {
        Err(e) => {
            proof {
                if level == 0 {
                    assert(mended(c0, *cache, w0, *w));
                }
            }
            Err(e)
        },
        Ok(addr) => {
            let ghost n = node;
            cache.insert(addr, node);
            proof {
                let m2 = cache@;
                assert(!m1.contains_key(addr));
                if level > 0 {
                    let l = (level - 1) as nat;
                    let c = child(n.keys()[0]);
                    assert(c != addr);
                    assert forall|a: u64| #[trigger] within(m1, m1[c], l, a) implies
                        m2.contains_key(a) && m2[a] == m1[a] by {
                        lemma_within_level(m1, m1[c], l, lo.ord(), hi, a);
                    }
                    lemma_frame(m1, m2, m1[c], l, lo.ord(), hi);
                    lemma_one_route(m2, n, level as nat, lo.ord(), hi);
                    assert forall|a: u64| #[trigger] reach(m2, addr, level as nat, a) implies
                        !w0.in_use().contains(a) by {
                        if a != addr {
                            assert(within(m2, n, level as nat, a));
                            assert(reach(m2, c, l, a));
                            assert(within(m2, m1[c], l, a) == within(m1, m1[c], l, a));
                            assert(reach(m1, c, l, a));
                        }
                    }
                } else {
                    assert forall|k: int| #[trigger] get(m2, n, 0, k) is None by {
                        if find(n.keys(), k) is Some {
                            let i = crate::entries::lemma_find_some(n.keys(), k);
                        }
                    }
                }
                assert(new_written(m0, m2, *w)) by {
                    assert forall|a: u64| #[trigger]
                        m2.contains_key(a) && !m0.contains_key(a) implies on_disk(*w, a, m2[a]) by {
                        if a != addr {
                            assert(on_disk(w1, a, m1[a]));
                            assert(w1.in_use().contains(a));
                        }
                    }
                }
                assert(mended(c0, *cache, w0, *w));
            }
            Ok(addr)
        },
    }
}

/// What was repaired below a child that is taken out of the map for it, seen from the map with the
/// child back in.
proof fn lemma_kid_back(
    m: Map<u64, BtreeNode>,
    m1: Map<u64, BtreeNode>,
    c: u64,
    k1: BtreeNode,
    l: nat,
    lo: int,
    hi: int,
    used: Set<u64>,
)
    requires
        m.contains_key(c),
        forall|a: u64| #[trigger] m.contains_key(a) ==> used.contains(a),
        !m1.contains_key(c),
        holed(m, m[c], l, lo, hi),
        holed(m1, k1, l, lo, hi),
        forall|k: int| #[trigger] held(m1, k1, l, k) == held(m.remove(c), m[c], l, k),
        forall|a: u64| #[trigger]
            m.remove(c).contains_key(a) && !within(m.remove(c), m[c], l, a) ==> m1.contains_key(a)
                && m1[a] == m[a],
        forall|a: u64| #[trigger]
            within(m1, k1, l, a) ==> within(m.remove(c), m[c], l, a) || !used.contains(a),
    ensures
        ({
            let m2 = m1.insert(c, k1);
            &&& holed(m2, k1, l, lo, hi)
            &&& sub_wf(m1, k1, l, lo, hi) ==> sub_wf(m2, k1, l, lo, hi)
            &&& forall|k: int| #[trigger] held(m2, k1, l, k) == held(m, m[c], l, k)
            &&& forall|a: u64| #[trigger]
                m.contains_key(a) && !reach(m, c, l, a) ==> m2.contains_key(a) && m2[a] == m[a]
            &&& forall|a: u64| #[trigger]
                reach(m2, c, l, a) ==> reach(m, c, l, a) || !used.contains(a)
        }),
{
    let mr = m.remove(c);
    let m2 = m1.insert(c, k1);
    assert forall|a: u64| #[trigger] within(m, m[c], l, a) implies mr.contains_key(a) && mr[a]
        == m[a] by {
        lemma_holed_level(m, m[c], l, lo, hi, a);
    }
    lemma_holed_frame(m, mr, m[c], l, lo, hi);
    assert forall|a: u64| #[trigger] within(m1, k1, l, a) implies m2.contains_key(a) && m2[a]
        == m1[a] by {
        lemma_holed_level(m1, k1, l, lo, hi, a);
    }
    lemma_holed_frame(m1, m2, k1, l, lo, hi);
    if sub_wf(m1, k1, l, lo, hi) {
        lemma_frame(m1, m2, k1, l, lo, hi);
    }
    assert forall|a: u64| #[trigger] m.contains_key(a) && !reach(m, c, l, a) implies
        m2.contains_key(a) && m2[a] == m[a] by {
        assert(a != c && !within(m, m[c], l, a));
        assert(within(mr, m[c], l, a) == within(m, m[c], l, a));
        assert(mr.contains_key(a));
    }
    assert forall|a: u64| #[trigger] reach(m2, c, l, a) implies reach(m, c, l, a)
        || !used.contains(a) by {
        if a != c {
            assert(within(m2, k1, l, a));
            assert(within(m1, k1, l, a));
            assert(within(mr, m[c], l, a) == within(m, m[c], l, a));
        }
    }
}

/// Repairs what is below a node, and the node; whether the node itself was without children.
#[verifier::spinoff_prover]
#[verifier::rlimit(60)]
fn mend_node<W: BtreeNodeWriter>(
    cache: &mut NodeCache,
    w: &mut W,
    node: &mut BtreeNode,
    level: u8,
    lo: &Bpos,
    Ghost(hi): Ghost<int>,
) -> (r: Result<bool, StorageError>)
    requires
        holed(old(cache)@, *old(node), level as nat, lo.ord(), hi),
        all_known(old(cache)@, *old(w)),
    ensures
        mended(*old(cache), *final(cache), *old(w), *final(w)),
        fails_with(*old(w), *final(w), r),
        takes_room(
            *old(w),
            *final(w),
            r,
            lacking(old(cache)@, *old(node), level as nat) as int,
        ),
        holed(final(cache)@, *final(node), level as nat, lo.ord(), hi),
        forall|k: int| #[trigger]
            held(final(cache)@, *final(node), level as nat, k) == held(
                old(cache)@,
                *old(node),
                level as nat,
                k,
            ),
        forall|a: u64| #[trigger]
            old(cache)@.contains_key(a) && !within(old(cache)@, *old(node), level as nat, a)
                ==> final(cache)@[a] == old(cache)@[a],
        forall|a: u64| #[trigger]
            within(final(cache)@, *final(node), level as nat, a) ==> within(
                old(cache)@,
                *old(node),
                level as nat,
                a,
            ) || !old(w).in_use().contains(a),
        r is Ok ==> sub_wf(final(cache)@, *final(node), level as nat, lo.ord(), hi),
        r != Ok::<bool, StorageError>(true) ==> *final(node) == *old(node),
        sub_wf(old(cache)@, *old(node), level as nat, lo.ord(), hi) ==> {
            &&& r == Ok::<bool, StorageError>(false)
            &&& final(cache)@ == old(cache)@
            &&& final(cache).dirty_addrs() == old(cache).dirty_addrs()
            &&& *final(w) == *old(w)
        },
    decreases level,
{
    let ghost m0 = cache@;
    let ghost c0 = *cache;
    let ghost w0 = *w;
    let ghost s = node.keys();
    let ghost h = level as nat;
    let ghost x = lo.ord();
    if level == 0 {
        return Ok(false);
    }
    let ghost l = (level - 1) as nat;
    proof {
        lemma_holed(m0, *node, h, x, hi);
    }
    if node.entries.len() == 0 {
        let ghost n0 = *node;
        assert(forall|k: int| #[trigger] held(m0, n0, h, k) is None);
        let c: u64 = match empty_subtree(cache, w, level - 1, node.node_size, lo, Ghost(hi)) {
            Err(e) => {
                proof {
                    lemma_holed_frame(m0, cache@, n0, h, x, hi);
                }
                return Err(e);
            },
            Ok(c) => c,
        };
        lead_to(node, lo, c);
        proof {
            lemma_one_route(cache@, *node, h, x, hi);
            lemma_sound_is_holed(cache@, *node, h, x, hi);
        }
        return Ok(true);
    }
    let ghost whole = sub_wf(m0, *node, h, x, hi);
    proof {
        if whole {
            lemma_unfold(m0, *node, h, x, hi);
        }
    }
    let n: usize = node.entries.len();
    let mut i: usize = 0;
    while i < n
        invariant
            n == node.entries.len(),
            n == s.len(),
            i <= n,
            s == node.keys(),
            *node == *old(node),
            h == level,
            h > 0,
            l == h - 1,
            x == lo.ord(),
            w0 == *old(w),
            c0 == *old(cache),
            m0 == c0@,
            holed_node(*node, h, x, hi),
            holed_kids(m0, s, l, x, hi),
            holed_kids(cache@, s, l, x, hi),
            kids_apart(m0, s, l),
            kids_apart(cache@, s, l),
            all_known(m0, w0),
            mended(c0, *cache, w0, *w),
            w.failure() == w0.failure(),
            w0.room() <= w.room() + lacking_kids(m0, s, l, i as nat),
            forall|j: int, a: u64|
                i <= j < n && #[trigger] reach(m0, child(s[j]), l, a) ==> cache@[a] == m0[a],
            forall|a: u64| #[trigger]
                m0.contains_key(a) && !kid_has(m0, s, l, a) ==> cache@[a] == m0[a],
            forall|a: u64| #[trigger]
                kid_has(cache@, s, l, a) ==> kid_has(m0, s, l, a) || !w0.in_use().contains(a),
            forall|j: int, k: int|
                0 <= j < n ==> #[trigger] held(cache@, cache@[child(s[j])], l, k) == held(
                    m0,
                    m0[child(s[j])],
                    l,
                    k,
                ),
            forall|j: int| 0 <= j < i ==> #[trigger] kid_ok(cache@, s, l, x, hi, j),
            forall|j: int, a: u64|
                i <= j < n ==> #[trigger] reach(cache@, child(s[j]), l, a) == reach(
                    m0,
                    child(s[j]),
                    l,
                    a,
                ),
            whole == sub_wf(m0, *node, h, x, hi),
            whole ==> {
                &&& kids_wf(m0, s, l, x, hi)
                &&& cache@ == m0
                &&& cache.dirty_addrs() == c0.dirty_addrs()
                &&& *w == w0
            },
        decreases n - i,
    {
        let ghost ci = *cache;
        let ghost mi = cache@;
        let ghost wi = *w;
        let ghost ii = i as int;
        let addr: u64 = node.entries[i].to_key_value().1.paddr;
        assert(addr == child(s[ii]));
        let clo: Bpos = if i == 0 {
            *lo
        } else {
            node.entries[i].pos
        };
        let ghost a_lo = child_lo(s, ii, x);
        let ghost a_hi = child_hi(s, ii, hi);
        assert(clo.ord() == a_lo);
        assert(holed_kid(mi, s, l, x, hi, ii));
        let mut k: BtreeNode = match cache.take_node(addr) {
            None => {
                assert(false);
                return Ok(false);
            },
            Some(k) => k,
        };
        let ghost k0 = k;
        let ghost ct = *cache;
        proof {
            assert forall|a: u64| #[trigger] within(mi, k0, l, a) implies cache@.contains_key(a)
                && cache@[a] == mi[a] by {
                lemma_holed_level(mi, k0, l, a_lo, a_hi, a);
            }
            lemma_holed_frame(mi, cache@, k0, l, a_lo, a_hi);
            assert(reach(m0, child(s[ii]), l, addr));
            assert forall|a: u64| #[trigger] within(m0, m0[addr], l, a) implies cache@[a]
                == m0[a] by {
                assert(reach(m0, child(s[ii]), l, a));
                assert(reach(mi, child(s[ii]), l, a));
                assert(holed_kid(m0, s, l, x, hi, ii));
                lemma_holed_level(m0, m0[addr], l, a_lo, a_hi, a);
            }
            lemma_lacking_frame(m0, cache@, m0[addr], l);
            lemma_lacking_part(m0, s, l, (i + 1) as nat, n as nat);
            if whole {
                assert(kid_ok(m0, s, l, x, hi, ii));
                lemma_frame(mi, cache@, k0, l, a_lo, a_hi);
            }
        }
        let res: Result<bool, StorageError> = mend_node(
            cache,
            w,
            &mut k,
            level - 1,
            &clo,
            Ghost(a_hi),
        );
        let ghost cd = *cache;
        let ghost k1 = k;
        match res {
            Ok(true) => {
                cache.insert_dirty(addr, k);
                proof {
                    lemma_marked(cd.dirty_addrs(), cache.dirty_addrs(), addr);
                }
            },
            _ => {
                cache.put_node(addr, k);
            },
        }
        proof {
            let m2 = cache@;
            lemma_mended_around(ci, ct, cd, *cache, wi, *w, addr);
            assert(ct@ == mi.remove(addr));
            lemma_kid_back(mi, cd@, addr, k1, l, a_lo, a_hi, wi.in_use());
            assert(m2 == cd@.insert(addr, k1));
            lemma_holed_kid_changed(mi, m2, s, l, x, hi, ii);
            // what earlier steps have made is not below this child
            assert forall|a: u64| #[trigger] mi.contains_key(a) && !m0.contains_key(a) implies m2[a]
                == mi[a] by {
                if reach(mi, child(s[ii]), l, a) {
                    assert(reach(m0, child(s[ii]), l, a));
                    assert(holed_kid(m0, s, l, x, hi, ii));
                    if a != addr {
                        lemma_holed_level(m0, m0[addr], l, a_lo, a_hi, a);
                    }
                }
            }
            lemma_mended_twice(c0, ci, *cache, w0, wi, *w);
            assert forall|j: int, a: u64|
                i < j < n && #[trigger] reach(m0, child(s[j]), l, a) implies m2[a] == m0[a] by {
                assert(holed_kid(m0, s, l, x, hi, j));
                if a != child(s[j]) {
                    lemma_holed_level(
                        m0,
                        m0[child(s[j])],
                        l,
                        child_lo(s, j, x),
                        child_hi(s, j, hi),
                        a,
                    );
                }
                assert(mi.contains_key(a));
                if reach(mi, child(s[ii]), l, a) {
                    assert(reach(m0, child(s[ii]), l, a));
                }
            }
            assert forall|a: u64| #[trigger]
                m0.contains_key(a) && !kid_has(m0, s, l, a) implies m2[a] == m0[a] by {
                assert(mi.contains_key(a));
                if reach(mi, child(s[ii]), l, a) {
                    assert(reach(m0, child(s[ii]), l, a));
                }
            }
            assert forall|a: u64| #[trigger] kid_has(m2, s, l, a) implies kid_has(m0, s, l, a)
                || !w0.in_use().contains(a) by {
                if !kid_has(mi, s, l, a) {
                    let j = choose|j: int|
                        0 <= j < s.len() && reach(m2, child(#[trigger] s[j]), l, a);
                    assert(j == ii);
                    assert(!wi.in_use().contains(a));
                }
            }
            assert forall|j: int, q: int| 0 <= j < n implies #[trigger] held(
                m2,
                m2[child(s[j])],
                l,
                q,
            ) == held(m0, m0[child(s[j])], l, q) by {
                assert(held(mi, mi[child(s[j])], l, q) == held(m0, m0[child(s[j])], l, q));
            }
            if res is Ok {
                assert(kid_ok(m2, s, l, x, hi, ii));
                assert forall|j: int| 0 <= j < i + 1 implies #[trigger] kid_ok(
                    m2,
                    s,
                    l,
                    x,
                    hi,
                    j,
                ) by {
                    if j < i {
                        assert(kid_ok(mi, s, l, x, hi, j));
                    }
                }
            }
            if whole {
                assert(m2 =~= m0);
            }
        }
        if let Err(e) = res {
            proof {
                lemma_mend_ends(m0, cache@, *node, h, x, hi, w0.in_use());
            }
            return Err(e);
        }
        i += 1;
    }
    proof {
        lemma_mend_ends(m0, cache@, *node, h, x, hi, w0.in_use());
        lemma_whole(cache@, *node, h, x, hi);
    }
    Ok(false)
}

/// What holds of the children holds of the node.
proof fn lemma_mend_ends(
    m: Map<u64, BtreeNode>,
    m2: Map<u64, BtreeNode>,
    node: BtreeNode,
    level: nat,
    lo: int,
    hi: int,
    used: Set<u64>,
)
    requires
        level > 0,
        holed_node(node, level, lo, hi),
        node.keys().len() > 0,
        holed_kids(m2, node.keys(), (level - 1) as nat, lo, hi),
        kids_apart(m2, node.keys(), (level - 1) as nat),
        forall|j: int, k: int|
            0 <= j < node.keys().len() ==> #[trigger] held(
                m2,
                m2[child(node.keys()[j])],
                (level - 1) as nat,
                k,
            ) == held(m, m[child(node.keys()[j])], (level - 1) as nat, k),
        forall|a: u64| #[trigger]
            m.contains_key(a) && !kid_has(m, node.keys(), (level - 1) as nat, a) ==> m2[a] == m[a],
        forall|a: u64| #[trigger]
            kid_has(m2, node.keys(), (level - 1) as nat, a) ==> kid_has(
                m,
                node.keys(),
                (level - 1) as nat,
                a,
            ) || !used.contains(a),
    ensures
        holed(m2, node, level, lo, hi),
        forall|k: int| #[trigger] held(m2, node, level, k) == held(m, node, level, k),
        forall|a: u64| #[trigger]
            m.contains_key(a) && !within(m, node, level, a) ==> m2[a] == m[a],
        forall|a: u64| #[trigger]
            within(m2, node, level, a) ==> within(m, node, level, a) || !used.contains(a),
{
    let s = node.keys();
    let l = (level - 1) as nat;
    lemma_holed(m2, node, level, lo, hi);
    assert forall|k: int| #[trigger] held(m2, node, level, k) == held(m, node, level, k) by {
        lemma_route(s, k);
        let j = route(s, k);
        assert(held(m2, m2[child(s[j])], l, k) == held(m, m[child(s[j])], l, k));
    }
    assert forall|a: u64| #[trigger] m.contains_key(a) && !within(m, node, level, a) implies m2[a]
        == m[a] by {
        lemma_within(m, node, level, a);
    }
    assert forall|a: u64| #[trigger] within(m2, node, level, a) implies within(m, node, level, a)
        || !used.contains(a) by {
        lemma_within(m, node, level, a);
        lemma_within(m2, node, level, a);
    }
}

/// The address of the leaf that the way from `node` to rank `k` ends at, if it ends at one.
pub open spec fn leads(m: Map<u64, BtreeNode>, node: BtreeNode, level: nat, k: int) -> Option<u64>
    decreases level,
{
    let c = child(node.keys()[route(node.keys(), k)]);
    if level == 0 || node.keys().len() == 0 {
        None
    } else if level == 1 {
        Some(c)
    } else {
        leads(m, m[c], (level - 1) as nat, k)
    }
}

/// The addresses of the nodes above the leaves on the way from `node` to rank `k`, from the top, as
/// far as the way goes.
pub open spec fn passed(m: Map<u64, BtreeNode>, node: BtreeNode, level: nat, k: int) -> Seq<u64>
    decreases level,
{
    let c = child(node.keys()[route(node.keys(), k)]);
    if level <= 1 || node.keys().len() == 0 {
        Seq::empty()
    } else {
        seq![c] + passed(m, m[c], (level - 1) as nat, k)
    }
}

impl Btree {
    /// Root and nodes form a tree, in which nodes above the leaves may be without children.
    pub open spec fn holes_ok(self) -> bool {
        holed(self.cache@, self.root.node, self.height(), 0, top())
    }

    /// The entry of the nodes at rank `k`, as far as ways lead to leaves.
    pub open spec fn held_at(self, k: int) -> Option<EntryView> {
        held(self.cache@, self.root.node, self.height(), k)
    }

    /// A tree without such nodes is one in which there may be some.
    pub proof fn lemma_no_holes(self)
        requires
            self.shape_ok(),
        ensures
            self.holes_ok(),
            forall|k: int| #[trigger] self.held_at(k) == self.tree_get(k),
    {
        lemma_sound_is_holed(self.cache@, self.root.node, self.height(), 0, top());
    }

    /// Gives every node above the leaves that is without children an empty leaf of its own. What
    /// the tree holds stays the same, and a tree without such nodes is left alone.
    pub fn bch2_btree_mend<W: BtreeNodeWriter>(&mut self, writer: &mut W) -> (r: Result<
        (),
        StorageError,
    >)
        requires
            old(self).holes_ok(),
            all_known(old(self).cache@, *old(writer)),
        ensures
            fails_with(*old(writer), *final(writer), r),
            takes_room(
                *old(writer),
                *final(writer),
                r,
                lacking(old(self).cache@, old(self).root.node, old(self).height()) as int,
            ),
            mended(old(self).cache, final(self).cache, *old(writer), *final(writer)),
            final(self).same_front(*old(self)),
            final(self).root.depth == old(self).root.depth,
            final(self).pending_root_journal == old(self).pending_root_journal,
            final(self).current_root_disk == old(self).current_root_disk,
            final(self).holes_ok(),
            forall|k: int| #[trigger] final(self).held_at(k) == old(self).held_at(k),
            r is Ok ==> final(self).shape_ok() && forall|k: int| #[trigger]
                final(self).tree_get(k) == old(self).held_at(k),
            final(self).root.node != old(self).root.node ==> final(self).root_modified,
            old(self).root_modified ==> final(self).root_modified,
            old(self).shape_ok() ==> {
                &&& r is Ok
                &&& final(self).root == old(self).root
                &&& final(self).root_modified == old(self).root_modified
                &&& final(self).cache@ == old(self).cache@
                &&& final(self).cache.dirty_addrs() == old(self).cache.dirty_addrs()
                &&& *final(writer) == *old(writer)
            },
    {
        let lo: Bpos = Bpos::lowest();
        let depth: u8 = self.root.depth;
        assert(lo.ord() == 0);
        let r: Result<bool, StorageError> = mend_node(
            &mut self.cache,
            writer,
            &mut self.root.node,
            depth,
            &lo,
            Ghost(top()),
        );
        match r {
            Err(e) => Err(e),
            Ok(filled) => {
                if filled {
                    self.root_modified = true;
                }
                proof {
                    self.lemma_no_holes();
                    assert forall|k: int| #[trigger] self.tree_get(k) == old(self).held_at(k) by {
                        assert(self.held_at(k) == self.tree_get(k));
                    }
                }
                Ok(())
            },
        }
    }

    /// The tree `o` was mended to `mid`, and the node without children that the way to `pos` ended
    /// at, on `level`, was merged with its siblings where that is worth while. A root has none.
    pub open spec fn healed_by<W: BtreeNodeWriter>(
        self,
        o: Btree,
        mid: Btree,
        merged: bool,
        pos: Bpos,
        level: int,
        v: W,
        w: W,
    ) -> bool {
        &&& mid.shape_ok()
        &&& mended(o.cache, mid.cache, v, w)
        &&& forall|k: int| #[trigger] mid.tree_get(k) == o.held_at(k)
        &&& if level < o.root.depth {
            self.merge_tried(mid, pos, level as u8, merged)
        } else {
            self == mid
        }
    }

    /// Walks down to the leaf that `target` belongs to, and notes the nodes passed on the way.
    /// Where the way ends at a node without children the tree is mended, that node is merged with
    /// its siblings where that is worth while, and the way is looked for anew. What the tree holds
    /// stays the same.
    pub fn bch2_btree_path_traverse_mend<W: BtreeNodeWriter>(
        &mut self,
        writer: &mut W,
        target: &BtreeKey,
        path: &mut Vec<u64>,
    ) -> (r: Result<Option<u64>, StorageError>)
        requires
            old(self).holes_ok(),
            all_known(old(self).cache@, *old(writer)),
        ensures
            fails_with(*old(writer), *final(writer), r),
            takes_room(
                *old(writer),
                *final(writer),
                r,
                lacking(old(self).cache@, old(self).root.node, old(self).height()) as int,
            ),
            writes_kept(*old(writer), *final(writer)),
            all_known(final(self).cache@, *final(writer)),
            final(self).same_front(*old(self)),
            final(self).root.depth == old(self).root.depth,
            final(self).holes_ok(),
            forall|k: int|
                0 <= k < top() ==> #[trigger] final(self).held_at(k) == old(self).held_at(k),
            r matches Ok(found) ==> {
                let m = final(self).cache@;
                let root = final(self).root.node;
                let k = target.pos.ord();
                &&& found == leads(m, root, final(self).height(), k)
                &&& found is Some <==> old(self).root.depth > 0
                &&& found is Some ==> final(path)@ == passed(m, root, final(self).height(), k)
            },
            ({
                let found = leads(
                    old(self).cache@,
                    old(self).root.node,
                    old(self).height(),
                    target.pos.ord(),
                );
                &&& old(self).root.depth == 0 || found is Some ==> {
                    &&& r == Ok::<Option<u64>, StorageError>(found)
                    &&& *final(self) == *old(self)
                    &&& *final(writer) == *old(writer)
                }
                &&& old(self).root.depth > 0 && found is None && r is Ok ==> {
                    let way = passed(
                        old(self).cache@,
                        old(self).root.node,
                        old(self).height(),
                        target.pos.ord(),
                    );
                    &&& final(self).shape_ok()
                    &&& exists|mid: Btree, merged: bool| #[trigger]
                        final(self).healed_by(
                            *old(self),
                            mid,
                            merged,
                            target.pos,
                            old(self).root.depth - way.len(),
                            *old(writer),
                            *final(writer),
                        )
                }
            }),
    {
        let found: Option<u64> = self.bch2_btree_path_traverse_one(target, path);
        if found.is_some() || self.root.depth == 0 {
            return Ok(found);
        }
        let depth: u8 = self.root.depth;
        let steps: usize = path.len();
        match self.bch2_btree_mend(writer) {
            Err(e) => {
                return Err(e);
            },
            Ok(_) => {},
        }
        let ghost mid = *self;
        proof {
            lemma_passed_len(
                old(self).cache@,
                old(self).root.node,
                old(self).height(),
                target.pos.ord(),
            );
        }
        let mut merged: bool = false;
        if steps > 0 {
            let level: u8 = depth - steps as u8;
            merged = self.bch2_foreground_maybe_merge(&target.pos, level);
        }
        assert(self.healed_by(
            *old(self),
            mid,
            merged,
            target.pos,
            depth - steps,
            *old(writer),
            *writer,
        ));
        proof {
            self.lemma_no_holes();
            mid.lemma_no_holes();
            assert forall|k: int| 0 <= k < top() implies #[trigger] self.held_at(k)
                == old(self).held_at(k) by {
                assert(self.held_at(k) == self.tree_get(k));
                assert(mid.held_at(k) == mid.tree_get(k));
                assert(self.tree_get(k) == mid.tree_get(k));
            }
        }
        Ok(self.bch2_btree_path_traverse_one(target, path))
    }
}

proof fn lemma_passed_len(m: Map<u64, BtreeNode>, node: BtreeNode, level: nat, k: int)
    requires
        level > 0,
    ensures
        passed(m, node, level, k).len() < level,
    decreases level,
{
    if level > 1 && node.keys().len() > 0 {
        lemma_passed_len(
            m,
            m[child(node.keys()[route(node.keys(), k)])],
            (level - 1) as nat,
            k,
        );
    }
}

/// In a tree without holes every way ends at the leaf that its rank belongs to.
pub proof fn law_sound_ways_lead_to_leaves(t: Btree, pos: Bpos)
    requires
        t.shape_ok(),
        t.root.depth > 0,
    ensures
        leads(t.cache@, t.root.node, t.height(), pos.ord()) == Some(
            at(t.cache@, t.root.node, t.height(), pos.ord(), 0),
        ),
        passed(t.cache@, t.root.node, t.height(), pos.ord()) == t.path_addrs(pos.ord()),
{
    lemma_ord(pos, pos);
    lemma_way(t.cache@, t.root.node, t.height(), 0, top(), pos.ord());
    assert(t.path_addrs(pos.ord()) =~= passed(t.cache@, t.root.node, t.height(), pos.ord()));
}

proof fn lemma_way(m: Map<u64, BtreeNode>, node: BtreeNode, level: nat, lo: int, hi: int, k: int)
    requires
        level > 0,
        sub_wf(m, node, level, lo, hi),
        lo <= k < hi,
    ensures
        leads(m, node, level, k) == Some(at(m, node, level, k, 0)),
        passed(m, node, level, k).len() == level - 1,
        forall|i: int|
            0 <= i < level - 1 ==> #[trigger] passed(m, node, level, k)[i] == at(
                m,
                node,
                level,
                k,
                (level - 1 - i) as nat,
            ),
    decreases level,
{
    let s = node.keys();
    let l = (level - 1) as nat;
    lemma_unfold(m, node, level, lo, hi);
    lemma_route_range(s, lo, hi, k);
    let i = route(s, k);
    let c = child(s[i]);
    assert(kid_ok(m, s, l, lo, hi, i));
    if level > 1 {
        lemma_way(m, m[c], l, child_lo(s, i, lo), child_hi(s, i, hi), k);
        let p = passed(m, node, level, k);
        let q = passed(m, m[c], l, k);
        assert(p =~= seq![c] + q);
        assert forall|j: int| 0 <= j < level - 1 implies #[trigger] p[j] == at(
            m,
            node,
            level,
            k,
            (level - 1 - j) as nat,
        ) by {
            if j > 0 {
                assert(p[j] == q[j - 1]);
            }
        }
    }
}

} // verus!
