//! What becomes of the shape of a tree as neighbours are merged.

use crate::entries::{find, lemma_find_some, sorted};
use crate::key::{EntryView, KeyType};
use crate::node::BtreeNode;
use crate::runs::{
    lemma_run_cat, lemma_run_cut, lemma_run_first, lemma_run_frame, lemma_run_level,
    lemma_run_node, lemma_run_splice, run_get, run_has, run_ok, spliced,
};
use crate::shape::{
    child, child_hi, child_lo, get, get_kids, kid, kid_has, kid_ok, kids_wf, lemma_route,
    lemma_route_is, lemma_widen, lemma_within_level, reach, route, sub_wf, within,
};
use vstd::prelude::*;

verus! {

/// A run of one entry.
pub open spec fn one(e: EntryView) -> Seq<EntryView> {
    Seq::empty().push(e)
}

/// A run of two entries.
pub open spec fn pair(e: EntryView, f: EntryView) -> Seq<EntryView> {
    one(e).push(f)
}

/// A run of one routing entry.
pub proof fn lemma_one_kid(m: Map<u64, BtreeNode>, e: EntryView, level: nat, lo: int, hi: int)
    requires
        m.contains_key(child(e)),
        sub_wf(m, m[child(e)], level, lo, hi),
        e.pos.ord() == lo,
        e.value is Extent,
        e.key_type != KeyType::Deleted,
    ensures
        run_ok(m, one(e), level + 1, lo, hi),
        forall|a: u64| #[trigger]
            run_has(m, one(e), level + 1, a) <==> reach(m, child(e), level, a),
        forall|x: int| #[trigger]
            run_get(m, one(e), level + 1, x) == get(m, m[child(e)], level, x),
{
    reveal(run_ok);
    reveal(run_get);
    reveal(run_has);
    let t = one(e);
    assert(t[0] == e);
    lemma_run_node(m, m[child(e)], level, lo, hi);
    assert(kids_wf(m, t, level, lo, hi)) by {
        assert forall|i: int| 0 <= i < t.len() implies #[trigger] kid_ok(
            m,
            t,
            level,
            lo,
            hi,
            i,
        ) by {
            assert(i == 0);
        }
    }
    assert forall|a: u64| #[trigger] run_has(m, t, level + 1, a) <==> reach(
        m,
        child(e),
        level,
        a,
    ) by {
        if reach(m, child(e), level, a) {
            assert(reach(m, child(t[0]), level, a));
        }
    }
    assert forall|x: int| #[trigger] run_get(m, t, level + 1, x) == get(
        m,
        m[child(e)],
        level,
        x,
    ) by {
        lemma_route_is(t, x, 0);
    }
}

/// A child of a run is the top of a subtree.
pub proof fn lemma_run_kid(
    m: Map<u64, BtreeNode>,
    s: Seq<EntryView>,
    level: nat,
    lo: int,
    hi: int,
    j: int,
)
    requires
        run_ok(m, s, level + 1, lo, hi),
        0 <= j < s.len(),
    ensures
        m.contains_key(kid(s, j)),
        m[kid(s, j)].wf(),
        m[kid(s, j)].level == level,
        sub_wf(m, m[kid(s, j)], level, s[j].pos.ord(), child_hi(s, j, hi)),
        run_ok(m, m[kid(s, j)].keys(), level, s[j].pos.ord(), child_hi(s, j, hi)),
        forall|a: u64| #[trigger]
            within(m, m[kid(s, j)], level, a) == run_has(m, m[kid(s, j)].keys(), level, a),
        forall|x: int| #[trigger]
            get(m, m[kid(s, j)], level, x) == run_get(m, m[kid(s, j)].keys(), level, x),
        forall|a: u64| #[trigger]
            reach(m, kid(s, j), level, a) ==> run_has(m, s, level + 1, a) && m.contains_key(a),
        forall|x: int|
            s[j].pos.ord() <= x < child_hi(s, j, hi) ==> #[trigger] run_get(m, s, level + 1, x)
                == get(m, m[kid(s, j)], level, x),
{
    reveal(run_ok);
    reveal(run_get);
    reveal(run_has);
    assert(kid_ok(m, s, level, lo, hi, j));
    lemma_run_node(m, m[kid(s, j)], level, s[j].pos.ord(), child_hi(s, j, hi));
    assert forall|a: u64| #[trigger] reach(m, kid(s, j), level, a) implies run_has(
        m,
        s,
        level + 1,
        a,
    ) && m.contains_key(a) by {
        assert(reach(m, child(s[j]), level, a));
        if a != kid(s, j) {
            lemma_within_level(m, m[kid(s, j)], level, s[j].pos.ord(), child_hi(s, j, hi), a);
        }
    }
    assert forall|x: int| s[j].pos.ord() <= x < child_hi(s, j, hi) implies #[trigger] run_get(
        m,
        s,
        level + 1,
        x,
    ) == get(m, m[kid(s, j)], level, x) by {
        assert forall|i: int| j < i < s.len() implies (#[trigger] s[i]).pos.ord() > x by {
            if i > j + 1 {
                assert(s[j + 1].pos.ord() < s[i].pos.ord());
            }
        }
        lemma_route_is(s, x, j);
    }
}

/// The entries of the children from `a` to before `b`, one after the other.
pub open spec fn kids_cat(
    m: Map<u64, BtreeNode>,
    s: Seq<EntryView>,
    a: int,
    b: int,
) -> Seq<EntryView>
    decreases b - a,
{
    if a >= b {
        Seq::empty()
    } else {
        kids_cat(m, s, a, b - 1) + m[kid(s, b - 1)].keys()
    }
}

/// Address `c` is that of a node below one of the children from `a` to before `b`.
pub open spec fn below_some(
    m: Map<u64, BtreeNode>,
    s: Seq<EntryView>,
    level: nat,
    a: int,
    b: int,
    c: u64,
) -> bool {
    exists|j: int| a <= j < b && within(m, m[#[trigger] kid(s, j)], level, c)
}

/// No address is both that of a child and of a node below a child, or below two children.
proof fn lemma_kids_disjoint(
    m: Map<u64, BtreeNode>,
    s: Seq<EntryView>,
    level: nat,
    lo: int,
    hi: int,
    i: int,
    j: int,
    c: u64,
)
    requires
        run_ok(m, s, level + 1, lo, hi),
        0 <= i < j < s.len(),
    ensures
        !(reach(m, kid(s, i), level, c) && reach(m, kid(s, j), level, c)),
{
    reveal(run_ok);
    assert(!(reach(m, child(s[i]), level, c) && reach(m, child(s[j]), level, c)));
}

/// The joined entries of neighbours are a run for their joined range.
pub proof fn lemma_kids_cat(
    m: Map<u64, BtreeNode>,
    s: Seq<EntryView>,
    level: nat,
    lo: int,
    hi: int,
    a: int,
    b: int,
)
    requires
        run_ok(m, s, level + 1, lo, hi),
        0 <= a < b <= s.len(),
    ensures
        run_ok(m, kids_cat(m, s, a, b), level, s[a].pos.ord(), child_hi(s, b - 1, hi)),
        forall|c: u64| #[trigger]
            run_has(m, kids_cat(m, s, a, b), level, c) ==> below_some(m, s, level, a, b, c),
        forall|x: int|
            s[a].pos.ord() <= x < child_hi(s, b - 1, hi) ==> #[trigger] run_get(
                m,
                kids_cat(m, s, a, b),
                level,
                x,
            ) == run_get(m, s, level + 1, x),
    decreases b - a,
{
    let t = kids_cat(m, s, a, b);
    let k = m[kid(s, b - 1)].keys();
    let l = s[a].pos.ord();
    let h = child_hi(s, b - 1, hi);
    lemma_run_kid(m, s, level, lo, hi, b - 1);
    lemma_run_first(m, s, level + 1, lo, hi);
    if b == a + 1 {
        assert(kids_cat(m, s, a, a) =~= Seq::<EntryView>::empty());
        assert(t =~= k);
        assert forall|c: u64| #[trigger] run_has(m, t, level, c) implies below_some(
            m,
            s,
            level,
            a,
            b,
            c,
        ) by {
            assert(within(m, m[kid(s, b - 1)], level, c));
        }
        assert forall|x: int| l <= x < h implies #[trigger] run_get(m, t, level, x) == run_get(
            m,
            s,
            level + 1,
            x,
        ) by {
            assert(get(m, m[kid(s, b - 1)], level, x) == run_get(m, k, level, x));
        }
    } else {
        let t0 = kids_cat(m, s, a, b - 1);
        let med = s[b - 1].pos.ord();
        lemma_kids_cat(m, s, level, lo, hi, a, b - 1);
        assert(child_hi(s, b - 2, hi) == med);
        assert forall|c: u64| !(#[trigger] run_has(m, t0, level, c) && #[trigger] run_has(
            m,
            k,
            level,
            c,
        )) by {
            if run_has(m, t0, level, c) && run_has(m, k, level, c) {
                let j = choose|j: int|
                    a <= j < b - 1 && within(m, m[#[trigger] kid(s, j)], level, c);
                lemma_kids_disjoint(m, s, level, lo, hi, j, b - 1, c);
                assert(within(m, m[kid(s, b - 1)], level, c));
            }
        }
        lemma_run_cat(m, t0, k, level, l, med, h);
        assert forall|c: u64| #[trigger] run_has(m, t, level, c) implies below_some(
            m,
            s,
            level,
            a,
            b,
            c,
        ) by {
            if run_has(m, t0, level, c) {
                let j = choose|j: int|
                    a <= j < b - 1 && within(m, m[#[trigger] kid(s, j)], level, c);
                assert(within(m, m[kid(s, j)], level, c));
            } else {
                assert(run_has(m, k, level, c));
                assert(within(m, m[kid(s, b - 1)], level, c));
            }
        }
        assert forall|x: int| l <= x < h implies #[trigger] run_get(m, t, level, x) == run_get(
            m,
            s,
            level + 1,
            x,
        ) by {
            if x < med {
                assert(run_get(m, t, level, x) == run_get(m, t0, level, x));
            } else {
                assert(run_get(m, t, level, x) == run_get(m, k, level, x));
                assert(get(m, m[kid(s, b - 1)], level, x) == run_get(m, k, level, x));
            }
        }
    }
}

/// `c` is one of the addresses below the entries from `a` to before `b`.
pub open spec fn is_kid(s: Seq<EntryView>, a: int, b: int, c: u64) -> bool {
    exists|j: int| a <= j < b && #[trigger] kid(s, j) == c
}

/// What lies below the children from `a` to before `b` belongs to that part of the run, and is
/// not one of those children.
proof fn lemma_below_part(
    m: Map<u64, BtreeNode>,
    s: Seq<EntryView>,
    level: nat,
    lo: int,
    hi: int,
    a: int,
    b: int,
)
    requires
        run_ok(m, s, level + 1, lo, hi),
        0 <= a < b <= s.len(),
    ensures
        forall|c: u64| #[trigger]
            below_some(m, s, level, a, b, c) ==> run_has(m, s.subrange(a, b), level + 1, c)
                && m.contains_key(c) && !is_kid(s, a, b, c),
        forall|c: u64| #[trigger]
            is_kid(s, a, b, c) ==> run_has(m, s.subrange(a, b), level + 1, c),
{
    reveal(run_has);
    let p = s.subrange(a, b);
    assert forall|c: u64| #[trigger] below_some(m, s, level, a, b, c) implies run_has(
        m,
        p,
        level + 1,
        c,
    ) && m.contains_key(c) && !is_kid(s, a, b, c) by {
        let j = choose|j: int| a <= j < b && within(m, m[#[trigger] kid(s, j)], level, c);
        lemma_run_kid(m, s, level, lo, hi, j);
        lemma_within_level(m, m[kid(s, j)], level, s[j].pos.ord(), child_hi(s, j, hi), c);
        assert(p[j - a] == s[j]);
        assert(reach(m, child(p[j - a]), level, c));
        assert(kid_has(m, p, level, c));
        if is_kid(s, a, b, c) {
            let i = choose|i: int| a <= i < b && #[trigger] kid(s, i) == c;
            lemma_run_kid(m, s, level, lo, hi, i);
        }
    }
    assert forall|c: u64| #[trigger] is_kid(s, a, b, c) implies run_has(m, p, level + 1, c) by {
        let i = choose|i: int| a <= i < b && #[trigger] kid(s, i) == c;
        assert(p[i - a] == s[i]);
        assert(reach(m, child(p[i - a]), level, c));
    }
}

/// `m2` differs from `m` only at the addresses of the children from `a` to before `b`.
pub open spec fn only_kids(
    m: Map<u64, BtreeNode>,
    m2: Map<u64, BtreeNode>,
    s: Seq<EntryView>,
    a: int,
    b: int,
) -> bool {
    forall|c: u64| #[trigger]
        m.contains_key(c) && !is_kid(s, a, b, c) ==> m2.contains_key(c) && m2[c] == m[c]
}

/// Neighbours merged into one node, at the address of the last of them.
pub proof fn lemma_joined(
    m: Map<u64, BtreeNode>,
    m2: Map<u64, BtreeNode>,
    s: Seq<EntryView>,
    level: nat,
    lo: int,
    hi: int,
    a: int,
    b: int,
    e: EntryView,
)
    requires
        run_ok(m, s, level + 1, lo, hi),
        0 <= a < b <= s.len(),
        only_kids(m, m2, s, a, b),
        is_kid(s, a, b, child(e)),
        e.pos == s[a].pos,
        e.value is Extent,
        e.key_type != KeyType::Deleted,
        m2.contains_key(child(e)),
        m2[child(e)].wf(),
        m2[child(e)].level == level,
        m2[child(e)].keys() == kids_cat(m, s, a, b),
    ensures
        run_ok(m2, spliced(s, a, b, one(e)), level + 1, lo, hi),
        forall|c: u64| #[trigger]
            run_has(m2, spliced(s, a, b, one(e)), level + 1, c) ==> run_has(m, s, level + 1, c),
        forall|x: int|
            lo <= x < hi ==> #[trigger] run_get(m2, spliced(s, a, b, one(e)), level + 1, x)
                == run_get(m, s, level + 1, x),
{
    let t = kids_cat(m, s, a, b);
    let l = s[a].pos.ord();
    let h = child_hi(s, b - 1, hi);
    let addr = child(e);
    let p = s.subrange(a, b);
    lemma_kids_cat(m, s, level, lo, hi, a, b);
    lemma_below_part(m, s, level, lo, hi, a, b);
    assert forall|c: u64| #[trigger] run_has(m, t, level, c) implies m2.contains_key(c) && m2[c]
        == m[c] by {
        assert(below_some(m, s, level, a, b, c));
        assert(m.contains_key(c));
    }
    lemma_run_frame(m, m2, t, level, l, h);
    lemma_run_node(m2, m2[addr], level, l, h);
    lemma_one_kid(m2, e, level, l, h);
    assert forall|c: u64| #[trigger] run_has(m2, one(e), level + 1, c) implies run_has(
        m,
        p,
        level + 1,
        c,
    ) by {
        assert(reach(m2, addr, level, c));
        if c == addr {
            assert(is_kid(s, a, b, c));
        } else {
            assert(within(m2, m2[addr], level, c));
            assert(run_has(m2, t, level, c));
            assert(run_has(m, t, level, c));
            assert(below_some(m, s, level, a, b, c));
        }
    }
    assert forall|c: u64| #[trigger]
        run_has(m, s, level + 1, c) && !run_has(m, p, level + 1, c) implies m2.contains_key(c)
        && m2[c] == m[c] by {
        lemma_run_level(m, s, level + 1, lo, hi, c);
        assert(!is_kid(s, a, b, c));
        assert(m.contains_key(c));
    }
    lemma_run_splice(m, m2, s, level + 1, lo, hi, a, b, one(e));
    let s2 = spliced(s, a, b, one(e));
    assert forall|x: int| lo <= x < hi implies #[trigger] run_get(m2, s2, level + 1, x)
        == run_get(m, s, level + 1, x) by {
        if l <= x < h {
            assert(run_get(m2, one(e), level + 1, x) == get(m2, m2[addr], level, x));
            assert(get(m2, m2[addr], level, x) == run_get(m2, t, level, x));
            assert(run_get(m2, t, level, x) == run_get(m, t, level, x));
        }
    }
}

/// Neighbours merged into two nodes.
pub proof fn lemma_shared(
    m: Map<u64, BtreeNode>,
    m2: Map<u64, BtreeNode>,
    s: Seq<EntryView>,
    level: nat,
    lo: int,
    hi: int,
    a: int,
    b: int,
    mid: int,
    e: EntryView,
    f: EntryView,
)
    requires
        run_ok(m, s, level + 1, lo, hi),
        0 <= a < b <= s.len(),
        only_kids(m, m2, s, a, b),
        is_kid(s, a, b, child(e)),
        is_kid(s, a, b, child(f)),
        child(e) != child(f),
        0 < mid < kids_cat(m, s, a, b).len(),
        e.pos == s[a].pos,
        f.pos == kids_cat(m, s, a, b)[mid].pos,
        e.value is Extent,
        f.value is Extent,
        e.key_type != KeyType::Deleted,
        f.key_type != KeyType::Deleted,
        m2.contains_key(child(e)),
        m2[child(e)].wf(),
        m2[child(e)].level == level,
        m2[child(e)].keys() == kids_cat(m, s, a, b).subrange(0, mid),
        m2.contains_key(child(f)),
        m2[child(f)].wf(),
        m2[child(f)].level == level,
        m2[child(f)].keys() == kids_cat(m, s, a, b).subrange(
            mid,
            kids_cat(m, s, a, b).len() as int,
        ),
    ensures
        run_ok(m2, spliced(s, a, b, pair(e, f)), level + 1, lo, hi),
        forall|c: u64| #[trigger]
            run_has(m2, spliced(s, a, b, pair(e, f)), level + 1, c) ==> run_has(
                m,
                s,
                level + 1,
                c,
            ),
        forall|x: int|
            lo <= x < hi ==> #[trigger] run_get(m2, spliced(s, a, b, pair(e, f)), level + 1, x)
                == run_get(m, s, level + 1, x),
{
    let t = kids_cat(m, s, a, b);
    let n = t.len() as int;
    let tl = t.subrange(0, mid);
    let tr = t.subrange(mid, n);
    let l = s[a].pos.ord();
    let h = child_hi(s, b - 1, hi);
    let med = t[mid].pos.ord();
    let ea = child(e);
    let fa = child(f);
    let p = s.subrange(a, b);
    lemma_kids_cat(m, s, level, lo, hi, a, b);
    lemma_below_part(m, s, level, lo, hi, a, b);
    assert forall|c: u64| #[trigger] run_has(m, t, level, c) implies m2.contains_key(c) && m2[c]
        == m[c] && !is_kid(s, a, b, c) by {
        assert(below_some(m, s, level, a, b, c));
        assert(m.contains_key(c));
    }
    lemma_run_frame(m, m2, t, level, l, h);
    lemma_run_cut(m2, t, level, l, h, mid);
    lemma_run_node(m2, m2[ea], level, l, med);
    lemma_run_node(m2, m2[fa], level, med, h);
    lemma_one_kid(m2, e, level, l, med);
    lemma_one_kid(m2, f, level, med, h);
    assert forall|c: u64| #[trigger] run_has(m2, one(e), level + 1, c) implies c == ea
        || run_has(m2, tl, level, c) by {
        if c != ea {
            assert(within(m2, m2[ea], level, c));
        }
    }
    assert forall|c: u64| #[trigger] run_has(m2, one(f), level + 1, c) implies c == fa
        || run_has(m2, tr, level, c) by {
        if c != fa {
            assert(within(m2, m2[fa], level, c));
        }
    }
    assert forall|c: u64| !(#[trigger] run_has(m2, one(e), level + 1, c)
        && #[trigger] run_has(m2, one(f), level + 1, c)) by {
        if run_has(m2, one(e), level + 1, c) && run_has(m2, one(f), level + 1, c) {
            if c == ea {
                assert(run_has(m2, tr, level, c));
                assert(run_has(m2, t, level, c));
                assert(run_has(m, t, level, c));
            } else if c == fa {
                assert(run_has(m2, tl, level, c));
                assert(run_has(m2, t, level, c));
                assert(run_has(m, t, level, c));
            } else {
                assert(run_has(m2, tl, level, c) && run_has(m2, tr, level, c));
            }
        }
    }
    lemma_run_cat(m2, one(e), one(f), level + 1, l, med, h);
    let ef = pair(e, f);
    assert(one(e) + one(f) =~= ef);
    assert forall|c: u64| #[trigger] run_has(m2, ef, level + 1, c) implies run_has(
        m,
        p,
        level + 1,
        c,
    ) by {
        if c == ea || c == fa {
            assert(is_kid(s, a, b, c));
        } else {
            if run_has(m2, one(e), level + 1, c) {
                assert(run_has(m2, tl, level, c));
            } else {
                assert(run_has(m2, one(f), level + 1, c));
                assert(run_has(m2, tr, level, c));
            }
            assert(run_has(m2, t, level, c));
            assert(run_has(m, t, level, c));
            assert(below_some(m, s, level, a, b, c));
        }
    }
    assert forall|c: u64| #[trigger]
        run_has(m, s, level + 1, c) && !run_has(m, p, level + 1, c) implies m2.contains_key(c)
        && m2[c] == m[c] by {
        lemma_run_level(m, s, level + 1, lo, hi, c);
        assert(!is_kid(s, a, b, c));
        assert(m.contains_key(c));
    }
    lemma_run_splice(m, m2, s, level + 1, lo, hi, a, b, ef);
    let s2 = spliced(s, a, b, ef);
    assert forall|x: int| lo <= x < hi implies #[trigger] run_get(m2, s2, level + 1, x)
        == run_get(m, s, level + 1, x) by {
        if l <= x < h {
            if x < med {
                assert(run_get(m2, ef, level + 1, x) == run_get(m2, one(e), level + 1, x));
                assert(run_get(m2, one(e), level + 1, x) == get(m2, m2[ea], level, x));
                assert(get(m2, m2[ea], level, x) == run_get(m2, tl, level, x));
                assert(run_get(m2, tl, level, x) == run_get(m2, t, level, x));
            } else {
                assert(run_get(m2, ef, level + 1, x) == run_get(m2, one(f), level + 1, x));
                assert(run_get(m2, one(f), level + 1, x) == get(m2, m2[fa], level, x));
                assert(get(m2, m2[fa], level, x) == run_get(m2, tr, level, x));
                assert(run_get(m2, tr, level, x) == run_get(m2, t, level, x));
            }
            assert(run_get(m2, t, level, x) == run_get(m, t, level, x));
        }
    }
}

/// Entry `e` can take the place of entry `a`: it leads to the same subtree, and stands where that
/// began or, ahead of a leaf, at a later key that none of the leaf's keys is before.
pub open spec fn reroutes(
    m: Map<u64, BtreeNode>,
    s: Seq<EntryView>,
    level: nat,
    hi: int,
    a: int,
    e: EntryView,
) -> bool {
    &&& 0 <= a < s.len()
    &&& child(e) == child(s[a])
    &&& e.value is Extent
    &&& e.key_type != KeyType::Deleted
    &&& s[a].pos.ord() <= e.pos.ord() < child_hi(s, a, hi)
    &&& a == 0 || level > 0 ==> e.pos.ord() == s[a].pos.ord()
    &&& forall|j: int|
        0 <= j < m[child(e)].keys().len() ==> e.pos.ord() <= (#[trigger] m[child(
            e,
        )].keys()[j]).pos.ord()
}

proof fn lemma_rerouted_kids(
    m: Map<u64, BtreeNode>,
    s: Seq<EntryView>,
    level: nat,
    lo: int,
    hi: int,
    a: int,
    e: EntryView,
)
    requires
        sorted(s),
        kids_wf(m, s, level, lo, hi),
        reroutes(m, s, level, hi, a, e),
    ensures
        sorted(s.update(a, e)),
        kids_wf(m, s.update(a, e), level, lo, hi),
{
    let t = s.update(a, e);
    assert(sorted(t)) by {
        assert forall|i: int, j: int| 0 <= i < j < t.len() implies (#[trigger] t[i]).pos.ord() < (
        #[trigger] t[j]).pos.ord() by {
            assert(s[i].pos.ord() < s[j].pos.ord());
            if i == a && j > a + 1 {
                assert(s[a + 1].pos.ord() < s[j].pos.ord());
            }
        }
    }
    assert forall|i: int| 0 <= i < t.len() implies #[trigger] kid_ok(m, t, level, lo, hi, i) by {
        assert(kid_ok(m, s, level, lo, hi, i));
        let c = m[child(s[i])];
        if i + 1 == a {
            lemma_widen(m, c, level, child_lo(s, i, lo), s[a].pos.ord(), e.pos.ord());
        }
        if i == a && level == 0 && a > 0 {
            assert(sub_wf(m, c, 0, s[a].pos.ord(), child_hi(s, a, hi)));
            assert(sub_wf(m, c, 0, e.pos.ord(), child_hi(s, a, hi)));
        }
    }
}

proof fn lemma_rerouted_get(
    m: Map<u64, BtreeNode>,
    s: Seq<EntryView>,
    level: nat,
    lo: int,
    hi: int,
    a: int,
    e: EntryView,
    x: int,
)
    requires
        sorted(s),
        sorted(s.update(a, e)),
        kids_wf(m, s, level, lo, hi),
        reroutes(m, s, level, hi, a, e),
        lo <= x < hi,
    ensures
        get_kids(m, s.update(a, e), level, x) == get_kids(m, s, level, x),
{
    let t = s.update(a, e);
    lemma_route(s, x);
    let i = route(s, x);
    if i == a && x < e.pos.ord() && a > 0 {
        if level > 0 {
            assert(s[a].pos.ord() <= x);
        }
        assert forall|j: int| a - 1 < j < t.len() implies (#[trigger] t[j]).pos.ord() > x by {
            if j > a {
                assert(s[j].pos.ord() > x);
            }
        }
        assert(s[a - 1].pos.ord() < s[a].pos.ord());
        lemma_route_is(t, x, a - 1);
        assert(kid_ok(m, s, level, lo, hi, a - 1));
        let left = m[child(s[a - 1])];
        assert(sub_wf(m, left, 0, child_lo(s, a - 1, lo), s[a].pos.ord()));
        if find(m[child(e)].keys(), x) is Some {
            let j = lemma_find_some(m[child(e)].keys(), x);
        }
        if find(left.keys(), x) is Some {
            let j = lemma_find_some(left.keys(), x);
        }
    } else {
        assert forall|j: int| i < j < t.len() implies (#[trigger] t[j]).pos.ord() > x by {
            assert(s[j].pos.ord() > x);
        }
        lemma_route_is(t, x, i);
        assert(child(t[i]) == child(s[i]));
    }
}

/// A routing entry may stand at any key up to the first one of its leaf: what lies before goes to
/// the leaf ahead of it, where there is nothing either.
pub proof fn lemma_rerouted(
    m: Map<u64, BtreeNode>,
    s: Seq<EntryView>,
    level: nat,
    lo: int,
    hi: int,
    a: int,
    e: EntryView,
)
    requires
        run_ok(m, s, level + 1, lo, hi),
        reroutes(m, s, level, hi, a, e),
    ensures
        run_ok(m, s.update(a, e), level + 1, lo, hi),
        forall|c: u64| #[trigger]
            run_has(m, s.update(a, e), level + 1, c) == run_has(m, s, level + 1, c),
        forall|x: int|
            lo <= x < hi ==> #[trigger] run_get(m, s.update(a, e), level + 1, x) == run_get(
                m,
                s,
                level + 1,
                x,
            ),
{
    reveal(run_ok);
    reveal(run_get);
    reveal(run_has);
    let t = s.update(a, e);
    lemma_rerouted_kids(m, s, level, lo, hi, a, e);
    assert forall|i: int, j: int, c: u64|
        #![trigger reach(m, child(t[i]), level, c), reach(m, child(t[j]), level, c)]
        0 <= i < j < t.len() implies !(reach(m, child(t[i]), level, c) && reach(
        m,
        child(t[j]),
        level,
        c,
    )) by {
        assert(child(t[i]) == child(s[i]) && child(t[j]) == child(s[j]));
        assert(!(reach(m, child(s[i]), level, c) && reach(m, child(s[j]), level, c)));
    }
    assert forall|c: u64| #[trigger] run_has(m, t, level + 1, c) == run_has(m, s, level + 1, c) by {
        if kid_has(m, s, level, c) {
            let i = choose|i: int| 0 <= i < s.len() && reach(m, child(#[trigger] s[i]), level, c);
            assert(reach(m, child(t[i]), level, c));
        }
        if kid_has(m, t, level, c) {
            let i = choose|i: int| 0 <= i < t.len() && reach(m, child(#[trigger] t[i]), level, c);
            assert(reach(m, child(s[i]), level, c));
        }
    }
    assert forall|x: int| lo <= x < hi implies #[trigger] run_get(m, t, level + 1, x) == run_get(
        m,
        s,
        level + 1,
        x,
    ) by {
        lemma_rerouted_get(m, s, level, lo, hi, a, e, x);
    }
}

} // verus!
