//! Runs of entries as subtrees: what a node leads to depends on its run of entries alone, and
//! runs of neighbours can be joined and cut.

use crate::entries::{
    alive, find, lemma_find_concat, lemma_find_some, lemma_sorted_sub, packable, sorted,
};
use crate::key::EntryView;
use crate::node::BtreeNode;
use crate::shape::{
    child, child_hi, get, get_kids, kid_has, kid_ok, kids_apart, kids_wf, lemma_kids_cut,
    lemma_kids_frame, lemma_kids_level, lemma_route_cut, lemma_unfold, lemma_within, reach, sub_wf,
    top, within,
};
use crate::split::in_range;
use vstd::prelude::*;

verus! {

/// `t` can be the entries of a node of `level` that covers `lo..hi`.
#[verifier::opaque]
pub open spec fn run_ok(
    m: Map<u64, BtreeNode>,
    t: Seq<EntryView>,
    level: nat,
    lo: int,
    hi: int,
) -> bool {
    &&& 0 <= lo < hi <= top()
    &&& sorted(t)
    &&& packable(t)
    &&& alive(t)
    &&& in_range(t, lo, hi)
    &&& level > 0 ==> {
        &&& t.len() > 0
        &&& t[0].pos.ord() == lo
        &&& forall|i: int| 0 <= i < t.len() ==> (#[trigger] t[i]).value is Extent
        &&& kids_wf(m, t, (level - 1) as nat, lo, hi)
        &&& kids_apart(m, t, (level - 1) as nat)
    }
}

/// The entry at rank `x` that the run leads to.
#[verifier::opaque]
pub open spec fn run_get(
    m: Map<u64, BtreeNode>,
    t: Seq<EntryView>,
    level: nat,
    x: int,
) -> Option<EntryView> {
    if level == 0 {
        find(t, x)
    } else {
        get_kids(m, t, (level - 1) as nat, x)
    }
}

/// Address `a` is that of a node below the run.
#[verifier::opaque]
pub open spec fn run_has(m: Map<u64, BtreeNode>, t: Seq<EntryView>, level: nat, a: u64) -> bool {
    level > 0 && kid_has(m, t, (level - 1) as nat, a)
}

/// A node is the top of a subtree if its entries are a run for it.
pub proof fn lemma_run_node(m: Map<u64, BtreeNode>, node: BtreeNode, level: nat, lo: int, hi: int)
    ensures
        sub_wf(m, node, level, lo, hi) <==> node.wf() && node.level == level && run_ok(
            m,
            node.keys(),
            level,
            lo,
            hi,
        ),
        forall|x: int| #[trigger] get(m, node, level, x) == run_get(m, node.keys(), level, x),
        forall|a: u64| #[trigger] within(m, node, level, a) == run_has(m, node.keys(), level, a),
{
    reveal(run_ok);
    reveal(run_get);
    reveal(run_has);
    if level > 0 {
        lemma_unfold(m, node, level, lo, hi);
    }
    assert forall|a: u64| #[trigger] within(m, node, level, a) == run_has(
        m,
        node.keys(),
        level,
        a,
    ) by {
        if level > 0 {
            lemma_within(m, node, level, a);
        }
    }
}

/// A run is the same in every map that agrees on the nodes below it.
pub proof fn lemma_run_frame(
    m: Map<u64, BtreeNode>,
    m2: Map<u64, BtreeNode>,
    t: Seq<EntryView>,
    level: nat,
    lo: int,
    hi: int,
)
    requires
        run_ok(m, t, level, lo, hi),
        forall|a: u64| #[trigger] run_has(m, t, level, a) ==> m2.contains_key(a) && m2[a] == m[a],
    ensures
        run_ok(m2, t, level, lo, hi),
        forall|x: int| #[trigger] run_get(m2, t, level, x) == run_get(m, t, level, x),
        forall|a: u64| #[trigger] run_has(m2, t, level, a) == run_has(m, t, level, a),
{
    reveal(run_ok);
    reveal(run_get);
    reveal(run_has);
    if level > 0 {
        let l = (level - 1) as nat;
        assert forall|a: u64| #[trigger] kid_has(m, t, l, a) implies m2.contains_key(a) && m2[a]
            == m[a] by {
            assert(run_has(m, t, level, a));
        }
        lemma_kids_frame(m, m2, t, l, lo, hi);
        assert forall|x: int| #[trigger] run_get(m2, t, level, x) == run_get(m, t, level, x) by {
            assert(get_kids(m2, t, l, x) == get_kids(m, t, l, x));
        }
        assert forall|a: u64| #[trigger] run_has(m2, t, level, a) == run_has(m, t, level, a) by {
            assert(kid_has(m2, t, l, a) == kid_has(m, t, l, a));
        }
    }
}

/// Nodes below a run are in the map, on a lower level.
pub proof fn lemma_run_level(
    m: Map<u64, BtreeNode>,
    t: Seq<EntryView>,
    level: nat,
    lo: int,
    hi: int,
    a: u64,
)
    requires
        run_ok(m, t, level, lo, hi),
        run_has(m, t, level, a),
    ensures
        m.contains_key(a),
        m[a].level < level,
{
    reveal(run_ok);
    reveal(run_get);
    reveal(run_has);
    lemma_kids_level(m, t, (level - 1) as nat, lo, hi, a);
}

/// A run of routing entries begins where its range does.
pub proof fn lemma_run_first(
    m: Map<u64, BtreeNode>,
    t: Seq<EntryView>,
    level: nat,
    lo: int,
    hi: int,
)
    requires
        run_ok(m, t, level, lo, hi),
    ensures
        0 <= lo < hi <= top(),
        level > 0 ==> t.len() > 0 && t[0].pos.ord() == lo,
        sorted(t),
        packable(t),
        alive(t),
        in_range(t, lo, hi),
{
    reveal(run_ok);
}

/// A run cut in two.
pub proof fn lemma_run_cut(
    m: Map<u64, BtreeNode>,
    t: Seq<EntryView>,
    level: nat,
    lo: int,
    hi: int,
    mid: int,
)
    requires
        run_ok(m, t, level, lo, hi),
        0 < mid < t.len(),
    ensures
        ({
            let a = t.subrange(0, mid);
            let b = t.subrange(mid, t.len() as int);
            let med = t[mid].pos.ord();
            &&& lo < med < hi
            &&& run_ok(m, a, level, lo, med)
            &&& run_ok(m, b, level, med, hi)
            &&& forall|c: u64| !(#[trigger] run_has(m, a, level, c) && #[trigger] run_has(
                m,
                b,
                level,
                c,
            ))
            &&& forall|c: u64| #[trigger] run_has(m, a, level, c) ==> run_has(m, t, level, c)
            &&& forall|c: u64| #[trigger] run_has(m, b, level, c) ==> run_has(m, t, level, c)
            &&& forall|x: int|
                x < med ==> #[trigger] run_get(m, a, level, x) == run_get(m, t, level, x)
            &&& forall|x: int|
                x >= med ==> #[trigger] run_get(m, b, level, x) == run_get(m, t, level, x)
        }),
{
    reveal(run_ok);
    reveal(run_get);
    reveal(run_has);
    let n = t.len() as int;
    let a = t.subrange(0, mid);
    let b = t.subrange(mid, n);
    let med = t[mid].pos.ord();
    assert(t[0].pos.ord() < t[mid].pos.ord());
    lemma_sorted_sub(t, 0, mid);
    lemma_sorted_sub(t, mid, n);
    assert(t =~= a + b);
    assert(forall|i: int| 0 <= i < a.len() ==> #[trigger] a[i] == t[i]);
    assert(forall|i: int| 0 <= i < b.len() ==> #[trigger] b[i] == t[mid + i]);
    assert forall|i: int| 0 <= i < a.len() implies lo <= (#[trigger] a[i]).pos.ord() < med by {
        assert(t[i].pos.ord() < t[mid].pos.ord());
    }
    assert forall|i: int| 0 <= i < b.len() implies med <= (#[trigger] b[i]).pos.ord() < hi by {
        if i > 0 {
            assert(t[mid].pos.ord() < t[mid + i].pos.ord());
        }
    }
    if level == 0 {
        assert forall|x: int| x < med implies #[trigger] run_get(m, a, level, x) == run_get(
            m,
            t,
            level,
            x,
        ) by {
            lemma_find_concat(a, b, x);
            if find(b, x) is Some {
                let j = lemma_find_some(b, x);
            }
        }
        assert forall|x: int| x >= med implies #[trigger] run_get(m, b, level, x) == run_get(
            m,
            t,
            level,
            x,
        ) by {
            lemma_find_concat(a, b, x);
            if find(a, x) is Some {
                let j = lemma_find_some(a, x);
            }
        }
    } else {
        let l = (level - 1) as nat;
        lemma_kids_cut(m, t, l, lo, hi, mid);
        lemma_route_cut(m, t, l, mid);
        assert forall|c: u64| !(#[trigger] run_has(m, a, level, c) && #[trigger] run_has(
            m,
            b,
            level,
            c,
        )) by {
            assert(!(kid_has(m, a, l, c) && kid_has(m, b, l, c)));
        }
        assert forall|c: u64| #[trigger] run_has(m, a, level, c) implies run_has(
            m,
            t,
            level,
            c,
        ) by {
            assert(kid_has(m, a, l, c));
        }
        assert forall|c: u64| #[trigger] run_has(m, b, level, c) implies run_has(
            m,
            t,
            level,
            c,
        ) by {
            assert(kid_has(m, b, l, c));
        }
        assert forall|x: int| x < med implies #[trigger] run_get(m, a, level, x) == run_get(
            m,
            t,
            level,
            x,
        ) by {
            assert(get_kids(m, a, l, x) == get_kids(m, t, l, x));
        }
        assert forall|x: int| x >= med implies #[trigger] run_get(m, b, level, x) == run_get(
            m,
            t,
            level,
            x,
        ) by {
            assert(get_kids(m, b, l, x) == get_kids(m, t, l, x));
        }
    }
}

/// Two runs of neighbours joined.
pub proof fn lemma_run_cat(
    m: Map<u64, BtreeNode>,
    a: Seq<EntryView>,
    b: Seq<EntryView>,
    level: nat,
    lo: int,
    med: int,
    hi: int,
)
    requires
        run_ok(m, a, level, lo, med),
        run_ok(m, b, level, med, hi),
        forall|c: u64| !(#[trigger] run_has(m, a, level, c) && #[trigger] run_has(m, b, level, c)),
    ensures
        run_ok(m, a + b, level, lo, hi),
        forall|c: u64| #[trigger]
            run_has(m, a + b, level, c) <==> run_has(m, a, level, c) || run_has(m, b, level, c),
        forall|x: int| x < med ==> #[trigger] run_get(m, a + b, level, x) == run_get(m, a, level, x),
        forall|x: int|
            x >= med ==> #[trigger] run_get(m, a + b, level, x) == run_get(m, b, level, x),
{
    reveal(run_ok);
    reveal(run_get);
    reveal(run_has);
    let t = a + b;
    let na = a.len() as int;
    assert(forall|i: int| 0 <= i < t.len() ==> #[trigger] t[i] == if i < na {
        a[i]
    } else {
        b[i - na]
    });
    assert forall|i: int, j: int| 0 <= i < j < t.len() implies (#[trigger] t[i]).pos.ord() < (
    #[trigger] t[j]).pos.ord() by {
        if j < na {
            assert(a[i].pos.ord() < a[j].pos.ord());
        } else if i >= na {
            assert(b[i - na].pos.ord() < b[j - na].pos.ord());
        } else {
            assert(a[i].pos.ord() < med <= b[j - na].pos.ord());
        }
    }
    assert(in_range(t, lo, hi));
    if level == 0 {
        assert forall|x: int| x < med implies #[trigger] run_get(m, t, level, x) == run_get(
            m,
            a,
            level,
            x,
        ) by {
            lemma_find_concat(a, b, x);
            if find(b, x) is Some {
                let j = lemma_find_some(b, x);
            }
        }
        assert forall|x: int| x >= med implies #[trigger] run_get(m, t, level, x) == run_get(
            m,
            b,
            level,
            x,
        ) by {
            lemma_find_concat(a, b, x);
            if find(a, x) is Some {
                let j = lemma_find_some(a, x);
            }
        }
    } else {
        let l = (level - 1) as nat;
        assert(kids_wf(m, t, l, lo, hi)) by {
            assert forall|i: int| 0 <= i < t.len() implies #[trigger] kid_ok(
                m,
                t,
                l,
                lo,
                hi,
                i,
            ) by {
                if i < na {
                    assert(kid_ok(m, a, l, lo, med, i));
                    if i + 1 == na {
                        assert(t[i + 1] == b[0]);
                    } else {
                        assert(t[i + 1] == a[i + 1]);
                    }
                } else {
                    assert(kid_ok(m, b, l, med, hi, i - na));
                    if i + 1 < t.len() {
                        assert(t[i + 1] == b[i + 1 - na]);
                    }
                }
            }
        }
        assert forall|c: u64| #[trigger] run_has(m, t, level, c) <==> run_has(m, a, level, c)
            || run_has(m, b, level, c) by {
            if kid_has(m, t, l, c) {
                let i = choose|i: int| 0 <= i < t.len() && reach(m, child(#[trigger] t[i]), l, c);
                if i < na {
                    assert(reach(m, child(a[i]), l, c));
                } else {
                    assert(reach(m, child(b[i - na]), l, c));
                }
            }
            if kid_has(m, a, l, c) {
                let i = choose|i: int| 0 <= i < a.len() && reach(m, child(#[trigger] a[i]), l, c);
                assert(reach(m, child(t[i]), l, c));
            }
            if kid_has(m, b, l, c) {
                let i = choose|i: int| 0 <= i < b.len() && reach(m, child(#[trigger] b[i]), l, c);
                assert(reach(m, child(t[i + na]), l, c));
            }
        }
        assert(kids_apart(m, t, l)) by {
            assert forall|i: int, j: int, c: u64|
                #![trigger reach(m, child(t[i]), l, c), reach(m, child(t[j]), l, c)]
                0 <= i < j < t.len() implies !(reach(m, child(t[i]), l, c) && reach(
                m,
                child(t[j]),
                l,
                c,
            )) by {
                if reach(m, child(t[i]), l, c) && reach(m, child(t[j]), l, c) {
                    if j < na {
                        assert(reach(m, child(a[i]), l, c) && reach(m, child(a[j]), l, c));
                    } else if i >= na {
                        assert(reach(m, child(b[i - na]), l, c) && reach(
                            m,
                            child(b[j - na]),
                            l,
                            c,
                        ));
                    } else {
                        assert(reach(m, child(a[i]), l, c));
                        assert(kid_has(m, a, l, c));
                        assert(reach(m, child(b[j - na]), l, c));
                        assert(kid_has(m, b, l, c));
                        assert(run_has(m, a, level, c) && run_has(m, b, level, c));
                    }
                }
            }
        }
        assert(t[na].pos.ord() == med);
        lemma_route_cut(m, t, l, na);
        assert(t.subrange(0, na) =~= a);
        assert(t.subrange(na, t.len() as int) =~= b);
        assert forall|x: int| x < med implies #[trigger] run_get(m, t, level, x) == run_get(
            m,
            a,
            level,
            x,
        ) by {
            assert(get_kids(m, a, l, x) == get_kids(m, t, l, x));
        }
        assert forall|x: int| x >= med implies #[trigger] run_get(m, t, level, x) == run_get(
            m,
            b,
            level,
            x,
        ) by {
            assert(get_kids(m, b, l, x) == get_kids(m, t, l, x));
        }
    }
}

/// The middle part of a run, from entry `x` to before entry `y`, replaced.
pub open spec fn spliced(s: Seq<EntryView>, x: int, y: int, mid: Seq<EntryView>) -> Seq<EntryView> {
    s.subrange(0, x) + mid + s.subrange(y, s.len() as int)
}

/// A run in which a part was replaced by another run of the same range.
pub proof fn lemma_run_splice(
    m: Map<u64, BtreeNode>,
    m2: Map<u64, BtreeNode>,
    s: Seq<EntryView>,
    level: nat,
    lo: int,
    hi: int,
    x: int,
    y: int,
    mid: Seq<EntryView>,
)
    requires
        level > 0,
        run_ok(m, s, level, lo, hi),
        0 <= x < y <= s.len(),
        run_ok(m2, mid, level, s[x].pos.ord(), child_hi(s, y - 1, hi)),
        forall|a: u64| #[trigger]
            run_has(m, s, level, a) && !run_has(m, s.subrange(x, y), level, a)
                ==> m2.contains_key(a) && m2[a] == m[a],
        forall|a: u64| #[trigger]
            run_has(m2, mid, level, a) ==> run_has(m, s.subrange(x, y), level, a),
    ensures
        run_ok(m2, spliced(s, x, y, mid), level, lo, hi),
        forall|a: u64| #[trigger]
            run_has(m2, spliced(s, x, y, mid), level, a) ==> run_has(m, s, level, a),
        forall|k: int|
            lo <= k < hi ==> #[trigger] run_get(m2, spliced(s, x, y, mid), level, k)
                == if s[x].pos.ord() <= k < child_hi(s, y - 1, hi) {
                run_get(m2, mid, level, k)
            } else {
                run_get(m, s, level, k)
            },
{
    let n = s.len() as int;
    let xl = s[x].pos.ord();
    let yh = child_hi(s, y - 1, hi);
    let a = s.subrange(0, x);
    let sm = s.subrange(x, y);
    let b = s.subrange(y, n);
    let t = spliced(s, x, y, mid);
    // the parts of the old run
    lemma_run_first(m, s, level, lo, hi);
    lemma_run_first(m2, mid, level, xl, yh);
    if x > 0 {
        lemma_run_cut(m, s, level, lo, hi, x);
    }
    let s1 = s.subrange(x, n);
    if x == 0 {
        assert(s1 =~= s);
        assert(a =~= Seq::<EntryView>::empty());
    }
    assert(run_ok(m, s1, level, xl, hi));
    if y < n {
        assert(s1[y - x] == s[y]);
        lemma_run_cut(m, s1, level, xl, hi, y - x);
        assert(s1.subrange(0, y - x) =~= sm);
        assert(s1.subrange(y - x, s1.len() as int) =~= b);
    } else {
        assert(s1 =~= sm);
        assert(b =~= Seq::<EntryView>::empty());
    }
    assert forall|c: u64| #[trigger] run_has(m, sm, level, c) implies run_has(m, s, level, c) by {
        assert(run_has(m, s1, level, c));
    }
    // what lies before and after is as it was
    let mut acc = mid;
    if y < n {
        assert forall|c: u64| #[trigger] run_has(m, b, level, c) implies m2.contains_key(c)
            && m2[c] == m[c] by {
            assert(run_has(m, s1, level, c));
            assert(run_has(m, s, level, c));
            assert(!run_has(m, sm, level, c));
        }
        lemma_run_frame(m, m2, b, level, yh, hi);
        assert forall|c: u64| !(#[trigger] run_has(m2, mid, level, c) && #[trigger] run_has(
            m2,
            b,
            level,
            c,
        )) by {
            if run_has(m2, mid, level, c) && run_has(m2, b, level, c) {
                assert(run_has(m, sm, level, c) && run_has(m, b, level, c));
            }
        }
        lemma_run_cat(m2, mid, b, level, xl, yh, hi);
        acc = mid + b;
    }
    assert(acc =~= mid + b);
    assert(run_ok(m2, acc, level, xl, hi));
    assert forall|c: u64| #[trigger] run_has(m2, acc, level, c) implies run_has(m, s1, level, c) by {
        if run_has(m2, mid, level, c) {
            assert(run_has(m, sm, level, c));
            assert(run_has(m, s1, level, c));
        } else {
            assert(run_has(m2, b, level, c));
            assert(run_has(m, b, level, c));
            assert(run_has(m, s1, level, c));
        }
    }
    assert forall|k: int| xl <= k < hi implies #[trigger] run_get(m2, acc, level, k) == if k < yh {
        run_get(m2, mid, level, k)
    } else {
        run_get(m, s, level, k)
    } by {
        if y < n {
            if k >= yh {
                assert(run_get(m2, acc, level, k) == run_get(m2, b, level, k));
                assert(run_get(m2, b, level, k) == run_get(m, b, level, k));
                assert(run_get(m, b, level, k) == run_get(m, s1, level, k));
                assert(run_get(m, s1, level, k) == run_get(m, s, level, k));
            }
        }
    }
    if x > 0 {
        assert forall|c: u64| #[trigger] run_has(m, a, level, c) implies m2.contains_key(c)
            && m2[c] == m[c] by {
            assert(run_has(m, s, level, c));
            if run_has(m, sm, level, c) {
                assert(run_has(m, s1, level, c));
            }
        }
        lemma_run_frame(m, m2, a, level, lo, xl);
        assert forall|c: u64| !(#[trigger] run_has(m2, a, level, c) && #[trigger] run_has(
            m2,
            acc,
            level,
            c,
        )) by {
            if run_has(m2, a, level, c) && run_has(m2, acc, level, c) {
                assert(run_has(m, a, level, c) && run_has(m, s1, level, c));
            }
        }
        lemma_run_cat(m2, a, acc, level, lo, xl, hi);
        assert(t =~= a + acc);
        assert forall|c: u64| #[trigger] run_has(m2, t, level, c) implies run_has(
            m,
            s,
            level,
            c,
        ) by {
            if run_has(m2, a, level, c) {
                assert(run_has(m, a, level, c));
            } else {
                assert(run_has(m2, acc, level, c));
                assert(run_has(m, s1, level, c));
            }
        }
    } else {
        assert(t =~= acc);
    }
    assert forall|k: int| lo <= k < hi implies #[trigger] run_get(m2, t, level, k) == if xl <= k
        < yh {
        run_get(m2, mid, level, k)
    } else {
        run_get(m, s, level, k)
    } by {
        if k < xl {
            assert(x > 0);
            assert(run_get(m2, t, level, k) == run_get(m2, a, level, k));
            assert(run_get(m2, a, level, k) == run_get(m, a, level, k));
            assert(run_get(m, a, level, k) == run_get(m, s, level, k));
        } else {
            assert(run_get(m2, t, level, k) == run_get(m2, acc, level, k));
        }
    }
}

} // verus!
