//! All entries of a tree, in order.

use crate::entries::{
    find, lb, lemma_find_at, lemma_find_concat, lemma_find_some, lemma_lb, lower_bound_at, sorted,
};
use crate::key::EntryView;
use crate::node::BtreeNode;
use crate::shape::{
    child, child_hi, child_lo, get, kid, kid_ok, lemma_route_is, lemma_unfold, sub_wf, top,
};
use crate::split::in_range;
use crate::tree::Btree;
use vstd::prelude::*;

verus! {

/// The entries of the leaves below a node, from left to right.
pub open spec fn walk(m: Map<u64, BtreeNode>, node: BtreeNode, level: nat) -> Seq<EntryView>
    decreases level, 1int, 0nat,
{
    if level == 0 {
        node.keys()
    } else {
        walk_kids(m, node.keys(), level, node.keys().len())
    }
}

/// The entries of the leaves below the first `n` children.
pub open spec fn walk_kids(
    m: Map<u64, BtreeNode>,
    s: Seq<EntryView>,
    level: nat,
    n: nat,
) -> Seq<EntryView>
    decreases level, 0int, n,
{
    if n == 0 || level == 0 {
        Seq::empty()
    } else {
        walk_kids(m, s, level, (n - 1) as nat) + walk(
            m,
            m[kid(s, n - 1)],
            (level - 1) as nat,
        )
    }
}

/// `s` lists what a subtree that covers `lo..hi` holds.
pub open spec fn lists(
    m: Map<u64, BtreeNode>,
    node: BtreeNode,
    level: nat,
    lo: int,
    hi: int,
    s: Seq<EntryView>,
) -> bool {
    &&& sorted(s)
    &&& in_range(s, lo, hi)
    &&& forall|x: int| lo <= x < hi ==> #[trigger] find(s, x) == get(m, node, level, x)
}

/// The leaves of a subtree list what it holds.
pub proof fn lemma_listed(m: Map<u64, BtreeNode>, node: BtreeNode, level: nat, lo: int, hi: int)
    requires
        sub_wf(m, node, level, lo, hi),
    ensures
        lists(m, node, level, lo, hi, walk(m, node, level)),
    decreases level, 1nat, 0nat,
{
    if level > 0 {
        lemma_unfold(m, node, level, lo, hi);
        lemma_kids_listed(m, node, level, lo, hi, node.keys().len());
    }
}

/// So do the leaves below the first `n` of its children.
proof fn lemma_kids_listed(
    m: Map<u64, BtreeNode>,
    node: BtreeNode,
    level: nat,
    lo: int,
    hi: int,
    n: nat,
)
    requires
        level > 0,
        sub_wf(m, node, level, lo, hi),
        0 < n <= node.keys().len(),
    ensures
        lists(
            m,
            node,
            level,
            lo,
            child_hi(node.keys(), n - 1, hi),
            walk_kids(m, node.keys(), level, n),
        ),
    decreases level, 0nat, n,
{
    let s = node.keys();
    let l = (level - 1) as nat;
    let j = n - 1;
    let clo = child_lo(s, j, lo);
    let chi = child_hi(s, j, hi);
    lemma_unfold(m, node, level, lo, hi);
    assert(kid_ok(m, s, l, lo, hi, j));
    let c = m[child(s[j])];
    let t = walk(m, c, l);
    lemma_listed(m, c, l, clo, chi);
    let p = walk_kids(m, s, level, j as nat);
    let r = walk_kids(m, s, level, n);
    assert(r == p + t);
    assert forall|x: int| clo <= x < chi implies get(m, node, level, x) == #[trigger] get(
        m,
        c,
        l,
        x,
    ) by {
        assert forall|i: int| j < i < s.len() implies (#[trigger] s[i]).pos.ord() > x by {
            if i > j + 1 {
                assert(s[j + 1].pos.ord() < s[i].pos.ord());
            }
        }
        lemma_route_is(s, x, j);
    }
    if n == 1 {
        assert(r =~= t);
        assert forall|x: int| lo <= x < chi implies #[trigger] find(t, x) == get(
            m,
            node,
            level,
            x,
        ) by {
            assert(get(m, c, l, x) == get(m, node, level, x));
        }
    } else {
        lemma_kids_listed(m, node, level, lo, hi, j as nat);
        assert(child_hi(s, j - 1, hi) == clo);
        assert(forall|i: int| 0 <= i < r.len() ==> #[trigger] r[i] == if i < p.len() {
            p[i]
        } else {
            t[i - p.len()]
        });
        assert forall|a: int, b: int| 0 <= a < b < r.len() implies (#[trigger] r[a]).pos.ord() < (
        #[trigger] r[b]).pos.ord() by {
            if b < p.len() {
                assert(p[a].pos.ord() < p[b].pos.ord());
            } else if a >= p.len() {
                assert(t[a - p.len()].pos.ord() < t[b - p.len()].pos.ord());
            } else {
                assert(p[a].pos.ord() < clo <= t[b - p.len()].pos.ord());
            }
        }
        assert(lo <= clo) by {
            assert(s[0].pos.ord() < s[j].pos.ord());
        }
        assert forall|x: int| lo <= x < chi implies #[trigger] find(r, x) == get(
            m,
            node,
            level,
            x,
        ) by {
            lemma_find_concat(p, t, x);
            if x < clo {
                if find(t, x) is Some {
                    let i = lemma_find_some(t, x);
                }
                assert(find(p, x) == get(m, node, level, x));
            } else {
                if find(p, x) is Some {
                    let i = lemma_find_some(p, x);
                }
                assert(find(t, x) == get(m, c, l, x));
                assert(get(m, c, l, x) == get(m, node, level, x));
            }
        }
    }
}

impl Btree {
    pub open spec fn listed(self, s: Seq<EntryView>) -> bool {
        lists(self.cache@, self.root.node, self.height(), 0, top(), s)
    }

    /// All entries of the nodes, in order.
    pub open spec fn contents(self) -> Seq<EntryView> {
        choose|s: Seq<EntryView>| #[trigger] self.listed(s)
    }

    pub proof fn lemma_contents(self)
        requires
            self.shape_ok(),
        ensures
            self.listed(self.contents()),
            sorted(self.contents()),
            in_range(self.contents(), 0, top()),
            forall|x: int|
                0 <= x < top() ==> #[trigger] find(self.contents(), x) == self.tree_get(x),
    {
        lemma_listed(self.cache@, self.root.node, self.height(), 0, top());
        assert(self.listed(walk(self.cache@, self.root.node, self.height())));
        assert forall|x: int| 0 <= x < top() implies #[trigger] find(self.contents(), x)
            == self.tree_get(x) by {
            assert(find(self.contents(), x) == get(
                self.cache@,
                self.root.node,
                self.height(),
                x,
            ));
        }
    }

    /// There is one list of what a tree holds.
    pub proof fn lemma_contents_is(self, s: Seq<EntryView>)
        requires
            self.shape_ok(),
            sorted(s),
            in_range(s, 0, top()),
            forall|x: int| 0 <= x < top() ==> #[trigger] find(s, x) == self.tree_get(x),
        ensures
            self.contents() == s,
    {
        self.lemma_contents();
        lemma_same_lists(self.contents(), s);
    }
}

/// Sorted runs that hold the same are the same.
pub proof fn lemma_same_lists(a: Seq<EntryView>, b: Seq<EntryView>)
    requires
        sorted(a),
        sorted(b),
        in_range(a, 0, top()),
        in_range(b, 0, top()),
        forall|x: int| 0 <= x < top() ==> #[trigger] find(a, x) == find(b, x),
    ensures
        a == b,
    decreases a.len(),
{
    if a.len() == 0 {
        if b.len() > 0 {
            lemma_find_at(b, 0);
            assert(find(a, b[0].pos.ord()) is Some);
            let i = lemma_find_some(a, b[0].pos.ord());
        }
    } else {
        let n = a.len() - 1;
        let k = a[n].pos.ord();
        lemma_find_at(a, n);
        assert(find(b, k) is Some);
        let j = lemma_find_some(b, k);
        if j < b.len() - 1 {
            let e = b[b.len() - 1];
            assert(b[j].pos.ord() < e.pos.ord());
            lemma_find_at(b, b.len() - 1);
            assert(find(a, e.pos.ord()) is Some);
            let i = lemma_find_some(a, e.pos.ord());
            if i < n {
                assert(a[i].pos.ord() < a[n].pos.ord());
            }
        }
        assert(j == b.len() - 1);
        let a2 = a.drop_last();
        let b2 = b.drop_last();
        crate::entries::lemma_sorted_sub(a, 0, n);
        crate::entries::lemma_sorted_sub(b, 0, b.len() - 1);
        assert(a2 =~= a.subrange(0, n));
        assert(b2 =~= b.subrange(0, b.len() - 1));
        assert(a =~= a2 + seq![a[n]]);
        assert(b =~= b2 + seq![b[j]]);
        assert forall|x: int| 0 <= x < top() implies #[trigger] find(a2, x) == find(b2, x) by {
            lemma_find_concat(a2, seq![a[n]], x);
            lemma_find_concat(b2, seq![b[j]], x);
            assert(find(a, x) == find(b, x));
            if find(a2, x) is Some {
                let i = lemma_find_some(a2, x);
                assert(a[i].pos.ord() < a[n].pos.ord());
                if find(seq![b[j]], x) is Some {
                    let i2 = lemma_find_some(seq![b[j]], x);
                }
            }
            if find(b2, x) is Some {
                let i = lemma_find_some(b2, x);
                assert(b[i].pos.ord() < b[j].pos.ord());
                if find(seq![a[n]], x) is Some {
                    let i2 = lemma_find_some(seq![a[n]], x);
                }
            }
        }
        lemma_same_lists(a2, b2);
    }
}

/// The number of entries of `s` before rank `k`, for every `k`.
pub proof fn lemma_lb_exists(s: Seq<EntryView>, k: int)
    requires
        sorted(s),
    ensures
        lower_bound_at(s, k, lb(s, k)),
    decreases s.len(),
{
    if s.len() == 0 {
        assert(lower_bound_at(s, k, 0));
        lemma_lb(s, k, 0);
    } else if s.last().pos.ord() < k {
        assert forall|i: int| 0 <= i < s.len() implies (#[trigger] s[i]).pos.ord() < k by {
            if i < s.len() - 1 {
                assert(s[i].pos.ord() < s[s.len() - 1].pos.ord());
            }
        }
        assert(lower_bound_at(s, k, s.len() as int));
        lemma_lb(s, k, s.len() as int);
    } else {
        let t = s.drop_last();
        assert(t =~= s.subrange(0, s.len() - 1));
        crate::entries::lemma_sorted_sub(s, 0, s.len() - 1);
        lemma_lb_exists(t, k);
        let r = lb(t, k);
        assert forall|i: int| 0 <= i < r implies (#[trigger] s[i]).pos.ord() < k by {
            assert(t[i] == s[i]);
        }
        assert forall|i: int| r <= i < s.len() implies (#[trigger] s[i]).pos.ord() >= k by {
            if i < s.len() - 1 {
                assert(t[i] == s[i]);
            }
        }
        lemma_lb(s, k, r);
    }
}

/// An entry at rank `k` comes right after the entries before `k`.
pub proof fn lemma_lb_entry(s: Seq<EntryView>, k: int)
    requires
        sorted(s),
        find(s, k) is Some,
    ensures
        0 <= lb(s, k) < s.len(),
        s[lb(s, k)] == find(s, k)->0,
        s[lb(s, k)].pos.ord() == k,
{
    lemma_lb_exists(s, k);
    let i = lemma_find_some(s, k);
    let r = lb(s, k);
    if i < r {
        assert(s[i].pos.ord() < k);
    }
    if r < i {
        assert(s[r].pos.ord() < s[i].pos.ord());
        assert(s[r].pos.ord() >= k);
    }
}

/// Where nothing stands between two ranks, the same entries come before both.
pub proof fn lemma_lb_gap(s: Seq<EntryView>, a: int, b: int)
    requires
        sorted(s),
        a <= b,
        forall|x: int| a <= x < b ==> (#[trigger] find(s, x)) is None,
    ensures
        lb(s, a) == lb(s, b),
{
    lemma_lb_exists(s, a);
    let r = lb(s, a);
    assert forall|i: int| 0 <= i < r implies (#[trigger] s[i]).pos.ord() < b by {}
    assert forall|i: int| r <= i < s.len() implies (#[trigger] s[i]).pos.ord() >= b by {
        lemma_find_at(s, i);
        if s[i].pos.ord() < b {
            assert(find(s, s[i].pos.ord()) is None);
        }
    }
    lemma_lb(s, b, r);
}

/// One more entry comes before the rank after an entry.
pub proof fn lemma_lb_after(s: Seq<EntryView>, k: int)
    requires
        sorted(s),
        find(s, k) is Some,
    ensures
        lb(s, k + 1) == lb(s, k) + 1,
{
    lemma_lb_entry(s, k);
    lemma_lb_exists(s, k);
    let r = lb(s, k);
    assert forall|i: int| 0 <= i < r + 1 implies (#[trigger] s[i]).pos.ord() < k + 1 by {}
    assert forall|i: int| r + 1 <= i < s.len() implies (#[trigger] s[i]).pos.ord() >= k + 1 by {
        assert(s[r].pos.ord() < s[i].pos.ord());
    }
    lemma_lb(s, k + 1, r + 1);
}

} // verus!
