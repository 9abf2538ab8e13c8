//! Which snapshots descend from which.

use vstd::prelude::*;

verus! {

/// A snapshot and the one it was taken from; zero where there is none.
#[derive(Debug, Clone, Copy, PartialEq, Eq, Structural)]
pub struct SnapshotNode {
    pub id: u32,
    pub parent: u32,
}

/// The snapshots of a volume. A snapshot has a lower number than the one it was taken from.
#[derive(Debug)]
pub struct SnapshotTable {
    nodes: Vec<SnapshotNode>,
}

/// The parent of snapshot `id`; zero where there is none.
pub open spec fn parent_in(s: Seq<SnapshotNode>, id: u32) -> u32
    decreases s.len(),
{
    if s.len() == 0 {
        0
    } else if s.last().id == id {
        s.last().parent
    } else {
        parent_in(s.drop_last(), id)
    }
}

/// Snapshot `id` is `ancestor`, or was taken from it over any number of steps.
pub open spec fn descends(s: Seq<SnapshotNode>, id: u32, ancestor: u32) -> bool
    decreases u32::MAX - id,
{
    if id == 0 || id >= ancestor {
        id == ancestor
    } else if parent_in(s, id) > id {
        descends(s, parent_in(s, id), ancestor)
    } else {
        false
    }
}

impl View for SnapshotTable {
    type V = Seq<SnapshotNode>;

    closed spec fn view(&self) -> Seq<SnapshotNode> {
        self.nodes@
    }
}

impl SnapshotTable {
    pub fn new() -> (r: SnapshotTable)
        ensures
            r@ == Seq::<SnapshotNode>::empty(),
    {
        SnapshotTable { nodes: Vec::new() }
    }

    /// Adds snapshot `id`, taken from `parent`; numbers must go down from parent to child, and a
    /// snapshot is added once.
    pub fn add_snapshot(&mut self, id: u32, parent: u32) -> (r: bool)
        ensures
            r == (id != 0 && (parent == 0 || id < parent) && forall|i: int|
                0 <= i < old(self)@.len() ==> (#[trigger] old(self)@[i]).id != id),
            final(self)@ == if r {
                old(self)@.push(SnapshotNode { id, parent })
            } else {
                old(self)@
            },
    {
        if id == 0 || (parent != 0 && id >= parent) {
            return false;
        }
        let mut i: usize = 0;
        while i < self.nodes.len()
            invariant
                i <= self.nodes.len(),
                self.nodes@ == old(self).nodes@,
                forall|j: int| 0 <= j < i ==> (#[trigger] self.nodes@[j]).id != id,
            decreases self.nodes.len() - i,
        {
            if self.nodes[i].id == id {
                assert(old(self)@[i as int].id == id);
                return false;
            }
            i += 1;
        }
        self.nodes.push(SnapshotNode { id, parent });
        true
    }

    /// The snapshot that `id` was taken from; zero where there is none.
    pub fn parent_of(&self, id: u32) -> (r: u32)
        ensures
            r == parent_in(self@, id),
    {
        let mut i: usize = self.nodes.len();
        assert(self.nodes@.subrange(0, i as int) =~= self.nodes@);
        while i > 0
            invariant
                i <= self.nodes.len(),
                parent_in(self.nodes@, id) == parent_in(self.nodes@.subrange(0, i as int), id),
            decreases i,
        {
            assert(self.nodes@.subrange(0, i as int).drop_last() =~= self.nodes@.subrange(
                0,
                i - 1,
            ));
            if self.nodes[i - 1].id == id {
                return self.nodes[i - 1].parent;
            }
            i -= 1;
        }
        0
    }

    /// Whether `ancestor` is `id` or a snapshot that it was taken from over any number of steps.
    pub fn bch2_snapshot_is_ancestor(&self, id: u32, ancestor: u32) -> (r: bool)
        ensures
            r == descends(self@, id, ancestor),
    {
        let mut cur: u32 = id;
        while cur != 0 && cur < ancestor
            invariant
                descends(self@, id, ancestor) == descends(self@, cur, ancestor),
            decreases u32::MAX - cur,
        {
            let p: u32 = self.parent_of(cur);
            if p <= cur {
                return false;
            }
            cur = p;
        }
        cur == ancestor
    }
}

/// A snapshot is its own ancestor.
pub proof fn law_ancestor_reflexive(s: Seq<SnapshotNode>, id: u32)
    ensures
        descends(s, id, id),
{
}

/// An ancestor of an ancestor is an ancestor.
pub proof fn law_ancestor_transitive(s: Seq<SnapshotNode>, a: u32, b: u32, c: u32)
    requires
        descends(s, a, b),
        descends(s, b, c),
        a != 0,
    ensures
        descends(s, a, c),
    decreases u32::MAX - a,
{
    if a < b {
        assert(b <= c) by {
            if b > c {
                assert(b == c);
            }
        }
        law_ancestor_transitive(s, parent_in(s, a), b, c);
    }
}

/// No snapshot stands in the list twice.
pub open spec fn listed_once(s: Seq<SnapshotNode>) -> bool {
    forall|i: int, j: int|
        0 <= i < j < s.len() ==> (#[trigger] s[i]).id != (#[trigger] s[j]).id
}

proof fn lemma_parent(s: Seq<SnapshotNode>, i: int)
    requires
        listed_once(s),
        0 <= i < s.len(),
    ensures
        parent_in(s, s[i].id) == s[i].parent,
    decreases s.len(),
{
    if i < s.len() - 1 {
        let t = s.drop_last();
        assert forall|a: int, b: int| 0 <= a < b < t.len() implies (#[trigger] t[a]).id != (
        #[trigger] t[b]).id by {
            assert(t[a] == s[a] && t[b] == s[b]);
        }
        assert(t[i] == s[i]);
        lemma_parent(t, i);
    }
}

proof fn lemma_no_parent(s: Seq<SnapshotNode>, id: u32)
    requires
        forall|i: int| 0 <= i < s.len() ==> (#[trigger] s[i]).id != id,
    ensures
        parent_in(s, id) == 0,
    decreases s.len(),
{
    if s.len() > 0 {
        let t = s.drop_last();
        assert(s[s.len() - 1].id != id);
        assert forall|i: int| 0 <= i < t.len() implies (#[trigger] t[i]).id != id by {
            assert(t[i] == s[i]);
        }
        lemma_no_parent(t, id);
    }
}

/// The ancestors of a snapshot are itself, the one it was taken from, and the ancestors of that one.
pub proof fn law_ancestors_of_a_snapshot(s: Seq<SnapshotNode>, i: int, ancestor: u32)
    requires
        listed_once(s),
        0 <= i < s.len(),
        s[i].id != 0,
        s[i].parent == 0 || s[i].id < s[i].parent,
    ensures
        parent_in(s, s[i].id) == s[i].parent,
        s[i].parent != 0 ==> descends(s, s[i].id, s[i].parent),
        descends(s, s[i].id, ancestor) <==> (ancestor == s[i].id || s[i].parent != 0 && descends(
            s,
            s[i].parent,
            ancestor,
        )),
{
    lemma_parent(s, i);
    law_ancestor_reflexive(s, s[i].parent);
}

/// A snapshot that is not listed has no ancestor but itself, and no ancestor has a lower number.
pub proof fn law_unlisted_has_no_ancestor(s: Seq<SnapshotNode>, id: u32, ancestor: u32)
    ensures
        (forall|i: int| 0 <= i < s.len() ==> (#[trigger] s[i]).id != id) ==> parent_in(s, id) == 0
            && (descends(s, id, ancestor) <==> id == ancestor),
        descends(s, id, ancestor) ==> id <= ancestor,
{
    if forall|i: int| 0 <= i < s.len() ==> (#[trigger] s[i]).id != id {
        lemma_no_parent(s, id);
    }
}

/// Another snapshot that is added changes nothing for those that do not descend from it.
pub proof fn law_added_snapshot_is_no_parent_of_others(
    s: Seq<SnapshotNode>,
    n: SnapshotNode,
    id: u32,
)
    ensures
        parent_in(s.push(n), n.id) == n.parent,
        id != n.id ==> parent_in(s.push(n), id) == parent_in(s, id),
{
    assert(s.push(n).drop_last() =~= s);
}

} // verus!
