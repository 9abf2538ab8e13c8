//! Which updates of inner nodes are under way, and which nodes they keep from being written.

use std::collections::HashMap;
use crate::node::NodeFlags;
use vstd::prelude::*;

verus! {

broadcast use {vstd::std_specs::hash::group_hash_axioms, vstd::map::group_map_axioms};

/// `s` with `x` added at the end, unless it is there.
pub open spec fn with_once(s: Seq<u64>, x: u64) -> Seq<u64> {
    if s.contains(x) {
        s
    } else {
        s.push(x)
    }
}

/// `s` without `x`.
pub open spec fn without(s: Seq<u64>, x: u64) -> Seq<u64> {
    s.filter(|y: u64| y != x)
}

/// What `m` holds for `k`, or nothing.
pub open spec fn at_or_none(m: Map<u64, Seq<u64>>, k: u64) -> Seq<u64> {
    if m.contains_key(k) {
        m[k]
    } else {
        Seq::empty()
    }
}

/// `m` with an empty list taken away.
pub open spec fn unless_empty(m: Map<u64, Seq<u64>>, k: u64, s: Seq<u64>) -> Map<u64, Seq<u64>> {
    if s.len() == 0 {
        m.remove(k)
    } else {
        m.insert(k, s)
    }
}

/// The blockers of the nodes once `update` blocks none of `nodes` any more.
pub open spec fn released(m: Map<u64, Seq<u64>>, update: u64, nodes: Seq<u64>) -> Map<
    u64,
    Seq<u64>,
>
    decreases nodes.len(),
{
    if nodes.len() == 0 {
        m
    } else {
        let before = released(m, update, nodes.drop_last());
        let n = nodes.last();
        if before.contains_key(n) {
            unless_empty(before, n, without(before[n], update))
        } else {
            before
        }
    }
}

/// The id after `id`; zero is none.
pub open spec fn id_after(id: u64) -> u64 {
    if id == u64::MAX {
        1
    } else {
        (id + 1) as u64
    }
}

fn holds_id(v: &Vec<u64>, x: u64) -> (r: bool)
    ensures
        r == v@.contains(x),
{
    let mut i: usize = 0;
    while i < v.len()
        invariant
            i <= v.len(),
            forall|j: int| 0 <= j < i ==> v@[j] != x,
        decreases v.len() - i,
    {
        if v[i] == x {
            return true;
        }
        i += 1;
    }
    false
}

fn push_once(v: Vec<u64>, x: u64) -> (r: Vec<u64>)
    ensures
        r@ == with_once(v@, x),
{
    let mut v: Vec<u64> = v;
    if !holds_id(&v, x) {
        v.push(x);
    }
    v
}

fn take_out(v: Vec<u64>, x: u64) -> (r: Vec<u64>)
    ensures
        r@ == without(v@, x),
{
    let mut out: Vec<u64> = Vec::new();
    let mut i: usize = 0;
    proof {
        reveal(Seq::filter);
        assert(v@.take(0) =~= Seq::<u64>::empty());
        assert(without(v@.take(0), x) =~= Seq::<u64>::empty());
    }
    while i < v.len()
        invariant
            i <= v.len(),
            out@ == without(v@.take(i as int), x),
        decreases v.len() - i,
    {
        proof {
            reveal(Seq::filter);
            let t = v@.take(i + 1);
            assert(t.drop_last() =~= v@.take(i as int));
            assert(t.last() == v@[i as int]);
        }
        if v[i] != x {
            out.push(v[i]);
        }
        i += 1;
    }
    assert(v@.take(i as int) =~= v@);
    out
}

/// `without` takes out all of `x` and nothing else.
pub proof fn lemma_without(s: Seq<u64>, x: u64)
    ensures
        !without(s, x).contains(x),
        forall|y: u64| y != x ==> (#[trigger] without(s, x).contains(y) <==> s.contains(y)),
        without(s, x).len() <= s.len(),
    decreases s.len(),
{
    reveal(Seq::filter);
    if s.len() > 0 {
        lemma_without(s.drop_last(), x);
        let w = without(s.drop_last(), x);
        let l = s.last();
        assert(without(s, x) == if l != x {
            w.push(l)
        } else {
            w
        });
        assert forall|y: u64| y != x implies (#[trigger] without(s, x).contains(y)
            <==> s.contains(y)) by {
            if s.contains(y) {
                let i = choose|i: int| 0 <= i < s.len() && s[i] == y;
                if i == s.len() - 1 {
                    assert(w.push(l)[w.len() as int] == y);
                } else {
                    assert(s.drop_last()[i] == y);
                    assert(w.contains(y));
                    let j = choose|j: int| 0 <= j < w.len() && w[j] == y;
                    assert(w.push(l)[j] == y);
                }
            }
            if without(s, x).contains(y) {
                let j = choose|j: int|
                    0 <= j < without(s, x).len() && without(s, x)[j] == y;
                if j < w.len() {
                    assert(w[j] == y);
                    assert(w.contains(y));
                    assert(s.drop_last().contains(y));
                    let i = choose|i: int| 0 <= i < s.drop_last().len() && s.drop_last()[i] == y;
                    assert(s[i] == y);
                } else {
                    assert(s[s.len() - 1] == y);
                }
            }
        }
        if without(s, x).contains(x) {
            let j = choose|j: int| 0 <= j < without(s, x).len() && without(s, x)[j] == x;
            if j < w.len() {
                assert(w[j] == x);
                assert(w.contains(x));
            }
        }
    }
}

/// The updates of inner nodes that are under way: the nodes that each of them blocks, and for
/// every blocked node the updates that block it.
#[derive(Debug)]
pub struct InteriorUpdates {
    next_id: u64,
    list: HashMap<u64, Vec<u64>>,
    blocked: HashMap<u64, Vec<u64>>,
}

impl InteriorUpdates {
    /// The id that the next update gets.
    pub closed spec fn next_id(&self) -> u64 {
        self.next_id
    }

    /// The nodes that each update blocks.
    pub closed spec fn list(&self) -> Map<u64, Seq<u64>> {
        self.list@.map_values(|v: Vec<u64>| v@)
    }

    /// The updates that block each node.
    pub closed spec fn blocked(&self) -> Map<u64, Seq<u64>> {
        self.blocked@.map_values(|v: Vec<u64>| v@)
    }

    pub fn new() -> (r: InteriorUpdates)
        ensures
            r.next_id() == 1,
            r.list() == Map::<u64, Seq<u64>>::empty(),
            r.blocked() == Map::<u64, Seq<u64>>::empty(),
    {
        let r: InteriorUpdates = InteriorUpdates {
            next_id: 1,
            list: HashMap::new(),
            blocked: HashMap::new(),
        };
        assert(r.list() =~= Map::<u64, Seq<u64>>::empty());
        assert(r.blocked() =~= Map::<u64, Seq<u64>>::empty());
        r
    }

    /// Enters a new update and hands out its id.
    pub fn start(&mut self) -> (r: u64)
        ensures
            r == old(self).next_id(),
            final(self).next_id() == id_after(r),
            final(self).list() == old(self).list().insert(r, Seq::empty()),
            final(self).blocked() == old(self).blocked(),
    {
        let id: u64 = self.next_id;
        self.next_id = if id == u64::MAX {
            1
        } else {
            id + 1
        };
        let v: Vec<u64> = Vec::new();
        self.list.insert(id, v);
        assert(self.list() =~= old(self).list().insert(id, Seq::empty()));
        id
    }

    /// Lets an update that is under way block a node.
    pub fn block_node(&mut self, update_id: u64, node_id: u64)
        requires
            old(self).list().contains_key(update_id),
        ensures
            final(self).next_id() == old(self).next_id(),
            final(self).list() == old(self).list().insert(
                update_id,
                with_once(old(self).list()[update_id], node_id),
            ),
            final(self).blocked() == old(self).blocked().insert(
                node_id,
                with_once(at_or_none(old(self).blocked(), node_id), update_id),
            ),
    {
        let nodes: Vec<u64> = match self.list.remove(&update_id) {
            Some(v) => v,
            None => Vec::new(),
        };
        self.list.insert(update_id, push_once(nodes, node_id));
        let blockers: Vec<u64> = match self.blocked.remove(&node_id) {
            Some(v) => v,
            None => Vec::new(),
        };
        self.blocked.insert(node_id, push_once(blockers, update_id));
        assert(self.list() =~= old(self).list().insert(
            update_id,
            with_once(old(self).list()[update_id], node_id),
        ));
        assert(self.blocked() =~= old(self).blocked().insert(
            node_id,
            with_once(at_or_none(old(self).blocked(), node_id), update_id),
        ));
    }

    /// Lets an update no longer block a node; says whether nothing blocks the node any more.
    pub fn unblock_node(&mut self, update_id: u64, node_id: u64) -> (r: bool)
        ensures
            final(self).next_id() == old(self).next_id(),
            final(self).list() == if old(self).list().contains_key(update_id) {
                old(self).list().insert(
                    update_id,
                    without(old(self).list()[update_id], node_id),
                )
            } else {
                old(self).list()
            },
            final(self).blocked() == unless_empty(
                old(self).blocked(),
                node_id,
                without(at_or_none(old(self).blocked(), node_id), update_id),
            ),
            r == !final(self).blocked().contains_key(node_id),
    {
        let nodes: Option<Vec<u64>> = self.list.remove(&update_id);
        if let Some(v) = nodes {
            self.list.insert(update_id, take_out(v, node_id));
        }
        assert(self.list() =~= if old(self).list().contains_key(update_id) {
            old(self).list().insert(update_id, without(old(self).list()[update_id], node_id))
        } else {
            old(self).list()
        });
        let blockers: Vec<u64> = match self.blocked.remove(&node_id) {
            Some(v) => v,
            None => Vec::new(),
        };
        let left: Vec<u64> = take_out(blockers, update_id);
        let clear: bool = left.len() == 0;
        if !clear {
            self.blocked.insert(node_id, left);
        }
        assert(self.blocked() =~= unless_empty(
            old(self).blocked(),
            node_id,
            without(at_or_none(old(self).blocked(), node_id), update_id),
        ));
        clear
    }

    /// Hands a node over to an update: whatever else blocked it does so no more.
    pub fn reparent(&mut self, node_id: u64, update_id: u64)
        ensures
            final(self).next_id() == old(self).next_id(),
            final(self).list() == if old(self).list().contains_key(update_id) {
                old(self).list().insert(
                    update_id,
                    with_once(old(self).list()[update_id], node_id),
                )
            } else {
                old(self).list()
            },
            final(self).blocked() == if old(self).list().contains_key(update_id) || at_or_none(
                old(self).blocked(),
                node_id,
            ).len() > 0 {
                old(self).blocked().insert(node_id, seq![update_id])
            } else {
                old(self).blocked().remove(node_id)
            },
    {
        let was_blocked: bool = match self.blocked.remove(&node_id) {
            Some(v) => v.len() > 0,
            None => false,
        };
        let nodes: Option<Vec<u64>> = self.list.remove(&update_id);
        let known: bool = nodes.is_some();
        if let Some(v) = nodes {
            self.list.insert(update_id, push_once(v, node_id));
        }
        if was_blocked || known {
            let mut v: Vec<u64> = Vec::new();
            v.push(update_id);
            assert(v@ =~= seq![update_id]);
            self.blocked.insert(node_id, v);
        }
        assert(self.list() =~= if old(self).list().contains_key(update_id) {
            old(self).list().insert(update_id, with_once(old(self).list()[update_id], node_id))
        } else {
            old(self).list()
        });
        assert(self.blocked() =~= if old(self).list().contains_key(update_id) || at_or_none(
            old(self).blocked(),
            node_id,
        ).len() > 0 {
            old(self).blocked().insert(node_id, seq![update_id])
        } else {
            old(self).blocked().remove(node_id)
        });
    }

    /// Ends an update: it blocks nothing any more.
    pub fn finish(&mut self, update_id: u64)
        ensures
            final(self).next_id() == old(self).next_id(),
            final(self).list() == old(self).list().remove(update_id),
            final(self).blocked() == released(
                old(self).blocked(),
                update_id,
                at_or_none(old(self).list(), update_id),
            ),
    {
        let nodes: Vec<u64> = match self.list.remove(&update_id) {
            Some(v) => v,
            None => Vec::new(),
        };
        assert(self.list() =~= old(self).list().remove(update_id));
        assert(nodes@ =~= at_or_none(old(self).list(), update_id));
        let ghost listed = self.list();
        let mut i: usize = 0;
        assert(nodes@.take(0) =~= Seq::<u64>::empty());
        while i < nodes.len()
            invariant
                i <= nodes.len(),
                self.next_id == old(self).next_id,
                self.list() == listed,
                self.blocked() == released(
                    old(self).blocked(),
                    update_id,
                    nodes@.take(i as int),
                ),
            decreases nodes.len() - i,
        {
            let ghost before = self.blocked();
            let ghost t = nodes@.take(i + 1);
            assert(t.drop_last() =~= nodes@.take(i as int));
            assert(t.last() == nodes@[i as int]);
            let n: u64 = nodes[i];
            let blockers: Option<Vec<u64>> = self.blocked.remove(&n);
            if let Some(v) = blockers {
                let left: Vec<u64> = take_out(v, update_id);
                if left.len() > 0 {
                    self.blocked.insert(n, left);
                }
            }
            assert(self.blocked() =~= if before.contains_key(n) {
                unless_empty(before, n, without(before[n], update_id))
            } else {
                before
            });
            i += 1;
        }
        assert(nodes@.take(i as int) =~= nodes@);
    }

    /// Whether any update is under way.
    pub fn pending(&self) -> (r: bool)
        ensures
            r <==> exists|u: u64| self.list().contains_key(u),
    {
        let n: usize = self.list.len();
        proof {
            if n == 0 {
                assert(self.list@.dom() =~= Set::<u64>::empty());
                assert(forall|u: u64| !self.list@.contains_key(u));
            } else {
                let u = self.list@.dom().choose();
                assert(self.list@.dom().contains(u));
                assert(self.list().contains_key(u));
            }
        }
        n > 0
    }
}

/// An update that has ended blocks none of the nodes it blocked.
pub proof fn law_finish_releases(m: Map<u64, Seq<u64>>, update: u64, nodes: Seq<u64>, n: u64)
    requires
        nodes.contains(n),
    ensures
        !at_or_none(released(m, update, nodes), n).contains(update),
    decreases nodes.len(),
{
    let before = released(m, update, nodes.drop_last());
    let l = nodes.last();
    if before.contains_key(l) {
        lemma_without(before[l], update);
    }
    if n != l {
        let i = choose|i: int| 0 <= i < nodes.len() && nodes[i] == n;
        assert(nodes.drop_last()[i] == n);
        law_finish_releases(m, update, nodes.drop_last(), n);
    }
}

/// Ending one update leaves what the others block.
pub proof fn law_finish_keeps_others(
    m: Map<u64, Seq<u64>>,
    update: u64,
    nodes: Seq<u64>,
    n: u64,
    other: u64,
)
    requires
        other != update,
    ensures
        at_or_none(released(m, update, nodes), n).contains(other) <==> at_or_none(
            m,
            n,
        ).contains(other),
    decreases nodes.len(),
{
    if nodes.len() > 0 {
        law_finish_keeps_others(m, update, nodes.drop_last(), n, other);
        let before = released(m, update, nodes.drop_last());
        let l = nodes.last();
        if before.contains_key(l) && n == l {
            lemma_without(before[l], update);
            assert(without(before[l], update).contains(other) <==> before[l].contains(other));
        }
    }
}

/// Whether the writes of all new nodes of an update are over, so that what it holds back may go.
pub fn writes_over(flags: &Vec<NodeFlags>) -> (r: bool)
    ensures
        r == forall|i: int| 0 <= i < flags@.len() ==> !(#[trigger] flags@[i]).write_in_flight,
{
    let mut i: usize = 0;
    while i < flags.len()
        invariant
            i <= flags.len(),
            forall|j: int| 0 <= j < i ==> !(#[trigger] flags@[j]).write_in_flight,
        decreases flags.len() - i,
    {
        if flags[i].write_in_flight {
            return false;
        }
        i += 1;
    }
    true
}

/// The numbers of updates go up by one and start over at one, so zero is the number of none.
pub proof fn law_update_numbers(id: u64)
    ensures
        id_after(id) != 0,
        id < u64::MAX ==> id_after(id) == id + 1,
        id == u64::MAX ==> id_after(id) == 1,
{
}

/// What is put in once is there and not twice, in front of nothing that was there before.
pub proof fn law_put_in_once(s: Seq<u64>, x: u64, y: u64)
    requires
        s.no_duplicates(),
    ensures
        with_once(s, x).contains(y) <==> s.contains(y) || y == x,
        with_once(s, x).no_duplicates(),
        s.contains(x) ==> with_once(s, x) == s,
        !s.contains(x) ==> with_once(s, x).len() == s.len() + 1,
{
    let t = with_once(s, x);
    if !s.contains(x) {
        assert(t[s.len() as int] == x);
        if s.contains(y) {
            let i = choose|i: int| 0 <= i < s.len() && s[i] == y;
            assert(t[i] == y);
        }
        if t.contains(y) && y != x {
            let i = choose|i: int| 0 <= i < t.len() && t[i] == y;
            assert(s[i] == y);
        }
    }
}

/// What is taken out is gone, and all else stays.
pub proof fn law_taken_out(s: Seq<u64>, x: u64, y: u64)
    ensures
        without(s, x).contains(y) <==> s.contains(y) && y != x,
        without(s, x).len() <= s.len(),
{
    lemma_without(s, x);
}

} // verus!
