//! What an iterator over the layers of a node gives in all.

use crate::bset::{
    back_of, before, first_at, first_layer, has_at, last_at, last_layer, layers_ok, left_of,
    lemma_before_exists, lemma_step, lemma_step_back, moved, moved_back, next_rec, passed_over,
    prev_rec, rec_at, BsetTree, MAX_BSETS,
};
use crate::key::BtreeEntry;
use vstd::prelude::*;

verus! {

/// The record that a step comes upon in layer `i`, with its layer, if it is not passed over.
pub open spec fn step_gives(sets: Seq<BsetTree>, at: Seq<u16>, i: int, skip_ptrs: bool) -> Seq<
    (int, BtreeEntry),
> {
    let e = rec_at(sets, at, i);
    if passed_over(e, skip_ptrs) {
        Seq::empty()
    } else {
        seq![(i, e)]
    }
}

/// All that the iterator gives from the places `at` on, each record with its layer.
pub open spec fn gives(sets: Seq<BsetTree>, at: Seq<u16>, nr: int, skip_ptrs: bool) -> Seq<
    (int, BtreeEntry),
>
    decreases
            left_of(sets, at, nr, 0) + left_of(sets, at, nr, 1) + left_of(sets, at, nr, 2),
    when layers_ok(sets, nr) && at.len() == MAX_BSETS && nr <= MAX_BSETS
    via gives_ends
{
    match first_layer(sets, at, nr) {
        None => Seq::empty(),
        Some(i) => step_gives(sets, at, i, skip_ptrs) + gives(sets, moved(at, i), nr, skip_ptrs),
    }
}

#[via_fn]
proof fn gives_ends(sets: Seq<BsetTree>, at: Seq<u16>, nr: int, skip_ptrs: bool) {
    if let Some(i) = first_layer(sets, at, nr) {
        assert(first_at(sets, at, nr, i));
        lemma_step(sets, at, nr, i);
    }
}

/// All that the iterator gives from the places `at` backwards, each record with its layer.
pub open spec fn gives_back(sets: Seq<BsetTree>, at: Seq<u16>, nr: int, skip_ptrs: bool) -> Seq<
    (int, BtreeEntry),
>
    decreases
            back_of(sets, at, nr, 0) + back_of(sets, at, nr, 1) + back_of(sets, at, nr, 2),
    when layers_ok(sets, nr) && at.len() == MAX_BSETS && nr <= MAX_BSETS
    via gives_back_ends
{
    match last_layer(sets, at, nr) {
        None => Seq::empty(),
        Some(i) => step_gives(sets, at, i, skip_ptrs) + gives_back(
            sets,
            moved_back(at, i),
            nr,
            skip_ptrs,
        ),
    }
}

#[via_fn]
proof fn gives_back_ends(sets: Seq<BsetTree>, at: Seq<u16>, nr: int, skip_ptrs: bool) {
    if let Some(i) = last_layer(sets, at, nr) {
        assert(last_at(sets, at, nr, i));
        lemma_step_back(sets, at, nr, i);
    }
}

/// What one call gives is the first of what all calls give, and the rest is left for the others.
pub proof fn lemma_gives_step(sets: Seq<BsetTree>, at: Seq<u16>, nr: int, skip_ptrs: bool)
    requires
        layers_ok(sets, nr),
        at.len() == MAX_BSETS,
        nr <= MAX_BSETS,
    ensures
        ({
            let x = next_rec(sets, at, nr, skip_ptrs);
            gives(sets, at, nr, skip_ptrs) == match x.0 {
                Some(p) => seq![p] + gives(sets, x.1, nr, skip_ptrs),
                None => Seq::empty(),
            }
        }),
    decreases left_of(sets, at, nr, 0) + left_of(sets, at, nr, 1) + left_of(sets, at, nr, 2),
{
    if let Some(i) = first_layer(sets, at, nr) {
        assert(first_at(sets, at, nr, i));
        lemma_step(sets, at, nr, i);
        if passed_over(rec_at(sets, at, i), skip_ptrs) {
            lemma_gives_step(sets, moved(at, i), nr, skip_ptrs);
            let rest = gives(sets, moved(at, i), nr, skip_ptrs);
            assert(Seq::<(int, BtreeEntry)>::empty() + rest =~= rest);
        }
    }
}

/// What one call gives is the first of what all calls give backwards, and the rest is left for the
/// others.
pub proof fn lemma_gives_step_back(sets: Seq<BsetTree>, at: Seq<u16>, nr: int, skip_ptrs: bool)
    requires
        layers_ok(sets, nr),
        at.len() == MAX_BSETS,
        nr <= MAX_BSETS,
    ensures
        ({
            let x = prev_rec(sets, at, nr, skip_ptrs);
            gives_back(sets, at, nr, skip_ptrs) == match x.0 {
                Some(p) => seq![p] + gives_back(sets, x.1, nr, skip_ptrs),
                None => Seq::empty(),
            }
        }),
    decreases back_of(sets, at, nr, 0) + back_of(sets, at, nr, 1) + back_of(sets, at, nr, 2),
{
    if let Some(i) = last_layer(sets, at, nr) {
        assert(last_at(sets, at, nr, i));
        lemma_step_back(sets, at, nr, i);
        if passed_over(rec_at(sets, at, i), skip_ptrs) {
            lemma_gives_step_back(sets, moved_back(at, i), nr, skip_ptrs);
            let rest = gives_back(sets, moved_back(at, i), nr, skip_ptrs);
            assert(Seq::<(int, BtreeEntry)>::empty() + rest =~= rest);
        }
    }
}

/// Some layer has the first record, if any has one.
proof fn lemma_some_first(sets: Seq<BsetTree>, at: Seq<u16>, nr: int, j: int)
    requires
        has_at(sets, at, nr, j),
    ensures
        exists|i: int| first_at(sets, at, nr, i),
    decreases nr,
{
    let m = nr - 1;
    assert forall|k: int| #[trigger] has_at(sets, at, nr, k) <==> has_at(sets, at, m, k) || (k == m
        && at[m] < sets[m].bset.entries@.len()) by {}
    if exists|k: int| has_at(sets, at, m, k) {
        let k = choose|k: int| has_at(sets, at, m, k);
        lemma_some_first(sets, at, m, k);
        let b = choose|i: int| first_at(sets, at, m, i);
        if has_at(sets, at, nr, m) && rec_at(sets, at, m).pos.ord() < rec_at(
            sets,
            at,
            b,
        ).pos.ord() {
            assert(first_at(sets, at, nr, m));
        } else {
            assert(first_at(sets, at, nr, b));
        }
    } else {
        assert(j == m);
        assert(first_at(sets, at, nr, m));
    }
}

/// Some layer has the last record, if any has one.
proof fn lemma_some_last(sets: Seq<BsetTree>, at: Seq<u16>, nr: int, j: int)
    requires
        has_at(sets, at, nr, j),
    ensures
        exists|i: int| last_at(sets, at, nr, i),
    decreases nr,
{
    let m = nr - 1;
    assert forall|k: int| #[trigger] has_at(sets, at, nr, k) <==> has_at(sets, at, m, k) || (k == m
        && at[m] < sets[m].bset.entries@.len()) by {}
    if exists|k: int| has_at(sets, at, m, k) {
        let k = choose|k: int| has_at(sets, at, m, k);
        lemma_some_last(sets, at, m, k);
        let b = choose|i: int| last_at(sets, at, m, i);
        if has_at(sets, at, nr, m) && rec_at(sets, at, m).pos.ord() > rec_at(
            sets,
            at,
            b,
        ).pos.ord() {
            assert(last_at(sets, at, nr, m));
        } else {
            assert(last_at(sets, at, nr, b));
        }
    } else {
        assert(j == m);
        assert(last_at(sets, at, nr, m));
    }
}

/// Positions do not descend, and of records at one position the earlier layer's comes first.
pub open spec fn ascends(s: Seq<(int, BtreeEntry)>) -> bool {
    forall|a: int, b: int|
        0 <= a < b < s.len() ==> {
            ||| (#[trigger] s[a]).1.pos.ord() < (#[trigger] s[b]).1.pos.ord()
            ||| s[a].1.pos.ord() == s[b].1.pos.ord() && s[a].0 < s[b].0
        }
}

/// Positions do not ascend, and of records at one position the earlier layer's comes first.
pub open spec fn descends(s: Seq<(int, BtreeEntry)>) -> bool {
    forall|a: int, b: int|
        0 <= a < b < s.len() ==> {
            ||| (#[trigger] s[a]).1.pos.ord() > (#[trigger] s[b]).1.pos.ord()
            ||| s[a].1.pos.ord() == s[b].1.pos.ord() && s[a].0 < s[b].0
        }
}

/// Record `e` stands in layer `i` at one of the places from `lo` up to `hi`.
pub open spec fn stands(sets: Seq<BsetTree>, i: int, e: BtreeEntry, lo: int, hi: int) -> bool {
    exists|k: int|
        lo <= k < hi && 0 <= k < sets[i].bset.entries@.len() && #[trigger] sets[i].bset.entries@[k]
            == e
}

/// What the iterator gives is what stands at its places and after them, in order.
proof fn lemma_gives(sets: Seq<BsetTree>, at: Seq<u16>, nr: int, skip_ptrs: bool)
    requires
        layers_ok(sets, nr),
        at.len() == MAX_BSETS,
        nr <= MAX_BSETS,
    ensures
        ascends(gives(sets, at, nr, skip_ptrs)),
        forall|p: (int, BtreeEntry)| #[trigger]
            gives(sets, at, nr, skip_ptrs).contains(p) <==> 0 <= p.0 < nr && !passed_over(
                p.1,
                skip_ptrs,
            ) && stands(
                sets,
                p.0,
                p.1,
                at[p.0] as int,
                sets[p.0].bset.entries@.len() as int,
            ),
    decreases left_of(sets, at, nr, 0) + left_of(sets, at, nr, 1) + left_of(sets, at, nr, 2),
{
    let out = gives(sets, at, nr, skip_ptrs);
    match first_layer(sets, at, nr) {
        None => {
            assert forall|p: (int, BtreeEntry)| #[trigger] out.contains(p) <==> 0 <= p.0 < nr
                && !passed_over(p.1, skip_ptrs) && stands(
                sets,
                p.0,
                p.1,
                at[p.0] as int,
                sets[p.0].bset.entries@.len() as int,
            ) by {
                if has_at(sets, at, nr, p.0) {
                    lemma_some_first(sets, at, nr, p.0);
                }
            }
        },
        Some(i) => {
            assert(first_at(sets, at, nr, i));
            assert(sets[i].wf());
            let s = sets[i].bset.entries@;
            let e = rec_at(sets, at, i);
            let t = moved(at, i);
            let head = step_gives(sets, at, i, skip_ptrs);
            let rest = gives(sets, t, nr, skip_ptrs);
            lemma_step(sets, at, nr, i);
            lemma_gives(sets, t, nr, skip_ptrs);
            assert(t[i] == at[i] + 1);
            assert(forall|j: int| 0 <= j < 3 && j != i ==> t[j] == at[j]);
            assert forall|p: (int, BtreeEntry)| #[trigger] out.contains(p) <==> 0 <= p.0 < nr
                && !passed_over(p.1, skip_ptrs) && stands(
                sets,
                p.0,
                p.1,
                at[p.0] as int,
                sets[p.0].bset.entries@.len() as int,
            ) by {
                lemma_cat_contains(head, rest, p);
                assert(rest.contains(p) <==> 0 <= p.0 < nr && !passed_over(p.1, skip_ptrs)
                    && stands(
                    sets,
                    p.0,
                    p.1,
                    t[p.0] as int,
                    sets[p.0].bset.entries@.len() as int,
                ));
                if !passed_over(e, skip_ptrs) {
                    assert(head[0] == (i, e));
                }
                assert(head.contains(p) <==> p == (i, e) && !passed_over(e, skip_ptrs));
                assert(s[at[i] as int] == e);
            }
            assert forall|a: int, b: int| 0 <= a < b < out.len() implies {
                ||| (#[trigger] out[a]).1.pos.ord() < (#[trigger] out[b]).1.pos.ord()
                ||| out[a].1.pos.ord() == out[b].1.pos.ord() && out[a].0 < out[b].0
            } by {
                let h = head.len() as int;
                assert(out[b] == rest[b - h]);
                if a >= h {
                    assert(out[a] == rest[a - h]);
                } else {
                    let p = rest[b - h];
                    assert(rest.contains(p));
                    let k = choose|k: int|
                        t[p.0] <= k < sets[p.0].bset.entries@.len() && 0 <= k
                            && #[trigger] sets[p.0].bset.entries@[k] == p.1;
                    assert(sets[p.0].wf());
                    if p.0 == i {
                        assert(s[at[i] as int].pos.ord() < s[k].pos.ord());
                    } else {
                        assert(has_at(sets, at, nr, p.0));
                        if at[p.0] < k {
                            assert(rec_at(sets, at, p.0).pos.ord()
                                < sets[p.0].bset.entries@[k].pos.ord());
                        }
                    }
                }
            }
        },
    }
}

/// What the iterator gives backwards is what stands at its places and before them, in order.
proof fn lemma_gives_back(sets: Seq<BsetTree>, at: Seq<u16>, nr: int, skip_ptrs: bool)
    requires
        layers_ok(sets, nr),
        at.len() == MAX_BSETS,
        nr <= MAX_BSETS,
    ensures
        descends(gives_back(sets, at, nr, skip_ptrs)),
        forall|p: (int, BtreeEntry)| #[trigger]
            gives_back(sets, at, nr, skip_ptrs).contains(p) <==> has_at(sets, at, nr, p.0)
                && !passed_over(p.1, skip_ptrs) && stands(sets, p.0, p.1, 0, at[p.0] + 1),
    decreases back_of(sets, at, nr, 0) + back_of(sets, at, nr, 1) + back_of(sets, at, nr, 2),
{
    let out = gives_back(sets, at, nr, skip_ptrs);
    match last_layer(sets, at, nr) {
        None => {
            assert forall|p: (int, BtreeEntry)| #[trigger] out.contains(p) <==> has_at(
                sets,
                at,
                nr,
                p.0,
            ) && !passed_over(p.1, skip_ptrs) && stands(sets, p.0, p.1, 0, at[p.0] + 1) by {
                if has_at(sets, at, nr, p.0) {
                    lemma_some_last(sets, at, nr, p.0);
                }
            }
        },
        Some(i) => {
            assert(last_at(sets, at, nr, i));
            assert(sets[i].wf());
            let s = sets[i].bset.entries@;
            let e = rec_at(sets, at, i);
            let t = moved_back(at, i);
            let head = step_gives(sets, at, i, skip_ptrs);
            let rest = gives_back(sets, t, nr, skip_ptrs);
            lemma_step_back(sets, at, nr, i);
            lemma_gives_back(sets, t, nr, skip_ptrs);
            assert(at[i] > 0 ==> t[i] == at[i] - 1);
            assert(at[i] == 0 ==> !has_at(sets, t, nr, i));
            assert(forall|j: int| 0 <= j < 3 && j != i ==> t[j] == at[j]);
            assert forall|p: (int, BtreeEntry)| #[trigger] out.contains(p) <==> has_at(
                sets,
                at,
                nr,
                p.0,
            ) && !passed_over(p.1, skip_ptrs) && stands(sets, p.0, p.1, 0, at[p.0] + 1) by {
                lemma_cat_contains(head, rest, p);
                assert(rest.contains(p) <==> has_at(sets, t, nr, p.0) && !passed_over(
                    p.1,
                    skip_ptrs,
                ) && stands(sets, p.0, p.1, 0, t[p.0] + 1));
                if !passed_over(e, skip_ptrs) {
                    assert(head[0] == (i, e));
                }
                assert(head.contains(p) <==> p == (i, e) && !passed_over(e, skip_ptrs));
                assert(s[at[i] as int] == e);
            }
            assert forall|a: int, b: int| 0 <= a < b < out.len() implies {
                ||| (#[trigger] out[a]).1.pos.ord() > (#[trigger] out[b]).1.pos.ord()
                ||| out[a].1.pos.ord() == out[b].1.pos.ord() && out[a].0 < out[b].0
            } by {
                let h = head.len() as int;
                assert(out[b] == rest[b - h]);
                if a >= h {
                    assert(out[a] == rest[a - h]);
                } else {
                    let p = rest[b - h];
                    assert(rest.contains(p));
                    assert(has_at(sets, t, nr, p.0));
                    let k = choose|k: int|
                        0 <= k < t[p.0] + 1 && 0 <= k < sets[p.0].bset.entries@.len()
                            && #[trigger] sets[p.0].bset.entries@[k] == p.1;
                    assert(sets[p.0].wf());
                    if p.0 == i {
                        assert(s[k].pos.ord() < s[at[i] as int].pos.ord());
                    } else {
                        assert(has_at(sets, at, nr, p.0));
                        if k < at[p.0] {
                            assert(sets[p.0].bset.entries@[k].pos.ord() < rec_at(
                                sets,
                                at,
                                p.0,
                            ).pos.ord());
                        }
                    }
                }
            }
        },
    }
}

proof fn lemma_cat_contains(
    a: Seq<(int, BtreeEntry)>,
    b: Seq<(int, BtreeEntry)>,
    p: (int, BtreeEntry),
)
    ensures
        (a + b).contains(p) <==> a.contains(p) || b.contains(p),
{
    let c = a + b;
    if c.contains(p) {
        let i = choose|i: int| 0 <= i < c.len() && c[i] == p;
        if i < a.len() {
            assert(a[i] == p);
        } else {
            assert(b[i - a.len()] == p);
        }
    }
    if a.contains(p) {
        let i = choose|i: int| 0 <= i < a.len() && a[i] == p;
        assert(c[i] == p);
    }
    if b.contains(p) {
        let i = choose|i: int| 0 <= i < b.len() && b[i] == p;
        assert(c[i + a.len()] == p);
    }
}

/// Called until nothing is left, an iterator that was sent to rank `k` gives every record of the
/// first `nr` layers at or after it, each once and with its layer, in ascending order; records at
/// one position come in the order of their layers. Records that point at nodes are left out where
/// they are to be passed over, and nothing else is.
pub proof fn law_next_gives_all(
    sets: Seq<BsetTree>,
    at: Seq<u16>,
    nr: int,
    k: int,
    skip_ptrs: bool,
)
    requires
        layers_ok(sets, nr),
        at.len() == MAX_BSETS,
        nr <= MAX_BSETS,
        forall|i: int|
            0 <= i < nr ==> #[trigger] at[i] == before(sets[i].bset.entries@, k),
    ensures
        ascends(gives(sets, at, nr, skip_ptrs)),
        gives(sets, at, nr, skip_ptrs).no_duplicates(),
        forall|p: (int, BtreeEntry)| #[trigger]
            gives(sets, at, nr, skip_ptrs).contains(p) <==> 0 <= p.0 < nr
                && sets[p.0].bset.entries@.contains(p.1) && p.1.pos.ord() >= k && !passed_over(
                p.1,
                skip_ptrs,
            ),
{
    let out = gives(sets, at, nr, skip_ptrs);
    lemma_gives(sets, at, nr, skip_ptrs);
    assert forall|p: (int, BtreeEntry)| #[trigger] out.contains(p) <==> 0 <= p.0 < nr
        && sets[p.0].bset.entries@.contains(p.1) && p.1.pos.ord() >= k && !passed_over(
        p.1,
        skip_ptrs,
    ) by {
        if 0 <= p.0 < nr {
            let s = sets[p.0].bset.entries@;
            assert(sets[p.0].wf());
            lemma_before_exists(s, k);
            assert(at[p.0] == before(s, k));
            if stands(sets, p.0, p.1, at[p.0] as int, s.len() as int) {
                let j = choose|j: int|
                    at[p.0] <= j < s.len() && 0 <= j < s.len() && #[trigger] s[j] == p.1;
                assert(s[j].pos.ord() >= k);
            }
            if s.contains(p.1) && p.1.pos.ord() >= k {
                let j = choose|j: int| 0 <= j < s.len() && s[j] == p.1;
                assert(sets[p.0].bset.entries@[j] == p.1);
                assert(j >= at[p.0]);
            }
        }
    }
}

/// Called until nothing is left, an iterator that was sent to the last records before rank `k`
/// gives every record of the first `nr` layers before it, each once and with its layer, the first
/// of each layer with them, in descending order. Records that point at nodes are left out where
/// they are to be passed over, and nothing else is.
pub proof fn law_prev_gives_all(
    sets: Seq<BsetTree>,
    at: Seq<u16>,
    nr: int,
    k: int,
    skip_ptrs: bool,
)
    requires
        layers_ok(sets, nr),
        at.len() == MAX_BSETS,
        nr <= MAX_BSETS,
        forall|i: int|
            0 <= i < nr ==> #[trigger] at[i] == {
                let s = sets[i].bset.entries@;
                if before(s, k) > 0 {
                    before(s, k) - 1
                } else {
                    s.len() as int
                }
            },
    ensures
        descends(gives_back(sets, at, nr, skip_ptrs)),
        gives_back(sets, at, nr, skip_ptrs).no_duplicates(),
        forall|p: (int, BtreeEntry)| #[trigger]
            gives_back(sets, at, nr, skip_ptrs).contains(p) <==> 0 <= p.0 < nr
                && sets[p.0].bset.entries@.contains(p.1) && p.1.pos.ord() < k && !passed_over(
                p.1,
                skip_ptrs,
            ),
{
    let out = gives_back(sets, at, nr, skip_ptrs);
    lemma_gives_back(sets, at, nr, skip_ptrs);
    assert forall|p: (int, BtreeEntry)| #[trigger] out.contains(p) <==> 0 <= p.0 < nr
        && sets[p.0].bset.entries@.contains(p.1) && p.1.pos.ord() < k && !passed_over(
        p.1,
        skip_ptrs,
    ) by {
        if 0 <= p.0 < nr {
            let s = sets[p.0].bset.entries@;
            assert(sets[p.0].wf());
            lemma_before_exists(s, k);
            let n = before(s, k);
            assert(at[p.0] == if n > 0 {
                n - 1
            } else {
                s.len() as int
            });
            if has_at(sets, at, nr, p.0) && stands(sets, p.0, p.1, 0, at[p.0] + 1) {
                let j = choose|j: int|
                    0 <= j < at[p.0] + 1 && 0 <= j < s.len() && #[trigger] s[j] == p.1;
                assert(s[j].pos.ord() < k);
            }
            if s.contains(p.1) && p.1.pos.ord() < k {
                let j = choose|j: int| 0 <= j < s.len() && s[j] == p.1;
                assert(sets[p.0].bset.entries@[j] == p.1);
                assert(j < n);
            }
        }
    }
}

} // verus!
