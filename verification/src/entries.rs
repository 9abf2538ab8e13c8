//! Sorted runs of entries: what they hold and how much room they take.

use crate::key::{Bpos, EntryView, KeyEntry, KeyType, BKEY_U64S_MAX};
use vstd::prelude::*;

verus! {

/// Strictly ascending positions.
pub open spec fn sorted(s: Seq<EntryView>) -> bool {
    forall|i: int, j: int|
        0 <= i < j < s.len() ==> (#[trigger] s[i]).pos.ord() < (#[trigger] s[j]).pos.ord()
}

/// Some entry of `s` stands at rank `k`.
pub open spec fn holds(s: Seq<EntryView>, k: int) -> bool {
    exists|i: int| 0 <= i < s.len() && (#[trigger] s[i]).pos.ord() == k
}

/// The entry of `s` at rank `k`.
#[verifier::opaque]
pub open spec fn find(s: Seq<EntryView>, k: int) -> Option<EntryView> {
    if holds(s, k) {
        Some(s[choose|i: int| 0 <= i < s.len() && (#[trigger] s[i]).pos.ord() == k])
    } else {
        None
    }
}

/// Words that the entries of `s` take when packed.
pub open spec fn widths(s: Seq<EntryView>) -> nat
    decreases s.len(),
{
    if s.len() == 0 {
        0
    } else {
        widths(s.drop_last()) + s.last().u64s()
    }
}

/// Each entry of `s` can be packed.
pub open spec fn packable(s: Seq<EntryView>) -> bool {
    forall|i: int| 0 <= i < s.len() ==> (#[trigger] s[i]).u64s() <= BKEY_U64S_MAX
}

/// No entry of `s` is a tombstone.
pub open spec fn alive(s: Seq<EntryView>) -> bool {
    forall|i: int| 0 <= i < s.len() ==> (#[trigger] s[i]).key_type != KeyType::Deleted
}

pub proof fn lemma_find_at(s: Seq<EntryView>, i: int)
    requires
        sorted(s),
        0 <= i < s.len(),
    ensures
        find(s, s[i].pos.ord()) == Some(s[i]),
{
    reveal(find);
    let k = s[i].pos.ord();
    assert(holds(s, k));
    let j = choose|j: int| 0 <= j < s.len() && (#[trigger] s[j]).pos.ord() == k;
    if j < i {
        assert(s[j].pos.ord() < s[i].pos.ord());
    }
    if i < j {
        assert(s[i].pos.ord() < s[j].pos.ord());
    }
}

/// What `find` returns is an entry of the run, at the rank asked for.
pub proof fn lemma_find_some(s: Seq<EntryView>, k: int) -> (i: int)
    requires
        find(s, k) is Some,
    ensures
        0 <= i < s.len(),
        find(s, k) == Some(s[i]),
        s[i].pos.ord() == k,
{
    reveal(find);
    choose|i: int| 0 <= i < s.len() && (#[trigger] s[i]).pos.ord() == k
}

pub proof fn lemma_find_holds(s: Seq<EntryView>, k: int)
    ensures
        find(s, k) is Some <==> holds(s, k),
{
    reveal(find);
}

/// In a concatenation of two runs, a rank is found in the one or the other.
pub proof fn lemma_find_concat(a: Seq<EntryView>, b: Seq<EntryView>, k: int)
    requires
        sorted(a + b),
    ensures
        find(a + b, k) == (match find(a, k) {
            Some(e) => Some(e),
            None => find(b, k),
        }),
{
    reveal(find);
    let s = a + b;
    assert forall|i: int, j: int| 0 <= i < j < a.len() implies (#[trigger] a[i]).pos.ord() < (
    #[trigger] a[j]).pos.ord() by {
        assert(s[i] == a[i] && s[j] == a[j]);
    }
    assert forall|i: int, j: int| 0 <= i < j < b.len() implies (#[trigger] b[i]).pos.ord() < (
    #[trigger] b[j]).pos.ord() by {
        assert(s[i + a.len()] == b[i] && s[j + a.len()] == b[j]);
    }
    if holds(a, k) {
        let i = lemma_find_some(a, k);
        assert(s[i] == a[i]);
        lemma_find_at(s, i);
    } else if holds(b, k) {
        let i = lemma_find_some(b, k);
        assert(s[i + a.len()] == b[i]);
        lemma_find_at(s, i + a.len());
    } else {
        if holds(s, k) {
            let i = lemma_find_some(s, k);
            if i < a.len() {
                assert(a[i] == s[i]);
            } else {
                assert(b[i - a.len()] == s[i]);
            }
        }
    }
}

pub proof fn lemma_sorted_sub(s: Seq<EntryView>, i: int, j: int)
    requires
        sorted(s),
        0 <= i <= j <= s.len(),
    ensures
        sorted(s.subrange(i, j)),
{
    let t = s.subrange(i, j);
    assert forall|x: int, y: int| 0 <= x < y < t.len() implies (#[trigger] t[x]).pos.ord() < (
    #[trigger] t[y]).pos.ord() by {
        assert(t[x] == s[i + x] && t[y] == s[i + y]);
    }
}

pub proof fn lemma_widths_concat(a: Seq<EntryView>, b: Seq<EntryView>)
    ensures
        widths(a + b) == widths(a) + widths(b),
    decreases b.len(),
{
    if b.len() == 0 {
        assert(a + b =~= a);
    } else {
        lemma_widths_concat(a, b.drop_last());
        assert((a + b).drop_last() =~= a + b.drop_last());
        assert((a + b).last() == b.last());
    }
}

pub proof fn lemma_widths_one(e: EntryView)
    ensures
        widths(seq![e]) == e.u64s(),
{
    assert(seq![e].drop_last() =~= Seq::<EntryView>::empty());
    reveal_with_fuel(widths, 2);
}

pub proof fn lemma_widths_insert(s: Seq<EntryView>, i: int, e: EntryView)
    requires
        0 <= i <= s.len(),
    ensures
        widths(s.insert(i, e)) == widths(s) + e.u64s(),
{
    let a = s.subrange(0, i);
    let b = s.subrange(i, s.len() as int);
    assert(s =~= a + b);
    assert(s.insert(i, e) =~= a + (seq![e] + b));
    lemma_widths_concat(a, b);
    lemma_widths_concat(a, seq![e] + b);
    lemma_widths_concat(seq![e], b);
    lemma_widths_one(e);
}

pub proof fn lemma_widths_remove(s: Seq<EntryView>, i: int)
    requires
        0 <= i < s.len(),
    ensures
        widths(s) == widths(s.remove(i)) + s[i].u64s(),
{
    assert(s.remove(i).insert(i, s[i]) =~= s);
    lemma_widths_insert(s.remove(i), i, s[i]);
}

pub proof fn lemma_widths_update(s: Seq<EntryView>, i: int, e: EntryView)
    requires
        0 <= i < s.len(),
    ensures
        widths(s.update(i, e)) + s[i].u64s() == widths(s) + e.u64s(),
{
    assert(s.update(i, e) =~= s.remove(i).insert(i, e));
    lemma_widths_insert(s.remove(i), i, e);
    lemma_widths_remove(s, i);
}

pub proof fn lemma_widths_split(s: Seq<EntryView>, i: int)
    requires
        0 <= i <= s.len(),
    ensures
        widths(s) == widths(s.subrange(0, i)) + widths(s.subrange(i, s.len() as int)),
{
    assert(s =~= s.subrange(0, i) + s.subrange(i, s.len() as int));
    lemma_widths_concat(s.subrange(0, i), s.subrange(i, s.len() as int));
}

/// Each entry takes at least the words of its key.
pub proof fn lemma_widths_len(s: Seq<EntryView>)
    ensures
        3 * s.len() <= widths(s),
    decreases s.len(),
{
    if s.len() > 0 {
        lemma_widths_len(s.drop_last());
    }
}

/// Every entry of a run fits in the run's width.
pub proof fn lemma_width_le(s: Seq<EntryView>, i: int)
    requires
        0 <= i < s.len(),
    ensures
        s[i].u64s() <= widths(s),
{
    lemma_widths_remove(s, i);
}

/// `t` is `s` with `e` put in place of whatever stood at its rank; a tombstone leaves nothing there.
pub open spec fn upserted(s: Seq<EntryView>, t: Seq<EntryView>, e: EntryView) -> bool {
    &&& sorted(t)
    &&& forall|k: int|
        #[trigger] find(t, k) == if k == e.pos.ord() {
            if e.key_type == KeyType::Deleted {
                None
            } else {
                Some(e)
            }
        } else {
            find(s, k)
        }
}

/// `t` is `s` with `e` put in place of whatever stood at its rank.
pub open spec fn placed(s: Seq<EntryView>, t: Seq<EntryView>, e: EntryView) -> bool {
    &&& sorted(t)
    &&& forall|k: int|
        #[trigger] find(t, k) == if k == e.pos.ord() {
            Some(e)
        } else {
            find(s, k)
        }
}

/// `t` is `s` without what stood at rank `k`.
pub open spec fn removed(s: Seq<EntryView>, t: Seq<EntryView>, k: int) -> bool {
    &&& sorted(t)
    &&& forall|x: int|
        #[trigger] find(t, x) == if x == k {
            None
        } else {
            find(s, x)
        }
}

/// The rank that stands first among those of `s` at or after `k`.
pub open spec fn lower_bound_at(s: Seq<EntryView>, k: int, r: int) -> bool {
    &&& 0 <= r <= s.len()
    &&& forall|i: int| 0 <= i < r ==> (#[trigger] s[i]).pos.ord() < k
    &&& forall|i: int| r <= i < s.len() ==> (#[trigger] s[i]).pos.ord() >= k
}

/// The number of entries of `s` before rank `k`.
#[verifier::opaque]
pub open spec fn lb(s: Seq<EntryView>, k: int) -> int {
    choose|r: int| lower_bound_at(s, k, r)
}

pub proof fn lemma_lb(s: Seq<EntryView>, k: int, r: int)
    requires
        lower_bound_at(s, k, r),
    ensures
        lb(s, k) == r,
{
    reveal(lb);
    let q = lb(s, k);
    assert(lower_bound_at(s, k, q));
    if q < r {
        assert(s[q].pos.ord() < k);
    }
    if r < q {
        assert(s[r].pos.ord() < k);
    }
}

/// `s` with the live entry `e` put in place of whatever stood at its rank.
#[verifier::opaque]
pub open spec fn put(s: Seq<EntryView>, e: EntryView) -> Seq<EntryView> {
    let i = lb(s, e.pos.ord());
    if holds(s, e.pos.ord()) {
        s.update(i, e)
    } else {
        s.insert(i, e)
    }
}

/// The entries of a node as mathematical values.
pub open spec fn keys(s: Seq<KeyEntry>) -> Seq<EntryView> {
    s.map_values(|e: KeyEntry| e@)
}

/// Index of the first entry at or after `pos`.
pub fn lower_bound(v: &Vec<KeyEntry>, pos: &Bpos) -> (r: usize)
    requires
        sorted(keys(v@)),
    ensures
        lower_bound_at(keys(v@), pos.ord(), r as int),
{
    let mut lo: usize = 0;
    let mut hi: usize = v.len();
    let ghost s = keys(v@);
    while lo < hi
        invariant
            lo <= hi <= v.len(),
            s == keys(v@),
            sorted(s),
            forall|i: int| 0 <= i < lo ==> (#[trigger] s[i]).pos.ord() < pos.ord(),
            forall|i: int| hi <= i < v.len() ==> (#[trigger] s[i]).pos.ord() >= pos.ord(),
        decreases hi - lo,
    {
        let mid: usize = lo + (hi - lo) / 2;
        assert(s[mid as int].pos == v@[mid as int].pos);
        if v[mid].pos.precedes(pos) {
            assert forall|i: int| 0 <= i < mid + 1 implies (#[trigger] s[i]).pos.ord()
                < pos.ord() by {
                if i < mid {
                    assert(s[i].pos.ord() < s[mid as int].pos.ord());
                }
            }
            lo = mid + 1;
        } else {
            assert forall|i: int| mid <= i < v.len() implies (#[trigger] s[i]).pos.ord()
                >= pos.ord() by {
                if i > mid {
                    assert(s[mid as int].pos.ord() < s[i].pos.ord());
                }
            }
            hi = mid;
        }
    }
    lo
}

/// A rank that its lower bound does not hit is not in the run.
pub proof fn lemma_lower_bound(s: Seq<EntryView>, k: int, r: int)
    requires
        sorted(s),
        lower_bound_at(s, k, r),
    ensures
        r < s.len() && s[r].pos.ord() == k ==> find(s, k) == Some(s[r]),
        !(r < s.len() && s[r].pos.ord() == k) ==> find(s, k) is None,
        holds(s, k) == (r < s.len() && s[r].pos.ord() == k),
{
    reveal(find);
    if r < s.len() && s[r].pos.ord() == k {
        lemma_find_at(s, r);
    } else if holds(s, k) {
        let i = lemma_find_some(s, k);
        if i < r {
        } else if i == r {
        } else {
            assert(s[r].pos.ord() < s[i].pos.ord());
        }
    }
}

/// Taking away what is not there changes nothing.
pub proof fn lemma_find_none_removed(s: Seq<EntryView>, k: int)
    requires
        sorted(s),
    ensures
        !holds(s, k) ==> removed(s, s, k),
{
    reveal(find);
}

/// What `put` comes to at the lower bound of the entry's rank.
pub proof fn lemma_put(s: Seq<EntryView>, e: EntryView, r: int)
    requires
        sorted(s),
        lower_bound_at(s, e.pos.ord(), r),
    ensures
        placed(s, put(s, e), e),
        e.key_type != KeyType::Deleted ==> upserted(s, put(s, e), e),
        alive(s) && e.key_type != KeyType::Deleted ==> alive(put(s, e)),
        packable(s) && e.u64s() <= BKEY_U64S_MAX ==> packable(put(s, e)),
        r < s.len() && s[r].pos.ord() == e.pos.ord() ==> {
            &&& put(s, e) == s.update(r, e)
            &&& widths(put(s, e)) + s[r].u64s() == widths(s) + e.u64s()
        },
        !(r < s.len() && s[r].pos.ord() == e.pos.ord()) ==> {
            &&& put(s, e) == s.insert(r, e)
            &&& widths(put(s, e)) == widths(s) + e.u64s()
        },
{
    reveal(put);
    lemma_lower_bound(s, e.pos.ord(), r);
    lemma_lb(s, e.pos.ord(), r);
    if r < s.len() && s[r].pos.ord() == e.pos.ord() {
        lemma_update_at(s, r, e);
        lemma_widths_update(s, r, e);
    } else {
        lemma_insert_at(s, r, e);
        lemma_widths_insert(s, r, e);
        let t = s.insert(r, e);
        assert(forall|j: int| 0 <= j < t.len() ==> #[trigger] t[j] == if j < r {
            s[j]
        } else if j == r {
            e
        } else {
            s[j - 1]
        });
    }
}

pub proof fn lemma_insert_at(s: Seq<EntryView>, r: int, e: EntryView)
    requires
        sorted(s),
        lower_bound_at(s, e.pos.ord(), r),
        find(s, e.pos.ord()) is None,
    ensures
        placed(s, s.insert(r, e), e),
{
    reveal(find);
    let t = s.insert(r, e);
    lemma_lower_bound(s, e.pos.ord(), r);
    if r < s.len() {
        assert(s[r].pos.ord() >= e.pos.ord());
        assert(holds(s, s[r].pos.ord()));
    }
    assert forall|i: int, j: int| 0 <= i < j < t.len() implies (#[trigger] t[i]).pos.ord() < (
    #[trigger] t[j]).pos.ord() by {
        let a = if i < r { i } else { i - 1 };
        let b = if j < r { j } else { j - 1 };
        if i == r {
            assert(t[j] == s[b]);
            assert(holds(s, s[b].pos.ord()));
        } else if j == r {
            assert(t[i] == s[a]);
        } else {
            assert(t[i] == s[a] && t[j] == s[b]);
        }
    }
    assert forall|k: int| #[trigger] find(t, k) == if k == e.pos.ord() {
        Some(e)
    } else {
        find(s, k)
    } by {
        assert(t[r] == e);
        if k == e.pos.ord() {
            lemma_find_at(t, r);
        } else if holds(s, k) {
            let i = lemma_find_some(s, k);
            let j = if i < r { i } else { i + 1 };
            assert(t[j] == s[i]);
            lemma_find_at(t, j);
        } else if holds(t, k) {
            let j = lemma_find_some(t, k);
            let i = if j < r { j } else { j - 1 };
            assert(t[j] == s[i]);
        }
    }
}

pub proof fn lemma_update_at(s: Seq<EntryView>, r: int, e: EntryView)
    requires
        sorted(s),
        0 <= r < s.len(),
        s[r].pos.ord() == e.pos.ord(),
    ensures
        placed(s, s.update(r, e), e),
{
    reveal(find);
    let t = s.update(r, e);
    assert forall|i: int, j: int| 0 <= i < j < t.len() implies (#[trigger] t[i]).pos.ord() < (
    #[trigger] t[j]).pos.ord() by {
        assert(s[i].pos.ord() < s[j].pos.ord());
    }
    assert forall|k: int| #[trigger] find(t, k) == if k == e.pos.ord() {
        Some(e)
    } else {
        find(s, k)
    } by {
        if k == e.pos.ord() {
            lemma_find_at(t, r);
        } else if holds(s, k) {
            let i = lemma_find_some(s, k);
            assert(t[i] == s[i]);
            lemma_find_at(t, i);
        } else if holds(t, k) {
            let i = lemma_find_some(t, k);
            assert(t[i] == s[i]);
        }
    }
}

pub proof fn lemma_remove_at(s: Seq<EntryView>, r: int)
    requires
        sorted(s),
        0 <= r < s.len(),
    ensures
        removed(s, s.remove(r), s[r].pos.ord()),
{
    reveal(find);
    let t = s.remove(r);
    assert forall|i: int, j: int| 0 <= i < j < t.len() implies (#[trigger] t[i]).pos.ord() < (
    #[trigger] t[j]).pos.ord() by {
        let a = if i < r { i } else { i + 1 };
        let b = if j < r { j } else { j + 1 };
        assert(t[i] == s[a] && t[j] == s[b]);
    }
    assert forall|k: int| #[trigger] find(t, k) == if k == s[r].pos.ord() {
        None
    } else {
        find(s, k)
    } by {
        if holds(t, k) {
            let i = lemma_find_some(t, k);
            let a = if i < r { i } else { i + 1 };
            assert(t[i] == s[a]);
            lemma_find_at(s, a);
            if a < r {
                assert(s[a].pos.ord() < s[r].pos.ord());
            } else {
                assert(s[r].pos.ord() < s[a].pos.ord());
            }
        } else if holds(s, k) && k != s[r].pos.ord() {
            let a = lemma_find_some(s, k);
            let i = if a < r { a } else { a - 1 };
            assert(t[i] == s[a]);
        }
    }
}

/// Puts `e` where it belongs in a sorted vector, in place of what stood at its position.
pub fn put_entry(v: &mut Vec<KeyEntry>, e: KeyEntry)
    requires
        sorted(keys(old(v)@)),
    ensures
        keys(final(v)@) == put(keys(old(v)@), e@),
        placed(keys(old(v)@), keys(final(v)@), e@),
{
    let i: usize = lower_bound(v, &e.pos);
    let ghost s = keys(v@);
    proof {
        lemma_put(s, e@, i as int);
    }
    let found: bool = if i < v.len() {
        proof {
            crate::key::lemma_ord(s[i as int].pos, e.pos);
        }
        v[i].pos == e.pos
    } else {
        false
    };
    if found {
        v[i] = e;
        assert(keys(v@) =~= s.update(i as int, e@));
    } else {
        v.insert(i, e);
        assert(keys(v@) =~= s.insert(i as int, e@));
    }
}

/// Takes away the entry at `pos`; whether there was one.
pub fn drop_entry(v: &mut Vec<KeyEntry>, pos: &Bpos) -> (r: bool)
    requires
        sorted(keys(old(v)@)),
    ensures
        r == holds(keys(old(v)@), pos.ord()),
        removed(keys(old(v)@), keys(final(v)@), pos.ord()),
        final(v)@.len() == old(v)@.len() - if r {
            1int
        } else {
            0
        },
{
    let i: usize = lower_bound(v, pos);
    let ghost s = keys(v@);
    proof {
        lemma_lower_bound(s, pos.ord(), i as int);
        lemma_find_none_removed(s, pos.ord());
    }
    if i < v.len() {
        proof {
            crate::key::lemma_ord(s[i as int].pos, *pos);
        }
        if v[i].pos == *pos {
            proof {
                lemma_remove_at(s, i as int);
            }
            v.remove(i);
            assert(keys(v@) =~= s.remove(i as int));
            return true;
        }
    }
    false
}

/// The entry at `pos` in a sorted vector.
pub fn find_entry<'a>(v: &'a Vec<KeyEntry>, pos: &Bpos) -> (r: Option<&'a KeyEntry>)
    requires
        sorted(keys(v@)),
    ensures
        match r {
            Some(e) => find(keys(v@), pos.ord()) == Some(e@),
            None => find(keys(v@), pos.ord()) is None,
        },
{
    let i: usize = lower_bound(v, pos);
    let ghost s = keys(v@);
    proof {
        lemma_lower_bound(s, pos.ord(), i as int);
    }
    if i < v.len() {
        proof {
            crate::key::lemma_ord(s[i as int].pos, *pos);
        }
        if v[i].pos == *pos {
            return Some(&v[i]);
        }
    }
    None
}

/// An entry that is put in is found at its position, and every other as before; a run stays sorted.
pub proof fn law_put_is_found(s: Seq<EntryView>, e: EntryView, r: int, k: int)
    requires
        sorted(s),
        lower_bound_at(s, e.pos.ord(), r),
    ensures
        find(put(s, e), k) == if k == e.pos.ord() {
            Some(e)
        } else {
            find(s, k)
        },
        sorted(put(s, e)),
        put(s, e).len() == if holds(s, e.pos.ord()) {
            s.len()
        } else {
            s.len() + 1
        },
{
    lemma_put(s, e, r);
    lemma_lb(s, e.pos.ord(), r);
}

/// The words of a run are those of all its entries.
pub proof fn law_widths_add_up(s: Seq<EntryView>, e: EntryView)
    ensures
        widths(s.push(e)) == widths(s) + e.u64s(),
        widths(Seq::empty()) == 0,
{
    assert(s.push(e).drop_last() =~= s);
}

} // verus!
