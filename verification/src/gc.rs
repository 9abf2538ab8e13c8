//! Where garbage collection stands.

use crate::text::{decimal, has_part, lemma_parts_grow, push_decimal};
use std::cmp::Ordering;
use vstd::prelude::*;
use vstd::string::StringExecFns;

verus! {

/// The phases of garbage collection, in order.
#[derive(Debug, Clone, Copy, PartialEq, Eq, PartialOrd, Ord, Hash, Structural)]
pub enum GcPhase {
    NotRunning,
    Start,
    Sb,
    Btree,
}

impl GcPhase {
    /// The place of a phase in the order.
    pub open spec fn num(self) -> int {
        match self {
            GcPhase::NotRunning => 0,
            GcPhase::Start => 1,
            GcPhase::Sb => 2,
            GcPhase::Btree => 3,
        }
    }

    fn place(self) -> (r: u8)
        ensures
            r == self.num(),
    {
        match self {
            GcPhase::NotRunning => 0,
            GcPhase::Start => 1,
            GcPhase::Sb => 2,
            GcPhase::Btree => 3,
        }
    }

    /// The name of a phase.
    pub fn name(self) -> (r: String)
        ensures
            r@ == self.name_view(),
    {
        match self {
            GcPhase::NotRunning => "NotRunning".to_string(),
            GcPhase::Start => "Start".to_string(),
            GcPhase::Sb => "Sb".to_string(),
            GcPhase::Btree => "Btree".to_string(),
        }
    }

    pub open spec fn name_view(self) -> Seq<char> {
        match self {
            GcPhase::NotRunning => "NotRunning"@,
            GcPhase::Start => "Start"@,
            GcPhase::Sb => "Sb"@,
            GcPhase::Btree => "Btree"@,
        }
    }
}

/// A place that garbage collection comes to.
#[derive(Debug, Clone, Copy, PartialEq, Eq, Structural)]
pub struct GcPos {
    pub phase: GcPhase,
    pub btree: u32,
    pub level: u16,
    pub pos: u64,
    /// The newest journal entry when a pass was done.
    pub journal_seq: u64,
}

/// `l` comes before `r`; journal entries do not matter.
pub open spec fn gc_before(l: GcPos, r: GcPos) -> bool {
    ||| l.phase.num() < r.phase.num()
    ||| l.phase == r.phase && l.btree < r.btree
    ||| l.phase == r.phase && l.btree == r.btree && l.level < r.level
    ||| l.phase == r.phase && l.btree == r.btree && l.level == r.level && l.pos < r.pos
}

/// `l` and `r` are the same place.
pub open spec fn gc_same(l: GcPos, r: GcPos) -> bool {
    l.phase == r.phase && l.btree == r.btree && l.level == r.level && l.pos == r.pos
}

/// The state of garbage collection.
#[derive(Debug)]
pub struct BtreeGc {
    pub running: bool,
    pub pos: GcPos,
    pub triggered: bool,
}

/// The start of a phase.
#[verifier::allow_in_spec]
pub fn gc_phase(phase: GcPhase) -> GcPos
    returns
        (GcPos { phase, btree: 0, level: 0, pos: 0, journal_seq: 0 }),
{
    GcPos { phase, btree: 0, level: 0, pos: 0, journal_seq: 0 }
}

/// A place in a tree.
#[verifier::allow_in_spec]
pub fn gc_pos_btree(btree: u32, level: u16, pos: u64) -> GcPos
    returns
        (GcPos { phase: GcPhase::Btree, btree, level, pos, journal_seq: 0 }),
{
    GcPos { phase: GcPhase::Btree, btree, level, pos, journal_seq: 0 }
}

impl BtreeGc {
    pub fn new() -> (r: BtreeGc)
        ensures
            r == (BtreeGc {
                running: false,
                pos: gc_phase(GcPhase::NotRunning),
                triggered: false,
            }),
    {
        BtreeGc { running: false, pos: gc_phase(GcPhase::NotRunning), triggered: false }
    }
}

impl Default for BtreeGc {
    fn default() -> (r: BtreeGc)
        ensures
            r == (BtreeGc {
                running: false,
                pos: gc_phase(GcPhase::NotRunning),
                triggered: false,
            }),
    {
        BtreeGc::new()
    }
}

/// Compares two places: by phase, then tree, level and position.
pub fn gc_pos_cmp(l: &GcPos, r: &GcPos) -> (o: Ordering)
    ensures
        o == Ordering::Less <==> gc_before(*l, *r),
        o == Ordering::Greater <==> gc_before(*r, *l),
        o == Ordering::Equal <==> gc_same(*l, *r),
{
    let a: u8 = l.phase.place();
    let b: u8 = r.phase.place();
    if a < b {
        return Ordering::Less;
    }
    if a > b {
        return Ordering::Greater;
    }
    if l.btree < r.btree {
        return Ordering::Less;
    }
    if l.btree > r.btree {
        return Ordering::Greater;
    }
    if l.level < r.level {
        return Ordering::Less;
    }
    if l.level > r.level {
        return Ordering::Greater;
    }
    if l.pos < r.pos {
        Ordering::Less
    } else if l.pos > r.pos {
        Ordering::Greater
    } else {
        Ordering::Equal
    }
}

/// Whether garbage collection has been at a place.
pub fn gc_visited(gc: &BtreeGc, pos: &GcPos) -> (r: bool)
    ensures
        r == (gc_before(*pos, gc.pos) || gc_same(*pos, gc.pos)),
{
    match gc_pos_cmp(pos, &gc.pos) {
        Ordering::Less => true,
        Ordering::Equal => true,
        Ordering::Greater => false,
    }
}

/// Asks for a pass over the generations of all buckets.
pub fn bch2_gc_gen_async(gc: &mut BtreeGc)
    ensures
        *final(gc) == (BtreeGc { triggered: true, ..*old(gc) }),
{
    gc.triggered = true;
}

/// Garbage collection as it is before a volume comes up.
pub fn bch2_fs_btree_gc_init_early(gc: &mut BtreeGc)
    ensures
        *final(gc) == (BtreeGc { running: false, triggered: false, ..*old(gc) }),
{
    gc.running = false;
    gc.triggered = false;
}

/// A place as text.
pub open spec fn gc_pos_text(pos: GcPos) -> Seq<char> {
    "GC phase="@ + pos.phase.name_view() + " btree="@ + decimal(pos.btree as nat) + " level="@
        + decimal(pos.level as nat) + " pos="@ + decimal(pos.pos as nat)
}

pub fn bch2_gc_pos_to_text(pos: &GcPos) -> (r: String)
    ensures
        r@ == gc_pos_text(*pos),
{
    let mut text: String = String::new();
    text.append("GC phase=");
    text.append(pos.phase.name().as_str());
    text.append(" btree=");
    push_decimal(&mut text, pos.btree as u64);
    text.append(" level=");
    push_decimal(&mut text, pos.level as u64);
    text.append(" pos=");
    push_decimal(&mut text, pos.pos);
    assert(text@ =~= gc_pos_text(*pos));
    text
}

/// The part of a superblock that says how far garbage collection came.
#[derive(Debug, Clone, Copy, PartialEq, Eq, Structural)]
pub struct SbGcPos {
    pub gc_pos: GcPos,
    pub gc_pos_valid: bool,
}

/// Notes in the superblock how far garbage collection came.
pub fn bch2_gc_pos_to_sb(gc: &BtreeGc, sb: &mut SbGcPos)
    ensures
        *final(sb) == (SbGcPos { gc_pos: gc.pos, gc_pos_valid: true }),
{
    sb.gc_pos = gc.pos;
    sb.gc_pos_valid = true;
}

/// How far garbage collection came, if the superblock says so.
pub fn bch2_gc_pos_from_sb(sb: &SbGcPos) -> (r: Option<GcPos>)
    ensures
        r == if sb.gc_pos_valid {
            Some(sb.gc_pos)
        } else {
            None
        },
{
    if sb.gc_pos_valid {
        Some(sb.gc_pos)
    } else {
        None
    }
}

/// The order of places is total.
pub proof fn law_gc_order_total(a: GcPos, b: GcPos)
    ensures
        gc_before(a, b) || gc_same(a, b) || gc_before(b, a),
        !(gc_before(a, b) && gc_before(b, a)),
        !(gc_before(a, b) && gc_same(a, b)),
{
    law_phase_num_injective(a.phase, b.phase);
}

/// Phases with the same place in the order are the same.
pub proof fn law_phase_num_injective(a: GcPhase, b: GcPhase)
    ensures
        a.num() == b.num() <==> a == b,
{
}

/// The order of places is transitive.
pub proof fn law_gc_order_transitive(a: GcPos, b: GcPos, c: GcPos)
    requires
        gc_before(a, b),
        gc_before(b, c),
    ensures
        gc_before(a, c),
{
}

/// Where garbage collection has been at a place, it has been at all places before it.
pub proof fn law_visited_downwards(gc: GcPos, p: GcPos, q: GcPos)
    requires
        gc_before(p, gc) || gc_same(p, gc),
        gc_before(q, p),
    ensures
        gc_before(q, gc),
{
}

/// Places are ordered by their phase first, from a pass that does not run over its start and the
/// superblock to the trees; then by their tree, by the level in it, and last by the position. The
/// journal is of no account.
pub proof fn law_gc_order(l: GcPos, r: GcPos, s: u64)
    ensures
        GcPhase::NotRunning.num() < GcPhase::Start.num() < GcPhase::Sb.num() < GcPhase::Btree.num(),
        l.phase.num() < r.phase.num() ==> gc_before(l, r),
        l.phase == r.phase && l.btree < r.btree ==> gc_before(l, r),
        l.phase == r.phase && l.btree == r.btree && l.level < r.level ==> gc_before(l, r),
        l.phase == r.phase && l.btree == r.btree && l.level == r.level ==> (gc_before(l, r)
            <==> l.pos < r.pos),
        gc_before(l, r) ==> !gc_before(r, l) && !gc_same(l, r),
        gc_before((GcPos { journal_seq: s, ..l }), r) == gc_before(l, r),
        gc_before(l, (GcPos { journal_seq: s, ..r })) == gc_before(l, r),
        gc_same(l, r) <==> (GcPos { journal_seq: s, ..l }) == (GcPos { journal_seq: s, ..r }),
{
}

/// The text names the phase, the tree, the level and the position, each with its value.
pub proof fn law_gc_text_has_the_place(pos: GcPos)
    ensures
        has_part(gc_pos_text(pos), "GC phase="@ + pos.phase.name_view()),
        has_part(gc_pos_text(pos), " btree="@ + decimal(pos.btree as nat)),
        has_part(gc_pos_text(pos), " level="@ + decimal(pos.level as nat)),
        has_part(gc_pos_text(pos), " pos="@ + decimal(pos.pos as nat)),
{
    let p: Seq<Seq<char>> = Seq::empty();
    let a = "GC phase="@ + pos.phase.name_view();
    let b = " btree="@ + decimal(pos.btree as nat);
    let c = " level="@ + decimal(pos.level as nat);
    let d = " pos="@ + decimal(pos.pos as nat);
    lemma_parts_grow(Seq::empty(), p, a);
    assert(Seq::<char>::empty() + a =~= a);
    lemma_parts_grow(a, p.push(a), b);
    lemma_parts_grow(a + b, p.push(a).push(b), c);
    lemma_parts_grow(a + b + c, p.push(a).push(b).push(c), d);
    assert(gc_pos_text(pos) =~= a + b + c + d);
    let all = p.push(a).push(b).push(c).push(d);
    assert(all[0] == a && all[1] == b && all[2] == c && all[3] == d);
}

} // verus!
