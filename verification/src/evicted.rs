//! What nodes took when they left the cache: a table of fixed size, in which later notes take the
//! place of earlier ones.

use vstd::arithmetic::power2::{
    lemma2_to64, lemma_pow2_adds, lemma_pow2_pos, lemma_pow2_strictly_increases, pow2,
};
use vstd::prelude::*;

verus! {

/// Slots of the smallest table.
pub const EVICTED_SIZE_MIN_SLOTS: usize = 131072;

/// The smallest table has this power of two of slots.
pub const EVICTED_SIZE_MIN_BITS: u32 = 17;

/// Node numbers are told apart by their lower 48 bits.
pub const EVICTED_SIZE_HASH_LIMIT: u64 = 0x1_0000_0000_0000;

/// The sizes of nodes that left the cache, by node number.
#[derive(Debug)]
pub struct EvictedSizeTable {
    entries: Vec<u64>,
}

impl View for EvictedSizeTable {
    type V = Seq<u64>;

    closed spec fn view(&self) -> Seq<u64> {
        self.entries@
    }
}

/// The slot of a node.
pub open spec fn size_slot(t: Seq<u64>, node_id: u64) -> int {
    node_id as int % t.len() as int
}

/// What a slot holds for a node: the lower bits of its number, and its size.
pub open spec fn size_note(node_id: u64, live_u64s: u16) -> int {
    (node_id as int % EVICTED_SIZE_HASH_LIMIT as int) * 0x1_0000 + live_u64s
}

/// The table with one more note.
pub open spec fn with_size(t: Seq<u64>, node_id: u64, live_u64s: u16) -> Seq<u64> {
    t.update(size_slot(t, node_id), size_note(node_id, live_u64s) as u64)
}

/// The size noted for a node, if its slot holds its note.
pub open spec fn noted_size(t: Seq<u64>, node_id: u64) -> Option<u16> {
    let e = t[size_slot(t, node_id)] as int;
    if e / 0x1_0000 == node_id as int % EVICTED_SIZE_HASH_LIMIT as int {
        Some((e % 0x1_0000) as u16)
    } else {
        None
    }
}

/// Nothing is noted in the table. An empty slot reads as a note of no words for a node whose lower
/// bits are all zero.
pub open spec fn unnoted(t: Seq<u64>) -> bool {
    &&& forall|i: int| 0 <= i < t.len() ==> t[i] == 0
    &&& forall|id: u64| #[trigger]
        noted_size(t, id) == if id as int % EVICTED_SIZE_HASH_LIMIT as int == 0 {
            Some(0u16)
        } else {
            None
        }
}

impl EvictedSizeTable {
    pub open spec fn wf(self) -> bool {
        exists|bits: nat| bits < 48 && self@.len() == #[trigger] pow2(bits)
    }

    /// A table of so many slots as the power of two with exponent `bits`, without notes.
    pub fn new(bits: u32) -> (r: EvictedSizeTable)
        requires
            bits < 48,
            pow2(bits as nat) <= usize::MAX,
        ensures
            r.wf(),
            r@.len() == pow2(bits as nat),
            unnoted(r@),
    {
        proof {
            lemma_pow2_pos(bits as nat);
            vstd::bits::lemma_u64_shl_is_mul(1, bits as u64);
        }
        let nr: u64 = 1u64 << (bits as u64);
        assert(nr == pow2(bits as nat));
        let entries: Vec<u64> = vec![0u64; nr as usize];
        let r: EvictedSizeTable = EvictedSizeTable { entries };
        assert forall|id: u64| #[trigger] noted_size(r@, id) == (if id as int
            % EVICTED_SIZE_HASH_LIMIT as int == 0 {
            Some(0u16)
        } else {
            None
        }) by {
            assert(0 <= size_slot(r@, id) < r@.len());
        }
        r
    }

    /// A table of the smallest size, without notes.
    pub fn with_min_capacity() -> (r: EvictedSizeTable)
        ensures
            r.wf(),
            r@.len() == EVICTED_SIZE_MIN_SLOTS,
            unnoted(r@),
    {
        proof {
            lemma2_to64();
        }
        EvictedSizeTable::new(EVICTED_SIZE_MIN_BITS)
    }

    /// A table of the smallest size is one.
    pub proof fn lemma_min_slots(self)
        ensures
            self@.len() == EVICTED_SIZE_MIN_SLOTS ==> self.wf(),
    {
        lemma2_to64();
        assert(pow2(17) == EVICTED_SIZE_MIN_SLOTS);
    }

    proof fn lemma_slots(self)
        requires
            self.wf(),
        ensures
            0 < self@.len() <= EVICTED_SIZE_HASH_LIMIT,
    {
        let bits = choose|bits: nat| bits < 48 && self@.len() == #[trigger] pow2(bits);
        lemma_pow2_pos(bits);
        lemma_pow2_strictly_increases(bits, 48);
        lemma2_to64();
        lemma_pow2_adds(16, 32);
    }

    /// Notes the size of a node that leaves the cache.
    pub fn record(&mut self, node_id: u64, live_u64s: u16)
        requires
            old(self).wf(),
        ensures
            final(self)@ == with_size(old(self)@, node_id, live_u64s),
            final(self).wf(),
            noted_size(final(self)@, node_id) == Some(live_u64s),
            forall|b: u64|
                b as int % EVICTED_SIZE_HASH_LIMIT as int != node_id as int
                    % EVICTED_SIZE_HASH_LIMIT as int ==> #[trigger] noted_size(final(self)@, b)
                    == if size_slot(old(self)@, node_id) == size_slot(old(self)@, b) {
                    None
                } else {
                    noted_size(old(self)@, b)
                },
    {
        let ghost t = self@;
        proof {
            self.lemma_slots();
        }
        let slot: usize = (node_id % self.entries.len() as u64) as usize;
        let note: u64 = (node_id % EVICTED_SIZE_HASH_LIMIT) * 0x1_0000 + live_u64s as u64;
        self.entries.set(slot, note);
        proof {
            law_noted_is_found(t, node_id, live_u64s);
            assert forall|b: u64|
                b as int % EVICTED_SIZE_HASH_LIMIT as int != node_id as int
                    % EVICTED_SIZE_HASH_LIMIT as int implies #[trigger] noted_size(self@, b) == (
            if size_slot(t, node_id) == size_slot(t, b) {
                None
            } else {
                noted_size(t, b)
            }) by {
                law_notes_are_told_apart(t, node_id, b, live_u64s);
            }
        }
    }

    /// The size noted for a node.
    pub fn lookup(&self, node_id: u64) -> (r: Option<u16>)
        requires
            self.wf(),
        ensures
            r == noted_size(self@, node_id),
    {
        proof {
            self.lemma_slots();
        }
        let slot: usize = (node_id % self.entries.len() as u64) as usize;
        let e: u64 = self.entries[slot];
        if e / 0x1_0000 == node_id % EVICTED_SIZE_HASH_LIMIT {
            Some((e % 0x1_0000) as u16)
        } else {
            None
        }
    }
}

/// What was noted last for a node is found.
pub proof fn law_noted_is_found(t: Seq<u64>, node_id: u64, live_u64s: u16)
    requires
        t.len() > 0,
    ensures
        noted_size(with_size(t, node_id, live_u64s), node_id) == Some(live_u64s),
{
    let u = with_size(t, node_id, live_u64s);
    let n = size_note(node_id, live_u64s);
    assert(0 <= n <= u64::MAX);
    assert(u[size_slot(t, node_id)] == n);
    assert(n / 0x1_0000 == node_id as int % EVICTED_SIZE_HASH_LIMIT as int);
    assert(n % 0x1_0000 == live_u64s);
}

/// A note for one node never passes for that of another: where the two share a slot, the earlier
/// note is lost, and else it stays.
pub proof fn law_notes_are_told_apart(t: Seq<u64>, a: u64, b: u64, live_u64s: u16)
    requires
        t.len() > 0,
        a as int % EVICTED_SIZE_HASH_LIMIT as int != b as int % EVICTED_SIZE_HASH_LIMIT as int,
    ensures
        noted_size(with_size(t, a, live_u64s), b) == if size_slot(t, a) == size_slot(t, b) {
            None
        } else {
            noted_size(t, b)
        },
{
    let n = size_note(a, live_u64s);
    assert(0 <= n <= u64::MAX);
    assert(n / 0x1_0000 == a as int % EVICTED_SIZE_HASH_LIMIT as int);
}

} // verus!
