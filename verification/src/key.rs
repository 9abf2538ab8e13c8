//! Key positions and the entries that hold them.

use vstd::prelude::*;

verus! {

/// A position in a btree's key space: inode, offset and snapshot, in that order of weight.
#[derive(Debug, Clone, Copy, PartialEq, Eq, PartialOrd, Ord, Hash, Structural)]
pub struct Bpos {
    pub inode: u64,
    pub offset: u64,
    pub snapshot: u32,
}

/// Lexicographic order of positions.
pub open spec fn bpos_lt(a: Bpos, b: Bpos) -> bool {
    a.inode < b.inode || (a.inode == b.inode && (a.offset < b.offset || (a.offset == b.offset
        && a.snapshot < b.snapshot)))
}

impl Bpos {
    /// The lowest position.
    #[verifier::allow_in_spec]
    pub fn lowest() -> Bpos
        returns
            (Bpos { inode: 0, offset: 0, snapshot: 0 }),
    {
        Bpos { inode: 0, offset: 0, snapshot: 0 }
    }

    /// The highest position.
    #[verifier::allow_in_spec]
    pub fn highest() -> Bpos
        returns
            (Bpos { inode: u64::MAX, offset: u64::MAX, snapshot: u32::MAX }),
    {
        Bpos { inode: u64::MAX, offset: u64::MAX, snapshot: u32::MAX }
    }

    /// Rank of the position in the lexicographic order, as a number of 160 bits.
    pub open spec fn ord(self) -> int {
        self.inode * 0x1_0000_0000_0000_0000_0000_0000 + self.offset * 0x1_0000_0000
            + self.snapshot
    }

    pub fn new(inode: u64, offset: u64, snapshot: u32) -> (r: Bpos)
        ensures
            r == (Bpos { inode, offset, snapshot }),
    {
        Bpos { inode, offset, snapshot }
    }

    /// Strictly before `other`.
    pub fn precedes(&self, other: &Bpos) -> (r: bool)
        ensures
            r == (self.ord() < other.ord()),
            r == bpos_lt(*self, *other),
    {
        if self.inode != other.inode {
            self.inode < other.inode
        } else if self.offset != other.offset {
            self.offset < other.offset
        } else {
            self.snapshot < other.snapshot
        }
    }

    /// The position right before this one, which is not the lowest.
    pub fn predecessor(&self) -> (r: Bpos)
        requires
            *self != Bpos::lowest(),
        ensures
            r.ord() == self.ord() - 1,
    {
        if self.snapshot > 0 {
            Bpos { snapshot: self.snapshot - 1, ..*self }
        } else if self.offset > 0 {
            Bpos { offset: self.offset - 1, snapshot: u32::MAX, ..*self }
        } else {
            Bpos { inode: self.inode - 1, offset: u64::MAX, snapshot: u32::MAX }
        }
    }
}

impl Default for Bpos {
    fn default() -> (r: Bpos)
        ensures
            r == Bpos::lowest(),
    {
        Bpos::lowest()
    }
}

/// Ranks order positions as `bpos_lt` does, and two positions of one rank are the same.
pub proof fn lemma_ord(a: Bpos, b: Bpos)
    ensures
        bpos_lt(a, b) <==> a.ord() < b.ord(),
        a == b <==> a.ord() == b.ord(),
        0 <= a.ord() <= Bpos::highest().ord(),
{
}

/// A record of a layered bset: a position with an opaque payload.
#[derive(Debug, Clone, PartialEq)]
pub struct BtreeEntry {
    pub btree_type: u8,
    pub level: u8,
    pub entry_type: u8,
    pub pos: Bpos,
    pub payload: Vec<u8>,
}

/// What a key stands for.
#[derive(Debug, Clone, Copy, PartialEq, Eq, Hash, Structural)]
pub enum KeyType {
    /// A tombstone: whatever the position held is gone.
    Deleted,
    /// A live marker that hides the position in a snapshot.
    Whiteout,
    /// An ordinary key.
    Normal,
    /// A key whose presence is its whole meaning.
    Present,
}

/// A key as callers name it: a position, a type and the number of blocks covered.
#[derive(Debug, Clone, Copy, PartialEq, Eq, Hash, Structural)]
pub struct BtreeKey {
    pub pos: Bpos,
    pub key_type: KeyType,
    pub size: u32,
}

impl BtreeKey {
    /// A one-block key at `vaddr` in snapshot `snapshot_id`.
    pub fn new(vaddr: u64, snapshot_id: u32, key_type: KeyType) -> (r: BtreeKey)
        ensures
            r == (BtreeKey {
                pos: Bpos { inode: 0, offset: vaddr, snapshot: snapshot_id },
                key_type,
                size: 1,
            }),
    {
        BtreeKey { pos: Bpos { inode: 0, offset: vaddr, snapshot: snapshot_id }, key_type, size: 1 }
    }

    /// The key at `pos`, without an extent.
    pub fn from_bpos(pos: Bpos, key_type: KeyType) -> (r: BtreeKey)
        ensures
            r == (BtreeKey { pos, key_type, size: 0 }),
    {
        BtreeKey { pos, key_type, size: 0 }
    }

    pub fn min_key() -> (r: BtreeKey)
        ensures
            r == (BtreeKey { pos: Bpos::lowest(), key_type: KeyType::Normal, size: 1 }),
    {
        BtreeKey { pos: Bpos::lowest(), key_type: KeyType::Normal, size: 1 }
    }

    pub fn max_key() -> (r: BtreeKey)
        ensures
            r == (BtreeKey { pos: Bpos::highest(), key_type: KeyType::Normal, size: 1 }),
    {
        BtreeKey { pos: Bpos::highest(), key_type: KeyType::Normal, size: 1 }
    }

    pub fn to_bpos(&self) -> (r: Bpos)
        ensures
            r == self.pos,
    {
        self.pos
    }

    pub fn get_vaddr(&self) -> (r: u64)
        ensures
            r == self.pos.offset,
    {
        self.pos.offset
    }
}

/// The value of a plain extent or of a route to a child node.
#[derive(Debug, Clone, Copy, PartialEq, Eq, Hash, Structural)]
pub struct BchVal {
    pub paddr: u64,
    pub ver: u16,
}

impl BchVal {
    pub fn new(paddr: u64, ver: u16) -> (r: BchVal)
        ensures
            r == (BchVal { paddr, ver }),
    {
        BchVal { paddr, ver }
    }
}

/// An extent with one device pointer.
#[derive(Debug, Clone, Copy, PartialEq, Eq, Hash, Structural)]
pub struct ExtentValue {
    pub paddr: u64,
    pub size: u32,
    pub ver: u16,
    pub crc32c: u32,
    pub crc_offset_blocks: u16,
    pub dev_idx: u8,
}

/// One replica of an extent or of a btree node.
#[derive(Debug, Clone, Copy, PartialEq, Eq, Hash, Structural)]
pub struct ExtentPtr {
    pub dev: u8,
    pub offset: u64,
    pub gen: u8,
    pub cached: bool,
}

/// The value of an entry.
#[derive(Debug, PartialEq, Eq)]
pub enum KeyValue {
    /// Blocks on one device.
    Extent(ExtentValue),
    /// Blocks with replicas; `size` counts the blocks of each.
    ExtentPtrs { size: u32, ptrs: Vec<ExtentPtr> },
    /// A node of a tree, with its replicas.
    BtreePtr(Vec<ExtentPtr>),
    Raw(Vec<u8>),
}

/// The mathematical content of a `KeyValue`.
#[verifier::ext_equal]
pub enum ValueView {
    Extent(ExtentValue),
    ExtentPtrs { size: u32, ptrs: Seq<ExtentPtr> },
    BtreePtr(Seq<ExtentPtr>),
    Raw(Seq<u8>),
}

impl View for KeyValue {
    type V = ValueView;

    open spec fn view(&self) -> ValueView {
        match *self {
            KeyValue::Extent(e) => ValueView::Extent(e),
            KeyValue::ExtentPtrs { size, ptrs } => ValueView::ExtentPtrs { size, ptrs: ptrs@ },
            KeyValue::BtreePtr(p) => ValueView::BtreePtr(p@),
            KeyValue::Raw(b) => ValueView::Raw(b@),
        }
    }
}

/// Words of a packed key ahead of its value.
pub const BKEY_U64S: u8 = 3;

/// Words of a packed extent value.
pub const EXTENT_U64S: u8 = 3;

/// The largest packed key, in words.
pub const BKEY_U64S_MAX: u8 = 255;

impl ValueView {
    /// Words that the value takes in a packed key.
    pub open spec fn u64s(self) -> nat {
        match self {
            ValueView::Extent(_) => EXTENT_U64S as nat,
            ValueView::ExtentPtrs { ptrs, .. } => 1 + ptrs.len(),
            ValueView::BtreePtr(p) => 1 + p.len(),
            ValueView::Raw(b) => (b.len() + 7) as nat / 8,
        }
    }

    /// The blocks that the value points at; uninterpreted bytes point nowhere.
    pub open spec fn ptrs(self) -> Seq<ExtentPtr> {
        match self {
            ValueView::Extent(e) => seq![
                ExtentPtr { dev: e.dev_idx, offset: e.paddr, gen: 0, cached: false },
            ],
            ValueView::ExtentPtrs { ptrs, .. } => ptrs,
            ValueView::BtreePtr(p) => p,
            ValueView::Raw(_) => Seq::empty(),
        }
    }

    /// The blocks that an extent covers.
    pub open spec fn blocks(self) -> u32 {
        match self {
            ValueView::Extent(e) => e.size,
            ValueView::ExtentPtrs { size, .. } => size,
            ValueView::BtreePtr(_) => 0,
            ValueView::Raw(_) => 0,
        }
    }
}

fn copy_ptrs(p: &Vec<ExtentPtr>) -> (q: Vec<ExtentPtr>)
    ensures
        q@ == p@,
{
    let mut q: Vec<ExtentPtr> = Vec::with_capacity(p.len());
    let mut i: usize = 0;
    while i < p.len()
        invariant
            i <= p.len(),
            q@ == p@.subrange(0, i as int),
        decreases p.len() - i,
    {
        q.push(p[i]);
        i += 1;
        assert(q@ == p@.subrange(0, i as int));
    }
    assert(p@.subrange(0, p@.len() as int) == p@);
    q
}

impl KeyValue {
    /// The blocks that the value points at.
    pub fn for_each_ptr(&self) -> (r: Vec<ExtentPtr>)
        ensures
            r@ == self@.ptrs(),
    {
        match self {
            KeyValue::Extent(e) => {
                let mut v: Vec<ExtentPtr> = Vec::new();
                v.push(ExtentPtr { dev: e.dev_idx, offset: e.paddr, gen: 0, cached: false });
                assert(v@ =~= self@.ptrs());
                v
            },
            KeyValue::ExtentPtrs { size: _, ptrs } => copy_ptrs(ptrs),
            KeyValue::BtreePtr(p) => copy_ptrs(p),
            KeyValue::Raw(_) => Vec::new(),
        }
    }

    /// The blocks that an extent covers.
    pub fn extent_blocks(&self) -> (r: u32)
        ensures
            r == self@.blocks(),
    {
        match self {
            KeyValue::Extent(e) => e.size,
            KeyValue::ExtentPtrs { size, .. } => *size,
            KeyValue::BtreePtr(_) => 0,
            KeyValue::Raw(_) => 0,
        }
    }
}

impl Clone for KeyValue {
    fn clone(&self) -> (r: KeyValue)
        ensures
            r@ == self@,
    {
        match self {
            KeyValue::Extent(e) => KeyValue::Extent(*e),
            KeyValue::ExtentPtrs { size, ptrs } => KeyValue::ExtentPtrs {
                size: *size,
                ptrs: copy_ptrs(ptrs),
            },
            KeyValue::BtreePtr(p) => KeyValue::BtreePtr(copy_ptrs(p)),
            KeyValue::Raw(b) => {
                let c: Vec<u8> = b.clone();
                assert(c@ == b@);
                KeyValue::Raw(c)
            },
        }
    }
}

/// An entry of a btree node.
#[derive(Debug, PartialEq, Eq)]
pub struct KeyEntry {
    pub pos: Bpos,
    pub key_type: KeyType,
    pub value: KeyValue,
}

/// The mathematical content of a `KeyEntry`.
#[verifier::ext_equal]
pub struct EntryView {
    pub pos: Bpos,
    pub key_type: KeyType,
    pub value: ValueView,
}

impl View for KeyEntry {
    type V = EntryView;

    open spec fn view(&self) -> EntryView {
        EntryView { pos: self.pos, key_type: self.key_type, value: self.value@ }
    }
}

impl EntryView {
    /// Words that the packed entry takes.
    pub open spec fn u64s(self) -> nat {
        BKEY_U64S as nat + self.value.u64s()
    }

    /// The key of the entry; only an extent covers blocks.
    pub open spec fn key(self) -> BtreeKey {
        BtreeKey {
            pos: self.pos,
            key_type: self.key_type,
            size: self.value.blocks(),
        }
    }

    /// The address and version that the entry points at.
    pub open spec fn bch_val(self) -> BchVal {
        match self.value {
            ValueView::Extent(e) => BchVal { paddr: e.paddr, ver: e.ver },
            ValueView::ExtentPtrs { ptrs, .. } => BchVal {
                paddr: if ptrs.len() > 0 {
                    ptrs[0].offset
                } else {
                    0
                },
                ver: 0,
            },
            ValueView::BtreePtr(p) => BchVal {
                paddr: if p.len() > 0 {
                    p[0].offset
                } else {
                    0
                },
                ver: 0,
            },
            ValueView::Raw(_) => BchVal { paddr: 0, ver: 0 },
        }
    }
}

impl Clone for KeyEntry {
    fn clone(&self) -> (r: KeyEntry)
        ensures
            r@ == self@,
    {
        KeyEntry { pos: self.pos, key_type: self.key_type, value: self.value.clone() }
    }
}

/// The entry that holds `value` under `key`.
pub open spec fn extent_entry(key: BtreeKey, value: BchVal) -> EntryView {
    EntryView {
        pos: key.pos,
        key_type: key.key_type,
        value: ValueView::Extent(
            ExtentValue {
                paddr: value.paddr,
                size: key.size,
                ver: value.ver,
                crc32c: 0,
                crc_offset_blocks: 0,
                dev_idx: 0,
            },
        ),
    }
}

impl KeyEntry {
    pub fn new(pos: Bpos, key_type: KeyType, value: KeyValue) -> (r: KeyEntry)
        ensures
            r == (KeyEntry { pos, key_type, value }),
    {
        KeyEntry { pos, key_type, value }
    }

    /// An entry with uninterpreted bytes.
    pub fn raw(pos: Bpos, key_type: KeyType, bytes: Vec<u8>) -> (r: KeyEntry)
        ensures
            r == (KeyEntry { pos, key_type, value: KeyValue::Raw(bytes) }),
    {
        KeyEntry { pos, key_type, value: KeyValue::Raw(bytes) }
    }

    /// The extent entry that holds `value` under `key`.
    pub fn from_key_value(key: BtreeKey, value: BchVal) -> (r: KeyEntry)
        ensures
            r@ == extent_entry(key, value),
    {
        KeyEntry {
            pos: key.pos,
            key_type: key.key_type,
            value: KeyValue::Extent(
                ExtentValue {
                    paddr: value.paddr,
                    size: key.size,
                    ver: value.ver,
                    crc32c: 0,
                    crc_offset_blocks: 0,
                    dev_idx: 0,
                },
            ),
        }
    }

    /// Words that the packed entry takes, or nothing where it is too large to pack.
    pub fn packed_u64s(&self) -> (r: Option<u8>)
        ensures
            match r {
                Some(w) => w == self@.u64s(),
                None => self@.u64s() > BKEY_U64S_MAX,
            },
    {
        match &self.value {
            KeyValue::Extent(_) => Some(BKEY_U64S + EXTENT_U64S),
            KeyValue::ExtentPtrs { size: _, ptrs } => if ptrs.len() <= 251 {
                Some(4 + ptrs.len() as u8)
            } else {
                None
            },
            KeyValue::BtreePtr(p) => if p.len() <= 251 {
                Some(4 + p.len() as u8)
            } else {
                None
            },
            KeyValue::Raw(b) => if b.len() <= 2016 {
                Some(3 + ((b.len() + 7) / 8) as u8)
            } else {
                None
            },
        }
    }

    /// The key and the value that the entry points at.
    pub fn to_key_value(&self) -> (r: (BtreeKey, BchVal))
        ensures
            r.0 == self@.key(),
            r.1 == self@.bch_val(),
    {
        match &self.value {
            KeyValue::Extent(e) => (
                BtreeKey { pos: self.pos, key_type: self.key_type, size: e.size },
                BchVal { paddr: e.paddr, ver: e.ver },
            ),
            KeyValue::ExtentPtrs { size, ptrs } => (
                BtreeKey { pos: self.pos, key_type: self.key_type, size: *size },
                BchVal {
                    paddr: if ptrs.len() > 0 {
                        ptrs[0].offset
                    } else {
                        0
                    },
                    ver: 0,
                },
            ),
            KeyValue::BtreePtr(p) => (
                BtreeKey { pos: self.pos, key_type: self.key_type, size: 0 },
                BchVal {
                    paddr: if p.len() > 0 {
                        p[0].offset
                    } else {
                        0
                    },
                    ver: 0,
                },
            ),
            KeyValue::Raw(_) => (
                BtreeKey { pos: self.pos, key_type: self.key_type, size: 0 },
                BchVal { paddr: 0, ver: 0 },
            ),
        }
    }
}

/// An extent entry gives back the key and the value that it was made from.
pub proof fn law_extent_entry_roundtrip(key: BtreeKey, value: BchVal)
    ensures
        extent_entry(key, value).key() == key,
        extent_entry(key, value).bch_val() == value,
{
}

/// The key of an entry has its position and its type, and is for as many blocks as the entry has at
/// each place that it points at.
pub proof fn law_key_of_entry(e: EntryView)
    ensures
        e.key().pos == e.pos,
        e.key().key_type == e.key_type,
        e.value matches ValueView::Extent(x) ==> e.key().size == x.size,
        e.value matches ValueView::ExtentPtrs { size, .. } ==> e.key().size == size,
        e.value is BtreePtr || e.value is Raw ==> e.key().size == 0,
{
}

/// The address of an entry is that of its first replica; an entry without replicas has none. Only a
/// plain extent has a version.
pub proof fn law_value_is_first_replica(e: EntryView)
    ensures
        e.value.ptrs().len() > 0 ==> e.bch_val().paddr == e.value.ptrs()[0].offset,
        e.value.ptrs().len() == 0 ==> e.bch_val().paddr == 0,
        e.value matches ValueView::Extent(x) ==> e.bch_val().ver == x.ver,
        !(e.value is Extent) ==> e.bch_val().ver == 0,
{
}

/// A plain extent has one replica: at its address, on its device, of the first generation, and not a
/// mere copy. What an entry was made from is what it points at.
pub proof fn law_extent_has_one_replica(x: ExtentValue, key: BtreeKey, value: BchVal)
    ensures
        ({
            let v = ValueView::Extent(x);
            &&& v.ptrs().len() == 1
            &&& v.ptrs()[0].offset == x.paddr
            &&& v.ptrs()[0].dev == x.dev_idx
            &&& v.ptrs()[0].gen == 0
            &&& !v.ptrs()[0].cached
            &&& v.blocks() == x.size
        }),
        ({
            let v = extent_entry(key, value).value;
            &&& v.ptrs().len() == 1
            &&& v.ptrs()[0].offset == value.paddr
            &&& v.ptrs()[0].dev == 0
            &&& v.blocks() == key.size
        }),
{
}

/// The replicas of an entry are those that it lists, all of them and in that order; raw
/// bytes list none. Only data has blocks: a node has none of its own.
pub proof fn law_replicas_are_those_listed(size: u32, p: Seq<ExtentPtr>, b: Seq<u8>)
    ensures
        (ValueView::ExtentPtrs { size, ptrs: p }).ptrs() == p,
        (ValueView::ExtentPtrs { size, ptrs: p }).blocks() == size,
        ValueView::BtreePtr(p).ptrs() == p,
        ValueView::BtreePtr(p).blocks() == 0,
        ValueView::Raw(b).ptrs().len() == 0,
        ValueView::Raw(b).blocks() == 0,
{
}

/// Positions are ordered by the inode, then by the offset, then by the snapshot, and only equal ones
/// have the same rank.
pub proof fn law_position_order(a: Bpos, b: Bpos)
    ensures
        a.inode < b.inode ==> a.ord() < b.ord(),
        a.inode == b.inode && a.offset < b.offset ==> a.ord() < b.ord(),
        a.inode == b.inode && a.offset == b.offset && a.snapshot < b.snapshot ==> a.ord()
            < b.ord(),
        a.ord() == b.ord() <==> a == b,
        bpos_lt(a, b) <==> a.ord() < b.ord(),
{
    lemma_ord(a, b);
    lemma_ord(b, a);
}

/// The words of an entry: three for the key, and for the value three where it is an extent, one and
/// one for each pointer where it lists them, and as few as hold its bytes where it is raw.
pub proof fn law_words_of_entries(e: EntryView)
    ensures
        e.value is Extent ==> e.u64s() == 6,
        e.value is ExtentPtrs ==> e.u64s() == 4 + e.value->ExtentPtrs_ptrs.len(),
        e.value is BtreePtr ==> e.u64s() == 4 + e.value->BtreePtr_0.len(),
        e.value is Raw ==> 8 * (e.u64s() - 4) < e.value->Raw_0.len() <= 8 * (e.u64s() - 3)
            || e.value->Raw_0.len() == 0 && e.u64s() == 3,
{
}

} // verus!
