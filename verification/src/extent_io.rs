//! How the records of a node stand in the blocks of its extent: what is read and written where.

use crate::node_write::{BLOCK_SIZE, SECTOR_SIZE};
use crate::writer::StorageError;
use vstd::prelude::*;

verus! {

/// Sectors of a block.
pub const BLOCK_SECTORS: u16 = 8;

/// Where a node stands on disk, and how much of its extent is valid.
#[derive(Debug, Clone, Copy, PartialEq, Eq, Structural)]
pub struct BtreePtrV2 {
    pub block_addr: u64,
    pub sectors_written: u16,
    pub level: u8,
    pub dev_idx: u8,
    pub generation: u32,
}

/// What the head of a node's first record says of it.
#[derive(Debug, Clone, Copy, PartialEq, Eq, Structural)]
pub struct BtreeNodeHeader {
    pub magic: u64,
    pub version: u32,
    pub record_bytes: u32,
    pub level: u8,
    pub generation: u32,
}

/// The state of a device in its volume.
#[derive(Debug, Clone, Copy, PartialEq, Eq, Structural)]
pub enum MemberState {
    Rw,
    Ro,
    Evacuating,
    Spare,
}

/// The block at which a record begins. Records are of whole blocks and begin with one.
pub fn record_start(extent_start: u64, sector_offset: u16, record_len: usize) -> (r: Result<
    u64,
    StorageError,
>)
    requires
        extent_start + sector_offset / BLOCK_SECTORS <= u64::MAX,
    ensures
        match r {
            Ok(b) => sector_offset % BLOCK_SECTORS == 0 && record_len % BLOCK_SIZE == 0 && b
                == extent_start + sector_offset / BLOCK_SECTORS,
            Err(e) => (sector_offset % BLOCK_SECTORS != 0 || record_len % BLOCK_SIZE != 0) && e
                == StorageError::InvalidData,
        },
{
    if sector_offset % BLOCK_SECTORS != 0 || record_len % BLOCK_SIZE != 0 {
        return Err(StorageError::InvalidData);
    }
    Ok(extent_start + (sector_offset / BLOCK_SECTORS) as u64)
}

/// The blocks that a pointer commits.
pub fn committed_blocks(ptr: &BtreePtrV2) -> (r: Result<usize, StorageError>)
    ensures
        match r {
            Ok(n) => n > 0 && n * BLOCK_SECTORS == ptr.sectors_written,
            Err(e) => (ptr.sectors_written == 0 || ptr.sectors_written % BLOCK_SECTORS != 0) && e
                == StorageError::InvalidData,
        },
{
    if ptr.sectors_written == 0 || ptr.sectors_written % BLOCK_SECTORS != 0 {
        return Err(StorageError::InvalidData);
    }
    Ok((ptr.sectors_written / BLOCK_SECTORS) as usize)
}

/// Whether a block is long enough for the header at its beginning.
pub fn check_first_block(first_len: usize, header_len: usize) -> (r: Result<(), StorageError>)
    ensures
        r is Ok <==> first_len >= header_len,
        r is Err ==> r->Err_0 == StorageError::InvalidData,
{
    if first_len < header_len {
        return Err(StorageError::InvalidData);
    }
    Ok(())
}

/// The blocks of a node's first record, going by its header; `magic` and `version` are what marks
/// the header of a node.
pub fn initial_record_blocks(header: &BtreeNodeHeader, magic: u64, version: u32) -> (r: Result<
    usize,
    StorageError,
>)
    ensures
        match r {
            Ok(n) => header.magic == magic && header.version == version && n > 0 && n * BLOCK_SIZE
                == header.record_bytes,
            Err(e) => e == StorageError::InvalidData && (header.magic != magic || header.version
                != version || header.record_bytes == 0 || header.record_bytes as int
                % BLOCK_SIZE as int != 0),
        },
{
    if header.magic != magic || header.version != version {
        return Err(StorageError::InvalidData);
    }
    let bytes: usize = header.record_bytes as usize;
    if bytes == 0 || bytes % BLOCK_SIZE != 0 {
        return Err(StorageError::InvalidData);
    }
    Ok(bytes / BLOCK_SIZE)
}

/// The pointer to a node of which just the first record is on disk.
pub fn initial_ptr(
    block_addr: u64,
    record_bytes: usize,
    level: u8,
    dev_idx: u8,
    generation: u32,
) -> (r: BtreePtrV2)
    ensures
        r == (BtreePtrV2 {
            block_addr,
            sectors_written: (record_bytes as int / SECTOR_SIZE as int % 0x1_0000) as u16,
            level,
            dev_idx,
            generation,
        }),
{
    BtreePtrV2 {
        block_addr,
        sectors_written: ((record_bytes / SECTOR_SIZE) % 0x1_0000) as u16,
        level,
        dev_idx,
        generation,
    }
}

/// The device to read a block from after `failed` of `nr` devices could not give it.
pub fn next_replica(nr: usize, failed: usize) -> (r: Result<usize, StorageError>)
    ensures
        match r {
            Ok(i) => failed < nr && i == failed,
            Err(e) => failed >= nr && e == StorageError::NotFound,
        },
{
    if failed < nr {
        Ok(failed)
    } else {
        Err(StorageError::NotFound)
    }
}

/// The devices that take writes, in their order.
pub open spec fn writable(devs: Seq<(u8, MemberState)>) -> Seq<u8>
    decreases devs.len(),
{
    if devs.len() == 0 {
        Seq::empty()
    } else {
        let p = writable(devs.drop_last());
        if devs.last().1 == MemberState::Rw {
            p.push(devs.last().0)
        } else {
            p
        }
    }
}

/// Bytes that go to one block.
#[derive(Debug)]
pub struct BlockWrite {
    pub block: u64,
    pub bytes: Vec<u8>,
}

/// A record of a node on its way to disk.
#[derive(Debug)]
pub struct NodeWrite {
    pub devs: Vec<u8>,
    pub blocks: Vec<BlockWrite>,
}

/// Block `i` of a record, the last one filled up with zeros.
pub open spec fn block_of(record: Seq<u8>, i: int) -> Seq<u8> {
    Seq::new(
        BLOCK_SIZE as nat,
        |j: int|
            if i * BLOCK_SIZE + j < record.len() {
                record[i * BLOCK_SIZE + j]
            } else {
                0
            },
    )
}

/// Blocks that a record takes.
pub open spec fn block_count(len: nat) -> nat {
    (len + BLOCK_SIZE - 1) as nat / BLOCK_SIZE as nat
}

/// The bytes of one block of a record.
fn cut_block(record: &Vec<u8>, i: usize) -> (r: Vec<u8>)
    requires
        i * BLOCK_SIZE < record@.len(),
    ensures
        r@ == block_of(record@, i as int),
{
    assert(i * BLOCK_SIZE < record.len());
    let start: usize = i * BLOCK_SIZE;
    let mut bytes: Vec<u8> = Vec::new();
    let mut j: usize = 0;
    while j < BLOCK_SIZE
        invariant
            j <= BLOCK_SIZE,
            start == i * BLOCK_SIZE,
            start < record.len(),
            bytes@.len() == j,
            forall|k: int| 0 <= k < j ==> bytes@[k] == block_of(record@, i as int)[k],
        decreases BLOCK_SIZE - j,
    {
        let b: u8 = if j < record.len() - start {
            record[start + j]
        } else {
            0
        };
        bytes.push(b);
        j += 1;
    }
    assert(bytes@ =~= block_of(record@, i as int));
    bytes
}

/// Lays out the write of a record: its blocks follow each other from the node's block on, and all
/// devices that take writes get them. A node without a place on disk, or without such a device, is
/// not written.
pub fn plan_node_write(block_addr: u64, record: &Vec<u8>, devs: &Vec<(u8, MemberState)>) -> (r:
    Result<NodeWrite, StorageError>)
    requires
        block_addr + block_count(record@.len()) <= u64::MAX,
    ensures
        match r {
            Ok(w) => {
                &&& block_addr != 0
                &&& w.devs@ == writable(devs@)
                &&& w.devs@.len() > 0
                &&& w.blocks@.len() == block_count(record@.len())
                &&& forall|i: int|
                    0 <= i < w.blocks@.len() ==> (#[trigger] w.blocks@[i]).block == block_addr + i
                        && w.blocks@[i].bytes@ == block_of(record@, i)
            },
            Err(e) => e == StorageError::NotFound && (block_addr == 0 || writable(devs@).len() == 0),
        },
{
    if block_addr == 0 {
        return Err(StorageError::NotFound);
    }
    let mut targets: Vec<u8> = Vec::new();
    let mut i: usize = 0;
    assert(devs@.subrange(0, 0) =~= Seq::<(u8, MemberState)>::empty());
    while i < devs.len()
        invariant
            i <= devs.len(),
            targets@ == writable(devs@.subrange(0, i as int)),
        decreases devs.len() - i,
    {
        proof {
            assert(devs@.subrange(0, i + 1).drop_last() =~= devs@.subrange(0, i as int));
        }
        if devs[i].1 == MemberState::Rw {
            targets.push(devs[i].0);
        }
        i += 1;
    }
    assert(devs@.subrange(0, i as int) =~= devs@);
    if targets.len() == 0 {
        return Err(StorageError::NotFound);
    }
    let mut blocks: Vec<BlockWrite> = Vec::new();
    let mut k: usize = 0;
    let mut done: usize = 0;
    while done < record.len()
        invariant
            done <= record.len(),
            k == block_count(done as nat),
            done == k * BLOCK_SIZE || done == record.len(),
            blocks@.len() == k,
            block_addr + block_count(record@.len()) <= u64::MAX,
            forall|j: int|
                0 <= j < k ==> (#[trigger] blocks@[j]).block == block_addr + j
                    && blocks@[j].bytes@ == block_of(record@, j),
        decreases record.len() - done,
    {
        let bytes: Vec<u8> = cut_block(record, k);
        assert(block_addr + k <= u64::MAX);
        blocks.push(BlockWrite { block: block_addr + k as u64, bytes });
        k += 1;
        done = if record.len() - done > BLOCK_SIZE {
            done + BLOCK_SIZE
        } else {
            record.len()
        };
    }
    Ok(NodeWrite { devs: targets, blocks })
}

/// The blocks of a record give it back: byte `p` of it stands in one of them.
pub proof fn law_blocks_hold_record(record: Seq<u8>, p: int)
    requires
        0 <= p < record.len(),
    ensures
        0 <= p / BLOCK_SIZE as int,
        p / (BLOCK_SIZE as int) < block_count(record.len()),
        block_of(record, p / BLOCK_SIZE as int)[p % BLOCK_SIZE as int] == record[p],
{
    assert(p / (BLOCK_SIZE as int) * BLOCK_SIZE + p % BLOCK_SIZE as int == p);
}

/// Every device that is open for writes gets them, no other does, and their order is kept.
pub proof fn law_writable_devices(a: Seq<(u8, MemberState)>, b: Seq<(u8, MemberState)>, dev: u8)
    ensures
        writable(a).contains(dev) <==> a.contains((dev, MemberState::Rw)),
        writable(a + b) == writable(a) + writable(b),
        writable(seq![(dev, MemberState::Rw)]) == seq![dev],
        writable(seq![(dev, MemberState::Ro)]).len() == 0,
        writable(seq![(dev, MemberState::Evacuating)]).len() == 0,
        writable(seq![(dev, MemberState::Spare)]).len() == 0,
    decreases a.len() + b.len(),
{
    reveal_with_fuel(writable, 2);
    if b.len() == 0 {
        assert(a + b =~= a);
    } else {
        law_writable_devices(a, b.drop_last(), dev);
        assert((a + b).drop_last() =~= a + b.drop_last());
        assert((a + b).last() == b.last());
        assert(writable(a + b) =~= writable(a) + writable(b));
    }
    if a.len() > 0 {
        law_writable_devices(a.drop_last(), Seq::empty(), dev);
        let h = a.drop_last();
        let x = (dev, MemberState::Rw);
        let p = writable(h);
        if a.contains(x) {
            let i = choose|i: int| 0 <= i < a.len() && a[i] == x;
            if i < h.len() {
                assert(h[i] == x);
                let j = choose|j: int| 0 <= j < p.len() && p[j] == dev;
                assert(writable(a)[j] == dev);
            } else {
                assert(writable(a).last() == dev);
            }
        }
        if writable(a).contains(dev) {
            let j = choose|j: int| 0 <= j < writable(a).len() && writable(a)[j] == dev;
            if j < p.len() {
                assert(p[j] == dev);
                let i = choose|i: int| 0 <= i < h.len() && h[i] == x;
                assert(a[i] == x);
            } else {
                assert(a.last() == x);
            }
        }
    }
    let one = |s: MemberState| seq![(dev, s)];
    assert(one(MemberState::Rw).drop_last() =~= Seq::<(u8, MemberState)>::empty());
    assert(one(MemberState::Ro).drop_last() =~= Seq::<(u8, MemberState)>::empty());
    assert(one(MemberState::Evacuating).drop_last() =~= Seq::<(u8, MemberState)>::empty());
    assert(one(MemberState::Spare).drop_last() =~= Seq::<(u8, MemberState)>::empty());
    assert(writable(one(MemberState::Rw)) =~= seq![dev]);
}

/// A record takes as few blocks of 4096 bytes as hold it, and what is left of the last one is zeros.
pub proof fn law_blocks_of_record(record: Seq<u8>, i: int, j: int)
    requires
        0 <= i,
        0 <= j < 4096,
    ensures
        4096 * (block_count(record.len()) - 1) < record.len() <= 4096 * block_count(record.len())
            || record.len() == 0 && block_count(0) == 0,
        block_of(record, i).len() == 4096,
        4096 * i + j < record.len() ==> block_of(record, i)[j] == record[4096 * i + j],
        4096 * i + j >= record.len() ==> block_of(record, i)[j] == 0,
{
}

/// A block is eight sectors of 512 bytes.
pub proof fn law_sectors_of_a_block()
    ensures
        BLOCK_SECTORS == 8,
        SECTOR_SIZE == 512,
        BLOCK_SIZE == BLOCK_SECTORS * SECTOR_SIZE,
{
}

} // verus!
