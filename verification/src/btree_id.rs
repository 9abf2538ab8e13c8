//! The kinds of btrees of a volume.

use vstd::prelude::*;

verus! {

/// Each kind of metadata has a btree of its own; the order of the variants is that of their
/// numbers on disk.
#[derive(Debug, Clone, Copy, PartialEq, Eq, Hash, Structural)]
pub enum BtreeId {
    Extents,
    Inodes,
    Dirents,
    Xattrs,
    Alloc,
    Quotas,
    Stripes,
    Reflink,
    Subvolumes,
    Snapshots,
    Lru,
    Freespace,
    NeedDiscard,
    Backpointers,
    BucketGens,
    SnapshotTrees,
    DeletedInodes,
    LoggedOps,
    ReconcileWork,
    SubvolumeChildren,
    Accounting,
    ReconcileHipri,
    ReconcilePending,
    ReconcileScan,
    ReconcileWorkPhys,
    ReconcileHipriPhys,
    BucketToStripe,
    StripeBackpointers,
}

/// How many kinds there are.
pub const NR_BTREE_IDS: u8 = 28;

impl BtreeId {
    /// The number on disk.
    pub open spec fn num(self) -> u8 {
        match self {
            BtreeId::Extents => 0,
            BtreeId::Inodes => 1,
            BtreeId::Dirents => 2,
            BtreeId::Xattrs => 3,
            BtreeId::Alloc => 4,
            BtreeId::Quotas => 5,
            BtreeId::Stripes => 6,
            BtreeId::Reflink => 7,
            BtreeId::Subvolumes => 8,
            BtreeId::Snapshots => 9,
            BtreeId::Lru => 10,
            BtreeId::Freespace => 11,
            BtreeId::NeedDiscard => 12,
            BtreeId::Backpointers => 13,
            BtreeId::BucketGens => 14,
            BtreeId::SnapshotTrees => 15,
            BtreeId::DeletedInodes => 16,
            BtreeId::LoggedOps => 17,
            BtreeId::ReconcileWork => 18,
            BtreeId::SubvolumeChildren => 19,
            BtreeId::Accounting => 20,
            BtreeId::ReconcileHipri => 21,
            BtreeId::ReconcilePending => 22,
            BtreeId::ReconcileScan => 23,
            BtreeId::ReconcileWorkPhys => 24,
            BtreeId::ReconcileHipriPhys => 25,
            BtreeId::BucketToStripe => 26,
            BtreeId::StripeBackpointers => 27,
        }
    }

    /// The number on disk.
    pub fn to_u8(self) -> (r: u8)
        ensures
            r == self.num(),
            r < NR_BTREE_IDS,
    {
        match self {
            BtreeId::Extents => 0,
            BtreeId::Inodes => 1,
            BtreeId::Dirents => 2,
            BtreeId::Xattrs => 3,
            BtreeId::Alloc => 4,
            BtreeId::Quotas => 5,
            BtreeId::Stripes => 6,
            BtreeId::Reflink => 7,
            BtreeId::Subvolumes => 8,
            BtreeId::Snapshots => 9,
            BtreeId::Lru => 10,
            BtreeId::Freespace => 11,
            BtreeId::NeedDiscard => 12,
            BtreeId::Backpointers => 13,
            BtreeId::BucketGens => 14,
            BtreeId::SnapshotTrees => 15,
            BtreeId::DeletedInodes => 16,
            BtreeId::LoggedOps => 17,
            BtreeId::ReconcileWork => 18,
            BtreeId::SubvolumeChildren => 19,
            BtreeId::Accounting => 20,
            BtreeId::ReconcileHipri => 21,
            BtreeId::ReconcilePending => 22,
            BtreeId::ReconcileScan => 23,
            BtreeId::ReconcileWorkPhys => 24,
            BtreeId::ReconcileHipriPhys => 25,
            BtreeId::BucketToStripe => 26,
            BtreeId::StripeBackpointers => 27,
        }
    }

    /// The kind with the number `v`, if there is one.
    pub fn from_u8(v: u8) -> (r: Option<BtreeId>)
        ensures
            match r {
                Some(id) => id.num() == v,
                None => v >= NR_BTREE_IDS,
            },
    {
        match v {
            0 => Some(BtreeId::Extents),
            1 => Some(BtreeId::Inodes),
            2 => Some(BtreeId::Dirents),
            3 => Some(BtreeId::Xattrs),
            4 => Some(BtreeId::Alloc),
            5 => Some(BtreeId::Quotas),
            6 => Some(BtreeId::Stripes),
            7 => Some(BtreeId::Reflink),
            8 => Some(BtreeId::Subvolumes),
            9 => Some(BtreeId::Snapshots),
            10 => Some(BtreeId::Lru),
            11 => Some(BtreeId::Freespace),
            12 => Some(BtreeId::NeedDiscard),
            13 => Some(BtreeId::Backpointers),
            14 => Some(BtreeId::BucketGens),
            15 => Some(BtreeId::SnapshotTrees),
            16 => Some(BtreeId::DeletedInodes),
            17 => Some(BtreeId::LoggedOps),
            18 => Some(BtreeId::ReconcileWork),
            19 => Some(BtreeId::SubvolumeChildren),
            20 => Some(BtreeId::Accounting),
            21 => Some(BtreeId::ReconcileHipri),
            22 => Some(BtreeId::ReconcilePending),
            23 => Some(BtreeId::ReconcileScan),
            24 => Some(BtreeId::ReconcileWorkPhys),
            25 => Some(BtreeId::ReconcileHipriPhys),
            26 => Some(BtreeId::BucketToStripe),
            27 => Some(BtreeId::StripeBackpointers),
            _ => None,
        }
    }
}

/// All kinds, each at the index that is its number.
pub fn btree_id_nr() -> (r: Vec<BtreeId>)
    ensures
        r@.len() == NR_BTREE_IDS,
        forall|i: int| 0 <= i < r@.len() ==> (#[trigger] r@[i]).num() == i,
{
    let mut r: Vec<BtreeId> = Vec::with_capacity(28);
    let mut v: u8 = 0;
    while v < NR_BTREE_IDS
        invariant
            v <= NR_BTREE_IDS,
            r@.len() == v,
            forall|i: int| 0 <= i < r@.len() ==> (#[trigger] r@[i]).num() == i,
        decreases NR_BTREE_IDS - v,
    {
        match BtreeId::from_u8(v) {
            Some(id) => {
                r.push(id);
            },
            None => {},
        }
        v += 1;
    }
    r
}

/// No two kinds share a number.
pub proof fn law_btree_id_num_injective(a: BtreeId, b: BtreeId)
    ensures
        a.num() == b.num() <==> a == b,
        a.num() < NR_BTREE_IDS,
{
}

/// The numbers of the trees on disk go up in the order in which the trees are listed, from zero for
/// the extents on.
pub proof fn law_tree_numbers()
    ensures
        BtreeId::Extents.num() == 0,
        BtreeId::Inodes.num() == 1,
        BtreeId::Dirents.num() == 2,
        BtreeId::Xattrs.num() == 3,
        BtreeId::Alloc.num() == 4,
        BtreeId::Quotas.num() == 5,
        BtreeId::Stripes.num() == 6,
        BtreeId::Reflink.num() == 7,
        BtreeId::Subvolumes.num() == 8,
        BtreeId::Snapshots.num() == 9,
        BtreeId::Lru.num() == 10,
        BtreeId::Freespace.num() == 11,
        BtreeId::NeedDiscard.num() == 12,
        BtreeId::Backpointers.num() == 13,
        BtreeId::BucketGens.num() == 14,
        BtreeId::SnapshotTrees.num() == 15,
        BtreeId::DeletedInodes.num() == 16,
        BtreeId::LoggedOps.num() == 17,
        BtreeId::ReconcileWork.num() == 18,
        BtreeId::SubvolumeChildren.num() == 19,
        BtreeId::Accounting.num() == 20,
        BtreeId::ReconcileHipri.num() == 21,
        BtreeId::ReconcilePending.num() == 22,
        BtreeId::ReconcileScan.num() == 23,
        BtreeId::ReconcileWorkPhys.num() == 24,
        BtreeId::ReconcileHipriPhys.num() == 25,
        BtreeId::BucketToStripe.num() == 26,
        BtreeId::StripeBackpointers.num() == 27,
        NR_BTREE_IDS == 28,
{
}

} // verus!
