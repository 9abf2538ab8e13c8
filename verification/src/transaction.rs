//! What a transaction has to know of the trees it works on.

use crate::tree::Btree;
use crate::writer::StorageError;
use vstd::prelude::*;

verus! {

/// How often a transaction may start over before it gives up.
pub const MAX_RESTARTS: u32 = 10;

/// A transaction: it has to start over where a node it went through was split, or where a key
/// was not cached.
#[derive(Debug)]
pub struct BtreeTrans {
    pub node_split: bool,
    pub key_cache_miss: bool,
    pub restarts: u32,
}

impl BtreeTrans {
    pub fn new() -> (r: BtreeTrans)
        ensures
            r == (BtreeTrans { node_split: false, key_cache_miss: false, restarts: 0 }),
    {
        BtreeTrans { node_split: false, key_cache_miss: false, restarts: 0 }
    }

    /// Starts, or starts over where something calls for it; nothing calls for a restart any more.
    pub fn bch2_trans_begin(&mut self)
        ensures
            *final(self) == (BtreeTrans {
                node_split: false,
                key_cache_miss: false,
                restarts: if old(self).wants_restart() && old(self).restarts < u32::MAX {
                    (old(self).restarts + 1) as u32
                } else {
                    old(self).restarts
                },
            }),
    {
        if (self.node_split || self.key_cache_miss) && self.restarts < u32::MAX {
            self.restarts = self.restarts + 1;
        }
        self.node_split = false;
        self.key_cache_miss = false;
    }

    /// A node on the transaction's way was split.
    pub fn trigger_node_split(&mut self)
        ensures
            *final(self) == (BtreeTrans { node_split: true, ..*old(self) }),
    {
        self.node_split = true;
    }

    /// A key was not cached.
    pub fn trigger_key_cache_miss(&mut self)
        ensures
            *final(self) == (BtreeTrans { key_cache_miss: true, ..*old(self) }),
    {
        self.key_cache_miss = true;
    }

    pub open spec fn wants_restart(self) -> bool {
        self.node_split || self.key_cache_miss
    }

    /// Ends the transaction; one that started over too often has failed.
    pub fn bch2_trans_commit(&self) -> (r: Result<(), StorageError>)
        ensures
            r == if self.restarts <= MAX_RESTARTS {
                Ok::<(), StorageError>(())
            } else {
                Err::<(), StorageError>(StorageError::Transaction)
            },
            r is Ok <==> self.restarts <= 10,
    {
        if self.restarts <= MAX_RESTARTS {
            Ok(())
        } else {
            Err(StorageError::Transaction)
        }
    }
}

impl Btree {
    /// Runs `f` in a transaction of its own, and hands out what it gave unless the transaction
    /// failed.
    pub fn bch2_trans_commit<R, F: FnOnce(BtreeTrans) -> (R, BtreeTrans)>(&self, f: F) -> (r:
        Result<R, StorageError>)
        requires
            forall|t: BtreeTrans| !t.wants_restart() && t.restarts == 0 ==> call_requires(f, (t,)),
        ensures
            exists|t: BtreeTrans, out: (R, BtreeTrans)|
                !t.wants_restart() && t.restarts == 0 && call_ensures(f, (t,), out) && r == if (
                out.1.restarts <= MAX_RESTARTS) {
                    Ok::<R, StorageError>(out.0)
                } else {
                    Err::<R, StorageError>(StorageError::Transaction)
                },
    {
        let mut trans: BtreeTrans = BtreeTrans::new();
        trans.bch2_trans_begin();
        let ghost t = trans;
        let (result, done): (R, BtreeTrans) = f(trans);
        assert(call_ensures(f, (t,), (result, done)));
        match done.bch2_trans_commit() {
            Ok(_) => Ok(result),
            Err(e) => Err(e),
        }
    }
}

/// A transaction starts over where a node was split or where a key was not cached.
pub proof fn law_reasons_to_start_over(t: BtreeTrans)
    ensures
        t.wants_restart() <==> t.node_split || t.key_cache_miss,
{
}

} // verus!
