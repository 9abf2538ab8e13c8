//! Looking keys up.

use crate::entries::find;
use crate::key::{BchVal, Bpos, BtreeKey, EntryView, KeyEntry, KeyType, KeyValue};
use crate::node::BtreeNode;
use crate::path::PathLevel;
use crate::shape::get;
use crate::transaction::BtreeTrans;
use crate::tree::Btree;
use vstd::prelude::*;

verus! {

/// An entry that lookups show: neither a tombstone nor a whiteout.
pub open spec fn shown(e: Option<EntryView>) -> Option<EntryView> {
    match e {
        Some(x) => if x.key_type == KeyType::Normal || x.key_type == KeyType::Present {
            Some(x)
        } else {
            None
        },
        None => None,
    }
}

impl Btree {
    /// What a lookup by position gives: what is cached, or else what the nodes show.
    pub open spec fn entry_at(self, k: int) -> Option<EntryView> {
        match self.key_cache.cached(k) {
            Some(e) => Some(e),
            None => shown(self.tree_get(k)),
        }
    }

    /// What a lookup by key gives: an entry of the key's type; of cached entries only extents count.
    pub open spec fn entry_for(self, target: BtreeKey) -> Option<EntryView> {
        let k = target.pos.ord();
        match self.key_cache.cached(k) {
            Some(e) => if e.key_type == target.key_type && e.value is Extent {
                Some(e)
            } else {
                self.shown_for(target)
            },
            None => self.shown_for(target),
        }
    }

    /// The entry that the nodes show for a key.
    pub open spec fn shown_for(self, target: BtreeKey) -> Option<EntryView> {
        match shown(self.tree_get(target.pos.ord())) {
            Some(e) => if e.key_type == target.key_type {
                Some(e)
            } else {
                None
            },
            None => None,
        }
    }

    /// Nothing but copies of entries in front of the nodes has changed, and only for the better.
    pub open spec fn only_cached(self, o: Btree) -> bool {
        &&& self.root == o.root
        &&& self.cache == o.cache
        &&& self.btype == o.btype
        &&& self.root_modified == o.root_modified
        &&& self.merge_threshold == o.merge_threshold
        &&& self.pending_root_journal == o.pending_root_journal
        &&& self.current_root_disk == o.current_root_disk
        &&& self.key_cache.dirty_keys() == o.key_cache.dirty_keys()
        &&& forall|x: int| #[trigger] self.tree_get(x) == o.tree_get(x)
        &&& o.coherent() ==> self.coherent()
        &&& o.coherent() ==> forall|x: int| #[trigger] self.lookup(x) == o.lookup(x)
        &&& o.coherent() ==> forall|x: int| #[trigger] self.entry_at(x) == o.entry_at(x)
    }

    /// The entry of the nodes at `pos`, whatever its type.
    pub fn get_entry_allow_whiteout(&self, pos: &Bpos) -> (r: Option<&KeyEntry>)
        requires
            self.shape_ok(),
        ensures
            match r {
                Some(e) => self.tree_get(pos.ord()) == Some(e@),
                None => self.tree_get(pos.ord()) is None,
            },
    {
        let path: Vec<PathLevel> = self.path_to(pos);
        proof {
            self.lemma_path(path@, 0, 0);
            assert(self.tree_get(pos.ord()) == get(
                self.cache@,
                self.path_node(path@, 0),
                0,
                pos.ord(),
            ));
        }
        let leaf: &BtreeNode = self.node_on(&path, 0);
        leaf.lookup(pos)
    }

    /// The entry that the nodes show at `pos`.
    fn shown_entry(&self, pos: &Bpos) -> (r: Option<KeyEntry>)
        requires
            self.shape_ok(),
        ensures
            match r {
                Some(e) => shown(self.tree_get(pos.ord())) == Some(e@),
                None => shown(self.tree_get(pos.ord())) is None,
            },
    {
        match self.get_entry_allow_whiteout(pos) {
            None => None,
            Some(e) => match e.key_type {
                KeyType::Normal | KeyType::Present => Some(e.clone()),
                KeyType::Deleted | KeyType::Whiteout => None,
            },
        }
    }

    /// The copies in front of the nodes are those of `o`, and that of `e` at rank `k` where there is
    /// one.
    pub open spec fn copied(self, o: Btree, k: int, e: Option<EntryView>) -> bool {
        forall|x: int| #[trigger]
            find(self.key_cache.clean_keys(), x) == if x == k && e is Some {
                e
            } else {
                find(o.key_cache.clean_keys(), x)
            }
    }

    /// Keeps a copy of an entry that the nodes hold.
    fn keep_copy(&mut self, entry: KeyEntry)
        requires
            old(self).wf(),
            shown(old(self).tree_get(entry.pos.ord())) == Some(entry@),
        ensures
            final(self).wf(),
            final(self).only_cached(*old(self)),
            find(final(self).key_cache.clean_keys(), entry.pos.ord()) == Some(entry@),
            final(self).copied(*old(self), entry.pos.ord(), Some(entry@)),
    {
        let ghost before = *self;
        let ghost k = entry.pos.ord();
        let ghost e = entry@;
        self.key_cache.insert(entry);
        proof {
            assert forall|x: int| #[trigger] self.tree_get(x) == before.tree_get(x) by {}
            if before.coherent() {
                assert forall|x: int|
                    (#[trigger] find(self.key_cache.clean_keys(), x)) is Some implies find(
                    self.key_cache.clean_keys(),
                    x,
                ) == self.tree_get(x) by {
                    if x != k {
                        assert(find(self.key_cache.clean_keys(), x) == find(
                            before.key_cache.clean_keys(),
                            x,
                        ));
                    }
                }
                assert forall|x: int| #[trigger] self.entry_at(x) == before.entry_at(x) by {
                    assert(find(self.key_cache.clean_keys(), x) == if x == k {
                        Some(e)
                    } else {
                        find(before.key_cache.clean_keys(), x)
                    });
                    if x == k && find(before.key_cache.clean_keys(), k) is Some {
                        assert(find(before.key_cache.clean_keys(), k) == before.tree_get(k));
                    }
                }
                assert forall|x: int| #[trigger] self.lookup(x) == before.lookup(x) by {
                    assert(find(self.key_cache.clean_keys(), x) == if x == k {
                        Some(e)
                    } else {
                        find(before.key_cache.clean_keys(), x)
                    });
                    if x == k && find(before.key_cache.clean_keys(), k) is Some {
                        assert(find(before.key_cache.clean_keys(), k) == before.tree_get(k));
                    }
                }
            }
        }
    }

    /// The key and value stored under `target`, type included. What the nodes give is kept as a
    /// copy in front of them; that there is nothing is not.
    pub fn bch2_btree_iter_peek(&mut self, target: &BtreeKey) -> (r: Option<(BtreeKey, BchVal)>)
        requires
            old(self).wf(),
        ensures
            r == (match old(self).entry_for(*target) {
                Some(e) => Some((e.key(), e.bch_val())),
                None => None,
            }),
            r matches Some((k, _)) ==> k.pos == target.pos && k.key_type == target.key_type,
            final(self).wf(),
            final(self).only_cached(*old(self)),
            final(self).copied(
                *old(self),
                target.pos.ord(),
                match old(self).key_cache.cached(target.pos.ord()) {
                    Some(e) => if e.key_type == target.key_type && e.value is Extent {
                        None
                    } else {
                        old(self).shown_for(*target)
                    },
                    None => old(self).shown_for(*target),
                },
            ),
    {
        if let Some(e) = self.key_cache.find(&target.pos) {
            if e.key_type == target.key_type {
                if let KeyValue::Extent(_) = e.value {
                    proof {
                        self.key_cache.lemma_cached_pos(target.pos);
                    }
                    return Some(e.to_key_value());
                }
            }
        }
        match self.shown_entry(&target.pos) {
            None => None,
            Some(e) => {
                proof {
                    crate::shape::lemma_get_pos(
                        self.cache@,
                        self.root.node,
                        self.height(),
                        target.pos.ord(),
                    );
                }
                if e.key_type == target.key_type {
                    proof {
                        crate::key::lemma_ord(e.pos, target.pos);
                    }
                    let kv: (BtreeKey, BchVal) = e.to_key_value();
                    self.keep_copy(e);
                    Some(kv)
                } else {
                    None
                }
            },
        }
    }

    /// The entry at `pos`: what is cached, or else what the nodes show, which is then kept as a
    /// copy in front of them.
    pub fn bch2_btree_iter_peek_entry(&mut self, pos: Bpos) -> (r: Option<KeyEntry>)
        requires
            old(self).wf(),
        ensures
            match r {
                Some(e) => old(self).entry_at(pos.ord()) == Some(e@),
                None => old(self).entry_at(pos.ord()) is None,
            },
            old(self).key_cache.cached(pos.ord()) is None ==> match (
                r,
                old(self).tree_get(pos.ord()),
            ) {
                (Some(e), x) => x == Some(e@) && e.key_type != KeyType::Whiteout && e.key_type
                    != KeyType::Deleted,
                (None, Some(x)) => x.key_type == KeyType::Whiteout || x.key_type
                    == KeyType::Deleted,
                (None, None) => true,
            },
            final(self).wf(),
            final(self).only_cached(*old(self)),
            final(self).copied(
                *old(self),
                pos.ord(),
                match (old(self).key_cache.cached(pos.ord()), r) {
                    (None, Some(e)) => Some(e@),
                    _ => None,
                },
            ),
    {
        let mut trans: BtreeTrans = BtreeTrans::new();
        self.bch2_btree_iter_peek_with_restart(pos, &mut trans)
    }

    /// The same, for a transaction: it hears of it if the entry was not cached.
    pub fn bch2_btree_iter_peek_with_restart(&mut self, pos: Bpos, trans: &mut BtreeTrans) -> (r:
        Option<KeyEntry>)
        requires
            old(self).wf(),
        ensures
            match r {
                Some(e) => old(self).entry_at(pos.ord()) == Some(e@),
                None => old(self).entry_at(pos.ord()) is None,
            },
            old(self).key_cache.cached(pos.ord()) is None ==> match (
                r,
                old(self).tree_get(pos.ord()),
            ) {
                (Some(e), x) => x == Some(e@) && e.key_type != KeyType::Whiteout && e.key_type
                    != KeyType::Deleted,
                (None, Some(x)) => x.key_type == KeyType::Whiteout || x.key_type
                    == KeyType::Deleted,
                (None, None) => true,
            },
            final(self).wf(),
            final(self).only_cached(*old(self)),
            *final(trans) == if old(self).key_cache.cached(pos.ord()) is Some {
                *old(trans)
            } else {
                (BtreeTrans { key_cache_miss: true, ..*old(trans) })
            },
            r is Some ==> final(self).key_cache.cached(pos.ord()) is Some,
            final(self).copied(
                *old(self),
                pos.ord(),
                match (old(self).key_cache.cached(pos.ord()), r) {
                    (None, Some(e)) => Some(e@),
                    _ => None,
                },
            ),
    {
        if let Some(e) = self.key_cache.find(&pos) {
            return Some(e.clone());
        }
        trans.trigger_key_cache_miss();
        match self.shown_entry(&pos) {
            None => None,
            Some(e) => {
                proof {
                    crate::shape::lemma_get_pos(
                        self.cache@,
                        self.root.node,
                        self.height(),
                        pos.ord(),
                    );
                }
                let copy: KeyEntry = e.clone();
                self.keep_copy(copy);
                Some(e)
            },
        }
    }
}

/// A lookup changes nothing for the lookups after it, as long as the copies in front of the nodes
/// agree with the nodes.
pub proof fn law_lookup_is_pure(before: Btree, after: Btree, pos: Bpos)
    requires
        before.coherent(),
        after.only_cached(before),
    ensures
        after.coherent(),
        after.entry_at(pos.ord()) == before.entry_at(pos.ord()),
        after.lookup(pos.ord()) == before.lookup(pos.ord()),
{
}

/// Lookups give no whiteout and no tombstone of the nodes, and give everything else that the nodes
/// hold: by its position as it is, and by a key at its position where the key is of its type.
pub proof fn law_lookups_hide_whiteouts(t: Btree, target: BtreeKey)
    requires
        t.key_cache.cached(target.pos.ord()) is None,
    ensures
        match t.tree_get(target.pos.ord()) {
            None => t.entry_at(target.pos.ord()) is None && t.entry_for(target) is None,
            Some(e) => {
                let hidden = e.key_type == KeyType::Whiteout || e.key_type == KeyType::Deleted;
                &&& hidden ==> t.entry_at(target.pos.ord()) is None
                &&& hidden ==> t.entry_for(target) is None
                &&& !hidden ==> t.entry_at(target.pos.ord()) == Some(e)
                &&& !hidden && target.key_type == e.key_type ==> t.entry_for(target) == Some(e)
                &&& target.key_type != e.key_type ==> t.entry_for(target) is None
            },
        },
{
}

/// What is cached at a position is what a lookup there gives, whatever the nodes hold. A lookup by a
/// key goes by it only where it is an extent of the key's type, and asks the nodes else.
pub proof fn law_cached_entries_come_first(t: Btree, target: BtreeKey, e: EntryView)
    requires
        t.key_cache.cached(target.pos.ord()) == Some(e),
    ensures
        t.entry_at(target.pos.ord()) == Some(e),
        e.value is Extent && e.key_type == target.key_type ==> t.entry_for(target) == Some(e),
        !(e.value is Extent && e.key_type == target.key_type) ==> match t.tree_get(
            target.pos.ord(),
        ) {
            Some(x) => {
                let shows = x.key_type == target.key_type && x.key_type != KeyType::Whiteout
                    && x.key_type != KeyType::Deleted;
                &&& shows ==> t.entry_for(target) == Some(x)
                &&& !shows ==> t.entry_for(target) is None
            },
            None => t.entry_for(target) is None,
        },
{
}

} // verus!
