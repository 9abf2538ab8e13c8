//! Single keys kept in front of a tree.

use crate::entries::{
    drop_entry, find, find_entry, holds, keys, lemma_find_some, put_entry, sorted,
};
use crate::key::{lemma_ord, Bpos, EntryView, KeyEntry};
use vstd::prelude::*;

verus! {

/// Entries read from the tree, and entries that have not reached it yet.
#[derive(Debug)]
pub struct KeyCache {
    clean: Vec<KeyEntry>,
    dirty: Vec<KeyEntry>,
}

impl KeyCache {
    /// Copies of entries of the tree.
    pub closed spec fn clean_keys(&self) -> Seq<EntryView> {
        keys(self.clean@)
    }

    /// Entries that the tree is still to get.
    pub closed spec fn dirty_keys(&self) -> Seq<EntryView> {
        keys(self.dirty@)
    }

    pub open spec fn wf(&self) -> bool {
        &&& sorted(self.clean_keys())
        &&& sorted(self.dirty_keys())
    }

    /// What the cache holds at rank `k`; what the tree has not got yet comes first.
    pub open spec fn cached(&self, k: int) -> Option<EntryView> {
        match find(self.dirty_keys(), k) {
            Some(e) => Some(e),
            None => find(self.clean_keys(), k),
        }
    }

    /// What is cached at a position stands there.
    pub(crate) proof fn lemma_cached_pos(&self, pos: Bpos)
        ensures
            self.cached(pos.ord()) matches Some(e) ==> e.pos == pos,
    {
        if find(self.dirty_keys(), pos.ord()) is Some {
            let i = lemma_find_some(self.dirty_keys(), pos.ord());
            lemma_ord(self.dirty_keys()[i].pos, pos);
        } else if find(self.clean_keys(), pos.ord()) is Some {
            let i = lemma_find_some(self.clean_keys(), pos.ord());
            lemma_ord(self.clean_keys()[i].pos, pos);
        }
    }

    pub fn new() -> (r: KeyCache)
        ensures
            r.wf(),
            r.clean_keys() == Seq::<EntryView>::empty(),
            r.dirty_keys() == Seq::<EntryView>::empty(),
    {
        let r: KeyCache = KeyCache { clean: Vec::new(), dirty: Vec::new() };
        assert(r.clean_keys() =~= Seq::<EntryView>::empty());
        assert(r.dirty_keys() =~= Seq::<EntryView>::empty());
        r
    }

    /// The cached entry at `pos`.
    pub fn find(&self, pos: &Bpos) -> (r: Option<&KeyEntry>)
        requires
            self.wf(),
        ensures
            match r {
                Some(e) => self.cached(pos.ord()) == Some(e@),
                None => self.cached(pos.ord()) is None,
            },
    {
        match find_entry(&self.dirty, pos) {
            Some(e) => Some(e),
            None => find_entry(&self.clean, pos),
        }
    }

    /// Keeps a copy of an entry of the tree.
    pub fn insert(&mut self, entry: KeyEntry)
        requires
            old(self).wf(),
        ensures
            final(self).wf(),
            final(self).dirty_keys() == old(self).dirty_keys(),
            forall|k: int| #[trigger]
                find(final(self).clean_keys(), k) == if k == entry.pos.ord() {
                    Some(entry@)
                } else {
                    find(old(self).clean_keys(), k)
                },
    {
        put_entry(&mut self.clean, entry);
    }

    /// Forgets what is cached at `pos`.
    pub fn invalidate(&mut self, pos: &Bpos)
        requires
            old(self).wf(),
        ensures
            final(self).wf(),
            forall|k: int| #[trigger]
                find(final(self).clean_keys(), k) == if k == pos.ord() {
                    None
                } else {
                    find(old(self).clean_keys(), k)
                },
            forall|k: int| #[trigger]
                find(final(self).dirty_keys(), k) == if k == pos.ord() {
                    None
                } else {
                    find(old(self).dirty_keys(), k)
                },
            final(self).dirty_keys().len() == old(self).dirty_keys().len() - if holds(
                old(self).dirty_keys(),
                pos.ord(),
            ) {
                1int
            } else {
                0
            },
    {
        drop_entry(&mut self.clean, pos);
        drop_entry(&mut self.dirty, pos);
    }

    /// Takes a new entry in front of the tree.
    pub fn bch2_btree_insert_key_cached(&mut self, entry: KeyEntry)
        requires
            old(self).wf(),
        ensures
            final(self).wf(),
            final(self).clean_keys() == old(self).clean_keys(),
            forall|k: int| #[trigger]
                find(final(self).dirty_keys(), k) == if k == entry.pos.ord() {
                    Some(entry@)
                } else {
                    find(old(self).dirty_keys(), k)
                },
    {
        put_entry(&mut self.dirty, entry);
    }

    /// How many entries the tree is still to get.
    pub fn nr_dirty_keys(&self) -> (r: usize)
        ensures
            r == self.dirty_keys().len(),
    {
        self.dirty.len()
    }

    /// The first entry that the tree is still to get.
    pub fn first_dirty(&self) -> (r: Option<KeyEntry>)
        ensures
            match r {
                Some(e) => self.dirty_keys().len() > 0 && self.dirty_keys()[0] == e@,
                None => self.dirty_keys().len() == 0,
            },
    {
        if self.dirty.len() == 0 {
            None
        } else {
            Some(self.dirty[0].clone())
        }
    }

    /// Forgets everything.
    pub fn clear(&mut self)
        ensures
            final(self).wf(),
            final(self).clean_keys() == Seq::<EntryView>::empty(),
            final(self).dirty_keys() == Seq::<EntryView>::empty(),
    {
        self.clean.clear();
        self.dirty.clear();
        assert(self.clean_keys() =~= Seq::<EntryView>::empty());
        assert(self.dirty_keys() =~= Seq::<EntryView>::empty());
    }
}

/// What the tree is still to get comes before the copies of what it has; with neither there is
/// nothing.
pub proof fn law_pending_comes_first(c: KeyCache, k: int)
    ensures
        find(c.dirty_keys(), k) is Some ==> c.cached(k) == find(c.dirty_keys(), k),
        find(c.dirty_keys(), k) is None ==> c.cached(k) == find(c.clean_keys(), k),
{
}

} // verus!
