//! Where nodes go when they are written.

use crate::node::BtreeNode;
use vstd::prelude::*;

verus! {

/// Why an operation on the tree failed.
#[derive(Debug, Clone, Copy, PartialEq, Eq, Structural)]
pub enum StorageError {
    /// No address is left for a new node.
    NoSpace,
    /// The device refused a read or a write.
    Io,
    /// An argument is out of its range.
    InvalidArgument,
    /// What was asked for is not there.
    NotFound,
    /// Data does not say what it should.
    InvalidData,
    /// A node or a key is damaged.
    Corruption,
    /// A transaction cannot go on.
    Transaction,
}

/// Writes nodes and hands out the addresses that they are written at.
pub trait BtreeNodeWriter {
    /// Addresses that are in use, as far as the writer knows.
    spec fn in_use(&self) -> Set<u64>;

    /// Why the last write that failed did so, if any has failed.
    spec fn failure(&self) -> Option<StorageError>;

    /// The nodes that were handed over, by the addresses that they were written at.
    spec fn written(&self) -> Map<u64, BtreeNode>;

    /// So many writes are sure to succeed from now on.
    spec fn room(&self) -> nat;

    /// Writes a copy of `node` at an address that was not in use, never zero.
    fn write_btree_node(&mut self, node: &BtreeNode) -> (r: Result<u64, StorageError>)
        ensures
            match r {
                Ok(addr) => {
                    &&& addr != 0
                    &&& !old(self).in_use().contains(addr)
                    &&& final(self).in_use() == old(self).in_use().insert(addr)
                    &&& final(self).failure() == old(self).failure()
                    &&& final(self).written() == old(self).written().insert(
                        addr,
                        final(self).written()[addr],
                    )
                    &&& final(self).written()[addr].copy_of(*node)
                    &&& old(self).room() <= final(self).room() + 1
                },
                Err(e) => {
                    &&& final(self).in_use() == old(self).in_use()
                    &&& final(self).written() == old(self).written()
                    &&& final(self).failure() == Some(e)
                    &&& old(self).room() == 0
                },
            },
    ;
}

/// What an operation that writes nodes says of its writer: it fails just where a write fails, and
/// with the error of that write.
pub open spec fn fails_with<W: BtreeNodeWriter, T>(o: W, n: W, r: Result<T, StorageError>) -> bool {
    match r {
        Ok(_) => n.failure() == o.failure(),
        Err(e) => n.failure() == Some(e),
    }
}

/// An operation that makes at most `n` writes: it succeeds where the writer has room for these, and
/// the writer has as much less left.
pub open spec fn takes_room<W: BtreeNodeWriter, T>(
    o: W,
    w: W,
    r: Result<T, StorageError>,
    n: int,
) -> bool {
    &&& r is Err ==> o.room() < n
    &&& o.room() <= w.room() + n
}

/// The writer was handed a copy of `node` at the address `addr`.
pub open spec fn on_disk<W: BtreeNodeWriter>(w: W, addr: u64, node: BtreeNode) -> bool {
    w.written().contains_key(addr) && w.written()[addr].copy_of(node)
}

/// What is at an address that was in use stays there as it was written.
pub open spec fn writes_kept<W: BtreeNodeWriter>(o: W, n: W) -> bool {
    &&& o.in_use().subset_of(n.in_use())
    &&& forall|a: u64| #[trigger]
        o.in_use().contains(a) ==> (n.written().contains_key(a) <==> o.written().contains_key(a))
            && n.written()[a] == o.written()[a]
}

/// Every node of `m2` at an address that is not in `m` was written as it is in `m2`.
pub open spec fn new_written<W: BtreeNodeWriter>(
    m: Map<u64, BtreeNode>,
    m2: Map<u64, BtreeNode>,
    w: W,
) -> bool {
    forall|a: u64| #[trigger]
        m2.contains_key(a) && !m.contains_key(a) ==> on_disk(w, a, m2[a])
}

/// A writer that only hands out addresses, in ascending order.
pub struct NoopWriter {
    next: u64,
    failure: Option<StorageError>,
    written: Ghost<Map<u64, BtreeNode>>,
}

impl NoopWriter {
    pub closed spec fn next(&self) -> u64 {
        self.next
    }

    /// A writer whose first address is `first`; everything below counts as in use.
    pub fn starting_at(first: u64) -> (r: NoopWriter)
        requires
            first > 0,
        ensures
            r.next() == first,
            r.failure() is None,
            r.in_use() == Set::new(|a: u64| a < first),
            r.written() == Map::<u64, BtreeNode>::empty(),
            r.room() == u64::MAX - first,
    {
        let r: NoopWriter = NoopWriter {
            next: first,
            failure: None,
            written: Ghost(Map::empty()),
        };
        assert(r.in_use() =~= Set::new(|a: u64| a < first));
        r
    }
}

impl BtreeNodeWriter for NoopWriter {
    closed spec fn in_use(&self) -> Set<u64> {
        Set::new(|a: u64| a < self.next || a == 0)
    }

    closed spec fn failure(&self) -> Option<StorageError> {
        self.failure
    }

    closed spec fn written(&self) -> Map<u64, BtreeNode> {
        self.written@
    }

    closed spec fn room(&self) -> nat {
        if self.next == 0 {
            0
        } else {
            (u64::MAX - self.next) as nat
        }
    }

    /// Fails only where the addresses have run out.
    fn write_btree_node(&mut self, node: &BtreeNode) -> (r: Result<u64, StorageError>)
        ensures
            r is Ok <==> 0 < old(self).next() < u64::MAX,
            r is Ok ==> r->Ok_0 == old(self).next() && final(self).next() == old(self).next() + 1,
            r is Err ==> r->Err_0 == StorageError::NoSpace,
    {
        if self.next == 0 || self.next == u64::MAX {
            self.failure = Some(StorageError::NoSpace);
            assert(self.in_use() =~= old(self).in_use());
            return Err(StorageError::NoSpace);
        }
        let addr: u64 = self.next;
        self.next = addr + 1;
        self.written = Ghost(self.written@.insert(addr, *node));
        assert(self.in_use() =~= old(self).in_use().insert(addr));
        Ok(addr)
    }
}

/// A writer with a reserve of addresses: nodes get these, and are kept until they are taken to a
/// device.
#[derive(Debug)]
pub struct ReservedWriter {
    reserve: Vec<u64>,
    written: Vec<(u64, BtreeNode)>,
    failure: Option<StorageError>,
}

/// The nodes of a log of writes by their addresses; a later write counts.
pub open spec fn by_addr(s: Seq<(u64, BtreeNode)>) -> Map<u64, BtreeNode>
    decreases s.len(),
{
    if s.len() == 0 {
        Map::empty()
    } else {
        by_addr(s.drop_last()).insert(s.last().0, s.last().1)
    }
}

/// No address twice, and none that is zero.
pub open spec fn addrs_ok(s: Seq<u64>) -> bool {
    s.no_duplicates() && !s.contains(0)
}

/// Whether addresses can serve as a reserve.
fn usable(addrs: &Vec<u64>) -> (r: bool)
    ensures
        r == addrs_ok(addrs@),
{
    let ghost s = addrs@;
    let mut i: usize = 0;
    while i < addrs.len()
        invariant
            i <= addrs.len(),
            s == addrs@,
            forall|x: int| 0 <= x < i ==> #[trigger] s[x] != 0,
            forall|x: int, y: int| 0 <= x < y < i ==> #[trigger] s[x] != #[trigger] s[y],
        decreases addrs.len() - i,
    {
        if addrs[i] == 0 {
            assert(s[i as int] == 0);
            return false;
        }
        let mut j: usize = 0;
        while j < i
            invariant
                j <= i < addrs.len(),
                s == addrs@,
                forall|x: int| 0 <= x < j ==> #[trigger] s[x] != s[i as int],
            decreases i - j,
        {
            if addrs[j] == addrs[i] {
                assert(s[j as int] == s[i as int]);
                return false;
            }
            j += 1;
        }
        i += 1;
    }
    true
}

impl ReservedWriter {
    /// Addresses that are left.
    pub closed spec fn reserve(&self) -> Seq<u64> {
        self.reserve@
    }

    /// The nodes that were written, with their addresses, in the order of the writes.
    pub closed spec fn log(&self) -> Seq<(u64, BtreeNode)> {
        self.written@
    }

    /// A writer that hands out `addrs`, the last one first; `None` where one of them is zero or
    /// comes twice.
    pub fn with_addrs(addrs: Vec<u64>) -> (r: Option<ReservedWriter>)
        ensures
            r is Some <==> addrs_ok(addrs@),
            r matches Some(w) ==> {
                &&& w.reserve() == addrs@
                &&& w.log() == Seq::<(u64, BtreeNode)>::empty()
                &&& w.written() == Map::<u64, BtreeNode>::empty()
                &&& w.failure() is None
                &&& w.room() == addrs@.len()
                &&& forall|a: u64| w.in_use().contains(a) <==> !addrs@.contains(a)
            },
    {
        if !usable(&addrs) {
            return None;
        }
        Some(ReservedWriter { reserve: addrs, written: Vec::new(), failure: None })
    }

    /// The nodes that were written, with their addresses.
    pub fn into_written(self) -> (r: Vec<(u64, BtreeNode)>)
        ensures
            r@ == self.log(),
            self.written() == by_addr(r@),
    {
        self.written
    }
}

impl BtreeNodeWriter for ReservedWriter {
    closed spec fn in_use(&self) -> Set<u64> {
        Set::new(|a: u64| !self.reserve@.contains(a) || !addrs_ok(self.reserve@))
    }

    closed spec fn failure(&self) -> Option<StorageError> {
        self.failure
    }

    closed spec fn written(&self) -> Map<u64, BtreeNode> {
        by_addr(self.written@)
    }

    closed spec fn room(&self) -> nat {
        if addrs_ok(self.reserve@) {
            self.reserve@.len()
        } else {
            0
        }
    }

    /// Fails only where the reserve is used up.
    fn write_btree_node(&mut self, node: &BtreeNode) -> (r: Result<u64, StorageError>)
        ensures
            addrs_ok(old(self).reserve()) ==> (r is Ok <==> old(self).reserve().len() > 0),
            r is Ok ==> {
                &&& r->Ok_0 == old(self).reserve().last()
                &&& final(self).reserve() == old(self).reserve().drop_last()
                &&& final(self).log().drop_last() == old(self).log()
                &&& final(self).log().last().0 == r->Ok_0
                &&& final(self).log().last().1.copy_of(*node)
            },
            r is Err ==> r->Err_0 == StorageError::NoSpace && final(self).log() == old(self).log(),
    {
        if !usable(&self.reserve) {
            self.failure = Some(StorageError::NoSpace);
            assert(self.in_use() =~= old(self).in_use());
            return Err(StorageError::NoSpace);
        }
        let ghost s = self.reserve@;
        match self.reserve.pop() {
            None => {
                self.failure = Some(StorageError::NoSpace);
                assert(self.in_use() =~= old(self).in_use());
                Err(StorageError::NoSpace)
            },
            Some(addr) => {
                self.written.push((addr, node.duplicate()));
                proof {
                    let t = self.reserve@;
                    assert(s[s.len() - 1] == addr);
                    assert(addr != 0) by {
                        assert(s.contains(addr));
                    }
                    assert forall|a: u64| s.contains(a) && a != addr implies t.contains(a) by {
                        let i = choose|i: int| 0 <= i < s.len() && s[i] == a;
                        assert(t[i] == a);
                    }
                    assert forall|a: u64| t.contains(a) implies s.contains(a) && a != addr by {
                        let i = choose|i: int| 0 <= i < t.len() && t[i] == a;
                        assert(s[i] == a);
                    }
                    assert(self.in_use() =~= old(self).in_use().insert(addr));
                    assert(self.written@.drop_last() =~= old(self).written@);
                }
                Ok(addr)
            },
        }
    }
}

/// What was written last at an address is what is there.
pub proof fn law_last_write_counts(s: Seq<(u64, BtreeNode)>, a: u64, n: BtreeNode)
    ensures
        by_addr(s.push((a, n))) == by_addr(s).insert(a, n),
        by_addr(Seq::empty()) == Map::<u64, BtreeNode>::empty(),
{
    assert(s.push((a, n)).drop_last() =~= s);
}

/// Addresses can be handed out where none is zero and none comes twice.
pub proof fn law_usable_addresses(s: Seq<u64>, i: int, j: int)
    requires
        addrs_ok(s),
        0 <= i < s.len(),
        0 <= j < s.len(),
    ensures
        s[i] != 0,
        i != j ==> s[i] != s[j],
{
}

} // verus!
