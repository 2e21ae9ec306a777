//! The abstract page store and an in-memory implementation.
//!
//! The tree mutator sees the physical backing medium only through this
//! interface: dereference a page identifier, persist a new page under a
//! fresh nonzero identifier, and queue a superseded page for release. A
//! page, once allocated, is never altered through this interface; the
//! engine supersedes pages instead of mutating them, so a reader holding
//! an older root still observes a consistent snapshot. Release is
//! therefore deferred: `free` only marks an identifier reclaimable, and
//! the page stays readable until reclamation happens outside this core.
//!
//! A disk-backed implementation persists each page in the byte layout of
//! `codec`; `MemStore` keeps decoded pages in memory for tests and for
//! embedding without a disk.

use vstd::prelude::*;

use crate::errors::BTreeError;
use crate::node::{clone_node, Node, NodeV};

verus! {

/// The page store interface consumed by the tree mutator.
pub trait PageStore: Sized {
    /// The pages readable through this store, by identifier.
    spec fn pages(&self) -> Map<u64, NodeV>;

    /// Dereferences `ptr`. Failure is a store fault; an unknown
    /// identifier is a caller bug, excluded by the precondition.
    fn get(&self, ptr: u64) -> (r: Result<Node, BTreeError>)
        requires
            self.pages().dom().contains(ptr),
        ensures
            r matches Ok(n) ==> n@ == self.pages()[ptr],
            r matches Err(e) ==> e == BTreeError::PageStoreFailure,
    ;

    /// Persists a new page and returns its fresh nonzero identifier.
    fn allocate(&mut self, node: Node) -> (r: Result<u64, BTreeError>)
        ensures
            r matches Ok(p) ==> p != 0 && !old(self).pages().dom().contains(p)
                && final(self).pages() == old(self).pages().insert(p, node@),
            r matches Err(e) ==> final(self).pages() == old(self).pages() && e
                == BTreeError::PageStoreFailure,
    ;

    /// Queues `ptr` for release. The page stays readable: reclamation is
    /// deferred until no snapshot can reach it, outside this core.
    fn free(&mut self, ptr: u64)
        ensures
            final(self).pages() == old(self).pages(),
    ;
}

/// An in-memory page store: pages live in a vector, identifier `p` is
/// slot `p - 1`, and freed identifiers are remembered in a pending list
/// until a caller reclaims them.
pub struct MemStore {
    /// The allocated pages; identifier `p` lives in slot `p - 1`.
    pub slots: Vec<Node>,
    /// Identifiers queued for release, oldest first.
    pub pending: Vec<u64>,
}

impl MemStore {
    /// An empty store.
    pub fn new() -> (r: MemStore)
        ensures
            r.pages() == Map::<u64, NodeV>::empty(),
            r.pending@ == Seq::<u64>::empty(),
    {
        let r = MemStore { slots: Vec::new(), pending: Vec::new() };
        proof {
            assert(r.pages() =~= Map::<u64, NodeV>::empty());
        }
        r
    }

    /// The identifiers queued for release, oldest first.
    pub fn pending_free(&self) -> (r: &Vec<u64>)
        ensures
            r@ == self.pending@,
    {
        &self.pending
    }
}

impl PageStore for MemStore {
    open spec fn pages(&self) -> Map<u64, NodeV> {
        Map::new(
            |p: u64| 1 <= p as int && p as int <= self.slots@.len(),
            |p: u64| self.slots@[p as int - 1]@,
        )
    }

    fn get(&self, ptr: u64) -> (r: Result<Node, BTreeError>) {
        let len = self.slots.len();
        proof {
            assert(1 <= ptr as int && ptr as int <= len as int);
        }
        let idx = (ptr - 1) as usize;
        Ok(clone_node(&self.slots[idx]))
    }

    fn allocate(&mut self, node: Node) -> (r: Result<u64, BTreeError>) {
        if self.slots.len() as u64 >= 0xffff_ffff_ffff_fffe {
            return Err(BTreeError::PageStoreFailure);
        }
        self.slots.push(node);
        let p = self.slots.len() as u64;
        proof {
            assert(self.pages() =~= old(self).pages().insert(p, node@));
        }
        Ok(p)
    }

    fn free(&mut self, ptr: u64) {
        self.pending.push(ptr);
        proof {
            assert(self.pages() =~= old(self).pages());
        }
    }
}

} // verus!
