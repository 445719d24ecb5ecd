//! The shared-state cells of the router: `parking_lot` locks and an
//! `arc_swap` cell, and the lock guards through which the router reaches
//! what they hold.
//!
//! The lock guards and the `ArcSwap` are each held in a private field of a
//! struct of this crate, with one wrapper per method used. What a cell holds
//! can change under a shared reference from any thread, so the wrappers say
//! nothing of the particular value handed back; the one fact stated is that
//! a subscriber cell only ever holds subscribers that have not been sent
//! anything, since every list put into it is such a list.

use arc_swap::ArcSwap;
use parking_lot::{Mutex, MutexGuard, RwLock, RwLockReadGuard, RwLockWriteGuard};
use std::collections::HashMap;
use std::sync::Arc;
use vstd::prelude::*;
use crate::packet_cache::PacketCache;
use crate::router::{all_fresh, PublisherState, Subscriber};

verus! {

/// `parking_lot::RawMutex`, the lock word of a `parking_lot::Mutex`.
#[verifier::external_type_specification]
#[verifier::external_body]
pub struct ExRawMutex(parking_lot::RawMutex);

/// `parking_lot::RawRwLock`, the lock word of a `parking_lot::RwLock`.
#[verifier::external_type_specification]
#[verifier::external_body]
pub struct ExRawRwLock(parking_lot::RawRwLock);

/// `lock_api::Mutex` (`parking_lot::Mutex` is this type over `RawMutex`), opaque to proofs.
#[verifier::external_type_specification]
#[verifier::external_body]
#[verifier::reject_recursive_types(R)]
#[verifier::reject_recursive_types(T)]
pub struct ExLockApiMutex<R, T: ?Sized>(parking_lot::lock_api::Mutex<R, T>);

/// `lock_api::RwLock` (`parking_lot::RwLock` is this type over `RawRwLock`), opaque to proofs.
#[verifier::external_type_specification]
#[verifier::external_body]
#[verifier::reject_recursive_types(R)]
#[verifier::reject_recursive_types(T)]
pub struct ExLockApiRwLock<R, T: ?Sized>(parking_lot::lock_api::RwLock<R, T>);

/// `parking_lot::Mutex::new`: a lock around `c`.
#[verifier::external_body]
pub(crate) fn cache_lock_new(c: PacketCache) -> Mutex<PacketCache> {
    Mutex::new(c)
}

/// `parking_lot::RwLock::new`: a lock around `t`.
#[verifier::external_body]
pub(crate) fn table_lock_new(t: HashMap<u32, PublisherState>) -> RwLock<HashMap<u32, PublisherState>> {
    RwLock::new(t)
}

/// Exclusive access to a publisher's retransmission cache.
#[verifier::external_body]
pub struct CacheGuard<'a> {
    guard: MutexGuard<'a, PacketCache>,
}

/// `parking_lot::Mutex::lock`: waits for and takes the cache lock.
#[verifier::external_body]
pub(crate) fn lock_cache(m: &Mutex<PacketCache>) -> CacheGuard<'_> {
    CacheGuard { guard: m.lock() }
}

impl<'a> CacheGuard<'a> {
    /// `Deref::deref` on the guard: the cache, for reading.
    #[verifier::external_body]
    pub(crate) fn cache(&self) -> &PacketCache {
        &self.guard
    }

    /// `DerefMut::deref_mut` on the guard: the cache, for writing.
    #[verifier::external_body]
    pub(crate) fn cache_mut(&mut self) -> &mut PacketCache {
        &mut self.guard
    }
}

/// Shared access to the publisher table.
#[verifier::external_body]
pub struct TableReadGuard<'a> {
    guard: RwLockReadGuard<'a, HashMap<u32, PublisherState>>,
}

/// Exclusive access to the publisher table.
#[verifier::external_body]
pub struct TableWriteGuard<'a> {
    guard: RwLockWriteGuard<'a, HashMap<u32, PublisherState>>,
}

/// `parking_lot::RwLock::read`: waits for and takes a shared table lock.
#[verifier::external_body]
pub(crate) fn read_table(t: &RwLock<HashMap<u32, PublisherState>>) -> TableReadGuard<'_> {
    TableReadGuard { guard: t.read() }
}

/// `parking_lot::RwLock::write`: waits for and takes the exclusive table lock.
#[verifier::external_body]
pub(crate) fn write_table(t: &RwLock<HashMap<u32, PublisherState>>) -> TableWriteGuard<'_> {
    TableWriteGuard { guard: t.write() }
}

impl<'a> TableReadGuard<'a> {
    /// `Deref::deref` on the guard: the table, for reading.
    #[verifier::external_body]
    pub(crate) fn table(&self) -> &HashMap<u32, PublisherState> {
        &self.guard
    }
}

impl<'a> TableWriteGuard<'a> {
    /// `DerefMut::deref_mut` on the guard: the table, for writing.
    #[verifier::external_body]
    pub(crate) fn table_mut(&mut self) -> &mut HashMap<u32, PublisherState> {
        &mut self.guard
    }
}

/// A publisher's subscriber list, replaced as a whole and read without locks.
/// Every list put into it (by `new` or `store`) holds only fresh
/// subscribers, so every list taken out (by `load`) does.
#[verifier::external_body]
pub struct SubscriberCell {
    cell: ArcSwap<Vec<Subscriber>>,
}

impl SubscriberCell {
    /// `ArcSwap::from_pointee`: a cell holding `v`.
    #[verifier::external_body]
    pub(crate) fn new(v: Vec<Subscriber>) -> Self
        requires
            all_fresh(v@),
    {
        SubscriberCell { cell: ArcSwap::from_pointee(v) }
    }

    /// `ArcSwapAny::load_full`: the list the cell holds at this moment,
    /// one of the lists put into it.
    #[verifier::external_body]
    pub(crate) fn load(&self) -> (r: Arc<Vec<Subscriber>>)
        ensures
            all_fresh((*r)@),
    {
        self.cell.load_full()
    }

    /// `ArcSwapAny::store`: makes `v` the list that later loads see.
    #[verifier::external_body]
    pub(crate) fn store(&self, v: Arc<Vec<Subscriber>>)
        requires
            all_fresh((*v)@),
    {
        self.cell.store(v)
    }
}

} // verus!
