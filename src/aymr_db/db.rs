//! The facade: the one store type applications name.
//!
//! An `AymrDb` is bound, when it is opened, to exactly one engine chosen from a
//! closed set, and keeps that binding for its whole life. Every call of the
//! contract is forwarded to the bound engine unchanged; no call changes which
//! engine is bound. The store owns its engine; sharing it between threads is
//! left to a lock around the whole store.

use vstd::prelude::*;

use crate::aymr_db::batch::Batch;
use crate::aymr_db::error::Error;
use crate::aymr_db::traits::{AymrConfig, AymrDatabase, AymrFlush, AymrOpenable, InlineArray};
use crate::btreemap::db::AymrBtreeMap;
use crate::hashmap::db::AymrHashMap;

verus! {

/// The engines a store can be bound to.
#[derive(Debug, Clone, Copy, PartialEq, Eq, Structural)]
pub enum EngineKind {
    /// Keys kept in sorted order.
    Ordered,
    /// Keys kept in no order.
    Unordered,
}

impl AymrConfig for EngineKind {

}

/// The engine a store is bound to.
#[derive(Debug)]
enum Bound {
    Ordered(AymrBtreeMap),
    Unordered(AymrHashMap),
}

/// A key-value store bound to one engine.
#[derive(Debug)]
pub struct AymrDb {
    db: Bound,
}

impl View for AymrDb {
    type V = Map<Seq<u8>, Seq<u8>>;

    closed spec fn view(&self) -> Map<Seq<u8>, Seq<u8>> {
        match self.db {
            Bound::Ordered(e) => e@,
            Bound::Unordered(e) => e@,
        }
    }
}

impl AymrDb {
    /// The engine this store is bound to.
    pub closed spec fn engine(&self) -> EngineKind {
        match self.db {
            Bound::Ordered(_) => EngineKind::Ordered,
            Bound::Unordered(_) => EngineKind::Unordered,
        }
    }

    /// Opens an empty store bound to the ordered engine.
    pub fn open() -> (r: AymrDb)
        ensures
            r.wf(),
            r@ == Map::<Seq<u8>, Seq<u8>>::empty(),
            r.engine() == EngineKind::Ordered,
    {
        AymrDb::open_with(EngineKind::Ordered)
    }

    /// Opens an empty store bound to the engine `kind`.
    pub fn open_with(kind: EngineKind) -> (r: AymrDb)
        ensures
            r.wf(),
            r@ == Map::<Seq<u8>, Seq<u8>>::empty(),
            r.engine() == kind,
    {
        match kind {
            EngineKind::Ordered => AymrDb { db: Bound::Ordered(AymrBtreeMap::open()) },
            EngineKind::Unordered => AymrDb { db: Bound::Unordered(AymrHashMap::open()) },
        }
    }

    /// The engine this store is bound to.
    pub fn engine_kind(&self) -> (r: EngineKind)
        ensures
            r == self.engine(),
    {
        match &self.db {
            Bound::Ordered(_) => EngineKind::Ordered,
            Bound::Unordered(_) => EngineKind::Unordered,
        }
    }
}

impl AymrDatabase for AymrDb {
    closed spec fn wf(&self) -> bool {
        match self.db {
            Bound::Ordered(e) => e.wf(),
            Bound::Unordered(e) => e.wf(),
        }
    }

    open spec fn infallible() -> bool {
        true
    }

    fn clear(&mut self) -> (r: Result<(), Error>)
        ensures
            final(self).engine() == old(self).engine(),
    {
        match &mut self.db {
            Bound::Ordered(e) => e.clear(),
            Bound::Unordered(e) => e.clear(),
        }
    }

    fn len(&self) -> (r: usize) {
        match &self.db {
            Bound::Ordered(e) => e.len(),
            Bound::Unordered(e) => e.len(),
        }
    }

    fn is_empty(&self) -> (r: Result<bool, Error>) {
        match &self.db {
            Bound::Ordered(e) => e.is_empty(),
            Bound::Unordered(e) => e.is_empty(),
        }
    }

    fn get(&self, key: &InlineArray) -> (r: Result<Option<InlineArray>, Error>) {
        match &self.db {
            Bound::Ordered(e) => e.get(key),
            Bound::Unordered(e) => e.get(key),
        }
    }

    fn insert(&mut self, key: InlineArray, value: InlineArray) -> (r: Result<
        Option<InlineArray>,
        Error,
    >)
        ensures
            final(self).engine() == old(self).engine(),
    {
        match &mut self.db {
            Bound::Ordered(e) => e.insert(key, value),
            Bound::Unordered(e) => e.insert(key, value),
        }
    }

    fn remove(&mut self, key: InlineArray) -> (r: Result<Option<InlineArray>, Error>)
        ensures
            final(self).engine() == old(self).engine(),
    {
        match &mut self.db {
            Bound::Ordered(e) => e.remove(key),
            Bound::Unordered(e) => e.remove(key),
        }
    }

    fn apply_batch<B: Batch>(&mut self, batch: B) -> (r: Result<(), Error>)
        ensures
            final(self).engine() == old(self).engine(),
    {
        match &mut self.db {
            Bound::Ordered(e) => e.apply_batch(batch),
            Bound::Unordered(e) => e.apply_batch(batch),
        }
    }

    fn contains_key(&self, key: &InlineArray) -> (r: Result<bool, Error>) {
        match &self.db {
            Bound::Ordered(e) => e.contains_key(key),
            Bound::Unordered(e) => e.contains_key(key),
        }
    }
}

impl AymrFlush for AymrDb {
    fn flush(&self) -> (r: Result<(), Error>) {
        match &self.db {
            Bound::Ordered(e) => e.flush(),
            Bound::Unordered(e) => e.flush(),
        }
    }
}

} // verus!
