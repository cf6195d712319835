//! The contract shared by every engine.
//!
//! An engine is seen as a finite map from key bytes to value bytes (its view).
//! Every fallible operation either succeeds with the stated effect or fails and
//! leaves the store as it was. Engines that keep everything in memory declare
//! themselves infallible, and then every operation succeeds.
//!
//! `is_empty` and `flush` stay fallible so that engines which keep their data
//! outside memory can meet the same contract; `len` is infallible for all.

use vstd::prelude::*;

use crate::aymr_db::batch::{apply_ops, Batch};
use crate::aymr_db::error::Error;

verus! {

/// An owned copy of a value's bytes, handed back by reads.
pub type InlineArray = Vec<u8>;

/// The bytes of an optional buffer.
pub open spec fn bytes_of(o: Option<InlineArray>) -> Option<Seq<u8>> {
    match o {
        Some(v) => Some(v@),
        None => None,
    }
}

/// What `m` holds under `k`, if anything.
pub open spec fn lookup(m: Map<Seq<u8>, Seq<u8>>, k: Seq<u8>) -> Option<Seq<u8>> {
    if m.dom().contains(k) {
        Some(m[k])
    } else {
        None
    }
}

/// A store that can be created empty.
pub trait AymrOpenable: AymrDatabase {
    /// Creates an empty store.
    fn open() -> (r: Self)
        ensures
            r.wf(),
            r@ == Map::<Seq<u8>, Seq<u8>>::empty(),
    ;
}

/// The common API of key-value engines.
pub trait AymrDatabase: View<V = Map<Seq<u8>, Seq<u8>>> + Sized {
    /// The engine's own invariant.
    spec fn wf(&self) -> bool;

    /// No operation of this engine ever fails.
    spec fn infallible() -> bool;

    /// Clears the entire database, removing all values.
    fn clear(&mut self) -> (r: Result<(), Error>)
        requires
            old(self).wf(),
        ensures
            final(self).wf(),
            Self::infallible() ==> r is Ok,
            r is Ok ==> final(self)@ == Map::<Seq<u8>, Seq<u8>>::empty(),
            r is Err ==> final(self)@ == old(self)@,
    ;

    /// Returns the number of elements in the database.
    fn len(&self) -> (r: usize)
        requires
            self.wf(),
        ensures
            self@.dom().finite(),
            r == self@.len(),
    ;

    /// Returns true if the database is empty, false otherwise.
    fn is_empty(&self) -> (r: Result<bool, Error>)
        requires
            self.wf(),
        ensures
            Self::infallible() ==> r is Ok,
            r matches Ok(b) ==> b == (self@.len() == 0),
    ;

    /// Retrieves a copy of the value stored under `key`, if there is one.
    fn get(&self, key: &InlineArray) -> (r: Result<Option<InlineArray>, Error>)
        requires
            self.wf(),
        ensures
            Self::infallible() ==> r is Ok,
            r matches Ok(o) ==> bytes_of(o) == lookup(self@, key@),
    ;

    /// Inserts a new key-value pair into the database, returning the old value if it was set.
    fn insert(&mut self, key: InlineArray, value: InlineArray) -> (r: Result<
        Option<InlineArray>,
        Error,
    >)
        requires
            old(self).wf(),
        ensures
            final(self).wf(),
            Self::infallible() ==> r is Ok,
            r matches Ok(o) ==> bytes_of(o) == lookup(old(self)@, key@) && final(self)@ == old(
                self,
            )@.insert(key@, value@),
            r is Err ==> final(self)@ == old(self)@,
    ;

    /// Removes a key-value pair from the database, returning the old value if it existed.
    fn remove(&mut self, key: InlineArray) -> (r: Result<Option<InlineArray>, Error>)
        requires
            old(self).wf(),
        ensures
            final(self).wf(),
            Self::infallible() ==> r is Ok,
            r matches Ok(o) ==> bytes_of(o) == lookup(old(self)@, key@) && final(self)@ == old(
                self,
            )@.remove(key@),
            r is Err ==> final(self)@ == old(self)@,
    ;

    /// Applies a batch of operations to the database atomically: on success all
    /// of them, in the order they were staged; on failure none.
    fn apply_batch<B: Batch>(&mut self, batch: B) -> (r: Result<(), Error>)
        requires
            old(self).wf(),
        ensures
            final(self).wf(),
            Self::infallible() ==> r is Ok,
            r is Ok ==> final(self)@ == apply_ops(old(self)@, batch@),
            r is Err ==> final(self)@ == old(self)@,
    ;

    /// Returns true if the database contains a value for the specified key.
    fn contains_key(&self, key: &InlineArray) -> (r: Result<bool, Error>)
        requires
            self.wf(),
        ensures
            Self::infallible() ==> r is Ok,
            r matches Ok(b) ==> b == self@.dom().contains(key@),
    ;
}

/// A store whose writes can be made durable.
pub trait AymrFlush: AymrDatabase {
    /// Flushes all dirty buffers; a no-op for engines that hold everything in memory.
    fn flush(&self) -> (r: Result<(), Error>)
        requires
            self.wf(),
        ensures
            Self::infallible() ==> r is Ok,
    ;
}

/// Marks a type that configures an Aymr store.
pub trait AymrConfig {

}

} // verus!
