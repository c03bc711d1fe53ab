//! The storage engine and the capability that the server drives.

pub mod choice;
mod compaction;
pub mod crash;
pub mod journal;
pub mod kvs;
pub mod model;
mod store;

use crate::command::CommandView;
use crate::engine::kvs::{wrote, KvStore};
use crate::engine::model::{bumped, lookup};
use crate::error::KvsError;
use vstd::prelude::*;

verus! {

/// A key-value engine: anything that can store, look up and remove. The
/// server drives an engine through these three operations alone.
///
/// An engine is expected to return `None` from `get` for a key that is
/// absent, and to fail in `remove` for one. What an engine in fact does it
/// states in the three outcome relations. An engine that leaves them as they
/// are promises nothing, and nothing is assumed of it.
pub trait KvsEngine {
    /// Whether `set` with this key and value, called on the engine `self`,
    /// can return `r` and leave the engine `after`.
    open spec fn set_outcome(
        &self,
        key: Seq<char>,
        value: Seq<char>,
        after: &Self,
        r: Result<(), KvsError>,
    ) -> bool {
        true
    }

    /// Whether `get` with this key, called on the engine `self`, can return
    /// `r` and leave the engine `after`.
    open spec fn get_outcome(
        &self,
        key: Seq<char>,
        after: &Self,
        r: Result<Option<String>, KvsError>,
    ) -> bool {
        true
    }

    /// Whether `remove` with this key, called on the engine `self`, can
    /// return `r` and leave the engine `after`.
    open spec fn remove_outcome(
        &self,
        key: Seq<char>,
        after: &Self,
        r: Result<(), KvsError>,
    ) -> bool {
        true
    }

    /// Stores `value` under `key`.
    fn set(&mut self, key: String, value: String) -> (r: Result<(), KvsError>)
        ensures
            old(self).set_outcome(key@, value@, final(self), r),
    ;

    /// Looks up `key`.
    fn get(&mut self, key: String) -> (r: Result<Option<String>, KvsError>)
        ensures
            old(self).get_outcome(key@, final(self), r),
    ;

    /// Removes `key`.
    fn remove(&mut self, key: String) -> (r: Result<(), KvsError>)
        ensures
            old(self).remove_outcome(key@, final(self), r),
    ;
}

impl KvsEngine for KvStore {
    /// `set` succeeds, and leaves the store as `KvStore::set` says.
    open spec fn set_outcome(
        &self,
        key: Seq<char>,
        value: Seq<char>,
        after: &Self,
        r: Result<(), KvsError>,
    ) -> bool {
        &&& r is Ok
        &&& after.wf()
        &&& after@ == self@.insert(key, value)
        &&& after.durable() == self.durable()
        &&& self.pending().is_prefix_of(after.pending())
        &&& wrote(
            self.segments(),
            CommandView::Put(key, value),
            bumped(self.stale(), self@.contains_key(key)),
            after@,
            after.segments(),
            after.stale(),
            after.pending().skip(self.pending().len() as int),
        )
    }

    /// `get` leaves the store as it is and returns what the store holds for
    /// the key.
    open spec fn get_outcome(
        &self,
        key: Seq<char>,
        after: &Self,
        r: Result<Option<String>, KvsError>,
    ) -> bool {
        &&& *after == *self
        &&& match lookup(self@, key) {
            Some(value) => r matches Ok(Some(s)) && s@ == value,
            None => r matches Ok(None),
        }
    }

    /// `remove` fails with `KeyNotFound` for a key that is absent, and
    /// changes nothing; otherwise it succeeds and leaves the store as
    /// `KvStore::remove` says.
    open spec fn remove_outcome(
        &self,
        key: Seq<char>,
        after: &Self,
        r: Result<(), KvsError>,
    ) -> bool {
        &&& after.wf()
        &&& after.durable() == self.durable()
        &&& self@.contains_key(key) ==> {
            &&& r is Ok
            &&& after@ == self@.remove(key)
            &&& self.pending().is_prefix_of(after.pending())
            &&& wrote(
                self.segments(),
                CommandView::Remove(key),
                bumped(self.stale(), true),
                after@,
                after.segments(),
                after.stale(),
                after.pending().skip(self.pending().len() as int),
            )
        }
        &&& !self@.contains_key(key) ==> {
            &&& r matches Err(KvsError::KeyNotFound)
            &&& after@ == self@
            &&& after.segments() == self.segments()
            &&& after.stale() == self.stale()
            &&& after.pending() == self.pending()
        }
    }

    fn set(&mut self, key: String, value: String) -> (r: Result<(), KvsError>) {
        KvStore::set(self, key, value)
    }

    fn get(&mut self, key: String) -> (r: Result<Option<String>, KvsError>) {
        KvStore::get(self, key)
    }

    fn remove(&mut self, key: String) -> (r: Result<(), KvsError>) {
        KvStore::remove(self, key)
    }
}

} // verus!
