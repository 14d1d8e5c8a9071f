//! Which records are garbage.
//!
//! Deleting or rebuilding a composite value gives up its version; the records of the old version
//! stay behind as garbage until a compaction reclaims them. So that the compaction can decide
//! without looking anything up in the engine, [`VersionMap`] keeps the current version of each
//! key: a record is kept if its owner is there and has the record's version.
use vstd::prelude::*;
use vstd::slice::slice_to_vec;

use super::encoding::{parse_owner_version, record_owner};
use super::engine::GcPredicate;
use crate::table::Table;

verus! {

/// A record with the given key is kept where the current versions are `versions`. Metadata, and
/// whatever else has no owner and version, always is.
pub open spec fn is_current(versions: Map<Seq<u8>, u64>, raw: Seq<u8>) -> bool {
    match record_owner(raw) {
        Some((key, version)) => versions.contains_key(key) && versions[key] == version,
        None => true,
    }
}

/// The current version of each key that has one.
#[derive(Debug)]
pub struct VersionMap {
    inner: Table<u64>,
}

impl View for VersionMap {
    type V = Map<Seq<u8>, u64>;

    closed spec fn view(&self) -> Map<Seq<u8>, u64> {
        self.inner@
    }
}

impl VersionMap {
    /// No versions.
    pub fn new() -> (r: Self)
        ensures
            r@ == Map::<Seq<u8>, u64>::empty(),
    {
        VersionMap { inner: Table::new() }
    }

    /// Makes `version` the current version of `user_key`.
    pub fn set(&mut self, user_key: &[u8], version: u64)
        ensures
            final(self)@ == old(self)@.insert(user_key@, version),
    {
        self.inner.insert(slice_to_vec(user_key), version);
    }

    /// Forgets `user_key`; its records become garbage.
    pub fn remove(&mut self, user_key: &[u8])
        ensures
            final(self)@ == old(self)@.remove(user_key@),
    {
        self.inner.remove(user_key);
    }

    /// The current version of `user_key`.
    pub fn get(&self, user_key: &[u8]) -> (r: Option<u64>)
        ensures
            match r {
                Some(version) => self@.contains_key(user_key@) && self@[user_key@] == version,
                None => !self@.contains_key(user_key@),
            },
    {
        match self.inner.get(user_key) {
            Some(version) => Some(*version),
            None => None,
        }
    }

    /// Forgets all keys.
    pub fn clear(&mut self)
        ensures
            final(self)@ == Map::<Seq<u8>, u64>::empty(),
    {
        self.inner = Table::new();
    }

    /// How many keys have a version.
    pub fn len(&self) -> (r: usize)
        ensures
            self@.dom().finite(),
            r == self@.dom().len(),
    {
        self.inner.len()
    }

    /// Whether no key has a version.
    pub fn is_empty(&self) -> (r: bool)
        ensures
            r == (self@ == Map::<Seq<u8>, u64>::empty()),
    {
        let n = self.len();
        proof {
            if n == 0 {
                assert(self@.dom() =~= Set::empty());
                assert(self@ =~= Map::<Seq<u8>, u64>::empty());
            }
        }
        n == 0
    }

    /// Whether the record with the given key is kept.
    pub fn should_keep(&self, key: &[u8]) -> (r: bool)
        ensures
            r == is_current(self@, key@),
    {
        match parse_owner_version(key) {
            None => true,
            Some((user_key, version)) => match self.get(user_key) {
                Some(current) => version == current,
                None => false,
            },
        }
    }
}

impl Default for VersionMap {
    fn default() -> (r: Self)
        ensures
            r@ == Map::<Seq<u8>, u64>::empty(),
    {
        VersionMap::new()
    }
}

impl GcPredicate for VersionMap {
    open spec fn keeps(&self, key: Seq<u8>, value: Seq<u8>) -> bool {
        is_current(self@, key)
    }

    fn should_keep(&self, key: &[u8], value: &[u8]) -> bool {
        VersionMap::should_keep(self, key)
    }
}

} // verus!
