//! An engine that keeps its records in memory.
use vstd::prelude::*;
use vstd::slice::slice_to_vec;

use super::engine::{
    applied, applied_all, compacted, in_range, items_view, kept_under, Failures, GeneralEngine,
    Range, Records, Scan, ScanItem, Versions, WriteBatch, WriteOp,
};
use super::error::EngineError;
use super::gc::VersionMap;
use crate::order::{before, order_of, Order};
use crate::table::{ascending, entries_map, entry_in_map, has_key, key_index, Table};

verus! {

/// A table of byte strings as records.
pub open spec fn table_records(table: Map<Seq<u8>, Vec<u8>>) -> Records {
    table.map_values(|v: Vec<u8>| v@)
}

/// An engine that keeps its records in memory, in the order of their keys. It never fails, and
/// forgets everything when it is dropped.
#[derive(Debug)]
pub struct MemEngine {
    table: Table<Vec<u8>>,
    gc: Option<VersionMap>,
}

/// The versions of a predicate, where there is one.
pub open spec fn predicate_view(gc: Option<VersionMap>) -> Option<Versions> {
    match gc {
        Some(versions) => Some(versions@),
        None => None,
    }
}

/// Whether the record with the given key outlives a compaction.
fn check_kept(gc: &Option<VersionMap>, key: &[u8]) -> (r: bool)
    ensures
        r == kept_under(predicate_view(*gc), key@),
{
    match gc {
        Some(versions) => versions.should_keep(key),
        None => true,
    }
}

/// Whether `key` starts with `prefix`.
fn starts_with(key: &[u8], prefix: &[u8]) -> (r: bool)
    ensures
        r == prefix@.is_prefix_of(key@),
{
    if key.len() < prefix.len() {
        return false;
    }
    let mut i: usize = 0;
    while i < prefix.len()
        invariant
            i <= prefix@.len() <= key@.len(),
            forall|j: int| 0 <= j < i ==> key@[j] == prefix@[j],
        decreases prefix@.len() - i,
    {
        if key[i] != prefix[i] {
            assert(prefix@ != key@.subrange(0, prefix@.len() as int)) by {
                assert(key@.subrange(0, prefix@.len() as int)[i as int] == key@[i as int]);
            }
            return false;
        }
        i += 1;
    }
    assert(prefix@ =~= key@.subrange(0, prefix@.len() as int));
    true
}

/// Whether `key` is inside `range`, where there is one.
fn check_range(range: &Option<Range>, key: &[u8]) -> (r: bool)
    ensures
        r == in_range(*range, key@),
{
    match range {
        Some(range) => {
            if let Some(start) = &range.start {
                match order_of(key, start) {
                    Order::Before => {
                        return false;
                    },
                    Order::Same => {
                        proof {
                            crate::order::before_irreflexive(key@);
                        }
                    },
                    Order::Behind => {
                        proof {
                            if before(key@, start@) {
                                crate::order::before_transitive(key@, start@, key@);
                                crate::order::before_irreflexive(key@);
                            }
                        }
                    },
                }
            }
            if let Some(end) = &range.end {
                match order_of(key, end) {
                    Order::Before => {},
                    Order::Same => {
                        proof {
                            crate::order::before_irreflexive(key@);
                        }
                        return false;
                    },
                    Order::Behind => {
                        proof {
                            if before(key@, end@) {
                                crate::order::before_transitive(key@, end@, key@);
                                crate::order::before_irreflexive(key@);
                            }
                        }
                        return false;
                    },
                }
            }
            true
        },
        None => true,
    }
}

impl MemEngine {
    /// An engine without records.
    pub fn new() -> (r: Self)
        ensures
            r.records() == Map::<Seq<u8>, Seq<u8>>::empty(),
            r.predicate() is None,
    {
        let r = MemEngine { table: Table::new(), gc: None };
        assert(r.records() =~= Map::<Seq<u8>, Seq<u8>>::empty());
        r
    }

    /// Makes one change.
    fn apply(&mut self, op: &WriteOp)
        ensures
            final(self).records() == applied(old(self).records(), op@),
            final(self).predicate() == old(self).predicate(),
    {
        let ghost was = self.records();
        match op {
            WriteOp::Put(key, value) => {
                self.table.insert(slice_to_vec(key), slice_to_vec(value));
                assert(self.records() =~= was.insert(key@, value@));
            },
            WriteOp::Delete(key) => {
                self.table.remove(key);
                assert(self.records() =~= was.remove(key@));
            },
        }
    }
}

impl Default for MemEngine {
    fn default() -> (r: Self)
        ensures
            r.records() == Map::<Seq<u8>, Seq<u8>>::empty(),
            r.predicate() is None,
    {
        MemEngine::new()
    }
}

impl Clone for MemEngine {
    /// A copy of the records, without a predicate.
    fn clone(&self) -> (r: Self)
        ensures
            r.records() == self.records(),
            r.predicate() is None,
    {
        let entries = self.table.entries();
        let mut table: Table<Vec<u8>> = Table::new();
        let mut i: usize = 0;
        while i < entries.len()
            invariant
                i <= entries@.len(),
                ascending(entries@),
                forall|k: Seq<u8>|
                    table@.contains_key(k) == exists|j: int|
                        0 <= j < i && (#[trigger] entries@[j]).0@ == k,
                forall|j: int|
                    0 <= j < i ==> table@.contains_key((#[trigger] entries@[j]).0@) && table@[entries@[j].0@]@
                        == entries@[j].1@,
            decreases entries@.len() - i,
        {
            let ghost was = table@;
            let ghost key = entries@[i as int].0@;
            table.insert(slice_to_vec(&entries[i].0), slice_to_vec(&entries[i].1));
            proof {
                assert forall|k: Seq<u8>| table@.contains_key(k) == exists|j: int|
                    0 <= j < i + 1 && (#[trigger] entries@[j]).0@ == k by {
                    if was.contains_key(k) {
                        let j = choose|j: int| 0 <= j < i && (#[trigger] entries@[j]).0@ == k;
                        assert(0 <= j < i + 1 && entries@[j].0@ == k);
                    }
                    if k == key {
                        assert(entries@[i as int].0@ == k);
                    }
                    if exists|j: int| 0 <= j < i + 1 && (#[trigger] entries@[j]).0@ == k {
                        let j = choose|j: int| 0 <= j < i + 1 && (#[trigger] entries@[j]).0@ == k;
                        if j < i {
                            assert(was.contains_key(k));
                        }
                    }
                }
                assert forall|j: int| 0 <= j < i + 1 implies table@.contains_key(
                    (#[trigger] entries@[j]).0@,
                ) && table@[entries@[j].0@]@ == entries@[j].1@ by {
                    if j < i {
                        crate::order::before_irreflexive(key);
                        assert(before(entries@[j].0@, entries@[i as int].0@));
                    }
                }
            }
            i += 1;
        }
        let r = MemEngine { table, gc: None };
        proof {
            let a = r.records();
            let b = self.records();
            assert forall|k: Seq<u8>| a.contains_key(k) == b.contains_key(k) by {
                if has_key(entries@, k) {
                    let j = key_index(entries@, k);
                    assert(entries@[j].0@ == k);
                }
                if a.contains_key(k) {
                    let j = choose|j: int|
                        0 <= j < entries@.len() && (#[trigger] entries@[j]).0@ == k;
                    entry_in_map(entries@, j);
                }
            }
            assert forall|k: Seq<u8>| a.contains_key(k) implies a[k] == b[k] by {
                let j = key_index(entries@, k);
                assert(has_key(entries@, k));
                entry_in_map(entries@, j);
                assert(table@[entries@[j].0@]@ == entries@[j].1@);
            }
            assert(a =~= b);
        }
        r
    }
}

impl GeneralEngine for MemEngine {
    closed spec fn records(&self) -> Records {
        table_records(self.table@)
    }

    open spec fn failures(&self) -> Failures {
        Set::empty()
    }

    closed spec fn predicate(&self) -> Option<Versions> {
        predicate_view(self.gc)
    }

    proof fn finite_records(&self) {
        self.table.finite();
        assert(self.records().dom() =~= self.table@.dom());
    }

    fn get(&self, key: &[u8]) -> Result<Option<Vec<u8>>, EngineError> {
        match self.table.get(key) {
            Some(value) => Ok(Some(slice_to_vec(value))),
            None => Ok(None),
        }
    }

    fn write(&mut self, batch: WriteBatch) -> Result<(), EngineError> {
        let ops = batch.ops();
        let ghost was = self.records();
        let ghost all = batch@;
        let mut i: usize = 0;
        assert(all.take(0) =~= Seq::empty());
        while i < ops.len()
            invariant
                i <= ops@.len(),
                all == ops@.map_values(|op: WriteOp| op@),
                self.records() == applied_all(was, all.take(i as int)),
                self.predicate() == old(self).predicate(),
            decreases ops@.len() - i,
        {
            self.apply(&ops[i]);
            assert(all.take(i + 1).drop_last() =~= all.take(i as int));
            assert(all.take(i + 1).last() == ops@[i as int]@);
            i += 1;
        }
        assert(all.take(i as int) =~= all);
        Ok(())
    }

    fn scan_prefix(&self, prefix: &[u8]) -> Scan {
        let entries = self.table.entries();
        let mut out: Vec<ScanItem> = Vec::new();
        let mut i: usize = 0;
        let ghost db = self.records();
        while i < entries.len()
            invariant
                i <= entries@.len(),
                ascending(entries@),
                db == self.records(),
                self.table@ == entries_map(entries@),
                forall|a: int, b: int|
                    0 <= a < b < out@.len() ==> before((#[trigger] out@[a]).0@, (#[trigger] out@[b]).0@),
                forall|a: int|
                    0 <= a < out@.len() ==> prefix@.is_prefix_of((#[trigger] out@[a]).0@)
                        && db.contains_pair(out@[a].0@, out@[a].1@) && exists|j: int|
                        0 <= j < i && (#[trigger] entries@[j]).0@ == out@[a].0@,
                forall|j: int|
                    0 <= j < i && prefix@.is_prefix_of((#[trigger] entries@[j]).0@) ==> exists|
                        a: int,
                    |
                        0 <= a < out@.len() && (#[trigger] out@[a]).0@ == entries@[j].0@,
            decreases entries@.len() - i,
        {
            let ghost key = entries@[i as int].0@;
            let ghost was = out@;
            if starts_with(&entries[i].0, prefix) {
                out.push((slice_to_vec(&entries[i].0), slice_to_vec(&entries[i].1)));
                proof {
                    entry_in_map(entries@, i as int);
                    assert forall|a: int, b: int| 0 <= a < b < out@.len() implies before(
                        (#[trigger] out@[a]).0@,
                        (#[trigger] out@[b]).0@,
                    ) by {
                        if b == was.len() {
                            assert(was[a].0@ == out@[a].0@);
                            let j = choose|j: int|
                                0 <= j < i && (#[trigger] entries@[j]).0@ == was[a].0@;
                            assert(before(entries@[j].0@, entries@[i as int].0@));
                        } else {
                            assert(before(was[a].0@, was[b].0@));
                        }
                    }
                    assert forall|a: int| 0 <= a < out@.len() implies prefix@.is_prefix_of(
                        (#[trigger] out@[a]).0@,
                    ) && db.contains_pair(out@[a].0@, out@[a].1@) && exists|j: int|
                        0 <= j < i + 1 && (#[trigger] entries@[j]).0@ == out@[a].0@ by {
                        if a < was.len() {
                            assert(was[a] == out@[a]);
                            let j = choose|j: int|
                                0 <= j < i && (#[trigger] entries@[j]).0@ == was[a].0@;
                            assert(0 <= j < i + 1 && entries@[j].0@ == out@[a].0@);
                        } else {
                            assert(entries@[i as int].0@ == out@[a].0@);
                        }
                    }
                }
            }
            proof {
                assert forall|j: int| 0 <= j < i + 1 && prefix@.is_prefix_of(
                    (#[trigger] entries@[j]).0@,
                ) implies exists|a: int|
                    0 <= a < out@.len() && (#[trigger] out@[a]).0@ == entries@[j].0@ by {
                    if j < i {
                        let a = choose|a: int|
                            0 <= a < was.len() && (#[trigger] was[a]).0@ == entries@[j].0@;
                        assert(out@[a].0@ == entries@[j].0@);
                    } else {
                        assert(out@[out@.len() - 1].0@ == entries@[j].0@);
                    }
                }
            }
            i += 1;
        }
        proof {
            let items = items_view(out@);
            assert forall|k: Seq<u8>| #[trigger]
                db.contains_key(k) && prefix@.is_prefix_of(k) implies exists|a: int|
                0 <= a < items.len() && (#[trigger] items[a]).0 == k by {
                let j = key_index(entries@, k);
                assert(has_key(entries@, k));
                assert(entries@[j].0@ == k);
                let a = choose|a: int| 0 <= a < out@.len() && (#[trigger] out@[a]).0@ == k;
                assert(items[a].0 == k);
            }
            assert forall|a: int| 0 <= a < items.len() implies prefix@.is_prefix_of(
                (#[trigger] items[a]).0,
            ) && db.contains_pair(items[a].0, items[a].1) by {
                assert(items[a].0 == out@[a].0@);
            }
            assert forall|a: int, b: int| 0 <= a < b < items.len() implies before(
                (#[trigger] items[a]).0,
                (#[trigger] items[b]).0,
            ) by {
                assert(before(out@[a].0@, out@[b].0@));
            }
        }
        Scan { items: out, failure: None }
    }

    fn install_gc(&mut self, predicate: VersionMap) {
        self.gc = Some(predicate);
    }

    fn has_gc(&self) -> bool {
        self.gc.is_some()
    }

    fn set_version(&mut self, user_key: &[u8], version: Option<u64>) {
        let gc = self.gc.take();
        let mut versions = match gc {
            Some(versions) => versions,
            None => VersionMap::new(),
        };
        match version {
            Some(version) => versions.set(user_key, version),
            None => versions.remove(user_key),
        }
        self.gc = Some(versions);
    }

    fn compact_range(&mut self, range: Option<Range>) -> Result<(), EngineError> {
        let ghost gc = self.predicate();
        let mut doomed: Vec<Vec<u8>> = Vec::new();
        let ghost db = self.records();
        let ghost table = self.table@;
        {
            let entries = self.table.entries();
            let mut i: usize = 0;
            while i < entries.len()
                invariant
                    i <= entries@.len(),
                    ascending(entries@),
                    db == table_records(table),
                    table == entries_map(entries@),
                    gc == predicate_view(self.gc),
                    forall|a: int|
                        0 <= a < doomed@.len() ==> db.contains_key((#[trigger] doomed@[a])@)
                            && in_range(range, doomed@[a]@) && !kept_under(gc, doomed@[a]@),
                    forall|j: int|
                        0 <= j < i && in_range(range, (#[trigger] entries@[j]).0@) && !kept_under(gc, entries@[j].0@) ==> exists|a: int|
                            0 <= a < doomed@.len() && (#[trigger] doomed@[a])@ == entries@[j].0@,
                decreases entries@.len() - i,
            {
                let ghost was = doomed@;
                proof {
                    entry_in_map(entries@, i as int);
                }
                if check_range(&range, &entries[i].0) && !check_kept(
                    &self.gc,
                    &entries[i].0,
                ) {
                    doomed.push(slice_to_vec(&entries[i].0));
                }
                proof {
                    assert forall|j: int|
                        0 <= j < i + 1 && in_range(range, (#[trigger] entries@[j]).0@)
                            && !kept_under(gc, entries@[j].0@) implies exists|a: int|
                        0 <= a < doomed@.len() && (#[trigger] doomed@[a])@ == entries@[j].0@ by {
                        if j < i {
                            let a = choose|a: int|
                                0 <= a < was.len() && (#[trigger] was[a])@ == entries@[j].0@;
                            assert(doomed@[a]@ == entries@[j].0@);
                        } else {
                            assert(doomed@[doomed@.len() - 1]@ == entries@[j].0@);
                        }
                    }
                }
                i += 1;
            }
            proof {
                assert forall|k: Seq<u8>| #[trigger]
                    db.contains_key(k) && in_range(range, k) && !kept_under(gc, k) implies exists|a: int|
                    0 <= a < doomed@.len() && (#[trigger] doomed@[a])@ == k by {
                    let j = key_index(entries@, k);
                    assert(has_key(entries@, k));
                    entry_in_map(entries@, j);
                    assert(entries@[j].0@ == k);
                }
            }
        }
        let mut n: usize = 0;
        while n < doomed.len()
            invariant
                n <= doomed@.len(),
                self.predicate() == gc,
                forall|a: int|
                    0 <= a < doomed@.len() ==> db.contains_key((#[trigger] doomed@[a])@)
                        && in_range(range, doomed@[a]@) && !kept_under(gc, doomed@[a]@),
                forall|k: Seq<u8>| #[trigger]
                    self.records().contains_key(k) ==> db.contains_key(k) && self.records()[k]
                        == db[k],
                forall|k: Seq<u8>| #[trigger]
                    db.contains_key(k) && kept_under(gc, k) ==> self.records().contains_key(k),
                forall|a: int|
                    0 <= a < n ==> !self.records().contains_key((#[trigger] doomed@[a])@),
            decreases doomed@.len() - n,
        {
            let ghost was = self.records();
            self.table.remove(&doomed[n]);
            assert(self.records() =~= was.remove(doomed@[n as int]@));
            n += 1;
        }
        proof {
            let new = self.records();
            assert forall|k: Seq<u8>| #[trigger] new.contains_key(k) implies db.contains_key(k)
                && new[k] == db[k] && (in_range(range, k) ==> kept_under(gc, k)) by {
                if in_range(range, k) && !kept_under(gc, k) {
                    let a = choose|a: int| 0 <= a < doomed@.len() && (#[trigger] doomed@[a])@ == k;
                    assert(!new.contains_key(doomed@[a]@));
                }
            }
            assert(compacted(db, new, range, gc));
        }
        Ok(())
    }

    fn flush(&mut self) -> Result<(), EngineError> {
        Ok(())
    }

    fn stats(&self) -> (r: Vec<(&'static str, u64)>)
        ensures
            r@.len() == 0,
    {
        Vec::new()
    }
}

} // verus!
