//! What the library asks of a storage engine.
//!
//! An engine keeps records: byte strings under byte strings, in the order of the keys. Everything
//! else (types, versions, expiry) is laid on top of it in [`super::store`].
use vstd::prelude::*;

use super::error::{EngineError, EngineErrorView};
use super::gc::{is_current, VersionMap};
use crate::order::{before, before_irreflexive, before_total, before_transitive};

verus! {

/// The records of an engine.
pub type Records = Map<Seq<u8>, Seq<u8>>;

/// The current version of each key that has one.
pub type Versions = Map<Seq<u8>, u64>;

/// A single change to the records.
#[derive(Debug, Clone)]
pub enum WriteOp {
    /// Put a value under a key, in place of what was there.
    Put(Vec<u8>, Vec<u8>),
    /// Drop a key.
    Delete(Vec<u8>),
}

/// A [`WriteOp`] as a mathematical value.
#[verifier::ext_equal]
pub enum WriteOpView {
    Put(Seq<u8>, Seq<u8>),
    Delete(Seq<u8>),
}

impl View for WriteOp {
    type V = WriteOpView;

    open spec fn view(&self) -> WriteOpView {
        match self {
            WriteOp::Put(k, v) => WriteOpView::Put(k@, v@),
            WriteOp::Delete(k) => WriteOpView::Delete(k@),
        }
    }
}

/// The records after one change.
pub open spec fn applied(db: Records, op: WriteOpView) -> Records {
    match op {
        WriteOpView::Put(k, v) => db.insert(k, v),
        WriteOpView::Delete(k) => db.remove(k),
    }
}

/// The records after several changes, the first one first.
pub open spec fn applied_all(db: Records, ops: Seq<WriteOpView>) -> Records
    decreases ops.len(),
{
    if ops.len() == 0 {
        db
    } else {
        applied(applied_all(db, ops.drop_last()), ops.last())
    }
}

/// One more change comes last.
pub proof fn applied_one_more(db: Records, ops: Seq<WriteOpView>, op: WriteOpView)
    ensures
        applied_all(db, ops.push(op)) == applied(applied_all(db, ops), op),
{
    assert(ops.push(op).drop_last() =~= ops);
}

/// Changes that take effect together or not at all.
#[derive(Debug, Clone)]
pub struct WriteBatch {
    ops: Vec<WriteOp>,
}

impl View for WriteBatch {
    type V = Seq<WriteOpView>;

    closed spec fn view(&self) -> Seq<WriteOpView> {
        self.ops@.map_values(|op: WriteOp| op@)
    }
}

impl Default for WriteBatch {
    fn default() -> (r: Self)
        ensures
            r@ == Seq::<WriteOpView>::empty(),
    {
        WriteBatch::new()
    }
}

impl WriteBatch {
    /// No changes.
    pub fn new() -> (r: Self)
        ensures
            r@ == Seq::<WriteOpView>::empty(),
    {
        let r = WriteBatch { ops: Vec::new() };
        assert(r@ =~= Seq::empty());
        r
    }

    /// Adds a put of `value` under `key`.
    pub fn put(&mut self, key: Vec<u8>, value: Vec<u8>)
        ensures
            final(self)@ == old(self)@.push(WriteOpView::Put(key@, value@)),
    {
        let ghost was = self@;
        let ghost op = WriteOpView::Put(key@, value@);
        self.ops.push(WriteOp::Put(key, value));
        assert(self@ =~= was.push(op));
    }

    /// Adds a deletion of `key`.
    pub fn delete(&mut self, key: Vec<u8>)
        ensures
            final(self)@ == old(self)@.push(WriteOpView::Delete(key@)),
    {
        let ghost was = self@;
        let ghost op = WriteOpView::Delete(key@);
        self.ops.push(WriteOp::Delete(key));
        assert(self@ =~= was.push(op));
    }

    /// How many changes there are.
    pub fn len(&self) -> (r: usize)
        ensures
            r == self@.len(),
    {
        self.ops.len()
    }

    /// Whether there is no change.
    pub fn is_empty(&self) -> (r: bool)
        ensures
            r == (self@.len() == 0),
    {
        self.ops.len() == 0
    }

    /// The changes, the first one first.
    pub fn ops(&self) -> (r: &[WriteOp])
        ensures
            self@ == r@.map_values(|op: WriteOp| op@),
    {
        self.ops.as_slice()
    }
}

/// A stretch of keys, from `start` on and before `end`; `None` leaves that side open.
#[derive(Debug, Clone)]
pub struct Range {
    /// The first key that is inside.
    pub start: Option<Vec<u8>>,
    /// The first key that is no longer inside.
    pub end: Option<Vec<u8>>,
}

impl Default for Range {
    fn default() -> (r: Self)
        ensures
            r.start is None,
            r.end is None,
    {
        Range { start: None, end: None }
    }
}

impl Range {
    /// `key` is inside.
    pub open spec fn holds(self, key: Seq<u8>) -> bool {
        &&& self.start matches Some(start) ==> !before(key, start@)
        &&& self.end matches Some(end) ==> before(key, end@)
    }
}

/// `key` is inside `range`, where there is one.
pub open spec fn in_range(range: Option<Range>, key: Seq<u8>) -> bool {
    range matches Some(r) ==> r.holds(key)
}

/// Decides which records outlive a compaction.
pub trait GcPredicate: Send + Sync {
    /// The record is kept.
    spec fn keeps(&self, key: Seq<u8>, value: Seq<u8>) -> bool;

    /// Whether the record is kept.
    fn should_keep(&self, key: &[u8], value: &[u8]) -> (r: bool)
        ensures
            r == self.keeps(key@, value@),
    ;
}

/// The record with the given key is kept under the predicate; without one every record is.
pub open spec fn kept_under(predicate: Option<Versions>, key: Seq<u8>) -> bool {
    predicate matches Some(versions) ==> is_current(versions, key)
}

/// `new` is `old` but for some of the records that the predicate does not keep.
pub open spec fn thinned(
    old: Records,
    new: Records,
    predicate: Option<Versions>,
) -> bool {
    &&& forall|k: Seq<u8>| #[trigger]
        new.contains_key(k) ==> old.contains_key(k) && new[k] == old[k]
    &&& forall|k: Seq<u8>| #[trigger]
        old.contains_key(k) && kept_under(predicate, k) ==> new.contains_key(k)
}

/// `new` is what a compaction of `range` leaves of `old`: it changes no record, drops only what the
/// predicate does not keep, and drops all of that inside the range.
pub open spec fn compacted(
    old: Records,
    new: Records,
    range: Option<Range>,
    predicate: Option<Versions>,
) -> bool {
    &&& thinned(old, new, predicate)
    &&& forall|k: Seq<u8>| #[trigger]
        new.contains_key(k) && in_range(range, k) ==> kept_under(predicate, k)
}

/// The versions that the predicate goes by.
pub open spec fn versions_under(predicate: Option<Versions>) -> Versions {
    match predicate {
        Some(versions) => versions,
        None => Map::empty(),
    }
}

/// `versions` with another version for the key, or with none.
pub open spec fn reversioned(
    versions: Versions,
    key: Seq<u8>,
    version: Option<u64>,
) -> Versions {
    match version {
        Some(v) => versions.insert(key, v),
        None => versions.remove(key),
    }
}

/// A record that a scan yields.
pub type ScanItem = (Vec<u8>, Vec<u8>);

/// Records that a scan yields, as mathematical values.
pub open spec fn items_view(items: Seq<ScanItem>) -> Seq<(Seq<u8>, Seq<u8>)> {
    items.map_values(|item: ScanItem| (item.0@, item.1@))
}

/// `items` are all records whose keys start with `prefix`, in ascending order of the keys.
pub open spec fn is_scan(db: Records, prefix: Seq<u8>, items: Seq<(Seq<u8>, Seq<u8>)>) -> bool {
    &&& forall|i: int, j: int|
        0 <= i < j < items.len() ==> before((#[trigger] items[i]).0, (#[trigger] items[j]).0)
    &&& forall|i: int|
        0 <= i < items.len() ==> prefix.is_prefix_of((#[trigger] items[i]).0) && db.contains_pair(
            items[i].0,
            items[i].1,
        )
    &&& forall|k: Seq<u8>| #[trigger]
        db.contains_key(k) && prefix.is_prefix_of(k) ==> exists|i: int|
            0 <= i < items.len() && (#[trigger] items[i]).0 == k
}

/// All records whose keys start with `prefix`, in ascending order of the keys.
pub open spec fn scan(db: Records, prefix: Seq<u8>) -> Seq<(Seq<u8>, Seq<u8>)> {
    choose|items: Seq<(Seq<u8>, Seq<u8>)>| is_scan(db, prefix, items)
}

/// A scan has one outcome.
pub proof fn scan_unique(
    db: Records,
    prefix: Seq<u8>,
    a: Seq<(Seq<u8>, Seq<u8>)>,
    b: Seq<(Seq<u8>, Seq<u8>)>,
)
    requires
        is_scan(db, prefix, a),
        is_scan(db, prefix, b),
    ensures
        a == b,
{
    scan_same_front(db, prefix, a, b, a.len());
    scan_same_front(db, prefix, b, a, b.len());
    assert(a =~= b);
}

/// Two outcomes of a scan start with the same items.
proof fn scan_same_front(
    db: Records,
    prefix: Seq<u8>,
    a: Seq<(Seq<u8>, Seq<u8>)>,
    b: Seq<(Seq<u8>, Seq<u8>)>,
    n: nat,
)
    requires
        is_scan(db, prefix, a),
        is_scan(db, prefix, b),
        n <= a.len(),
    ensures
        n <= b.len(),
        forall|i: int| 0 <= i < n ==> a[i] == b[i],
    decreases n,
{
    if n > 0 {
        let k = n - 1;
        scan_same_front(db, prefix, a, b, k as nat);
        assert(db.contains_key(a[k].0) && prefix.is_prefix_of(a[k].0));
        let j = choose|j: int| 0 <= j < b.len() && (#[trigger] b[j]).0 == a[k].0;
        before_irreflexive(a[k].0);
        if j < k {
            assert(a[j] == b[j]);
            assert(before(a[j].0, a[k].0));
        }
        if k < j {
            // Then b has another key there, which a must hold further on.
            assert(db.contains_key(b[k].0) && prefix.is_prefix_of(b[k].0));
            let m = choose|m: int| 0 <= m < a.len() && (#[trigger] a[m]).0 == b[k].0;
            assert(before(b[k].0, b[j].0));
            if m < k {
                assert(a[m] == b[m]);
                assert(before(b[m].0, b[k].0));
                before_irreflexive(b[k].0);
            } else if m == k {
            } else {
                assert(before(a[k].0, a[m].0));
                before_transitive(a[k].0, a[m].0, a[k].0);
            }
        }
        assert(j == k);
        assert(db.contains_pair(a[k].0, a[k].1));
        assert(db.contains_pair(b[k].0, b[k].1));
    }
}

/// What is a scan is the scan.
pub proof fn scan_is(db: Records, prefix: Seq<u8>, items: Seq<(Seq<u8>, Seq<u8>)>)
    requires
        is_scan(db, prefix, items),
    ensures
        scan(db, prefix) == items,
{
    scan_unique(db, prefix, scan(db, prefix), items);
}

/// `items` with one more, in the order of the keys.
proof fn with_item(items: Seq<(Seq<u8>, Seq<u8>)>, item: (Seq<u8>, Seq<u8>)) -> (r: Seq<
    (Seq<u8>, Seq<u8>),
>)
    requires
        forall|i: int, j: int|
            0 <= i < j < items.len() ==> before((#[trigger] items[i]).0, (#[trigger] items[j]).0),
        forall|i: int| 0 <= i < items.len() ==> (#[trigger] items[i]).0 != item.0,
    ensures
        forall|i: int, j: int|
            0 <= i < j < r.len() ==> before((#[trigger] r[i]).0, (#[trigger] r[j]).0),
        forall|x: (Seq<u8>, Seq<u8>)| #[trigger] r.contains(x) == (items.contains(x) || x == item),
    decreases items.len(),
{
    if items.len() == 0 || before(items.last().0, item.0) {
        let r = items.push(item);
        assert forall|i: int, j: int| 0 <= i < j < r.len() implies before(
            (#[trigger] r[i]).0,
            (#[trigger] r[j]).0,
        ) by {
            if j == items.len() && i < items.len() - 1 {
                assert(before(items[i].0, items[items.len() - 1].0));
                before_transitive(items[i].0, items.last().0, item.0);
            }
        }
        contains_pushed(items, item);
        r
    } else {
        let init = items.drop_last();
        let last = items.last();
        let front = with_item(init, item);
        let r = front.push(last);
        before_total(items.last().0, item.0);
        assert(items[items.len() - 1].0 != item.0);
        assert forall|i: int, j: int| 0 <= i < j < r.len() implies before(
            (#[trigger] r[i]).0,
            (#[trigger] r[j]).0,
        ) by {
            if j == front.len() {
                assert(front.contains(front[i]));
                if front[i] != item {
                    let k = choose|k: int| 0 <= k < init.len() && init[k] == front[i];
                    assert(before(items[k].0, items[items.len() - 1].0));
                }
            } else {
                assert(before(front[i].0, front[j].0));
            }
        }
        contains_pushed(front, last);
        contains_pushed(init, last);
        assert(init.push(last) =~= items);
        r
    }
}

/// What a sequence contains with one more element behind it.
proof fn contains_pushed<T>(s: Seq<T>, x: T)
    ensures
        forall|y: T| #[trigger] s.push(x).contains(y) == (s.contains(y) || y == x),
{
    assert forall|y: T| #[trigger] s.push(x).contains(y) == (s.contains(y) || y == x) by {
        let t = s.push(x);
        if s.contains(y) {
            let i = choose|i: int| 0 <= i < s.len() && s[i] == y;
            assert(t[i] == y);
        }
        if t.contains(y) {
            let i = choose|i: int| 0 <= i < t.len() && t[i] == y;
            if i < s.len() {
                assert(s[i] == y);
            }
        }
        assert(t[s.len() as int] == x);
    }
}

/// The records with the given keys, in ascending order of the keys.
proof fn sorted_items(db: Records, keys: Set<Seq<u8>>) -> (r: Seq<(Seq<u8>, Seq<u8>)>)
    requires
        keys.finite(),
    ensures
        forall|i: int, j: int|
            0 <= i < j < r.len() ==> before((#[trigger] r[i]).0, (#[trigger] r[j]).0),
        forall|x: (Seq<u8>, Seq<u8>)| #[trigger] r.contains(x) == (keys.contains(x.0) && x.1
            == db[x.0]),
    decreases keys.len(),
{
    if keys.len() == 0 {
        assert(keys =~= Set::empty());
        Seq::empty()
    } else {
        let k = keys.choose();
        let rest = sorted_items(db, keys.remove(k));
        assert forall|i: int| 0 <= i < rest.len() implies (#[trigger] rest[i]).0 != k by {
            assert(rest.contains(rest[i]));
        }
        with_item(rest, (k, db[k]))
    }
}

/// An engine with finitely many records can be scanned.
pub proof fn scan_exists(db: Records, prefix: Seq<u8>)
    requires
        db.dom().finite(),
    ensures
        is_scan(db, prefix, scan(db, prefix)),
{
    let keys = db.dom().filter(|k: Seq<u8>| prefix.is_prefix_of(k));
    db.dom().lemma_len_filter(|k: Seq<u8>| prefix.is_prefix_of(k));
    let items = sorted_items(db, keys);
    assert(is_scan(db, prefix, items)) by {
        assert forall|i: int| 0 <= i < items.len() implies prefix.is_prefix_of(
            (#[trigger] items[i]).0,
        ) && db.contains_pair(items[i].0, items[i].1) by {
            assert(items.contains(items[i]));
        }
        assert forall|k: Seq<u8>| #[trigger]
            db.contains_key(k) && prefix.is_prefix_of(k) implies exists|i: int|
            0 <= i < items.len() && (#[trigger] items[i]).0 == k by {
            assert(keys.contains(k));
            assert(items.contains((k, db[k])));
            let i = choose|i: int| 0 <= i < items.len() && items[i] == (k, db[k]);
            assert(items[i].0 == k);
        }
    }
}

/// The errors that an engine's calls may end in.
pub type Failures = Set<EngineErrorView>;

/// What a scan came to.
#[derive(Debug)]
pub struct Scan {
    /// The records that were read, in ascending order of the keys.
    pub items: Vec<ScanItem>,
    /// Why it went no further, where a record could not be read.
    pub failure: Option<EngineError>,
}

impl Scan {
    /// It came to all records whose keys start with `prefix`, or to the first of them up to a
    /// failure.
    pub open spec fn is_of(self, db: Records, prefix: Seq<u8>, failures: Failures) -> bool {
        let items = items_view(self.items@);
        match self.failure {
            None => is_scan(db, prefix, items),
            Some(e) => failures.contains(e@) && items.is_prefix_of(scan(db, prefix)),
        }
    }

    /// The records, where all of them were read.
    pub fn whole(self) -> (r: Result<Vec<ScanItem>, EngineError>)
        ensures
            match r {
                Ok(items) => self.failure is None && items == self.items,
                Err(e) => self.failure == Some(e),
            },
    {
        match self.failure {
            None => Ok(self.items),
            Some(e) => Err(e),
        }
    }
}

/// The value under a key.
pub open spec fn value_at(db: Records, key: Seq<u8>) -> Option<Seq<u8>> {
    if db.contains_key(key) {
        Some(db[key])
    } else {
        None
    }
}

/// Several byte strings as mathematical values.
pub open spec fn byte_strings(v: Seq<Vec<u8>>) -> Seq<Seq<u8>> {
    v.map_values(|b: Vec<u8>| b@)
}

/// A bytes-valued answer as a mathematical value.
pub open spec fn bytes_view(v: Option<Vec<u8>>) -> Option<Seq<u8>> {
    match v {
        Some(v) => Some(v@),
        None => None,
    }
}

/// A storage engine.
///
/// The contracts are those of an engine that drops a record only when it is told to. One that
/// compacts by itself as well may reclaim what its predicate does not keep before that.
pub trait GeneralEngine: Send + Sync + Sized {
    /// The records that the engine keeps.
    spec fn records(&self) -> Records;

    /// The errors that its calls may end in. Where there are none, no call fails.
    spec fn failures(&self) -> Failures;

    /// The versions of the garbage-collection predicate, where one is installed.
    spec fn predicate(&self) -> Option<Versions>;

    /// An engine keeps finitely many records.
    proof fn finite_records(&self)
        ensures
            self.records().dom().finite(),
    ;

    /// The value under `key`.
    fn get(&self, key: &[u8]) -> (r: Result<Option<Vec<u8>>, EngineError>)
        ensures
            match r {
                Ok(v) => bytes_view(v) == value_at(self.records(), key@),
                Err(e) => self.failures().contains(e@),
            },
    ;

    /// Makes all changes of `batch`, or none.
    fn write(&mut self, batch: WriteBatch) -> (r: Result<(), EngineError>)
        ensures
            final(self).failures() == old(self).failures(),
            final(self).predicate() == old(self).predicate(),
            match r {
                Ok(()) => final(self).records() == applied_all(old(self).records(), batch@),
                Err(e) => old(self).failures().contains(e@) && (final(self).records() == old(
                    self,
                ).records() || final(self).records() == applied_all(old(self).records(), batch@)),
            },
    ;

    /// All records whose keys start with `prefix`, in ascending order of the keys, up to the first
    /// one that cannot be read.
    fn scan_prefix(&self, prefix: &[u8]) -> (r: Scan)
        ensures
            r.is_of(self.records(), prefix@, self.failures()),
    ;

    /// Makes `predicate` decide which records outlive a compaction, in place of what did so far.
    fn install_gc(&mut self, predicate: VersionMap)
        ensures
            final(self).records() == old(self).records(),
            final(self).failures() == old(self).failures(),
            final(self).predicate() == Some(predicate@),
    ;

    /// Whether a predicate is installed.
    fn has_gc(&self) -> (r: bool)
        ensures
            r == self.predicate() is Some,
    ;

    /// Tells the predicate of the current version of a key, or that it has none. Where no predicate
    /// is installed yet, one is that knows of this key alone.
    fn set_version(&mut self, user_key: &[u8], version: Option<u64>)
        ensures
            final(self).records() == old(self).records(),
            final(self).failures() == old(self).failures(),
            final(self).predicate() == Some(
                reversioned(versions_under(old(self).predicate()), user_key@, version),
            ),
    ;

    /// Drops the records in `range` (all of them, where there is no range) that the predicate does
    /// not keep. Where it fails, some of them may be gone.
    fn compact_range(&mut self, range: Option<Range>) -> (r: Result<(), EngineError>)
        ensures
            final(self).failures() == old(self).failures(),
            final(self).predicate() == old(self).predicate(),
            match r {
                Ok(()) => compacted(
                    old(self).records(),
                    final(self).records(),
                    range,
                    old(self).predicate(),
                ),
                Err(e) => old(self).failures().contains(e@) && thinned(
                    old(self).records(),
                    final(self).records(),
                    old(self).predicate(),
                ),
            },
    ;

    /// Makes everything written so far outlive a crash.
    fn flush(&mut self) -> (r: Result<(), EngineError>)
        ensures
            final(self).failures() == old(self).failures(),
            final(self).predicate() == old(self).predicate(),
            final(self).records() == old(self).records(),
            r matches Err(e) ==> old(self).failures().contains(e@),
    ;

    /// Figures about the engine at this moment, by the names they are published under.
    fn stats(&self) -> Vec<(&'static str, u64)>;
}

} // verus!
