//! Strings, hashes, sets, sorted sets and lists on a storage engine.
//!
//! What each operation does is in [`super::model`]. Operations read the clock when they start;
//! [`Store::now`] is that reading.
use vstd::prelude::*;
use vstd::slice::{slice_subrange, slice_to_vec};

use super::bigend::be;
use super::encoding::{
    decode_score, eight, encode_score, meta_key, meta_keys_differ, meta_name, self,
    split_score_suffix, sub_name, subkey, subkey_prefix, zscore_key, zscore_prefix, Meta, MetaView,
    LIST_INITIAL_INDEX, META_PREFIX, SUBKEY_PREFIX, TYPE_HASH, TYPE_LIST, TYPE_SET, TYPE_STRING,
    TYPE_ZSET, ZSCORE_PREFIX,
};
use super::engine::{
    applied_all, applied_one_more, byte_strings, bytes_view, is_scan, items_view, scan, scan_exists,
    scan_is, thinned, versions_under, Failures, GeneralEngine, Range, Records, Versions, WriteBatch,
    WriteOpView,
};
use super::error::{EngineError, EngineErrorView};
use super::gc::VersionMap;
use super::model::{
    any_change, at_a_step, bad_score, compact_op, corrupt, count_op, count_up, dbsize_op, del_op,
    drop_elements, drop_fields, drop_scores, element_name, elements, end_elements, exists_op,
    expire_op, firsts, flush_op, fresh_meta, get_op, has_field, has_op, hget_op, hgetall_op,
    hset_op, index_items, is_last_version, last_scores, live, llen_op, lrange_op, member_at,
    members_left, members_of, missing_count, next_version, pop_op, present_count, pttl_op, push_op,
    put_fields, put_left, put_members, put_right, put_scores, rank_range, ranked, rawcount_op,
    reading, rebuilt, remove_op, sadd_op, score_changes, scores_behind, scores_within, set_op,
    settled, settled_at, smembers_op, sound_bounds, stored, stored_score, swept, type_op, typed,
    unprefixed, version_at, with_db, with_meta, with_version, without, zadd_op, zrange_by_score_op,
    zrange_op, zrem_op, zscore_op, Now, ScoreRange, StoreView,
};
use crate::table::Table;
use crate::text::same_bytes;

verus! {

/// `SystemTime::elapsed` on `UNIX_EPOCH`: the microseconds since the epoch, or zero where the
/// machine's clock stands before it. What the clock says is up to the machine.
#[verifier::external_body]
fn now_micros() -> u64 {
    std::time::UNIX_EPOCH.elapsed().unwrap_or_default().as_micros() as u64
}

/// The milliseconds since the epoch, as the machine's clock has them: those of [`Now::at`] for what
/// the clock says.
pub fn now_ms() -> (r: u64)
    ensures
        r <= u64::MAX / 1000,
{
    Now::at(now_micros()).ms
}

/// Metadata as a mathematical value, where there is any.
pub open spec fn meta_view(m: Option<Meta>) -> Option<MetaView> {
    match m {
        Some(m) => Some(m@),
        None => None,
    }
}

/// A `SET` ended at `want`, or the engine failed underneath it: the error is then one of the
/// engine's, the version of what was at the key is given up all the same, and the record was
/// written or not.
pub open spec fn set_settled(
    r: Result<(), EngineError>,
    before: StoreView,
    after: StoreView,
    want: StoreView,
    failures: Failures,
) -> bool {
    match r {
        Ok(()) => after == want,
        Err(e) => failures.contains(e@) && (after == with_db(want, before.db) || after == want),
    }
}

/// Strings, hashes, sets, sorted sets and lists on a storage engine.
pub struct Store<E: GeneralEngine> {
    engine: E,
    clock: u64,
    micros: u64,
    readings: Ghost<Seq<u64>>,
}

impl<E: GeneralEngine> View for Store<E> {
    type V = StoreView;

    closed spec fn view(&self) -> StoreView {
        StoreView {
            db: self.engine.records(),
            versions: versions_under(self.engine.predicate()),
            clock: self.clock,
        }
    }
}

impl<E: GeneralEngine> Store<E> {
    /// The errors that the calls of the engine may end in.
    pub closed spec fn failures(&self) -> Failures {
        self.engine.failures()
    }

    /// The versions of the predicate that is installed in the engine.
    pub closed spec fn predicate(&self) -> Option<Versions> {
        self.engine.predicate()
    }

    /// A store has finitely many records.
    pub proof fn finite_records(&self)
        ensures
            self@.db.dom().finite(),
    {
        self.engine.finite_records();
    }

    /// The microseconds that the clock read for the last operation.
    pub closed spec fn last_micros(&self) -> u64 {
        self.micros
    }

    /// The reading of the clock that the last operation went by.
    pub open spec fn last_now(&self) -> Now {
        reading(self.last_micros())
    }

    /// The microseconds of all readings of the clock so far, the last one at the end.
    pub closed spec fn micros_read(&self) -> Seq<u64> {
        self.readings@
    }

    /// All readings of the clock so far, the last one at the end.
    pub open spec fn readings(&self) -> Seq<Now> {
        self.micros_read().map_values(|micros: u64| reading(micros))
    }

    /// The reading of the clock that the last operation went by.
    pub fn now(&self) -> (r: Now)
        ensures
            r == self.last_now(),
            r.ms == r.micros / 1000,
    {
        Now::at(self.micros)
    }

    /// The engine.
    pub fn engine(&self) -> (r: &E)
        ensures
            r.records() == self@.db,
            r.failures() == self.failures(),
            r.predicate() == self.predicate(),
            versions_under(r.predicate()) == self@.versions,
    {
        &self.engine
    }

    /// Reads the clock.
    fn tick(&mut self)
        ensures
            final(self)@ == old(self)@,
            final(self).failures() == old(self).failures(),
            final(self).readings() == old(self).readings().push(final(self).last_now()),
            final(self).last_now().ms == final(self).last_now().micros / 1000,
    {
        let ghost was = self.readings();
        self.micros = now_micros();
        self.readings = Ghost(self.readings@.push(self.micros));
        assert(self.readings() =~= was.push(self.last_now()));
    }

    /// Reads the clock.
    pub fn read_clock(&mut self) -> (r: Now)
        ensures
            final(self)@ == old(self)@,
            final(self).failures() == old(self).failures(),
            r == final(self).last_now(),
            final(self).readings() == old(self).readings().push(r),
            r.ms == r.micros / 1000,
    {
        self.tick();
        self.now()
    }

    /// The metadata at a key.
    fn load_meta(&self, key: &[u8]) -> (r: Result<Option<Meta>, EngineError>)
        ensures
            settled(
                r,
                |m: Option<Meta>| meta_view(m),
                self@,
                self@,
                (self@, stored(self@, key@)),
                self.failures(),
            ),
    {
        match self.engine.get(&meta_key(key)) {
            Ok(Some(raw)) => match Meta::decode(&raw) {
                Some(meta) => Ok(Some(meta)),
                None => Err(EngineError::corruption("undecodable metadata record")),
            },
            Ok(None) => Ok(None),
            Err(e) => Err(e),
        }
    }

    /// Takes the key away; what records it has besides its metadata become garbage.
    fn logical_delete(&mut self, key: &[u8]) -> (r: Result<(), EngineError>)
        ensures
            final(self).last_now() == old(self).last_now(),
            final(self).readings() == old(self).readings(),
            final(self).failures() == old(self).failures(),
            r is Ok ==> final(self)@ == without(old(self)@, key@),
            r matches Err(e) ==> old(self).failures().contains(e@) && (final(self)@ == old(self)@
                || final(self)@ == with_db(old(self)@, without(old(self)@, key@).db)),
    {
        let mut batch = WriteBatch::new();
        batch.delete(meta_key(key));
        proof {
            applied_one_more(self@.db, Seq::empty(), WriteOpView::Delete(meta_name(key@)));
        }
        match self.engine.write(batch) {
            Ok(()) => {
                self.engine.set_version(key, None);
                Ok(())
            },
            Err(e) => Err(e),
        }
    }

    /// The metadata at a key whose time is not up; a key whose time is up is taken away.
    fn load_live_meta(&mut self, key: &[u8]) -> (r: Result<Option<Meta>, EngineError>)
        ensures
            final(self).last_now() == old(self).last_now(),
            final(self).readings() == old(self).readings(),
            final(self).failures() == old(self).failures(),
            settled(
                r,
                |m: Option<Meta>| meta_view(m),
                old(self)@,
                final(self)@,
                (
                    swept(old(self)@, old(self).last_now(), key@),
                    live(old(self)@, old(self).last_now(), key@),
                ),
                old(self).failures(),
            ),
    {
        match self.load_meta(key) {
            Ok(Some(meta)) => {
                if meta.expire_ms != 0 && self.now().ms >= meta.expire_ms {
                    match self.logical_delete(key) {
                        Ok(()) => Ok(None),
                        Err(e) => Err(e),
                    }
                } else {
                    Ok(Some(meta))
                }
            },
            Ok(None) => Ok(None),
            Err(e) => Err(e),
        }
    }

    /// The metadata at a key, which must have the given type.
    fn load_typed(&mut self, key: &[u8], type_id: u8) -> (r: Result<Option<Meta>, EngineError>)
        ensures
            final(self).last_now() == old(self).last_now(),
            final(self).readings() == old(self).readings(),
            final(self).failures() == old(self).failures(),
            settled(
                r,
                |m: Option<Meta>| meta_view(m),
                old(self)@,
                final(self)@,
                (
                    swept(old(self)@, old(self).last_now(), key@),
                    typed(old(self)@, old(self).last_now(), key@, type_id),
                ),
                old(self).failures(),
            ),
    {
        match self.load_live_meta(key) {
            Ok(Some(meta)) => if meta.type_id == type_id {
                Ok(Some(meta))
            } else {
                Err(EngineError::WrongType)
            },
            Ok(None) => Ok(None),
            Err(e) => Err(e),
        }
    }

    /// Gives out the next version.
    fn take_version(&mut self) -> (r: u64)
        ensures
            r == next_version(old(self)@.clock, old(self).last_now().micros),
            final(self)@ == (StoreView { clock: r, ..old(self)@ }),
            final(self).last_now() == old(self).last_now(),
            final(self).readings() == old(self).readings(),
            final(self).failures() == old(self).failures(),
    {
        if self.clock != u64::MAX {
            let after: u64 = self.clock + 1;
            self.clock = if after > self.micros {
                after
            } else {
                self.micros
            };
        }
        self.clock
    }

    /// Metadata for a new composite value at the key.
    fn new_composite_meta(&mut self, key: &[u8], type_id: u8, payload: Vec<u8>) -> (r: Meta)
        ensures
            r@ == fresh_meta(old(self)@, old(self).last_now(), type_id, payload@),
            final(self)@ == with_version(old(self)@, old(self).last_now(), key@),
            final(self).last_now() == old(self).last_now(),
            final(self).readings() == old(self).readings(),
            final(self).failures() == old(self).failures(),
    {
        let version = self.take_version();
        self.engine.set_version(key, Some(version));
        Meta { type_id, version, expire_ms: 0, payload }
    }

    /// Puts the metadata at the key, along with the changes of `batch` before it.
    fn commit(&mut self, batch: WriteBatch, key: &[u8], meta: &Meta) -> (r: Result<
        (),
        EngineError,
    >)
        ensures
            final(self).last_now() == old(self).last_now(),
            final(self).readings() == old(self).readings(),
            final(self).failures() == old(self).failures(),
            r is Ok ==> final(self)@ == with_meta(
                with_db(old(self)@, applied_all(old(self)@.db, batch@)),
                key@,
                meta@,
            ),
            r matches Err(e) ==> old(self).failures().contains(e@) && (final(self)@ == old(self)@
                || final(self)@ == with_meta(
                with_db(old(self)@, applied_all(old(self)@.db, batch@)),
                key@,
                meta@,
            )),
    {
        let mut batch = batch;
        proof {
            applied_one_more(
                self@.db,
                batch@,
                WriteOpView::Put(meta_name(key@), meta@.encoded()),
            );
        }
        batch.put(meta_key(key), meta.encode());
        self.engine.write(batch)
    }

    // -----------------------------------------------------------------------
    // Strings and keys
    // -----------------------------------------------------------------------
    /// `SET key value`, with an end in milliseconds since the epoch, or zero for none. Takes the
    /// place of whatever the key held.
    pub fn set(&mut self, key: &[u8], value: &[u8], expire_ms: u64) -> (r: Result<(), EngineError>)
        ensures
            final(self).failures() == old(self).failures(),
            final(self).readings() == old(self).readings().push(final(self).last_now()),
            set_settled(
                r,
                old(self)@,
                final(self)@,
                set_op(old(self)@, final(self).last_now(), key@, value@, expire_ms).0,
                old(self).failures(),
            ),
    {
        self.tick();
        self.engine.set_version(key, None);
        let version = self.take_version();
        let meta = Meta {
            type_id: TYPE_STRING,
            version,
            expire_ms,
            payload: slice_to_vec(value),
        };
        self.commit(WriteBatch::new(), key, &meta)
    }

    /// `GET key`: the string at the key.
    pub fn get(&mut self, key: &[u8]) -> (r: Result<Option<Vec<u8>>, EngineError>)
        ensures
            final(self).failures() == old(self).failures(),
            final(self).readings() == old(self).readings().push(final(self).last_now()),
            settled(
                r,
                |v: Option<Vec<u8>>| bytes_view(v),
                old(self)@,
                final(self)@,
                get_op(old(self)@, final(self).last_now(), key@),
                old(self).failures(),
            ),
    {
        self.tick();
        match self.load_typed(key, TYPE_STRING) {
            Ok(Some(meta)) => Ok(Some(meta.payload)),
            Ok(None) => Ok(None),
            Err(e) => Err(e),
        }
    }

    /// Whether there is a value at the key.
    pub fn key_exists(&mut self, key: &[u8]) -> (r: Result<bool, EngineError>)
        ensures
            final(self).failures() == old(self).failures(),
            final(self).readings() == old(self).readings().push(final(self).last_now()),
            settled(
                r,
                |v: bool| v,
                old(self)@,
                final(self)@,
                exists_op(old(self)@, final(self).last_now(), key@),
                old(self).failures(),
            ),
    {
        self.tick();
        match self.load_live_meta(key) {
            Ok(Some(_)) => Ok(true),
            Ok(None) => Ok(false),
            Err(e) => Err(e),
        }
    }

    /// `TYPE key`: `string`, `hash`, `set`, `zset` or `list`, or `none` where there is no value.
    pub fn type_of(&mut self, key: &[u8]) -> (r: Result<&'static str, EngineError>)
        ensures
            final(self).failures() == old(self).failures(),
            final(self).readings() == old(self).readings().push(final(self).last_now()),
            settled(
                r,
                |v: &'static str| v@,
                old(self)@,
                final(self)@,
                type_op(old(self)@, final(self).last_now(), key@),
                old(self).failures(),
            ),
    {
        self.tick();
        match self.load_live_meta(key) {
            Ok(Some(meta)) => Ok(
                if meta.type_id == TYPE_STRING {
                    "string"
                } else if meta.type_id == TYPE_HASH {
                    "hash"
                } else if meta.type_id == TYPE_SET {
                    "set"
                } else if meta.type_id == TYPE_ZSET {
                    "zset"
                } else if meta.type_id == TYPE_LIST {
                    "list"
                } else {
                    "none"
                },
            ),
            Ok(None) => Ok("none"),
            Err(e) => Err(e),
        }
    }

    /// `DEL key`: whether there was a value, which is gone now.
    pub fn del(&mut self, key: &[u8]) -> (r: Result<bool, EngineError>)
        ensures
            r is Err ==> final(self)@.versions == old(self)@.versions,
            final(self).failures() == old(self).failures(),
            final(self).readings() == old(self).readings().push(final(self).last_now()),
            settled(
                r,
                |v: bool| v,
                old(self)@,
                final(self)@,
                del_op(old(self)@, final(self).last_now(), key@),
                old(self).failures(),
            ),
    {
        self.tick();
        match self.load_live_meta(key) {
            Ok(Some(_)) => match self.logical_delete(key) {
                Ok(()) => Ok(true),
                Err(e) => Err(e),
            },
            Ok(None) => Ok(false),
            Err(e) => Err(e),
        }
    }

    /// Sets when the value's time is up, in milliseconds since the epoch; whether there is one.
    pub fn expire_at(&mut self, key: &[u8], expire_at_ms: u64) -> (r: Result<bool, EngineError>)
        ensures
            final(self).failures() == old(self).failures(),
            final(self).readings() == old(self).readings().push(final(self).last_now()),
            settled(
                r,
                |v: bool| v,
                old(self)@,
                final(self)@,
                expire_op(old(self)@, final(self).last_now(), key@, expire_at_ms),
                old(self).failures(),
            ),
    {
        self.tick();
        match self.load_live_meta(key) {
            Ok(Some(meta)) => {
                let ghost was = meta@;
                let mut meta = meta;
                meta.expire_ms = expire_at_ms;
                assert(meta@ =~= MetaView { expire_ms: expire_at_ms, ..was });
                match self.commit(WriteBatch::new(), key, &meta) {
                    Ok(()) => Ok(true),
                    Err(e) => Err(e),
                }
            },
            Ok(None) => Ok(false),
            Err(e) => Err(e),
        }
    }

    /// The milliseconds that the value has left, -1 where it has no end, -2 where there is none.
    pub fn pttl(&mut self, key: &[u8]) -> (r: Result<i64, EngineError>)
        ensures
            final(self).failures() == old(self).failures(),
            final(self).readings() == old(self).readings().push(final(self).last_now()),
            settled(
                r,
                |v: i64| v,
                old(self)@,
                final(self)@,
                pttl_op(old(self)@, final(self).last_now(), key@),
                old(self).failures(),
            ),
    {
        self.tick();
        match self.load_live_meta(key) {
            Ok(Some(meta)) => {
                if meta.expire_ms == 0 {
                    Ok(-1)
                } else {
                    let left: u64 = meta.expire_ms.saturating_sub(self.now().ms);
                    Ok(left as i64)
                }
            },
            Ok(None) => Ok(-2),
            Err(e) => Err(e),
        }
    }

    // -----------------------------------------------------------------------
    // Members
    // -----------------------------------------------------------------------
    /// Takes members, whose records are out after `batch`, off a composite value: without its last
    /// member the value is gone.
    fn finish_removal(&mut self, key: &[u8], meta: Meta, batch: WriteBatch, removed: u64) -> (r:
        Result<(), EngineError>)
        ensures
            final(self).last_now() == old(self).last_now(),
            final(self).readings() == old(self).readings(),
            final(self).failures() == old(self).failures(),
            ({
                let db = applied_all(old(self)@.db, batch@);
                let want = members_left(old(self)@, key@, meta@, db, removed as nat);
                match r {
                    Ok(()) => final(self)@ == want,
                    Err(e) => old(self).failures().contains(e@) && (final(self)@ == old(self)@
                        || final(self)@ == with_db(old(self)@, want.db) || want == without(
                        with_db(old(self)@, db),
                        key@,
                    ) && final(self)@ == with_db(old(self)@, db)),
                }
            }),
    {
        if removed == 0 {
            return Ok(());
        }
        let count = meta.field_count();
        let left: u32 = if removed > count as u64 {
            0
        } else {
            count - removed as u32
        };
        if left == 0 {
            match self.engine.write(batch) {
                Ok(()) => self.logical_delete(key),
                Err(e) => Err(e),
            }
        } else {
            let mut meta = meta;
            meta.set_field_count(left);
            self.commit(batch, key, &meta)
        }
    }

    /// Takes `fields` off a hash or a set; how many of them were there.
    fn remove_members(&mut self, key: &[u8], type_id: u8, fields: &[Vec<u8>]) -> (r: Result<
        i64,
        EngineError,
    >)
        ensures
            final(self).last_now() == old(self).last_now(),
            final(self).readings() == old(self).readings(),
            final(self).failures() == old(self).failures(),
            settled_at(
                r,
                |v: i64| v,
                old(self)@,
                old(self).last_now(),
                key@,
                final(self)@,
                remove_op(
                    old(self)@,
                    old(self).last_now(),
                    key@,
                    type_id,
                    byte_strings(fields@),
                ),
                old(self).failures(),
            ),
    {
        let meta = match self.load_typed(key, type_id) {
            Ok(Some(meta)) => meta,
            Ok(None) => return Ok(0),
            Err(e) => return Err(e),
        };
        let ghost db = self@.db;
        let ghost all = byte_strings(fields@);
        let ghost version = meta@.version;
        let mut batch = WriteBatch::new();
        let mut seen: Table<()> = Table::new();
        let mut removed: u64 = 0;
        let mut i: usize = 0;
        assert(all.take(0) =~= Seq::empty());
        while i < fields.len()
            invariant
                i <= fields@.len(),
                all == byte_strings(fields@),
                version == meta@.version,
                db == self@.db,
                self@ == old(self)@,
                self.last_now() == old(self).last_now(),
                self.readings() == old(self).readings(),
                self.failures() == old(self).failures(),
                forall|f: Seq<u8>| seen@.contains_key(f) == all.take(i as int).contains(f),
                removed <= i,
                removed == present_count(db, key@, version, all.take(i as int)),
                applied_all(db, batch@) == drop_fields(db, key@, version, all.take(i as int)),
            decreases fields@.len() - i,
        {
            let ghost field = all[i as int];
            let ghost before = all.take(i as int);
            let ghost name = sub_name(key@, version, field);
            proof {
                assert(all.take(i + 1).drop_last() =~= before);
                assert(all.take(i + 1).last() == field);
                contains_one_more(before, all.take(i + 1));
            }
            if !seen.contains(&fields[i]) {
                let sk = subkey(key, meta.version, &fields[i]);
                match self.engine.get(&sk) {
                    Ok(Some(_)) => {
                        proof {
                            applied_one_more(db, batch@, WriteOpView::Delete(name));
                        }
                        batch.delete(sk);
                        removed += 1;
                    },
                    Ok(None) => {
                        proof {
                            drop_fields_absent(db, key@, version, before, field);
                        }
                    },
                    Err(e) => return Err(e),
                }
                seen.insert(slice_to_vec(&fields[i]), ());
            } else {
                proof {
                    drop_fields_again(db, key@, version, before, field);
                }
            }
            i += 1;
        }
        assert(all.take(i as int) =~= all);
        proof {
            metadata_after_fields(db, key@, version, all);
            metadata_put_back(db, drop_fields(db, key@, version, all), key@);
        }
        match self.finish_removal(key, meta, batch, removed) {
            Ok(()) => Ok(removed as i64),
            Err(e) => Err(e),
        }
    }

    /// How many members a value of the given type has.
    fn count_members(&mut self, key: &[u8], type_id: u8) -> (r: Result<i64, EngineError>)
        ensures
            final(self).last_now() == old(self).last_now(),
            final(self).readings() == old(self).readings(),
            final(self).failures() == old(self).failures(),
            settled(
                r,
                |v: i64| v,
                old(self)@,
                final(self)@,
                count_op(old(self)@, old(self).last_now(), key@, type_id),
                old(self).failures(),
            ),
    {
        match self.load_typed(key, type_id) {
            Ok(Some(meta)) => Ok(meta.field_count() as i64),
            Ok(None) => Ok(0),
            Err(e) => Err(e),
        }
    }

    /// Whether a value of the given type has the member.
    fn has_member(&mut self, key: &[u8], type_id: u8, field: &[u8]) -> (r: Result<
        bool,
        EngineError,
    >)
        ensures
            final(self).last_now() == old(self).last_now(),
            final(self).readings() == old(self).readings(),
            final(self).failures() == old(self).failures(),
            settled(
                r,
                |v: bool| v,
                old(self)@,
                final(self)@,
                has_op(old(self)@, old(self).last_now(), key@, type_id, field@),
                old(self).failures(),
            ),
    {
        match self.load_typed(key, type_id) {
            Ok(Some(meta)) => match self.engine.get(&subkey(key, meta.version, field)) {
                Ok(found) => Ok(found.is_some()),
                Err(e) => Err(e),
            },
            Ok(None) => Ok(false),
            Err(e) => Err(e),
        }
    }

    // -----------------------------------------------------------------------
    // Hashes
    // -----------------------------------------------------------------------
    /// `HSET key field value [field value ...]`: how many of the fields are new. A field that
    /// comes more than once counts once and holds the last value given.
    pub fn hset(&mut self, key: &[u8], pairs: &[(Vec<u8>, Vec<u8>)]) -> (r: Result<
        i64,
        EngineError,
    >)
        ensures
            final(self).failures() == old(self).failures(),
            final(self).readings() == old(self).readings().push(final(self).last_now()),
            settled_at(
                r,
                |v: i64| v,
                old(self)@,
                final(self).last_now(),
                key@,
                final(self)@,
                hset_op(old(self)@, final(self).last_now(), key@, items_view(pairs@)),
                old(self).failures(),
            ),
    {
        self.tick();
        let mut meta = match self.load_typed(key, TYPE_HASH) {
            Ok(Some(meta)) => meta,
            Ok(None) => {
                let zero = slice_to_vec(&super::bigend::be_u32(0));
                self.new_composite_meta(key, TYPE_HASH, zero)
            },
            Err(e) => return Err(e),
        };
        let ghost db = self@.db;
        let ghost all = items_view(pairs@);
        let ghost names = firsts(all);
        let ghost version = meta@.version;
        let ghost was = meta@;
        let ghost now = self.last_now();
        let ghost want = hset_op(old(self)@, now, key@, items_view(pairs@)).0;
        assert(at_a_step(old(self)@, now, key@, self@, want));
        let mut batch = WriteBatch::new();
        let mut seen: Table<()> = Table::new();
        let mut created: u64 = 0;
        let mut i: usize = 0;
        assert(all.take(0) =~= Seq::empty());
        assert(names.take(0) =~= Seq::empty());
        while i < pairs.len()
            invariant
                i <= pairs@.len(),
                all == items_view(pairs@),
                names == firsts(all),
                version == meta@.version,
                was == meta@,
                db == self@.db,
                at_a_step(old(self)@, now, key@, self@, want),
                self.last_now() == now,
                want == hset_op(old(self)@, now, key@, items_view(pairs@)).0,
                self.readings() == old(self).readings().push(now),
                self.failures() == old(self).failures(),
                forall|f: Seq<u8>| seen@.contains_key(f) == names.take(i as int).contains(f),
                created <= i,
                created == missing_count(db, key@, version, names.take(i as int)),
                applied_all(db, batch@) == put_fields(db, key@, version, all.take(i as int)),
            decreases pairs@.len() - i,
        {
            let ghost field = names[i as int];
            let ghost name = sub_name(key@, version, field);
            proof {
                assert(names.take(i + 1).drop_last() =~= names.take(i as int));
                assert(names.take(i + 1).last() == field);
                assert(all.take(i + 1).drop_last() =~= all.take(i as int));
                assert(all.take(i + 1).last() == all[i as int]);
                contains_one_more(names.take(i as int), names.take(i + 1));
                applied_one_more(db, batch@, WriteOpView::Put(name, pairs@[i as int].1@));
            }
            let sk = subkey(key, meta.version, &pairs[i].0);
            if !seen.contains(&pairs[i].0) {
                match self.engine.get(&sk) {
                    Ok(Some(_)) => {},
                    Ok(None) => {
                        created += 1;
                    },
                    Err(e) => return Err(e),
                }
                seen.insert(slice_to_vec(&pairs[i].0), ());
            }
            batch.put(sk, slice_to_vec(&pairs[i].1));
            i += 1;
        }
        assert(all.take(i as int) =~= all);
        assert(names.take(i as int) =~= names);
        let count = grown(meta.field_count(), created);
        meta.set_field_count(count);
        match self.commit(batch, key, &meta) {
            Ok(()) => Ok(created as i64),
            Err(e) => Err(e),
        }
    }

    /// `HGET key field`: the value of the field.
    pub fn hget(&mut self, key: &[u8], field: &[u8]) -> (r: Result<Option<Vec<u8>>, EngineError>)
        ensures
            final(self).failures() == old(self).failures(),
            final(self).readings() == old(self).readings().push(final(self).last_now()),
            settled(
                r,
                |v: Option<Vec<u8>>| bytes_view(v),
                old(self)@,
                final(self)@,
                hget_op(old(self)@, final(self).last_now(), key@, field@),
                old(self).failures(),
            ),
    {
        self.tick();
        match self.load_typed(key, TYPE_HASH) {
            Ok(Some(meta)) => self.engine.get(&subkey(key, meta.version, field)),
            Ok(None) => Ok(None),
            Err(e) => Err(e),
        }
    }

    /// The records whose keys start with `prefix`, without it.
    fn scan_fields(&self, prefix: &[u8]) -> (r: Result<Vec<(Vec<u8>, Vec<u8>)>, EngineError>)
        ensures
            match r {
                Ok(items) => items_view(items@) == unprefixed(
                    scan(self@.db, prefix@),
                    prefix@.len(),
                ),
                Err(e) => self.failures().contains(e@),
            },
    {
        let items = match self.engine.scan_prefix(prefix).whole() {
            Ok(items) => items,
            Err(e) => return Err(e),
        };
        let ghost found = items_view(items@);
        proof {
            scan_is(self@.db, prefix@, found);
        }
        let mut out: Vec<(Vec<u8>, Vec<u8>)> = Vec::new();
        let mut i: usize = 0;
        while i < items.len()
            invariant
                i <= items@.len(),
                found == items_view(items@),
                is_scan(self@.db, prefix@, found),
                items_view(out@) == unprefixed(found, prefix@.len()).take(i as int),
            decreases items@.len() - i,
        {
            let key = &items[i].0;
            assert(prefix@.is_prefix_of(found[i as int].0));
            let field = slice_to_vec(slice_subrange(key, prefix.len(), key.len()));
            assert(field@ =~= found[i as int].0.skip(prefix@.len() as int));
            let ghost was = items_view(out@);
            let ghost item = (field@, items@[i as int].1@);
            out.push((field, slice_to_vec(&items[i].1)));
            proof {
                let wanted = unprefixed(found, prefix@.len());
                assert(wanted[i as int] == item);
                assert(wanted.take(i + 1) =~= wanted.take(i as int).push(item));
                assert(items_view(out@) =~= was.push(item));
            }
            i += 1;
        }
        assert(unprefixed(found, prefix@.len()).take(i as int) =~= unprefixed(
            found,
            prefix@.len(),
        ));
        Ok(out)
    }

    /// `HGETALL key`: all fields and their values, in the order of the fields.
    pub fn hgetall(&mut self, key: &[u8]) -> (r: Result<Vec<(Vec<u8>, Vec<u8>)>, EngineError>)
        ensures
            final(self).failures() == old(self).failures(),
            final(self).readings() == old(self).readings().push(final(self).last_now()),
            settled(
                r,
                |v: Vec<(Vec<u8>, Vec<u8>)>| items_view(v@),
                old(self)@,
                final(self)@,
                hgetall_op(old(self)@, final(self).last_now(), key@),
                old(self).failures(),
            ),
    {
        self.tick();
        match self.load_typed(key, TYPE_HASH) {
            Ok(Some(meta)) => self.scan_fields(&subkey_prefix(key, meta.version)),
            Ok(None) => {
                let none: Vec<(Vec<u8>, Vec<u8>)> = Vec::new();
                assert(items_view(none@) =~= Seq::empty());
                Ok(none)
            },
            Err(e) => Err(e),
        }
    }

    /// `HDEL key field [field ...]`: how many of the fields were there, which are gone now.
    /// Without its last field the key is gone.
    pub fn hdel(&mut self, key: &[u8], fields: &[Vec<u8>]) -> (r: Result<i64, EngineError>)
        ensures
            final(self).failures() == old(self).failures(),
            final(self).readings() == old(self).readings().push(final(self).last_now()),
            settled_at(
                r,
                |v: i64| v,
                old(self)@,
                final(self).last_now(),
                key@,
                final(self)@,
                remove_op(
                    old(self)@,
                    final(self).last_now(),
                    key@,
                    TYPE_HASH,
                    byte_strings(fields@),
                ),
                old(self).failures(),
            ),
    {
        self.tick();
        self.remove_members(key, TYPE_HASH, fields)
    }

    /// `HLEN key`: how many fields there are.
    pub fn hlen(&mut self, key: &[u8]) -> (r: Result<i64, EngineError>)
        ensures
            final(self).failures() == old(self).failures(),
            final(self).readings() == old(self).readings().push(final(self).last_now()),
            settled(
                r,
                |v: i64| v,
                old(self)@,
                final(self)@,
                count_op(old(self)@, final(self).last_now(), key@, TYPE_HASH),
                old(self).failures(),
            ),
    {
        self.tick();
        self.count_members(key, TYPE_HASH)
    }

    /// `HEXISTS key field`: whether the field is there.
    pub fn hexists(&mut self, key: &[u8], field: &[u8]) -> (r: Result<bool, EngineError>)
        ensures
            final(self).failures() == old(self).failures(),
            final(self).readings() == old(self).readings().push(final(self).last_now()),
            settled(
                r,
                |v: bool| v,
                old(self)@,
                final(self)@,
                has_op(old(self)@, final(self).last_now(), key@, TYPE_HASH, field@),
                old(self).failures(),
            ),
    {
        self.tick();
        self.has_member(key, TYPE_HASH, field)
    }

    // -----------------------------------------------------------------------
    // Sets
    // -----------------------------------------------------------------------
    /// `SADD key member [member ...]`: how many of the members are new. A member that comes more
    /// than once counts once.
    pub fn sadd(&mut self, key: &[u8], members: &[Vec<u8>]) -> (r: Result<i64, EngineError>)
        ensures
            final(self).failures() == old(self).failures(),
            final(self).readings() == old(self).readings().push(final(self).last_now()),
            settled_at(
                r,
                |v: i64| v,
                old(self)@,
                final(self).last_now(),
                key@,
                final(self)@,
                sadd_op(old(self)@, final(self).last_now(), key@, byte_strings(members@)),
                old(self).failures(),
            ),
    {
        self.tick();
        let mut meta = match self.load_typed(key, TYPE_SET) {
            Ok(Some(meta)) => meta,
            Ok(None) => {
                let zero = slice_to_vec(&super::bigend::be_u32(0));
                self.new_composite_meta(key, TYPE_SET, zero)
            },
            Err(e) => return Err(e),
        };
        let ghost db = self@.db;
        let ghost all = byte_strings(members@);
        let ghost version = meta@.version;
        let ghost was = meta@;
        let ghost now = self.last_now();
        let ghost want = sadd_op(old(self)@, now, key@, byte_strings(members@)).0;
        assert(at_a_step(old(self)@, now, key@, self@, want));
        let mut batch = WriteBatch::new();
        let mut seen: Table<()> = Table::new();
        let mut added: u64 = 0;
        let mut i: usize = 0;
        assert(all.take(0) =~= Seq::empty());
        while i < members.len()
            invariant
                i <= members@.len(),
                all == byte_strings(members@),
                version == meta@.version,
                was == meta@,
                db == self@.db,
                at_a_step(old(self)@, now, key@, self@, want),
                self.last_now() == now,
                want == sadd_op(old(self)@, now, key@, byte_strings(members@)).0,
                self.readings() == old(self).readings().push(now),
                self.failures() == old(self).failures(),
                forall|f: Seq<u8>| seen@.contains_key(f) == all.take(i as int).contains(f),
                added <= i,
                added == missing_count(db, key@, version, all.take(i as int)),
                applied_all(db, batch@) == put_members(db, key@, version, all.take(i as int)),
            decreases members@.len() - i,
        {
            let ghost member = all[i as int];
            let ghost before = all.take(i as int);
            let ghost name = sub_name(key@, version, member);
            proof {
                assert(all.take(i + 1).drop_last() =~= before);
                assert(all.take(i + 1).last() == member);
                contains_one_more(before, all.take(i + 1));
            }
            if !seen.contains(&members[i]) {
                let sk = subkey(key, meta.version, &members[i]);
                match self.engine.get(&sk) {
                    Ok(Some(_)) => {},
                    Ok(None) => {
                        let none: Vec<u8> = Vec::new();
                        proof {
                            assert(none@ =~= Seq::empty());
                            applied_one_more(db, batch@, WriteOpView::Put(name, none@));
                        }
                        batch.put(sk, none);
                        added += 1;
                    },
                    Err(e) => return Err(e),
                }
                seen.insert(slice_to_vec(&members[i]), ());
            } else {
                proof {
                    put_members_again(db, key@, version, before, member);
                }
            }
            i += 1;
        }
        assert(all.take(i as int) =~= all);
        if added > 0 {
            let count = grown(meta.field_count(), added);
            meta.set_field_count(count);
            match self.commit(batch, key, &meta) {
                Ok(()) => {},
                Err(e) => return Err(e),
            }
        }
        Ok(added as i64)
    }

    /// `SREM key member [member ...]`: how many of the members were there, which are gone now.
    /// Without its last member the key is gone.
    pub fn srem(&mut self, key: &[u8], members: &[Vec<u8>]) -> (r: Result<i64, EngineError>)
        ensures
            final(self).failures() == old(self).failures(),
            final(self).readings() == old(self).readings().push(final(self).last_now()),
            settled_at(
                r,
                |v: i64| v,
                old(self)@,
                final(self).last_now(),
                key@,
                final(self)@,
                remove_op(
                    old(self)@,
                    final(self).last_now(),
                    key@,
                    TYPE_SET,
                    byte_strings(members@),
                ),
                old(self).failures(),
            ),
    {
        self.tick();
        self.remove_members(key, TYPE_SET, members)
    }

    /// `SISMEMBER key member`: whether the member is there.
    pub fn sismember(&mut self, key: &[u8], member: &[u8]) -> (r: Result<bool, EngineError>)
        ensures
            final(self).failures() == old(self).failures(),
            final(self).readings() == old(self).readings().push(final(self).last_now()),
            settled(
                r,
                |v: bool| v,
                old(self)@,
                final(self)@,
                has_op(old(self)@, final(self).last_now(), key@, TYPE_SET, member@),
                old(self).failures(),
            ),
    {
        self.tick();
        self.has_member(key, TYPE_SET, member)
    }

    /// `SMEMBERS key`: all members, in order.
    pub fn smembers(&mut self, key: &[u8]) -> (r: Result<Vec<Vec<u8>>, EngineError>)
        ensures
            final(self).failures() == old(self).failures(),
            final(self).readings() == old(self).readings().push(final(self).last_now()),
            settled(
                r,
                |v: Vec<Vec<u8>>| byte_strings(v@),
                old(self)@,
                final(self)@,
                smembers_op(old(self)@, final(self).last_now(), key@),
                old(self).failures(),
            ),
    {
        self.tick();
        let mut out: Vec<Vec<u8>> = Vec::new();
        assert(byte_strings(out@) =~= Seq::empty());
        let meta = match self.load_typed(key, TYPE_SET) {
            Ok(Some(meta)) => meta,
            Ok(None) => return Ok(out),
            Err(e) => return Err(e),
        };
        let items = match self.scan_fields(&subkey_prefix(key, meta.version)) {
            Ok(items) => items,
            Err(e) => return Err(e),
        };
        let ghost wanted = firsts(items_view(items@));
        let mut i: usize = 0;
        assert(wanted.take(0) =~= Seq::empty());
        while i < items.len()
            invariant
                i <= items@.len(),
                wanted == firsts(items_view(items@)),
                byte_strings(out@) == wanted.take(i as int),
            decreases items@.len() - i,
        {
            let ghost was = byte_strings(out@);
            out.push(slice_to_vec(&items[i].0));
            proof {
                assert(wanted[i as int] == items@[i as int].0@);
                assert(wanted.take(i + 1) =~= wanted.take(i as int).push(wanted[i as int]));
                assert(byte_strings(out@) =~= was.push(wanted[i as int]));
            }
            i += 1;
        }
        assert(wanted.take(i as int) =~= wanted);
        Ok(out)
    }

    /// `SCARD key`: how many members there are.
    pub fn scard(&mut self, key: &[u8]) -> (r: Result<i64, EngineError>)
        ensures
            final(self).failures() == old(self).failures(),
            final(self).readings() == old(self).readings().push(final(self).last_now()),
            settled(
                r,
                |v: i64| v,
                old(self)@,
                final(self)@,
                count_op(old(self)@, final(self).last_now(), key@, TYPE_SET),
                old(self).failures(),
            ),
    {
        self.tick();
        self.count_members(key, TYPE_SET)
    }

    // -----------------------------------------------------------------------
    // Sorted sets
    // -----------------------------------------------------------------------
    /// `ZADD key score member [score member ...]`, each score given by the bits of a double: how
    /// many of the members are new. A member that comes more than once counts once and has the
    /// last score given.
    pub fn zadd(&mut self, key: &[u8], pairs: &[(u64, Vec<u8>)]) -> (r: Result<i64, EngineError>)
        ensures
            final(self).failures() == old(self).failures(),
            final(self).readings() == old(self).readings().push(final(self).last_now()),
            settled_at(
                r,
                |v: i64| v,
                old(self)@,
                final(self).last_now(),
                key@,
                final(self)@,
                zadd_op(old(self)@, final(self).last_now(), key@, score_pairs(pairs@)),
                old(self).failures(),
            ),
    {
        self.tick();
        let mut meta = match self.load_typed(key, TYPE_ZSET) {
            Ok(Some(meta)) => meta,
            Ok(None) => {
                let zero = slice_to_vec(&super::bigend::be_u32(0));
                self.new_composite_meta(key, TYPE_ZSET, zero)
            },
            Err(e) => return Err(e),
        };
        let effective = keep_last_scores(pairs);
        let ghost db = self@.db;
        let ghost list = member_scores(effective@);
        let ghost names = members_of(list);
        let ghost version = meta@.version;
        let ghost was = meta@;
        let ghost now = self.last_now();
        let ghost want = zadd_op(old(self)@, now, key@, score_pairs(pairs@)).0;
        assert(at_a_step(old(self)@, now, key@, self@, want));
        let mut batch = WriteBatch::new();
        let mut added: u64 = 0;
        let mut i: usize = 0;
        proof {
            last_scores_distinct(score_pairs(pairs@));
            assert(list.take(0) =~= Seq::empty());
            assert(names.take(0) =~= Seq::empty());
        }
        while i < effective.len()
            invariant
                i <= effective@.len(),
                list == member_scores(effective@),
                list == last_scores(score_pairs(pairs@)),
                names == members_of(list),
                distinct_members(list),
                version == meta@.version,
                was == meta@,
                db == self@.db,
                at_a_step(old(self)@, now, key@, self@, want),
                self.last_now() == now,
                want == zadd_op(old(self)@, now, key@, score_pairs(pairs@)).0,
                self.readings() == old(self).readings().push(now),
                self.failures() == old(self).failures(),
                added <= i,
                added == missing_count(db, key@, version, names.take(i as int)),
                added > 0 ==> batch@.len() > 0,
                bad_score(db, key@, version, names) ==> zadd_op(
                    old(self)@,
                    now,
                    key@,
                    score_pairs(pairs@),
                ) == (self@, corrupt::<i64>("undecodable zset member score"@)),
                !bad_score(db, key@, version, names.take(i as int)),
                (batch@.len() > 0) == any_change(db, key@, version, list.take(i as int)),
                applied_all(db, batch@) == put_scores(db, key@, version, list.take(i as int)),
            decreases effective@.len() - i,
        {
            let ghost member = list[i as int].0;
            let ghost score = list[i as int].1;
            let ghost name = sub_name(key@, version, member);
            proof {
                assert(list.take(i + 1).drop_last() =~= list.take(i as int));
                assert(list.take(i + 1).last() == list[i as int]);
                assert(names.take(i + 1).drop_last() =~= names.take(i as int));
                assert(names.take(i + 1).last() == member);
                assert(names[i as int] == member);
                if names.take(i as int).contains(member) {
                    let j = choose|j: int|
                        0 <= j < names.take(i as int).len() && names.take(i as int)[j] == member;
                    assert(list[j].0 == list[i as int].0);
                }
                bad_score_one_more(db, key@, version, names, i as int);
                any_change_one_more(db, key@, version, list, i as int);
            }
            let sk = subkey(key, meta.version, &effective[i].0);
            let found = match self.engine.get(&sk) {
                Ok(found) => found,
                Err(e) => return Err(e),
            };
            let mut changes = true;
            match found {
                Some(raw) => {
                    if raw.len() != 8 {
                        proof {
                            bad_score_stays(db, key@, version, names, i + 1);
                        }
                        return Err(EngineError::corruption("undecodable zset member score"));
                    }
                    assert(raw@.take(8) =~= raw@);
                    let old_score = decode_score(eight(&raw));
                    if encoding::same(old_score, effective[i].1) {
                        changes = false;
                    } else {
                        let ghost index = encoding::index_name(key@, version, old_score, member);
                        proof {
                            applied_one_more(db, batch@, WriteOpView::Delete(index));
                        }
                        batch.delete(zscore_key(key, meta.version, old_score, &effective[i].0));
                    }
                },
                None => {
                    added += 1;
                },
            }
            if changes {
                let bytes = slice_to_vec(&encode_score(effective[i].1));
                let none: Vec<u8> = Vec::new();
                proof {
                    assert(none@ =~= Seq::empty());
                    applied_one_more(db, batch@, WriteOpView::Put(name, bytes@));
                    applied_one_more(
                        db,
                        batch@.push(WriteOpView::Put(name, bytes@)),
                        WriteOpView::Put(
                            encoding::index_name(key@, version, score, member),
                            none@,
                        ),
                    );
                }
                batch.put(sk, bytes);
                batch.put(
                    zscore_key(key, meta.version, effective[i].1, &effective[i].0),
                    none,
                );
            }
            i += 1;
        }
        assert(list.take(i as int) =~= list);
        assert(names.take(i as int) =~= names);
        if !batch.is_empty() {
            let count = grown(meta.field_count(), added);
            meta.set_field_count(count);
            match self.commit(batch, key, &meta) {
                Ok(()) => {},
                Err(e) => return Err(e),
            }
        }
        Ok(added as i64)
    }

    /// `ZSCORE key member`: the bits of the member's score.
    pub fn zscore(&mut self, key: &[u8], member: &[u8]) -> (r: Result<Option<u64>, EngineError>)
        ensures
            final(self).failures() == old(self).failures(),
            final(self).readings() == old(self).readings().push(final(self).last_now()),
            settled(
                r,
                |v: Option<u64>| v,
                old(self)@,
                final(self)@,
                zscore_op(old(self)@, final(self).last_now(), key@, member@),
                old(self).failures(),
            ),
    {
        self.tick();
        let meta = match self.load_typed(key, TYPE_ZSET) {
            Ok(Some(meta)) => meta,
            Ok(None) => return Ok(None),
            Err(e) => return Err(e),
        };
        match self.engine.get(&subkey(key, meta.version, member)) {
            Ok(Some(raw)) => {
                if raw.len() != 8 {
                    return Err(EngineError::corruption("undecodable zset member score"));
                }
                assert(raw@.take(8) =~= raw@);
                Ok(Some(decode_score(eight(&raw))))
            },
            Ok(None) => Ok(None),
            Err(e) => Err(e),
        }
    }

    /// `ZREM key member [member ...]`: how many of the members were there, which are gone now.
    /// Without its last member the key is gone.
    pub fn zrem(&mut self, key: &[u8], members: &[Vec<u8>]) -> (r: Result<i64, EngineError>)
        ensures
            final(self).failures() == old(self).failures(),
            final(self).readings() == old(self).readings().push(final(self).last_now()),
            settled_at(
                r,
                |v: i64| v,
                old(self)@,
                final(self).last_now(),
                key@,
                final(self)@,
                zrem_op(old(self)@, final(self).last_now(), key@, byte_strings(members@)),
                old(self).failures(),
            ),
    {
        self.tick();
        let meta = match self.load_typed(key, TYPE_ZSET) {
            Ok(Some(meta)) => meta,
            Ok(None) => return Ok(0),
            Err(e) => return Err(e),
        };
        let ghost db = self@.db;
        let ghost all = byte_strings(members@);
        let ghost version = meta@.version;
        let ghost now = self.last_now();
        let mut batch = WriteBatch::new();
        let mut seen: Table<()> = Table::new();
        let mut removed: u64 = 0;
        let mut i: usize = 0;
        assert(all.take(0) =~= Seq::empty());
        while i < members.len()
            invariant
                i <= members@.len(),
                all == byte_strings(members@),
                version == meta@.version,
                db == self@.db,
                self@ == old(self)@,
                self.last_now() == now,
                self.readings() == old(self).readings().push(now),
                self.failures() == old(self).failures(),
                forall|f: Seq<u8>| seen@.contains_key(f) == all.take(i as int).contains(f),
                removed <= i,
                removed == present_count(db, key@, version, all.take(i as int)),
                bad_score(db, key@, version, all) ==> zrem_op(old(self)@, now, key@, all) == (
                    self@,
                    corrupt::<i64>("undecodable zset member score"@),
                ),
                !bad_score(db, key@, version, all.take(i as int)),
                applied_all(db, batch@) == drop_scores(db, key@, version, all.take(i as int)),
            decreases members@.len() - i,
        {
            let ghost member = all[i as int];
            let ghost before = all.take(i as int);
            let ghost name = sub_name(key@, version, member);
            proof {
                assert(all.take(i + 1).drop_last() =~= before);
                assert(all.take(i + 1).last() == member);
                contains_one_more(before, all.take(i + 1));
                bad_score_one_more(db, key@, version, all, i as int);
            }
            if !seen.contains(&members[i]) {
                let sk = subkey(key, meta.version, &members[i]);
                match self.engine.get(&sk) {
                    Ok(Some(raw)) => {
                        if raw.len() != 8 {
                            proof {
                                bad_score_stays(db, key@, version, all, i + 1);
                            }
                            return Err(EngineError::corruption("undecodable zset member score"));
                        }
                        assert(raw@.take(8) =~= raw@);
                        let score = decode_score(eight(&raw));
                        let ghost index = encoding::index_name(key@, version, score, member);
                        proof {
                            applied_one_more(db, batch@, WriteOpView::Delete(name));
                            applied_one_more(
                                db,
                                batch@.push(WriteOpView::Delete(name)),
                                WriteOpView::Delete(index),
                            );
                        }
                        batch.delete(sk);
                        batch.delete(zscore_key(key, meta.version, score, &members[i]));
                        removed += 1;
                    },
                    Ok(None) => {},
                    Err(e) => return Err(e),
                }
                seen.insert(slice_to_vec(&members[i]), ());
            } else {
                proof {
                    bad_score_seen(db, key@, version, before, member);
                    drop_scores_again(db, key@, version, before, member);
                }
            }
            i += 1;
        }
        assert(all.take(i as int) =~= all);
        proof {
            metadata_after_scores(db, key@, version, all);
            metadata_put_back(db, drop_scores(db, key@, version, all), key@);
        }
        match self.finish_removal(key, meta, batch, removed) {
            Ok(()) => Ok(removed as i64),
            Err(e) => Err(e),
        }
    }

    /// `ZCARD key`: how many members there are.
    pub fn zcard(&mut self, key: &[u8]) -> (r: Result<i64, EngineError>)
        ensures
            final(self).failures() == old(self).failures(),
            final(self).readings() == old(self).readings().push(final(self).last_now()),
            settled(
                r,
                |v: i64| v,
                old(self)@,
                final(self)@,
                count_op(old(self)@, final(self).last_now(), key@, TYPE_ZSET),
                old(self).failures(),
            ),
    {
        self.tick();
        self.count_members(key, TYPE_ZSET)
    }

    /// `ZRANGE key start stop`: the members of the given ranks, both ends included and negative
    /// ones counted from the end, with the bits of their scores, in the order of score and member.
    pub fn zrange(&mut self, key: &[u8], start: i64, stop: i64) -> (r: Result<
        Vec<(Vec<u8>, u64)>,
        EngineError,
    >)
        ensures
            final(self).failures() == old(self).failures(),
            final(self).readings() == old(self).readings().push(final(self).last_now()),
            settled(
                r,
                |v: Vec<(Vec<u8>, u64)>| member_scores(v@),
                old(self)@,
                final(self)@,
                zrange_op(old(self)@, final(self).last_now(), key@, start, stop),
                old(self).failures(),
            ),
    {
        self.tick();
        let mut out: Vec<(Vec<u8>, u64)> = Vec::new();
        assert(member_scores(out@) =~= Seq::empty());
        let meta = match self.load_typed(key, TYPE_ZSET) {
            Ok(Some(meta)) => meta,
            Ok(None) => return Ok(out),
            Err(e) => return Err(e),
        };
        let (lo, hi): (u64, u64) = match normalize_range(start, stop, meta.field_count() as i64) {
            Some(range) => range,
            None => return Ok(out),
        };
        let prefix = zscore_prefix(key, meta.version);
        let scanned = self.engine.scan_prefix(&prefix);
        let items = scanned.items;
        let ghost found = scan(self@.db, prefix@);
        let ghost chosen = ranked(found, lo as int, hi as int);
        let ghost now = self.last_now();
        proof {
            self.engine.finite_records();
            scan_exists(self@.db, prefix@);
            if scanned.failure is None {
                scan_is(self@.db, prefix@, items_view(items@));
                assert(items_view(items@) =~= found.take(items@.len() as int));
            }
            assert(chosen.take(0) =~= Seq::empty());
        }
        let mut i: usize = 0;
        while lo + i as u64 <= hi && lo + (i as u64) < items.len() as u64
            invariant
                lo <= hi < 0x8000_0000_0000_0000,
                i <= chosen.len(),
                chosen.len() <= found.len(),
                lo + i <= hi + 1,
                items@.len() <= found.len(),
                items_view(items@) == found.take(items@.len() as int),
                is_scan(self@.db, prefix@, found),
                chosen == ranked(found, lo as int, hi as int),
                index_items(chosen, prefix@.len()) == zrange_op(
                    old(self)@,
                    now,
                    key@,
                    start,
                    stop,
                ).1,
                self@ == zrange_op(old(self)@, now, key@, start, stop).0,
                self.last_now() == now,
                self.readings() == old(self).readings().push(now),
                self.failures() == old(self).failures(),
                index_items(chosen.take(i as int), prefix@.len()) == Ok::<
                    Seq<(Seq<u8>, u64)>,
                    EngineErrorView,
                >(member_scores(out@)),
            decreases items@.len() - i,
        {
            let at: usize = (lo + i as u64) as usize;
            let ghost was = member_scores(out@);
            proof {
                assert(items_view(items@)[at as int] == found[at as int]);
                assert(chosen[i as int] == found[at as int]);
                assert(chosen.take(i + 1).drop_last() =~= chosen.take(i as int));
                assert(chosen.take(i + 1).last() == found[at as int]);
                assert(prefix@.is_prefix_of(found[at as int].0));
            }
            let raw = &items[at].0;
            let suffix = slice_subrange(raw, prefix.len(), raw.len());
            assert(suffix@ =~= found[at as int].0.skip(prefix@.len() as int));
            match split_score_suffix(suffix) {
                Some((score, member)) => {
                    out.push((slice_to_vec(member), score));
                    assert(member_scores(out@) =~= was.push((member@, score)));
                },
                None => {
                    proof {
                        index_items_stuck(chosen, prefix@.len(), i + 1);
                    }
                    return Err(EngineError::corruption("undecodable zset score index"));
                },
            }
            i += 1;
        }
        // The record behind the last one that is wanted is read as well.
        if items.len() as u64 <= hi + 1 {
            if let Some(e) = scanned.failure {
                return Err(e);
            }
        }
        assert(chosen.take(i as int) =~= chosen);
        Ok(out)
    }

    /// `ZRANGEBYSCORE key min max`, the bounds given by the bits of doubles and excluded on
    /// request: the members with scores between them, with the bits of their scores, in the order
    /// of score and member.
    pub fn zrange_by_score(
        &mut self,
        key: &[u8],
        min: u64,
        min_exclusive: bool,
        max: u64,
        max_exclusive: bool,
    ) -> (r: Result<Vec<(Vec<u8>, u64)>, EngineError>)
        ensures
            final(self).failures() == old(self).failures(),
            final(self).readings() == old(self).readings().push(final(self).last_now()),
            settled(
                r,
                |v: Vec<(Vec<u8>, u64)>| member_scores(v@),
                old(self)@,
                final(self)@,
                zrange_by_score_op(
                    old(self)@,
                    final(self).last_now(),
                    key@,
                    (ScoreRange { min, min_exclusive, max, max_exclusive }),
                ),
                old(self).failures(),
            ),
    {
        self.tick();
        let mut out: Vec<(Vec<u8>, u64)> = Vec::new();
        assert(member_scores(out@) =~= Seq::empty());
        let meta = match self.load_typed(key, TYPE_ZSET) {
            Ok(Some(meta)) => meta,
            Ok(None) => return Ok(out),
            Err(e) => return Err(e),
        };
        let prefix = zscore_prefix(key, meta.version);
        let scanned = self.engine.scan_prefix(&prefix);
        let items = scanned.items;
        let ghost range = ScoreRange { min, min_exclusive, max, max_exclusive };
        let ghost found = scan(self@.db, prefix@);
        let ghost n = prefix@.len();
        let ghost now = self.last_now();
        proof {
            self.engine.finite_records();
            scan_exists(self@.db, prefix@);
            if scanned.failure is None {
                scan_is(self@.db, prefix@, items_view(items@));
                assert(items_view(items@) =~= found.take(items@.len() as int));
            }
            assert(found.skip(0) =~= found);
            if let Ok(list) = scores_within(found, n, range) {
                assert(member_scores(out@) + list =~= list);
            }
        }
        let mut i: usize = 0;
        while i < items.len()
            invariant
                i <= items@.len(),
                items@.len() <= found.len(),
                items_view(items@) == found.take(items@.len() as int),
                n == prefix@.len(),
                is_scan(self@.db, prefix@, found),
                range == (ScoreRange { min, min_exclusive, max, max_exclusive }),
                self@ == zrange_by_score_op(old(self)@, now, key@, range).0,
                scores_within(found, n, range) == zrange_by_score_op(
                    old(self)@,
                    now,
                    key@,
                    range,
                ).1,
                self.last_now() == now,
                self.readings() == old(self).readings().push(now),
                self.failures() == old(self).failures(),
                scores_behind(
                    member_scores(out@),
                    scores_within(found.skip(i as int), n, range),
                ) == scores_within(found, n, range),
            decreases items@.len() - i,
        {
            let ghost rest = found.skip(i as int);
            let ghost was = member_scores(out@);
            proof {
                assert(items_view(items@)[i as int] == found[i as int]);
                assert(rest[0] == found[i as int]);
                assert(rest.skip(1) =~= found.skip(i + 1));
                assert(prefix@.is_prefix_of(found[i as int].0));
                assert(was + Seq::<(Seq<u8>, u64)>::empty() =~= was);
            }
            let raw = &items[i].0;
            let suffix = slice_subrange(raw, prefix.len(), raw.len());
            assert(suffix@ =~= found[i as int].0.skip(n as int));
            let (score, member): (u64, &[u8]) = match split_score_suffix(suffix) {
                Some(pair) => pair,
                None => return Err(EngineError::corruption("undecodable zset score index")),
            };
            if encoding::less(max, score) || (max_exclusive && encoding::same(score, max)) {
                // The records come in the order of the scores: nothing further can be in range.
                return Ok(out);
            }
            if !(encoding::less(score, min) || (min_exclusive && encoding::same(score, min))) {
                out.push((slice_to_vec(member), score));
                proof {
                    assert(member_scores(out@) =~= was.push((member@, score)));
                    if let Ok(list) = scores_within(found.skip(i + 1), n, range) {
                        assert(was + (seq![(member@, score)] + list) =~= member_scores(out@)
                            + list);
                    }
                }
            }
            i += 1;
        }
        if let Some(e) = scanned.failure {
            return Err(e);
        }
        assert(found.skip(i as int) =~= Seq::empty());
        assert(member_scores(out@) + Seq::<(Seq<u8>, u64)>::empty() =~= member_scores(out@));
        Ok(out)
    }

    // -----------------------------------------------------------------------
    // Lists
    // -----------------------------------------------------------------------
    /// `LPUSH key value [value ...]` (`left`) and `RPUSH`: puts the values at that end, one after
    /// another; how many elements there are then.
    pub fn push(&mut self, key: &[u8], values: &[Vec<u8>], left: bool) -> (r: Result<
        i64,
        EngineError,
    >)
        ensures
            final(self).failures() == old(self).failures(),
            final(self).readings() == old(self).readings().push(final(self).last_now()),
            settled_at(
                r,
                |v: i64| v,
                old(self)@,
                final(self).last_now(),
                key@,
                final(self)@,
                push_op(old(self)@, final(self).last_now(), key@, byte_strings(values@), left),
                old(self).failures(),
            ),
    {
        self.tick();
        let mut meta = match self.load_typed(key, TYPE_LIST) {
            Ok(Some(meta)) => meta,
            Ok(None) => {
                let bounds = initial_bounds();
                self.new_composite_meta(key, TYPE_LIST, bounds)
            },
            Err(e) => return Err(e),
        };
        let (head, tail): (u64, u64) = match read_bounds(&meta) {
            Some(bounds) => bounds,
            None => return Err(EngineError::corruption("undecodable list bounds")),
        };
        let n: u64 = values.len() as u64;
        if (left && head < n) || (!left && u64::MAX - tail < n) {
            return Err(EngineError::corruption("undecodable list bounds"));
        }
        let ghost db = self@.db;
        let ghost all = byte_strings(values@);
        let ghost version = meta@.version;
        let ghost was = meta@;
        let ghost now = self.last_now();
        let mut batch = WriteBatch::new();
        let mut i: usize = 0;
        assert(all.take(0) =~= Seq::empty());
        while i < values.len()
            invariant
                i <= values@.len(),
                n == values@.len(),
                left ==> head >= n,
                !left ==> tail + n <= u64::MAX,
                all == byte_strings(values@),
                version == meta@.version,
                left ==> applied_all(db, batch@) == put_left(
                    db,
                    key@,
                    version,
                    head as int,
                    all.take(i as int),
                ),
                !left ==> applied_all(db, batch@) == put_right(
                    db,
                    key@,
                    version,
                    tail as int,
                    all.take(i as int),
                ),
            decreases values@.len() - i,
        {
            let index: u64 = if left {
                head - 1 - i as u64
            } else {
                tail + i as u64
            };
            proof {
                assert(all.take(i + 1).drop_last() =~= all.take(i as int));
                assert(all.take(i + 1).last() == values@[i as int]@);
                applied_one_more(
                    db,
                    batch@,
                    WriteOpView::Put(element_name(key@, version, index as int), values@[i as int]@),
                );
            }
            let sk = subkey(key, meta.version, &encoding::list_index_field(index));
            batch.put(sk, slice_to_vec(&values[i]));
            i += 1;
        }
        assert(all.take(i as int) =~= all);
        let (head, tail): (u64, u64) = if left {
            (head - n, tail)
        } else {
            (head, tail + n)
        };
        meta.set_list_bounds(head, tail);
        match self.commit(batch, key, &meta) {
            Ok(()) => Ok((tail - head) as i64),
            Err(e) => Err(e),
        }
    }

    /// `LPOP key [count]` (`left`) and `RPOP`: takes up to `count` elements off that end, the
    /// outermost first. Without its last element the key is gone.
    pub fn pop(&mut self, key: &[u8], count: usize, left: bool) -> (r: Result<
        Vec<Vec<u8>>,
        EngineError,
    >)
        ensures
            final(self).failures() == old(self).failures(),
            final(self).readings() == old(self).readings().push(final(self).last_now()),
            settled_at(
                r,
                |v: Vec<Vec<u8>>| byte_strings(v@),
                old(self)@,
                final(self).last_now(),
                key@,
                final(self)@,
                pop_op(old(self)@, final(self).last_now(), key@, count, left),
                old(self).failures(),
            ),
    {
        self.tick();
        let mut out: Vec<Vec<u8>> = Vec::new();
        assert(byte_strings(out@) =~= Seq::empty());
        let meta = match self.load_typed(key, TYPE_LIST) {
            Ok(Some(meta)) => meta,
            Ok(None) => return Ok(out),
            Err(e) => return Err(e),
        };
        let (head, tail): (u64, u64) = match read_bounds(&meta) {
            Some(bounds) => bounds,
            None => return Err(EngineError::corruption("undecodable list bounds")),
        };
        let n: u64 = if (count as u64) < tail - head {
            count as u64
        } else {
            tail - head
        };
        let ghost db = self@.db;
        let ghost version = meta@.version;
        let ghost s0 = self@;
        let ghost was = meta@;
        let ghost now = self.last_now();
        let mut batch = WriteBatch::new();
        let mut i: u64 = 0;
        while i < n
            invariant
                i <= n <= tail - head,
                head <= tail,
                version == meta@.version,
                s0 == self@,
                db == s0.db,
                self@ == old(self)@,
                self.last_now() == now,
                self.readings() == old(self).readings().push(now),
                self.failures() == old(self).failures(),
                end_elements(db, key@, version, head, tail, left, n as nat) is Err ==> pop_op(
                    old(self)@,
                    now,
                    key@,
                    count,
                    left,
                ) == (
                    s0,
                    end_elements(db, key@, version, head, tail, left, n as nat),
                ),
                end_elements(db, key@, version, head, tail, left, i as nat) == Ok::<
                    Seq<Seq<u8>>,
                    EngineErrorView,
                >(byte_strings(out@)),
                applied_all(db, batch@) == drop_elements(
                    db,
                    key@,
                    version,
                    head,
                    tail,
                    left,
                    i as nat,
                ),
            decreases n - i,
        {
            let index: u64 = if left {
                head + i
            } else {
                tail - 1 - i
            };
            let ghost name = element_name(key@, version, index as int);
            let ghost before = byte_strings(out@);
            let sk = subkey(key, meta.version, &encoding::list_index_field(index));
            match self.engine.get(&sk) {
                Ok(Some(value)) => {
                    proof {
                        applied_one_more(db, batch@, WriteOpView::Delete(name));
                    }
                    batch.delete(sk);
                    let ghost bytes = value@;
                    out.push(value);
                    assert(byte_strings(out@) =~= before.push(bytes));
                },
                Ok(None) => {
                    proof {
                        end_elements_stuck(
                            db,
                            key@,
                            version,
                            head,
                            tail,
                            left,
                            (i + 1) as nat,
                            n as nat,
                        );
                    }
                    return Err(EngineError::corruption("missing list element record"));
                },
                Err(e) => return Err(e),
            }
            i += 1;
        }
        if n > 0 {
            if n == tail - head {
                proof {
                    let db1 = drop_elements(db, key@, version, head, tail, left, n as nat);
                    metadata_after_elements(db, key@, version, head, tail, left, n as nat);
                    metadata_put_back(db, db1, key@);
                }
                match self.engine.write(batch) {
                    Ok(()) => {},
                    Err(e) => return Err(e),
                }
                match self.logical_delete(key) {
                    Ok(()) => {},
                    Err(e) => return Err(e),
                }
            } else {
                let mut meta = meta;
                if left {
                    meta.set_list_bounds(head + n, tail);
                } else {
                    meta.set_list_bounds(head, tail - n);
                }
                match self.commit(batch, key, &meta) {
                    Ok(()) => {},
                    Err(e) => return Err(e),
                }
            }
        }
        Ok(out)
    }

    /// `LRANGE key start stop`: the elements of the given ranks, both ends included and negative
    /// ones counted from the end.
    pub fn lrange(&mut self, key: &[u8], start: i64, stop: i64) -> (r: Result<
        Vec<Vec<u8>>,
        EngineError,
    >)
        ensures
            final(self).failures() == old(self).failures(),
            final(self).readings() == old(self).readings().push(final(self).last_now()),
            settled(
                r,
                |v: Vec<Vec<u8>>| byte_strings(v@),
                old(self)@,
                final(self)@,
                lrange_op(old(self)@, final(self).last_now(), key@, start, stop),
                old(self).failures(),
            ),
    {
        self.tick();
        let mut out: Vec<Vec<u8>> = Vec::new();
        assert(byte_strings(out@) =~= Seq::empty());
        let meta = match self.load_typed(key, TYPE_LIST) {
            Ok(Some(meta)) => meta,
            Ok(None) => return Ok(out),
            Err(e) => return Err(e),
        };
        let (head, tail): (u64, u64) = match read_bounds(&meta) {
            Some(bounds) => bounds,
            None => return Err(EngineError::corruption("undecodable list bounds")),
        };
        let len: i64 = (tail - head) as i64;
        let (lo, hi): (u64, u64) = match normalize_range(start, stop, len) {
            Some(range) => range,
            None => return Ok(out),
        };
        proof {
            let width: u64 = (tail - head) as u64;
            assert(width as i64 > 0 ==> width as i64 == width) by (bit_vector);
        }
        let ghost version = meta@.version;
        let ghost s0 = self@;
        let ghost from = head + lo;
        let ghost to = head + hi + 1;
        let ghost now = self.last_now();
        let mut offset: u64 = lo;
        while offset <= hi
            invariant
                lo <= offset <= hi + 1,
                head + hi < tail,
                from == head + lo,
                to == head + hi + 1,
                version == meta@.version,
                s0 == self@,
                s0 == old(self)@,
                self.last_now() == now,
                self.readings() == old(self).readings().push(now),
                self.failures() == old(self).failures(),
                lrange_op(old(self)@, now, key@, start, stop) == (
                    s0,
                    elements(s0.db, key@, version, from, to),
                ),
                elements(s0.db, key@, version, from, head + offset) == Ok::<
                    Seq<Seq<u8>>,
                    EngineErrorView,
                >(byte_strings(out@)),
            decreases hi + 1 - offset,
        {
            let index: u64 = head + offset;
            let ghost before = byte_strings(out@);
            let sk = subkey(key, meta.version, &encoding::list_index_field(index));
            match self.engine.get(&sk) {
                Ok(Some(value)) => {
                    let ghost bytes = value@;
                    out.push(value);
                    assert(byte_strings(out@) =~= before.push(bytes));
                },
                Ok(None) => {
                    proof {
                        elements_stuck(s0.db, key@, version, from, index + 1, to);
                    }
                    return Err(EngineError::corruption("missing list element record"));
                },
                Err(e) => return Err(e),
            }
            offset += 1;
        }
        Ok(out)
    }

    /// `LLEN key`: how many elements there are.
    pub fn llen(&mut self, key: &[u8]) -> (r: Result<i64, EngineError>)
        ensures
            final(self).failures() == old(self).failures(),
            final(self).readings() == old(self).readings().push(final(self).last_now()),
            settled(
                r,
                |v: i64| v,
                old(self)@,
                final(self)@,
                llen_op(old(self)@, final(self).last_now(), key@),
                old(self).failures(),
            ),
    {
        self.tick();
        match self.load_typed(key, TYPE_LIST) {
            Ok(Some(meta)) => match read_bounds(&meta) {
                Some((head, tail)) => Ok((tail - head) as i64),
                None => Ok(0),
            },
            Ok(None) => Ok(0),
            Err(e) => Err(e),
        }
    }

    // -----------------------------------------------------------------------
    // All records
    // -----------------------------------------------------------------------
    /// How many records have keys that start with the given byte.
    fn count_family(&self, family: u8) -> (r: Result<usize, EngineError>)
        ensures
            match r {
                Ok(n) => n == scan(self@.db, seq![family]).len(),
                Err(e) => self.failures().contains(e@),
            },
    {
        let prefix: [u8; 1] = [family];
        assert(prefix@ =~= seq![family]);
        match self.engine.scan_prefix(&prefix).whole() {
            Ok(items) => {
                proof {
                    scan_is(self@.db, prefix@, items_view(items@));
                }
                Ok(items.len())
            },
            Err(e) => Err(e),
        }
    }

    /// `DBSIZE`: how many metadata records there are.
    pub fn dbsize(&self) -> (r: Result<i64, EngineError>)
        ensures
            settled(
                r,
                |v: i64| v,
                self@,
                self@,
                dbsize_op(self@),
                self.failures(),
            ),
    {
        match self.count_family(META_PREFIX) {
            Ok(n) => Ok(n as i64),
            Err(e) => Err(e),
        }
    }

    /// `RAWCOUNT`: how many records of members there are, garbage included.
    pub fn raw_subkey_count(&self) -> (r: Result<i64, EngineError>)
        ensures
            settled(
                r,
                |v: i64| v,
                self@,
                self@,
                rawcount_op(self@),
                self.failures(),
            ),
    {
        let subkeys = match self.count_family(SUBKEY_PREFIX) {
            Ok(n) => n,
            Err(e) => return Err(e),
        };
        let scores = match self.count_family(ZSCORE_PREFIX) {
            Ok(n) => n,
            Err(e) => return Err(e),
        };
        let total: u128 = subkeys as u128 + scores as u128;
        Ok(total as i64)
    }

    /// `COMPACT`: reclaims the garbage. Where it fails, some of the garbage may be gone.
    pub fn compact(&mut self) -> (r: Result<(), EngineError>)
        ensures
            final(self).failures() == old(self).failures(),
            final(self).readings() == old(self).readings(),
            final(self)@.versions == old(self)@.versions,
            final(self)@.clock == old(self)@.clock,
            match r {
                Ok(()) => final(self)@ == compact_op(old(self)@).0,
                Err(e) => old(self).failures().contains(e@) && thinned(
                    old(self)@.db,
                    final(self)@.db,
                    Some(old(self)@.versions),
                ),
            },
    {
        // Without a predicate the engine would keep everything, though no version is current.
        if !self.engine.has_gc() {
            self.engine.install_gc(VersionMap::new());
        }
        let r = self.engine.compact_range(Some(Range::default()));
        proof {
            if r is Ok {
                assert(self@.db =~= compact_op(old(self)@).0.db);
            }
        }
        r
    }

    /// Adds deletions of all records whose keys start with the given byte.
    fn doom_family(&self, family: u8, batch: &mut WriteBatch) -> (r: Result<(), EngineError>)
        requires
            forall|k: Seq<u8>| #[trigger] applied_all(self@.db, old(batch)@).contains_key(k)
                ==> self@.db.contains_key(k) && applied_all(self@.db, old(batch)@)[k] == self@.db[k],
        ensures
            r matches Err(e) ==> self.failures().contains(e@),
            r is Ok ==> forall|k: Seq<u8>| #[trigger] applied_all(
                self@.db,
                final(batch)@,
            ).contains_key(k) == (applied_all(self@.db, old(batch)@).contains_key(k) && !(k.len() > 0
                && k[0] == family)),
            r is Ok ==> forall|k: Seq<u8>| #[trigger] applied_all(
                self@.db,
                final(batch)@,
            ).contains_key(k) ==> self@.db.contains_key(k) && applied_all(self@.db, final(batch)@)[k] == self@.db[k],
    {
        let ghost db = self@.db;
        let prefix: [u8; 1] = [family];
        assert(prefix@ =~= seq![family]);
        let items = match self.engine.scan_prefix(&prefix).whole() {
            Ok(items) => items,
            Err(e) => return Err(e),
        };
        let ghost found = items_view(items@);
        let ghost before = applied_all(db, batch@);
        let mut i: usize = 0;
        while i < items.len()
            invariant
                i <= items@.len(),
                db == self@.db,
                found == items_view(items@),
                before == applied_all(db, old(batch)@),
                forall|k: Seq<u8>| #[trigger] before.contains_key(k) ==> db.contains_key(k)
                    && before[k] == db[k],
                forall|k: Seq<u8>| #[trigger] applied_all(db, batch@).contains_key(k) == (
                before.contains_key(k) && !(exists|j: int|
                    0 <= j < i && (#[trigger] found[j]).0 == k)),
                forall|k: Seq<u8>| #[trigger] applied_all(db, batch@).contains_key(k)
                    ==> db.contains_key(k) && applied_all(db, batch@)[k] == db[k],
            decreases items@.len() - i,
        {
            let ghost key = found[i as int].0;
            let ghost now = applied_all(db, batch@);
            proof {
                applied_one_more(db, batch@, WriteOpView::Delete(key));
            }
            batch.delete(slice_to_vec(&items[i].0));
            proof {
                let after = applied_all(db, batch@);
                assert forall|k: Seq<u8>| #[trigger] after.contains_key(k) == (
                before.contains_key(k) && !(exists|j: int|
                    0 <= j < i + 1 && (#[trigger] found[j]).0 == k)) by {
                    assert(after.contains_key(k) == (now.contains_key(k) && k != key));
                    if k == key {
                        assert(found[i as int].0 == k);
                    }
                    if exists|j: int| 0 <= j < i + 1 && (#[trigger] found[j]).0 == k {
                        let j = choose|j: int| 0 <= j < i + 1 && (#[trigger] found[j]).0 == k;
                        if j < i {
                            assert(found[j].0 == k);
                        }
                    }
                    if exists|j: int| 0 <= j < i && (#[trigger] found[j]).0 == k {
                        let j = choose|j: int| 0 <= j < i && (#[trigger] found[j]).0 == k;
                        assert(found[j].0 == k);
                    }
                }
                assert forall|k: Seq<u8>| #[trigger] after.contains_key(k) implies db.contains_key(
                    k,
                ) && after[k] == db[k] by {
                    assert(now.contains_key(k));
                }
            }
            i += 1;
        }
        proof {
            let after = applied_all(db, batch@);
            assert forall|k: Seq<u8>| #[trigger] after.contains_key(k) == (before.contains_key(k)
                && !(k.len() > 0 && k[0] == family)) by {
                if before.contains_key(k) && k.len() > 0 && k[0] == family {
                    assert(prefix@.is_prefix_of(k)) by {
                        assert(prefix@ =~= k.subrange(0, 1));
                    }
                    assert(db.contains_key(k));
                    let j = choose|j: int| 0 <= j < found.len() && (#[trigger] found[j]).0 == k;
                    assert(found[j].0 == k);
                }
                if exists|j: int| 0 <= j < found.len() && (#[trigger] found[j]).0 == k {
                    let j = choose|j: int| 0 <= j < found.len() && (#[trigger] found[j]).0 == k;
                    assert(prefix@.is_prefix_of(found[j].0));
                    assert(k.subrange(0, 1)[0] == k[0]);
                }
            }
        }
        Ok(())
    }

    /// `FLUSHALL`: drops every record, of metadata and of members, in one step, and forgets all
    /// versions.
    pub fn flush_all(&mut self) -> (r: Result<(), EngineError>)
        ensures
            r is Err ==> final(self)@.versions == old(self)@.versions,
            final(self).failures() == old(self).failures(),
            final(self).readings() == old(self).readings(),
            settled(
                r,
                |v: ()| v,
                old(self)@,
                final(self)@,
                flush_op(old(self)@),
                old(self).failures(),
            ),
    {
        let ghost db = self@.db;
        let mut batch = WriteBatch::new();
        match self.doom_family(META_PREFIX, &mut batch) {
            Ok(()) => {},
            Err(e) => return Err(e),
        }
        match self.doom_family(SUBKEY_PREFIX, &mut batch) {
            Ok(()) => {},
            Err(e) => return Err(e),
        }
        match self.doom_family(ZSCORE_PREFIX, &mut batch) {
            Ok(()) => {},
            Err(e) => return Err(e),
        }
        let ghost ops = batch@;
        assert(applied_all(db, ops) =~= flush_op(old(self)@).0.db);
        match self.engine.write(batch) {
            Ok(()) => {
                self.engine.install_gc(VersionMap::new());
                Ok(())
            },
            Err(e) => Err(e),
        }
    }

    /// A store on an engine. The predicate that is installed in the engine keeps the records of the
    /// versions that the metadata records give, and the next version is greater than any of those;
    /// metadata that cannot be decoded is passed over, and nothing is written.
    pub fn with_engine(engine: E) -> (r: Result<Self, EngineError>)
        ensures
            match r {
                Ok(store) => store@.db == engine.records() && store@.versions == rebuilt(
                    engine.records(),
                ) && is_last_version(engine.records(), store@.clock) && store.failures()
                    == engine.failures() && store.predicate() == Some(rebuilt(engine.records())),
                Err(e) => engine.failures().contains(e@),
            },
    {
        let prefix: [u8; 1] = [META_PREFIX];
        assert(prefix@ =~= seq![META_PREFIX]);
        let mut versions = VersionMap::new();
        let mut clock: u64 = 0;
        let ghost db = engine.records();
        let items = match engine.scan_prefix(&prefix).whole() {
            Ok(items) => items,
            Err(e) => return Err(e),
        };
        let ghost found = items_view(items@);
        let mut i: usize = 0;
        while i < items.len()
            invariant
                i <= items@.len(),
                found == items_view(items@),
                prefix@ == seq![META_PREFIX],
                is_scan(db, prefix@, found),
                forall|k: Seq<u8>| #[trigger] versions@.contains_key(k) == (rebuilt(
                    db,
                ).contains_key(k) && exists|j: int|
                    0 <= j < i && (#[trigger] found[j]).0 == meta_name(k)),
                forall|k: Seq<u8>| #[trigger] versions@.contains_key(k) ==> versions@[k]
                    == rebuilt(db)[k],
                forall|j: int, k: Seq<u8>|
                    0 <= j < i && (#[trigger] found[j]).0 == meta_name(k) ==> ((
                    #[trigger] version_at(db, k)) matches Some(v) ==> v <= clock),
                clock == 0 || exists|k: Seq<u8>| #[trigger] version_at(db, k) == Some(clock),
            decreases items@.len() - i,
        {
            let raw = &items[i].0;
            let ghost name = found[i as int].0;
            let ghost was = versions@;
            assert(prefix@.is_prefix_of(name));
            assert(name.subrange(0, 1)[0] == name[0]);
            let key = slice_subrange(raw, 1, raw.len());
            assert(meta_name(key@) =~= name);
            assert(db.contains_pair(name, found[i as int].1));
            if let Some(meta) = Meta::decode(&items[i].1) {
                let composite = meta.type_id == TYPE_HASH || meta.type_id == TYPE_SET
                    || meta.type_id == TYPE_ZSET || meta.type_id == TYPE_LIST;
                if composite {
                    versions.set(key, meta.version);
                }
                assert(version_at(db, key@) == Some(meta.version));
                if meta.version > clock {
                    clock = meta.version;
                }
            }
            proof {
                assert forall|j: int, k: Seq<u8>|
                    0 <= j < i + 1 && (#[trigger] found[j]).0 == meta_name(k) implies ((
                #[trigger] version_at(db, k)) matches Some(v) ==> v <= clock) by {
                    if j == i {
                        meta_keys_differ(k, key@);
                    }
                }
                assert forall|k: Seq<u8>| #[trigger] versions@.contains_key(k) == (rebuilt(
                    db,
                ).contains_key(k) && exists|j: int|
                    0 <= j < i + 1 && (#[trigger] found[j]).0 == meta_name(k)) by {
                    if meta_name(k) == name {
                        meta_keys_differ(k, key@);
                        assert(found[i as int].0 == meta_name(k));
                        if was.contains_key(k) {
                            let j = choose|j: int|
                                0 <= j < i && (#[trigger] found[j]).0 == meta_name(k);
                            crate::order::before_irreflexive(name);
                            assert(crate::order::before(found[j].0, found[i as int].0));
                        }
                    } else {
                        assert(versions@.contains_key(k) == was.contains_key(k)) by {
                            assert(k != key@);
                        }
                        if exists|j: int| 0 <= j < i && (#[trigger] found[j]).0 == meta_name(k) {
                            let j = choose|j: int|
                                0 <= j < i && (#[trigger] found[j]).0 == meta_name(k);
                            assert(0 <= j < i + 1 && found[j].0 == meta_name(k));
                        }
                        if exists|j: int|
                            0 <= j < i + 1 && (#[trigger] found[j]).0 == meta_name(k) {
                            let j = choose|j: int|
                                0 <= j < i + 1 && (#[trigger] found[j]).0 == meta_name(k);
                            assert(j < i);
                        }
                    }
                }
                assert forall|k: Seq<u8>| #[trigger] versions@.contains_key(k) implies versions@[k]
                    == rebuilt(db)[k] by {
                    if k != key@ {
                        assert(was.contains_key(k));
                    } else {
                        assert(meta_name(k) == name);
                        if was.contains_key(k) {
                            let j = choose|j: int|
                                0 <= j < i && (#[trigger] found[j]).0 == meta_name(k);
                            crate::order::before_irreflexive(name);
                            assert(crate::order::before(found[j].0, found[i as int].0));
                        }
                    }
                }
            }
            i += 1;
        }
        proof {
            assert forall|k: Seq<u8>| versions@.contains_key(k) == rebuilt(db).contains_key(k) by {
                if rebuilt(db).contains_key(k) {
                    assert(prefix@.is_prefix_of(meta_name(k))) by {
                        assert(prefix@ =~= meta_name(k).subrange(0, 1));
                    }
                    assert(db.contains_key(meta_name(k)));
                    let j = choose|j: int|
                        0 <= j < found.len() && (#[trigger] found[j]).0 == meta_name(k);
                    assert(found[j].0 == meta_name(k));
                }
            }
            assert(versions@ =~= rebuilt(db));
            assert forall|k: Seq<u8>| (#[trigger] version_at(db, k)) is Some implies version_at(
                db,
                k,
            )->0 <= clock by {
                assert(prefix@.is_prefix_of(meta_name(k))) by {
                    assert(prefix@ =~= meta_name(k).subrange(0, 1));
                }
                assert(db.contains_key(meta_name(k)));
                let j = choose|j: int|
                    0 <= j < found.len() && (#[trigger] found[j]).0 == meta_name(k);
                assert(found[j].0 == meta_name(k));
            }
        }
        let mut engine = engine;
        engine.install_gc(versions);
        Ok(Store { engine, clock, micros: 0, readings: Ghost(Seq::empty()) })
    }
}

/// `after` has the metadata of the key that `before` has.
pub open spec fn same_metadata(before: Records, after: Records, key: Seq<u8>) -> bool {
    &&& after.contains_key(meta_name(key)) == before.contains_key(meta_name(key))
    &&& after.contains_key(meta_name(key)) ==> after[meta_name(key)] == before[meta_name(key)]
}

/// Dropping fields leaves the metadata.
proof fn metadata_after_fields(db: Records, key: Seq<u8>, version: u64, fields: Seq<Seq<u8>>)
    ensures
        same_metadata(db, drop_fields(db, key, version, fields), key),
    decreases fields.len(),
{
    if fields.len() > 0 {
        metadata_after_fields(db, key, version, fields.drop_last());
        assert(sub_name(key, version, fields.last())[0] == SUBKEY_PREFIX);
        assert(meta_name(key)[0] == META_PREFIX);
    }
}

/// Dropping scored members leaves the metadata.
proof fn metadata_after_scores(db: Records, key: Seq<u8>, version: u64, members: Seq<Seq<u8>>)
    ensures
        same_metadata(db, drop_scores(db, key, version, members), key),
    decreases members.len(),
{
    if members.len() > 0 {
        metadata_after_scores(db, key, version, members.drop_last());
        let name = sub_name(key, version, members.last());
        let score = stored_score(db[name])->0;
        assert(name[0] == SUBKEY_PREFIX);
        assert(encoding::index_name(key, version, score, members.last())[0] == ZSCORE_PREFIX);
        assert(meta_name(key)[0] == META_PREFIX);
    }
}

/// Dropping elements leaves the metadata.
proof fn metadata_after_elements(
    db: Records,
    key: Seq<u8>,
    version: u64,
    head: u64,
    tail: u64,
    left: bool,
    n: nat,
)
    ensures
        same_metadata(db, drop_elements(db, key, version, head, tail, left, n), key),
    decreases n,
{
    if n > 0 {
        metadata_after_elements(db, key, version, head, tail, left, (n - 1) as nat);
        let index = super::model::end_index(head, tail, left, n - 1);
        assert(element_name(key, version, index)[0] == SUBKEY_PREFIX);
        assert(meta_name(key)[0] == META_PREFIX);
    }
}

/// Records without the metadata of a key, and the metadata back in.
proof fn metadata_put_back(before: Records, db: Records, key: Seq<u8>)
    requires
        same_metadata(before, db, key),
        before.contains_key(meta_name(key)),
    ensures
        db == db.remove(meta_name(key)).insert(meta_name(key), before[meta_name(key)]),
{
    assert(db =~= db.remove(meta_name(key)).insert(meta_name(key), before[meta_name(key)]));
}

/// A count that grew, up to the end of its range.
fn grown(count: u32, n: u64) -> (r: u32)
    ensures
        r == count_up(count, n as nat),
{
    if n > (u32::MAX - count) as u64 {
        u32::MAX
    } else {
        count + n as u32
    }
}

/// What a sequence contains that another one is the front of, but for its last element.
proof fn contains_one_more(front: Seq<Seq<u8>>, all: Seq<Seq<u8>>)
    requires
        all.len() == front.len() + 1,
        all.drop_last() == front,
    ensures
        forall|f: Seq<u8>| all.contains(f) == (front.contains(f) || f == all.last()),
{
    assert forall|f: Seq<u8>| all.contains(f) == (front.contains(f) || f == all.last()) by {
        if front.contains(f) {
            let i = choose|i: int| 0 <= i < front.len() && front[i] == f;
            assert(all[i] == f);
        }
        if all.contains(f) {
            let i = choose|i: int| 0 <= i < all.len() && all[i] == f;
            if i < front.len() {
                assert(front[i] == f);
            }
        }
        assert(all[all.len() - 1] == all.last());
    }
}

/// To put a member that was put before changes nothing.
proof fn put_members_again(
    db: Records,
    key: Seq<u8>,
    version: u64,
    members: Seq<Seq<u8>>,
    member: Seq<u8>,
)
    requires
        members.contains(member),
    ensures
        has_field(db, key, version, member) || put_members(db, key, version, members).insert(
            sub_name(key, version, member),
            Seq::empty(),
        ) == put_members(db, key, version, members),
    decreases members.len(),
{
    let put = put_members(db, key, version, members);
    let name = sub_name(key, version, member);
    if !has_field(db, key, version, member) {
        if members.last() != member {
            let init = members.drop_last();
            let i = choose|i: int| 0 <= i < members.len() && members[i] == member;
            assert(init[i] == member);
            put_members_again(db, key, version, init, member);
            let before = put_members(db, key, version, init);
            assert(before.insert(name, Seq::empty())[name] == Seq::<u8>::empty());
            assert(before.contains_key(name) && before[name] == Seq::<u8>::empty());
        }
        assert(put.insert(name, Seq::empty()) =~= put);
    }
}

/// Scores and members as mathematical values.
pub open spec fn score_pairs(v: Seq<(u64, Vec<u8>)>) -> Seq<(u64, Seq<u8>)> {
    v.map_values(|p: (u64, Vec<u8>)| (p.0, p.1@))
}

/// Members and scores as mathematical values.
pub open spec fn member_scores(v: Seq<(Vec<u8>, u64)>) -> Seq<(Seq<u8>, u64)> {
    v.map_values(|p: (Vec<u8>, u64)| (p.0@, p.1))
}

/// No member stands twice.
pub open spec fn distinct_members(list: Seq<(Seq<u8>, u64)>) -> bool {
    forall|i: int, j: int|
        0 <= i < j < list.len() ==> (#[trigger] list[i]).0 != (#[trigger] list[j]).0
}

/// Where [`member_at`] finds a member it stands, and where it finds none there is none.
pub proof fn member_at_is(list: Seq<(Seq<u8>, u64)>, member: Seq<u8>)
    ensures
        match member_at(list, member) {
            Some(i) => 0 <= i < list.len() && list[i].0 == member,
            None => forall|i: int| 0 <= i < list.len() ==> (#[trigger] list[i]).0 != member,
        },
    decreases list.len(),
{
    if list.len() > 0 && list[0].0 != member {
        let rest = list.skip(1);
        member_at_is(rest, member);
        if member_at(rest, member) is None {
            assert forall|i: int| 0 <= i < list.len() implies (#[trigger] list[i]).0 != member by {
                if i > 0 {
                    assert(rest[i - 1] == list[i]);
                }
            }
        }
    }
}

/// Once the last score of each member is kept, no member stands twice.
pub proof fn last_scores_distinct(pairs: Seq<(u64, Seq<u8>)>)
    ensures
        distinct_members(last_scores(pairs)),
    decreases pairs.len(),
{
    if pairs.len() > 0 {
        last_scores_distinct(pairs.drop_last());
        member_at_is(last_scores(pairs.drop_last()), pairs.last().1);
    }
}

/// Where a member stands, or the end.
fn find_member(list: &Vec<(Vec<u8>, u64)>, member: &[u8]) -> (r: Option<usize>)
    ensures
        match r {
            Some(i) => i < list@.len() && member_at(member_scores(list@), member@) == Some(
                i as int,
            ),
            None => member_at(member_scores(list@), member@) is None,
        },
{
    let ghost all = member_scores(list@);
    let mut i: usize = 0;
    assert(all.skip(0) =~= all);
    while i < list.len()
        invariant
            i <= list@.len(),
            all == member_scores(list@),
            member_at(all, member@) == match member_at(all.skip(i as int), member@) {
                Some(j) => Some(i + j),
                None => None,
            },
        decreases list@.len() - i,
    {
        assert(all.skip(i as int)[0] == all[i as int]);
        assert(all[i as int].0 == list@[i as int].0@);
        if same_bytes(&list[i].0, member) {
            return Some(i);
        }
        assert(all.skip(i as int).skip(1) =~= all.skip(i + 1));
        i += 1;
    }
    None
}

/// Each member once, in the order in which they first come, with the score that comes last.
fn keep_last_scores(pairs: &[(u64, Vec<u8>)]) -> (r: Vec<(Vec<u8>, u64)>)
    ensures
        member_scores(r@) == last_scores(score_pairs(pairs@)),
{
    let ghost all = score_pairs(pairs@);
    let mut out: Vec<(Vec<u8>, u64)> = Vec::new();
    let mut i: usize = 0;
    assert(all.take(0) =~= Seq::empty());
    assert(member_scores(out@) =~= Seq::empty());
    while i < pairs.len()
        invariant
            i <= pairs@.len(),
            all == score_pairs(pairs@),
            member_scores(out@) == last_scores(all.take(i as int)),
        decreases pairs@.len() - i,
    {
        let ghost was = member_scores(out@);
        let ghost pair = all[i as int];
        assert(all.take(i + 1).drop_last() =~= all.take(i as int));
        assert(all.take(i + 1).last() == pair);
        match find_member(&out, &pairs[i].1) {
            Some(j) => {
                let entry = (slice_to_vec(&pairs[i].1), pairs[i].0);
                out[j] = entry;
                assert(member_scores(out@) =~= was.update(j as int, (pair.1, pair.0)));
            },
            None => {
                out.push((slice_to_vec(&pairs[i].1), pairs[i].0));
                assert(member_scores(out@) =~= was.push((pair.1, pair.0)));
            },
        }
        i += 1;
    }
    assert(all.take(i as int) =~= all);
    out
}

/// One more member can only be a bad one itself.
proof fn bad_score_one_more(
    db: Records,
    key: Seq<u8>,
    version: u64,
    members: Seq<Seq<u8>>,
    i: int,
)
    requires
        0 <= i < members.len(),
        !bad_score(db, key, version, members.take(i)),
    ensures
        bad_score(db, key, version, members.take(i + 1)) == (has_field(
            db,
            key,
            version,
            members[i],
        ) && stored_score(db[sub_name(key, version, members[i])]) is None),
{
    let front = members.take(i);
    let all = members.take(i + 1);
    if bad_score(db, key, version, all) {
        let j = choose|j: int|
            0 <= j < all.len() && has_field(db, key, version, #[trigger] all[j]) && stored_score(
                db[sub_name(key, version, all[j])],
            ) is None;
        if j < i {
            assert(front[j] == all[j]);
        }
    }
    assert(all[i] == members[i]);
}

/// A bad member among some is one among all.
proof fn bad_score_stays(
    db: Records,
    key: Seq<u8>,
    version: u64,
    members: Seq<Seq<u8>>,
    n: int,
)
    requires
        0 <= n <= members.len(),
        bad_score(db, key, version, members.take(n)),
    ensures
        bad_score(db, key, version, members),
{
    let front = members.take(n);
    let j = choose|j: int|
        0 <= j < front.len() && has_field(db, key, version, #[trigger] front[j]) && stored_score(
            db[sub_name(key, version, front[j])],
        ) is None;
    assert(members[j] == front[j]);
}

/// A member among those of which none is bad is not.
proof fn bad_score_seen(
    db: Records,
    key: Seq<u8>,
    version: u64,
    members: Seq<Seq<u8>>,
    member: Seq<u8>,
)
    requires
        members.contains(member),
        !bad_score(db, key, version, members),
    ensures
        has_field(db, key, version, member) ==> stored_score(
            db[sub_name(key, version, member)],
        ) is Some,
{
    let j = choose|j: int| 0 <= j < members.len() && members[j] == member;
    assert(members[j] == member);
}

/// One more score changes something if a former one does or it changes itself.
proof fn any_change_one_more(
    db: Records,
    key: Seq<u8>,
    version: u64,
    list: Seq<(Seq<u8>, u64)>,
    i: int,
)
    requires
        0 <= i < list.len(),
    ensures
        any_change(db, key, version, list.take(i + 1)) == (any_change(
            db,
            key,
            version,
            list.take(i),
        ) || score_changes(db, key, version, list[i].0, list[i].1)),
{
    let front = list.take(i);
    let all = list.take(i + 1);
    assert(all[i] == list[i]);
    if any_change(db, key, version, all) {
        let j = choose|j: int|
            0 <= j < all.len() && score_changes(db, key, version, (#[trigger] all[j]).0, all[j].1);
        if j < i {
            assert(front[j] == all[j]);
        }
    }
    if any_change(db, key, version, front) {
        let j = choose|j: int|
            0 <= j < front.len() && score_changes(
                db,
                key,
                version,
                (#[trigger] front[j]).0,
                front[j].1,
            );
        assert(all[j] == front[j]);
    }
}

/// To drop a member that was dropped before changes nothing.
pub proof fn drop_scores_again(
    db: Records,
    key: Seq<u8>,
    version: u64,
    members: Seq<Seq<u8>>,
    member: Seq<u8>,
)
    requires
        members.contains(member),
    ensures
        ({
            let dropped = drop_scores(db, key, version, members);
            let name = sub_name(key, version, member);
            let index = encoding::index_name(key, version, stored_score(db[name])->0, member);
            db.contains_key(name) ==> !dropped.contains_key(name) && !dropped.contains_key(index)
                && dropped.remove(name).remove(index) == dropped
        }),
    decreases members.len(),
{
    let dropped = drop_scores(db, key, version, members);
    let name = sub_name(key, version, member);
    let index = encoding::index_name(key, version, stored_score(db[name])->0, member);
    if db.contains_key(name) {
        if members.last() != member {
            let init = members.drop_last();
            let i = choose|i: int| 0 <= i < members.len() && members[i] == member;
            assert(init[i] == member);
            drop_scores_again(db, key, version, init, member);
        }
        assert(dropped.remove(name).remove(index) =~= dropped);
    }
}

/// Where some score-index records cannot be read, no more of them can.
proof fn index_items_stuck(items: Seq<(Seq<u8>, Seq<u8>)>, n: nat, k: int)
    requires
        0 <= k <= items.len(),
        index_items(items.take(k), n) is Err,
    ensures
        index_items(items, n) == index_items(items.take(k), n),
    decreases items.len(),
{
    if k == items.len() {
        assert(items.take(k) =~= items);
    } else {
        assert(items.drop_last().take(k) =~= items.take(k));
        index_items_stuck(items.drop_last(), n, k);
    }
}

/// The ranks that `start` and `stop`, both of them included, select among `len` elements;
/// negative ones count from the end. `None` where they select nothing.
fn normalize_range(start: i64, stop: i64, len: i64) -> (r: Option<(u64, u64)>)
    ensures
        match r {
            Some((lo, hi)) => rank_range(start, stop, len) == Some((lo as int, hi as int)) && lo
                <= hi < len,
            None => rank_range(start, stop, len) is None,
        },
{
    if len <= 0 {
        return None;
    }
    let lo: i64 = if start < 0 {
        start + len
    } else {
        start
    };
    let hi: i64 = if stop < 0 {
        stop + len
    } else {
        stop
    };
    let lo: i64 = if lo < 0 {
        0
    } else {
        lo
    };
    let hi: i64 = if hi > len - 1 {
        len - 1
    } else {
        hi
    };
    if lo > hi {
        return None;
    }
    Some((lo as u64, hi as u64))
}

/// The bounds of a new list, as a payload.
fn initial_bounds() -> (r: Vec<u8>)
    ensures
        r@ == be(LIST_INITIAL_INDEX as nat, 8) + be(LIST_INITIAL_INDEX as nat, 8),
{
    let mut bounds = slice_to_vec(&encoding::list_index_field(LIST_INITIAL_INDEX));
    let mut more = slice_to_vec(&encoding::list_index_field(LIST_INITIAL_INDEX));
    bounds.append(&mut more);
    bounds
}

/// The bounds of a list, the first no greater than the second.
fn read_bounds(meta: &Meta) -> (r: Option<(u64, u64)>)
    ensures
        r == sound_bounds(meta@),
{
    match meta.list_bounds() {
        Some((head, tail)) => if head <= tail {
            Some((head, tail))
        } else {
            None
        },
        None => None,
    }
}

/// Where some elements have no record, no greater number of them comes out.
proof fn end_elements_stuck(
    db: Records,
    key: Seq<u8>,
    version: u64,
    head: u64,
    tail: u64,
    left: bool,
    k: nat,
    n: nat,
)
    requires
        k <= n,
        end_elements(db, key, version, head, tail, left, k) is Err,
    ensures
        end_elements(db, key, version, head, tail, left, n) == end_elements(
            db,
            key,
            version,
            head,
            tail,
            left,
            k,
        ),
    decreases n,
{
    if k < n {
        end_elements_stuck(db, key, version, head, tail, left, k, (n - 1) as nat);
    }
}

/// Where some elements have no record, no greater number of them comes out.
proof fn elements_stuck(db: Records, key: Seq<u8>, version: u64, from: int, mid: int, to: int)
    requires
        from <= mid <= to,
        elements(db, key, version, from, mid) is Err,
    ensures
        elements(db, key, version, from, to) == elements(db, key, version, from, mid),
    decreases to - mid,
{
    if mid < to {
        elements_stuck(db, key, version, from, mid, to - 1);
    }
}

/// To drop fields adds none.
proof fn drop_fields_shrinks(db: Records, key: Seq<u8>, version: u64, fields: Seq<Seq<u8>>)
    ensures
        forall|k: Seq<u8>| #[trigger]
            drop_fields(db, key, version, fields).contains_key(k) ==> db.contains_key(k),
    decreases fields.len(),
{
    if fields.len() > 0 {
        let init = drop_fields(db, key, version, fields.drop_last());
        drop_fields_shrinks(db, key, version, fields.drop_last());
        assert forall|k: Seq<u8>| #[trigger]
            drop_fields(db, key, version, fields).contains_key(k) implies db.contains_key(k) by {
            assert(init.contains_key(k));
        }
    }
}

/// To drop a field that is not there changes nothing.
proof fn drop_fields_absent(
    db: Records,
    key: Seq<u8>,
    version: u64,
    fields: Seq<Seq<u8>>,
    field: Seq<u8>,
)
    requires
        !has_field(db, key, version, field),
    ensures
        drop_fields(db, key, version, fields).remove(sub_name(key, version, field)) == drop_fields(
            db,
            key,
            version,
            fields,
        ),
{
    drop_fields_shrinks(db, key, version, fields);
    let dropped = drop_fields(db, key, version, fields);
    assert(dropped.remove(sub_name(key, version, field)) =~= dropped);
}

/// To drop a field that was dropped before changes nothing.
proof fn drop_fields_again(
    db: Records,
    key: Seq<u8>,
    version: u64,
    fields: Seq<Seq<u8>>,
    field: Seq<u8>,
)
    requires
        fields.contains(field),
    ensures
        drop_fields(db, key, version, fields).remove(sub_name(key, version, field)) == drop_fields(
            db,
            key,
            version,
            fields,
        ),
    decreases fields.len(),
{
    let dropped = drop_fields(db, key, version, fields);
    let name = sub_name(key, version, field);
    if fields.last() != field {
        let init = fields.drop_last();
        let i = choose|i: int| 0 <= i < fields.len() && fields[i] == field;
        assert(init[i] == field);
        drop_fields_again(db, key, version, init, field);
        assert(!drop_fields(db, key, version, init).contains_key(name));
    }
    assert(dropped.remove(name) =~= dropped);
}

} // verus!
