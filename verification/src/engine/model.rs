//! What each operation of a store does to its records, and what it answers.
//!
//! Every operation is given as a function from the state of the store, a reading of the clock and
//! the arguments to the state afterwards and the answer. [`super::store`] carries them out.
use vstd::prelude::*;

use super::bigend::{be, be_value};
use super::encoding::{
    index_name, index_suffix, meta_name, meta_of, owner_prefix, score_bits, score_bytes,
    score_less, score_same, sub_name, MetaView, LIST_INITIAL_INDEX, META_PREFIX, SUBKEY_PREFIX,
    TYPE_HASH, TYPE_LIST, TYPE_SET, TYPE_STRING, TYPE_ZSET, ZSCORE_PREFIX,
};
use super::engine::{scan, value_at, Failures, Records};
use super::error::{EngineError, EngineErrorView};
use super::gc::is_current;

verus! {

/// A reading of the clock.
#[derive(Debug, Clone, Copy, PartialEq, Eq, Structural)]
pub struct Now {
    /// Milliseconds since the epoch.
    pub ms: u64,
    /// Microseconds since the epoch.
    pub micros: u64,
}

/// The reading of a clock that stands at the given microseconds; milliseconds are rounded down.
pub open spec fn reading(micros: u64) -> Now {
    Now { ms: micros / 1000, micros }
}

impl Now {
    /// The reading of a clock that stands at the given microseconds; milliseconds are rounded down.
    pub fn at(micros: u64) -> (r: Self)
        ensures
            r == reading(micros),
            r.micros == micros,
            r.ms == micros / 1000,
    {
        Now { ms: micros / 1000, micros }
    }
}

/// The state of a store.
#[verifier::ext_equal]
pub struct StoreView {
    /// The records of its engine.
    pub db: Records,
    /// The current version of each composite value, by its key.
    pub versions: Map<Seq<u8>, u64>,
    /// The last version that was given out.
    pub clock: u64,
}

/// What an operation answers.
pub type Answer<V> = Result<V, EngineErrorView>;

/// An operation ended as `want` says, or the engine failed underneath it: the error is then one of
/// the engine's, of the records all changes were made, or none, and nothing else has changed.
pub open spec fn settled<T, V>(
    r: Result<T, EngineError>,
    view: spec_fn(T) -> V,
    before: StoreView,
    after: StoreView,
    want: (StoreView, Answer<V>),
    failures: Failures,
) -> bool {
    match r {
        Ok(v) => want == (after, Ok::<V, EngineErrorView>(view(v))),
        Err(e) => want == (after, Err::<V, EngineErrorView>(e@)) || failures.contains(e@) && (after
            == before || after == with_db(before, want.0.db)),
    }
}

/// The state between two steps of an operation on a key that ends at `want`. A key whose time is up
/// goes in a step of its own. A new value has its version before its records are written. The
/// metadata of a value without its last member goes in a step of its own, once the records of its
/// members are gone, and its version goes last. Everything else is one step.
pub open spec fn at_a_step(
    before: StoreView,
    now: Now,
    key: Seq<u8>,
    after: StoreView,
    want: StoreView,
) -> bool {
    let name = meta_name(key);
    let looked_at = swept(before, now, key).db;
    ||| after == before
    ||| after == with_db(before, looked_at)
    ||| want.versions.contains_key(key) && (after == with_db(want, looked_at) || after == want)
    ||| !want.versions.contains_key(key) && (after == with_db(before, want.db)
        || before.db.contains_key(name) && !want.db.contains_key(name) && after == with_db(
        before,
        want.db.insert(name, before.db[name]),
    ))
}

/// An operation on a key ended as `want` says, or the engine failed underneath it: the error is
/// then one of the engine's, and the state is one between two steps of the operation.
pub open spec fn settled_at<T, V>(
    r: Result<T, EngineError>,
    view: spec_fn(T) -> V,
    before: StoreView,
    now: Now,
    key: Seq<u8>,
    after: StoreView,
    want: (StoreView, Answer<V>),
    failures: Failures,
) -> bool {
    match r {
        Ok(v) => want == (after, Ok::<V, EngineErrorView>(view(v))),
        Err(e) => want == (after, Err::<V, EngineErrorView>(e@)) || failures.contains(e@)
            && at_a_step(before, now, key, after, want.0),
    }
}

/// An error about a stored record.
pub open spec fn corrupt<V>(msg: Seq<char>) -> Answer<V> {
    Err(EngineErrorView::Corruption(msg))
}

// ---------------------------------------------------------------------------
// Versions, expiry and types
// ---------------------------------------------------------------------------
/// The next version: greater than the last one, and no less than the clock's microseconds, so
/// that versions grow across restarts too. (At the end of the range it stays there.)
pub open spec fn next_version(last: u64, micros: u64) -> u64 {
    if last == u64::MAX {
        u64::MAX
    } else if last + 1 > micros {
        (last + 1) as u64
    } else {
        micros
    }
}

/// The metadata at a key.
pub open spec fn stored(s: StoreView, key: Seq<u8>) -> Answer<Option<MetaView>> {
    match value_at(s.db, meta_name(key)) {
        Some(raw) => match meta_of(raw) {
            Some(meta) => Ok(Some(meta)),
            None => corrupt("undecodable metadata record"@),
        },
        None => Ok(None),
    }
}

/// The value's time is up.
pub open spec fn is_expired(meta: MetaView, now: Now) -> bool {
    meta.expire_ms != 0 && now.ms >= meta.expire_ms
}

/// The state without the key: its metadata and its version are gone, and what records it has
/// besides are left as garbage.
pub open spec fn without(s: StoreView, key: Seq<u8>) -> StoreView {
    StoreView { db: s.db.remove(meta_name(key)), versions: s.versions.remove(key), ..s }
}

/// The metadata at a key whose time is not up.
pub open spec fn live(s: StoreView, now: Now, key: Seq<u8>) -> Answer<Option<MetaView>> {
    match stored(s, key) {
        Ok(Some(meta)) => if is_expired(meta, now) {
            Ok(None)
        } else {
            Ok(Some(meta))
        },
        other => other,
    }
}

/// The state once the key was looked at: a key whose time is up is gone.
pub open spec fn swept(s: StoreView, now: Now, key: Seq<u8>) -> StoreView {
    match stored(s, key) {
        Ok(Some(meta)) => if is_expired(meta, now) {
            without(s, key)
        } else {
            s
        },
        _ => s,
    }
}

/// The metadata at a key, which must have the given type.
pub open spec fn typed(s: StoreView, now: Now, key: Seq<u8>, type_id: u8) -> Answer<
    Option<MetaView>,
> {
    match live(s, now, key) {
        Ok(Some(meta)) => if meta.type_id == type_id {
            Ok(Some(meta))
        } else {
            Err(EngineErrorView::WrongType)
        },
        other => other,
    }
}

/// The state with other metadata at the key.
pub open spec fn with_meta(s: StoreView, key: Seq<u8>, meta: MetaView) -> StoreView {
    StoreView { db: s.db.insert(meta_name(key), meta.encoded()), ..s }
}

/// The state with other records.
pub open spec fn with_db(s: StoreView, db: Records) -> StoreView {
    StoreView { db, ..s }
}

/// Metadata for a new composite value, with a version of its own.
pub open spec fn fresh_meta(s: StoreView, now: Now, type_id: u8, payload: Seq<u8>) -> MetaView {
    MetaView { type_id, version: next_version(s.clock, now.micros), expire_ms: 0, payload }
}

/// The state once a version was given out for a new composite value at the key.
pub open spec fn with_version(s: StoreView, now: Now, key: Seq<u8>) -> StoreView {
    let version = next_version(s.clock, now.micros);
    StoreView { versions: s.versions.insert(key, version), clock: version, ..s }
}

/// The metadata that is there, or that of a new composite value; and the state that goes with it.
pub open spec fn found_or_fresh(
    s: StoreView,
    now: Now,
    key: Seq<u8>,
    found: Option<MetaView>,
    type_id: u8,
    payload: Seq<u8>,
) -> (StoreView, MetaView) {
    match found {
        Some(meta) => (s, meta),
        None => (with_version(s, now, key), fresh_meta(s, now, type_id, payload)),
    }
}

/// A count that grew, up to the end of its range.
pub open spec fn count_up(count: u32, n: nat) -> u32 {
    if count + n > u32::MAX {
        u32::MAX
    } else {
        (count + n) as u32
    }
}

/// A count that shrank, down to zero.
pub open spec fn count_down(count: u32, n: nat) -> u32 {
    if n > count {
        0
    } else {
        (count - n) as u32
    }
}

// ---------------------------------------------------------------------------
// Strings and keys
// ---------------------------------------------------------------------------
/// `SET`: the key holds the string, whatever it held before.
pub open spec fn set_op(s: StoreView, now: Now, key: Seq<u8>, value: Seq<u8>, expire_ms: u64) -> (
    StoreView,
    Answer<()>,
) {
    let version = next_version(s.clock, now.micros);
    let meta = MetaView { type_id: TYPE_STRING, version, expire_ms, payload: value };
    (
        with_meta(
            StoreView { versions: s.versions.remove(key), clock: version, ..s },
            key,
            meta,
        ),
        Ok(()),
    )
}

/// `GET`: the string at the key.
pub open spec fn get_op(s: StoreView, now: Now, key: Seq<u8>) -> (
    StoreView,
    Answer<Option<Seq<u8>>>,
) {
    (
        swept(s, now, key),
        match typed(s, now, key, TYPE_STRING) {
            Ok(Some(meta)) => Ok(Some(meta.payload)),
            Ok(None) => Ok(None),
            Err(e) => Err(e),
        },
    )
}

/// `EXISTS`: whether there is a value at the key.
pub open spec fn exists_op(s: StoreView, now: Now, key: Seq<u8>) -> (StoreView, Answer<bool>) {
    (
        swept(s, now, key),
        match live(s, now, key) {
            Ok(found) => Ok(found is Some),
            Err(e) => Err(e),
        },
    )
}

/// The name of a type.
pub open spec fn name_of_type(type_id: u8) -> Seq<char> {
    if type_id == TYPE_STRING {
        "string"@
    } else if type_id == TYPE_HASH {
        "hash"@
    } else if type_id == TYPE_SET {
        "set"@
    } else if type_id == TYPE_ZSET {
        "zset"@
    } else if type_id == TYPE_LIST {
        "list"@
    } else {
        "none"@
    }
}

/// `TYPE`: the name of the type of the value at the key.
pub open spec fn type_op(s: StoreView, now: Now, key: Seq<u8>) -> (StoreView, Answer<Seq<char>>) {
    (
        swept(s, now, key),
        match live(s, now, key) {
            Ok(Some(meta)) => Ok(name_of_type(meta.type_id)),
            Ok(None) => Ok("none"@),
            Err(e) => Err(e),
        },
    )
}

/// `DEL`: the key is gone; whether it was there.
pub open spec fn del_op(s: StoreView, now: Now, key: Seq<u8>) -> (StoreView, Answer<bool>) {
    match live(s, now, key) {
        Ok(Some(_)) => (without(s, key), Ok(true)),
        Ok(None) => (swept(s, now, key), Ok(false)),
        Err(e) => (s, Err(e)),
    }
}

/// `PEXPIREAT`: the value's time is up at the given instant; whether there is a value.
pub open spec fn expire_op(s: StoreView, now: Now, key: Seq<u8>, at_ms: u64) -> (
    StoreView,
    Answer<bool>,
) {
    match live(s, now, key) {
        Ok(Some(meta)) => (
            with_meta(s, key, MetaView { expire_ms: at_ms, ..meta }),
            Ok(true),
        ),
        Ok(None) => (swept(s, now, key), Ok(false)),
        Err(e) => (s, Err(e)),
    }
}

/// `PTTL`: the milliseconds that the value has left, -1 where it has no end, -2 where there is
/// none.
pub open spec fn pttl_op(s: StoreView, now: Now, key: Seq<u8>) -> (StoreView, Answer<i64>) {
    (
        swept(s, now, key),
        match live(s, now, key) {
            Ok(None) => Ok((-2) as i64),
            Ok(Some(meta)) => if meta.expire_ms == 0 {
                Ok((-1) as i64)
            } else {
                Ok((meta.expire_ms - now.ms) as i64)
            },
            Err(e) => Err(e),
        },
    )
}

// ---------------------------------------------------------------------------
// Members
// ---------------------------------------------------------------------------
/// The record of a field is there.
pub open spec fn has_field(db: Records, key: Seq<u8>, version: u64, field: Seq<u8>) -> bool {
    db.contains_key(sub_name(key, version, field))
}

/// How many of `fields`, each counted once, are not there.
pub open spec fn missing_count(
    db: Records,
    key: Seq<u8>,
    version: u64,
    fields: Seq<Seq<u8>>,
) -> nat
    decreases fields.len(),
{
    if fields.len() == 0 {
        0
    } else {
        let n = missing_count(db, key, version, fields.drop_last());
        if has_field(db, key, version, fields.last()) || fields.drop_last().contains(
            fields.last(),
        ) {
            n
        } else {
            n + 1
        }
    }
}

/// How many of `fields`, each counted once, are there.
pub open spec fn present_count(
    db: Records,
    key: Seq<u8>,
    version: u64,
    fields: Seq<Seq<u8>>,
) -> nat
    decreases fields.len(),
{
    if fields.len() == 0 {
        0
    } else {
        let n = present_count(db, key, version, fields.drop_last());
        if !has_field(db, key, version, fields.last()) || fields.drop_last().contains(
            fields.last(),
        ) {
            n
        } else {
            n + 1
        }
    }
}

/// The records with the values of `pairs` under their fields, a later one in place of an earlier.
pub open spec fn put_fields(
    db: Records,
    key: Seq<u8>,
    version: u64,
    pairs: Seq<(Seq<u8>, Seq<u8>)>,
) -> Records
    decreases pairs.len(),
{
    if pairs.len() == 0 {
        db
    } else {
        put_fields(db, key, version, pairs.drop_last()).insert(
            sub_name(key, version, pairs.last().0),
            pairs.last().1,
        )
    }
}

/// The records without those of `fields`.
pub open spec fn drop_fields(
    db: Records,
    key: Seq<u8>,
    version: u64,
    fields: Seq<Seq<u8>>,
) -> Records
    decreases fields.len(),
{
    if fields.len() == 0 {
        db
    } else {
        drop_fields(db, key, version, fields.drop_last()).remove(
            sub_name(key, version, fields.last()),
        )
    }
}

/// The first components of pairs.
pub open spec fn firsts(pairs: Seq<(Seq<u8>, Seq<u8>)>) -> Seq<Seq<u8>> {
    pairs.map_values(|p: (Seq<u8>, Seq<u8>)| p.0)
}

/// The state once `removed` members left the composite value and their records are out of `db`:
/// without its last member the value is gone.
pub open spec fn members_left(
    s: StoreView,
    key: Seq<u8>,
    meta: MetaView,
    db: Records,
    removed: nat,
) -> StoreView {
    let count = count_down(meta.count(), removed);
    if removed == 0 {
        s
    } else if count == 0 {
        without(with_db(s, db), key)
    } else {
        with_meta(with_db(s, db), key, meta.with_count(count))
    }
}

/// The names and values of the fields, without the prefix of their keys.
pub open spec fn unprefixed(items: Seq<(Seq<u8>, Seq<u8>)>, n: nat) -> Seq<(Seq<u8>, Seq<u8>)> {
    items.map_values(|item: (Seq<u8>, Seq<u8>)| (item.0.skip(n as int), item.1))
}

// ---------------------------------------------------------------------------
// Hashes
// ---------------------------------------------------------------------------
/// `HSET`: the fields hold the values; how many of the fields are new.
pub open spec fn hset_op(
    s: StoreView,
    now: Now,
    key: Seq<u8>,
    pairs: Seq<(Seq<u8>, Seq<u8>)>,
) -> (StoreView, Answer<i64>) {
    let s0 = swept(s, now, key);
    match typed(s, now, key, TYPE_HASH) {
        Ok(found) => {
            let (s1, meta) = found_or_fresh(s0, now, key, found, TYPE_HASH, be(0, 4));
            let created = missing_count(s1.db, key, meta.version, firsts(pairs));
            (
                with_meta(
                    with_db(s1, put_fields(s1.db, key, meta.version, pairs)),
                    key,
                    meta.with_count(count_up(meta.count(), created)),
                ),
                Ok(created as i64),
            )
        },
        Err(e) => (s0, Err(e)),
    }
}

/// `HGET`: the value of the field.
pub open spec fn hget_op(s: StoreView, now: Now, key: Seq<u8>, field: Seq<u8>) -> (
    StoreView,
    Answer<Option<Seq<u8>>>,
) {
    let s0 = swept(s, now, key);
    (
        s0,
        match typed(s, now, key, TYPE_HASH) {
            Ok(Some(meta)) => Ok(value_at(s0.db, sub_name(key, meta.version, field))),
            Ok(None) => Ok(None),
            Err(e) => Err(e),
        },
    )
}

/// `HGETALL`: all fields and their values, in the order of the fields.
pub open spec fn hgetall_op(s: StoreView, now: Now, key: Seq<u8>) -> (
    StoreView,
    Answer<Seq<(Seq<u8>, Seq<u8>)>>,
) {
    let s0 = swept(s, now, key);
    (
        s0,
        match typed(s, now, key, TYPE_HASH) {
            Ok(Some(meta)) => {
                let prefix = owner_prefix(SUBKEY_PREFIX, key, meta.version);
                Ok(unprefixed(scan(s0.db, prefix), prefix.len()))
            },
            Ok(None) => Ok(Seq::empty()),
            Err(e) => Err(e),
        },
    )
}

/// `HDEL` and `SREM`: the members are gone; how many were there.
pub open spec fn remove_op(
    s: StoreView,
    now: Now,
    key: Seq<u8>,
    type_id: u8,
    fields: Seq<Seq<u8>>,
) -> (StoreView, Answer<i64>) {
    let s0 = swept(s, now, key);
    match typed(s, now, key, type_id) {
        Ok(Some(meta)) => {
            let removed = present_count(s0.db, key, meta.version, fields);
            (
                members_left(
                    s0,
                    key,
                    meta,
                    drop_fields(s0.db, key, meta.version, fields),
                    removed,
                ),
                Ok(removed as i64),
            )
        },
        Ok(None) => (s0, Ok(0)),
        Err(e) => (s0, Err(e)),
    }
}

/// `HLEN`, `SCARD` and `ZCARD`: how many members there are.
pub open spec fn count_op(s: StoreView, now: Now, key: Seq<u8>, type_id: u8) -> (
    StoreView,
    Answer<i64>,
) {
    (
        swept(s, now, key),
        match typed(s, now, key, type_id) {
            Ok(Some(meta)) => Ok(meta.count() as i64),
            Ok(None) => Ok(0),
            Err(e) => Err(e),
        },
    )
}

/// `HEXISTS` and `SISMEMBER`: whether the member is there.
pub open spec fn has_op(s: StoreView, now: Now, key: Seq<u8>, type_id: u8, field: Seq<u8>) -> (
    StoreView,
    Answer<bool>,
) {
    let s0 = swept(s, now, key);
    (
        s0,
        match typed(s, now, key, type_id) {
            Ok(Some(meta)) => Ok(has_field(s0.db, key, meta.version, field)),
            Ok(None) => Ok(false),
            Err(e) => Err(e),
        },
    )
}

// ---------------------------------------------------------------------------
// Sets
// ---------------------------------------------------------------------------
/// The records with an empty one for each of `members` that is not there in `was`.
pub open spec fn put_members(
    was: Records,
    key: Seq<u8>,
    version: u64,
    members: Seq<Seq<u8>>,
) -> Records
    decreases members.len(),
{
    if members.len() == 0 {
        was
    } else {
        let db = put_members(was, key, version, members.drop_last());
        if has_field(was, key, version, members.last()) {
            db
        } else {
            db.insert(sub_name(key, version, members.last()), Seq::empty())
        }
    }
}

/// `SADD`: the members are there; how many of them are new.
pub open spec fn sadd_op(s: StoreView, now: Now, key: Seq<u8>, members: Seq<Seq<u8>>) -> (
    StoreView,
    Answer<i64>,
) {
    let s0 = swept(s, now, key);
    match typed(s, now, key, TYPE_SET) {
        Ok(found) => {
            let (s1, meta) = found_or_fresh(s0, now, key, found, TYPE_SET, be(0, 4));
            let added = missing_count(s1.db, key, meta.version, members);
            (
                if added == 0 {
                    s1
                } else {
                    with_meta(
                        with_db(s1, put_members(s1.db, key, meta.version, members)),
                        key,
                        meta.with_count(count_up(meta.count(), added)),
                    )
                },
                Ok(added as i64),
            )
        },
        Err(e) => (s0, Err(e)),
    }
}

/// `SMEMBERS`: all members, in order.
pub open spec fn smembers_op(s: StoreView, now: Now, key: Seq<u8>) -> (
    StoreView,
    Answer<Seq<Seq<u8>>>,
) {
    let s0 = swept(s, now, key);
    (
        s0,
        match typed(s, now, key, TYPE_SET) {
            Ok(Some(meta)) => {
                let prefix = owner_prefix(SUBKEY_PREFIX, key, meta.version);
                Ok(firsts(unprefixed(scan(s0.db, prefix), prefix.len())))
            },
            Ok(None) => Ok(Seq::empty()),
            Err(e) => Err(e),
        },
    )
}

// ---------------------------------------------------------------------------
// Sorted sets
// ---------------------------------------------------------------------------
/// The score that a member's record holds, or `None` where it holds none.
pub open spec fn stored_score(raw: Seq<u8>) -> Option<u64> {
    if raw.len() == 8 {
        Some(score_bits(be_value(raw) as u64))
    } else {
        None
    }
}

/// Where a member stands among members and their scores.
pub open spec fn member_at(list: Seq<(Seq<u8>, u64)>, member: Seq<u8>) -> Option<int>
    decreases list.len(),
{
    if list.len() == 0 {
        None
    } else if list[0].0 == member {
        Some(0)
    } else {
        match member_at(list.skip(1), member) {
            Some(i) => Some(i + 1),
            None => None,
        }
    }
}

/// Each member once, in the order in which they first come, with the score that comes last.
pub open spec fn last_scores(pairs: Seq<(u64, Seq<u8>)>) -> Seq<(Seq<u8>, u64)>
    decreases pairs.len(),
{
    if pairs.len() == 0 {
        Seq::empty()
    } else {
        let list = last_scores(pairs.drop_last());
        let (score, member) = pairs.last();
        match member_at(list, member) {
            Some(i) => list.update(i, (member, score)),
            None => list.push((member, score)),
        }
    }
}

/// Some of `members` has a record that holds no score.
pub open spec fn bad_score(db: Records, key: Seq<u8>, version: u64, members: Seq<Seq<u8>>) -> bool {
    exists|i: int|
        0 <= i < members.len() && has_field(db, key, version, #[trigger] members[i])
            && stored_score(db[sub_name(key, version, members[i])]) is None
}

/// A member's score changes: it is there with a score that is not the same, or it is not there.
pub open spec fn score_changes(
    db: Records,
    key: Seq<u8>,
    version: u64,
    member: Seq<u8>,
    score: u64,
) -> bool {
    let name = sub_name(key, version, member);
    !db.contains_key(name) || !score_same(stored_score(db[name])->0, score)
}

/// The records with the given scores, where they change, in place of those in `was`.
pub open spec fn put_scores(
    was: Records,
    key: Seq<u8>,
    version: u64,
    list: Seq<(Seq<u8>, u64)>,
) -> Records
    decreases list.len(),
{
    if list.len() == 0 {
        was
    } else {
        let db = put_scores(was, key, version, list.drop_last());
        let (member, score) = list.last();
        let name = sub_name(key, version, member);
        if score_changes(was, key, version, member, score) {
            let cleared = if was.contains_key(name) {
                db.remove(index_name(key, version, stored_score(was[name])->0, member))
            } else {
                db
            };
            cleared.insert(name, score_bytes(score)).insert(
                index_name(key, version, score, member),
                Seq::empty(),
            )
        } else {
            db
        }
    }
}

/// Some score changes.
pub open spec fn any_change(
    db: Records,
    key: Seq<u8>,
    version: u64,
    list: Seq<(Seq<u8>, u64)>,
) -> bool {
    exists|i: int|
        0 <= i < list.len() && score_changes(
            db,
            key,
            version,
            (#[trigger] list[i]).0,
            list[i].1,
        )
}

/// The members of a list of members and scores.
pub open spec fn members_of(list: Seq<(Seq<u8>, u64)>) -> Seq<Seq<u8>> {
    list.map_values(|p: (Seq<u8>, u64)| p.0)
}

/// `ZADD`: the members have the scores, the last one given for a member; how many are new.
pub open spec fn zadd_op(s: StoreView, now: Now, key: Seq<u8>, pairs: Seq<(u64, Seq<u8>)>) -> (
    StoreView,
    Answer<i64>,
) {
    let s0 = swept(s, now, key);
    match typed(s, now, key, TYPE_ZSET) {
        Ok(found) => {
            let (s1, meta) = found_or_fresh(s0, now, key, found, TYPE_ZSET, be(0, 4));
            let list = last_scores(pairs);
            let added = missing_count(s1.db, key, meta.version, members_of(list));
            if bad_score(s1.db, key, meta.version, members_of(list)) {
                (s1, corrupt("undecodable zset member score"@))
            } else if any_change(s1.db, key, meta.version, list) {
                (
                    with_meta(
                        with_db(s1, put_scores(s1.db, key, meta.version, list)),
                        key,
                        meta.with_count(count_up(meta.count(), added)),
                    ),
                    Ok(added as i64),
                )
            } else {
                (s1, Ok(0))
            }
        },
        Err(e) => (s0, Err(e)),
    }
}

/// `ZSCORE`: the member's score.
pub open spec fn zscore_op(s: StoreView, now: Now, key: Seq<u8>, member: Seq<u8>) -> (
    StoreView,
    Answer<Option<u64>>,
) {
    let s0 = swept(s, now, key);
    (
        s0,
        match typed(s, now, key, TYPE_ZSET) {
            Ok(Some(meta)) => match value_at(s0.db, sub_name(key, meta.version, member)) {
                Some(raw) => match stored_score(raw) {
                    Some(score) => Ok(Some(score)),
                    None => corrupt("undecodable zset member score"@),
                },
                None => Ok(None),
            },
            Ok(None) => Ok(None),
            Err(e) => Err(e),
        },
    )
}

/// The records without those of `members` and of their scores in `was`.
pub open spec fn drop_scores(
    was: Records,
    key: Seq<u8>,
    version: u64,
    members: Seq<Seq<u8>>,
) -> Records
    decreases members.len(),
{
    if members.len() == 0 {
        was
    } else {
        let db = drop_scores(was, key, version, members.drop_last());
        let member = members.last();
        let name = sub_name(key, version, member);
        if was.contains_key(name) {
            db.remove(name).remove(
                index_name(key, version, stored_score(was[name])->0, member),
            )
        } else {
            db
        }
    }
}

/// `ZREM`: the members are gone; how many were there.
pub open spec fn zrem_op(s: StoreView, now: Now, key: Seq<u8>, members: Seq<Seq<u8>>) -> (
    StoreView,
    Answer<i64>,
) {
    let s0 = swept(s, now, key);
    match typed(s, now, key, TYPE_ZSET) {
        Ok(Some(meta)) => {
            let removed = present_count(s0.db, key, meta.version, members);
            if bad_score(s0.db, key, meta.version, members) {
                (s0, corrupt("undecodable zset member score"@))
            } else {
                (
                    members_left(
                        s0,
                        key,
                        meta,
                        drop_scores(s0.db, key, meta.version, members),
                        removed,
                    ),
                    Ok(removed as i64),
                )
            }
        },
        Ok(None) => (s0, Ok(0)),
        Err(e) => (s0, Err(e)),
    }
}

/// The ranks that `start` and `stop`, both of them included, select among `len` elements;
/// negative ones count from the end. `None` where they select nothing.
pub open spec fn rank_range(start: i64, stop: i64, len: i64) -> Option<(int, int)> {
    let lo = if start < 0 {
        start + len
    } else {
        start as int
    };
    let hi = if stop < 0 {
        stop + len
    } else {
        stop as int
    };
    let lo = if lo < 0 {
        0
    } else {
        lo
    };
    let hi = if hi > len - 1 {
        len - 1
    } else {
        hi
    };
    if len <= 0 || lo > hi {
        None
    } else {
        Some((lo, hi))
    }
}

/// The records from rank `lo` to rank `hi`, as far as there are any.
pub open spec fn ranked(items: Seq<(Seq<u8>, Seq<u8>)>, lo: int, hi: int) -> Seq<
    (Seq<u8>, Seq<u8>),
> {
    let end = if hi + 1 < items.len() {
        hi + 1
    } else {
        items.len() as int
    };
    if lo < end {
        items.subrange(lo, end)
    } else {
        Seq::empty()
    }
}

/// The members and scores that score-index records hold, behind a prefix of `n` bytes.
pub open spec fn index_items(items: Seq<(Seq<u8>, Seq<u8>)>, n: nat) -> Answer<
    Seq<(Seq<u8>, u64)>,
>
    decreases items.len(),
{
    if items.len() == 0 {
        Ok(Seq::empty())
    } else {
        match index_items(items.drop_last(), n) {
            Ok(list) => match index_suffix(items.last().0.skip(n as int)) {
                Some((score, member)) => Ok(list.push((member, score))),
                None => corrupt("undecodable zset score index"@),
            },
            Err(e) => Err(e),
        }
    }
}

/// `ZRANGE`: the members of the given ranks and their scores, in the order of score and member.
pub open spec fn zrange_op(s: StoreView, now: Now, key: Seq<u8>, start: i64, stop: i64) -> (
    StoreView,
    Answer<Seq<(Seq<u8>, u64)>>,
) {
    let s0 = swept(s, now, key);
    (
        s0,
        match typed(s, now, key, TYPE_ZSET) {
            Ok(Some(meta)) => match rank_range(start, stop, meta.count() as i64) {
                Some((lo, hi)) => {
                    let prefix = owner_prefix(ZSCORE_PREFIX, key, meta.version);
                    index_items(ranked(scan(s0.db, prefix), lo, hi), prefix.len())
                },
                None => Ok(Seq::empty()),
            },
            Ok(None) => Ok(Seq::empty()),
            Err(e) => Err(e),
        },
    )
}

/// The bounds of a range of scores.
pub struct ScoreRange {
    pub min: u64,
    pub min_exclusive: bool,
    pub max: u64,
    pub max_exclusive: bool,
}

impl ScoreRange {
    /// The score is past the upper bound.
    pub open spec fn above(self, score: u64) -> bool {
        score_less(self.max, score) || self.max_exclusive && score_same(score, self.max)
    }

    /// The score is before the lower bound.
    pub open spec fn below(self, score: u64) -> bool {
        score_less(score, self.min) || self.min_exclusive && score_same(score, self.min)
    }
}

/// `list` behind `front`.
pub open spec fn scores_behind(
    front: Seq<(Seq<u8>, u64)>,
    list: Answer<Seq<(Seq<u8>, u64)>>,
) -> Answer<Seq<(Seq<u8>, u64)>> {
    match list {
        Ok(rest) => Ok(front + rest),
        Err(e) => Err(e),
    }
}

/// The members and scores within a range, up to the first that is past it; the records come in
/// the order of the scores.
pub open spec fn scores_within(
    items: Seq<(Seq<u8>, Seq<u8>)>,
    n: nat,
    range: ScoreRange,
) -> Answer<Seq<(Seq<u8>, u64)>>
    decreases items.len(),
{
    if items.len() == 0 {
        Ok(Seq::empty())
    } else {
        match index_suffix(items[0].0.skip(n as int)) {
            Some((score, member)) => if range.above(score) {
                Ok(Seq::empty())
            } else if range.below(score) {
                scores_within(items.skip(1), n, range)
            } else {
                scores_behind(
                    seq![(member, score)],
                    scores_within(items.skip(1), n, range),
                )
            },
            None => corrupt("undecodable zset score index"@),
        }
    }
}

/// `ZRANGEBYSCORE`: the members with scores in the range, in the order of score and member.
pub open spec fn zrange_by_score_op(s: StoreView, now: Now, key: Seq<u8>, range: ScoreRange) -> (
    StoreView,
    Answer<Seq<(Seq<u8>, u64)>>,
) {
    let s0 = swept(s, now, key);
    (
        s0,
        match typed(s, now, key, TYPE_ZSET) {
            Ok(Some(meta)) => {
                let prefix = owner_prefix(ZSCORE_PREFIX, key, meta.version);
                scores_within(scan(s0.db, prefix), prefix.len(), range)
            },
            Ok(None) => Ok(Seq::empty()),
            Err(e) => Err(e),
        },
    )
}

// ---------------------------------------------------------------------------
// Lists
// ---------------------------------------------------------------------------
/// The key of the record of a list element.
pub open spec fn element_name(key: Seq<u8>, version: u64, index: int) -> Seq<u8> {
    sub_name(key, version, be(index as nat, 8))
}

/// The bounds of a list, the first no greater than the second.
pub open spec fn sound_bounds(meta: MetaView) -> Option<(u64, u64)> {
    match meta.bounds() {
        Some((head, tail)) => if head <= tail {
            Some((head, tail))
        } else {
            None
        },
        None => None,
    }
}

/// The records with `values` before the index `head`, one after another.
pub open spec fn put_left(
    db: Records,
    key: Seq<u8>,
    version: u64,
    head: int,
    values: Seq<Seq<u8>>,
) -> Records
    decreases values.len(),
{
    if values.len() == 0 {
        db
    } else {
        put_left(db, key, version, head, values.drop_last()).insert(
            element_name(key, version, head - values.len()),
            values.last(),
        )
    }
}

/// The records with `values` from the index `tail` on, one after another.
pub open spec fn put_right(
    db: Records,
    key: Seq<u8>,
    version: u64,
    tail: int,
    values: Seq<Seq<u8>>,
) -> Records
    decreases values.len(),
{
    if values.len() == 0 {
        db
    } else {
        put_right(db, key, version, tail, values.drop_last()).insert(
            element_name(key, version, tail + values.len() - 1),
            values.last(),
        )
    }
}

/// `LPUSH` and `RPUSH`: the values are at that end; how many elements there are. Bounds that are
/// not sound, or leave no room, are an error.
pub open spec fn push_op(
    s: StoreView,
    now: Now,
    key: Seq<u8>,
    values: Seq<Seq<u8>>,
    left: bool,
) -> (StoreView, Answer<i64>) {
    let s0 = swept(s, now, key);
    match typed(s, now, key, TYPE_LIST) {
        Ok(found) => {
            let start = be(LIST_INITIAL_INDEX as nat, 8) + be(LIST_INITIAL_INDEX as nat, 8);
            let (s1, meta) = found_or_fresh(s0, now, key, found, TYPE_LIST, start);
            match sound_bounds(meta) {
                Some((head, tail)) => {
                    let n = values.len() as int;
                    if left && head < n || !left && tail + n > u64::MAX {
                        (s1, corrupt("undecodable list bounds"@))
                    } else if left {
                        (
                            with_meta(
                                with_db(s1, put_left(s1.db, key, meta.version, head as int, values)),
                                key,
                                meta.with_bounds((head - n) as u64, tail),
                            ),
                            Ok((tail - (head - n)) as i64),
                        )
                    } else {
                        (
                            with_meta(
                                with_db(
                                    s1,
                                    put_right(s1.db, key, meta.version, tail as int, values),
                                ),
                                key,
                                meta.with_bounds(head, (tail + n) as u64),
                            ),
                            Ok((tail + n - head) as i64),
                        )
                    }
                },
                None => (s1, corrupt("undecodable list bounds"@)),
            }
        },
        Err(e) => (s0, Err(e)),
    }
}

/// The index of the `i`-th element from that end.
pub open spec fn end_index(head: u64, tail: u64, left: bool, i: int) -> int {
    if left {
        head + i
    } else {
        tail - 1 - i
    }
}

/// The `n` elements at that end, the outermost first; an error where one of them has no record.
pub open spec fn end_elements(
    db: Records,
    key: Seq<u8>,
    version: u64,
    head: u64,
    tail: u64,
    left: bool,
    n: nat,
) -> Answer<Seq<Seq<u8>>>
    decreases n,
{
    if n == 0 {
        Ok(Seq::empty())
    } else {
        match end_elements(db, key, version, head, tail, left, (n - 1) as nat) {
            Ok(list) => match value_at(
                db,
                element_name(key, version, end_index(head, tail, left, n - 1)),
            ) {
                Some(value) => Ok(list.push(value)),
                None => corrupt("missing list element record"@),
            },
            Err(e) => Err(e),
        }
    }
}

/// The records without the `n` elements at that end.
pub open spec fn drop_elements(
    db: Records,
    key: Seq<u8>,
    version: u64,
    head: u64,
    tail: u64,
    left: bool,
    n: nat,
) -> Records
    decreases n,
{
    if n == 0 {
        db
    } else {
        drop_elements(db, key, version, head, tail, left, (n - 1) as nat).remove(
            element_name(key, version, end_index(head, tail, left, n - 1)),
        )
    }
}

/// `LPOP` and `RPOP`: up to `count` elements off that end, the outermost first. Without its last
/// element the list is gone.
pub open spec fn pop_op(s: StoreView, now: Now, key: Seq<u8>, count: usize, left: bool) -> (
    StoreView,
    Answer<Seq<Seq<u8>>>,
) {
    let s0 = swept(s, now, key);
    match typed(s, now, key, TYPE_LIST) {
        Ok(Some(meta)) => match sound_bounds(meta) {
            Some((head, tail)) => {
                let n = if count < tail - head {
                    count as nat
                } else {
                    (tail - head) as nat
                };
                match end_elements(s0.db, key, meta.version, head, tail, left, n) {
                    Ok(list) => {
                        let db = drop_elements(s0.db, key, meta.version, head, tail, left, n);
                        (
                            if n == 0 {
                                s0
                            } else if n == tail - head {
                                without(with_db(s0, db), key)
                            } else if left {
                                with_meta(
                                    with_db(s0, db),
                                    key,
                                    meta.with_bounds((head + n) as u64, tail),
                                )
                            } else {
                                with_meta(
                                    with_db(s0, db),
                                    key,
                                    meta.with_bounds(head, (tail - n) as u64),
                                )
                            },
                            Ok(list),
                        )
                    },
                    Err(e) => (s0, Err(e)),
                }
            },
            None => (s0, corrupt("undecodable list bounds"@)),
        },
        Ok(None) => (s0, Ok(Seq::empty())),
        Err(e) => (s0, Err(e)),
    }
}

/// The elements with the indexes from `from` up to `to`; an error where one has no record.
pub open spec fn elements(db: Records, key: Seq<u8>, version: u64, from: int, to: int) -> Answer<
    Seq<Seq<u8>>,
>
    decreases to - from,
{
    if to <= from {
        Ok(Seq::empty())
    } else {
        match elements(db, key, version, from, to - 1) {
            Ok(list) => match value_at(db, element_name(key, version, to - 1)) {
                Some(value) => Ok(list.push(value)),
                None => corrupt("missing list element record"@),
            },
            Err(e) => Err(e),
        }
    }
}

/// `LRANGE`: the elements of the given ranks.
pub open spec fn lrange_op(s: StoreView, now: Now, key: Seq<u8>, start: i64, stop: i64) -> (
    StoreView,
    Answer<Seq<Seq<u8>>>,
) {
    let s0 = swept(s, now, key);
    (
        s0,
        match typed(s, now, key, TYPE_LIST) {
            Ok(Some(meta)) => match sound_bounds(meta) {
                Some((head, tail)) => match rank_range(start, stop, (tail - head) as i64) {
                    Some((lo, hi)) => elements(
                        s0.db,
                        key,
                        meta.version,
                        head + lo,
                        head + hi + 1,
                    ),
                    None => Ok(Seq::empty()),
                },
                None => corrupt("undecodable list bounds"@),
            },
            Ok(None) => Ok(Seq::empty()),
            Err(e) => Err(e),
        },
    )
}

/// `LLEN`: how many elements there are.
pub open spec fn llen_op(s: StoreView, now: Now, key: Seq<u8>) -> (StoreView, Answer<i64>) {
    (
        swept(s, now, key),
        match typed(s, now, key, TYPE_LIST) {
            Ok(Some(meta)) => match sound_bounds(meta) {
                Some((head, tail)) => Ok((tail - head) as i64),
                None => Ok(0),
            },
            Ok(None) => Ok(0),
            Err(e) => Err(e),
        },
    )
}

// ---------------------------------------------------------------------------
// All records
// ---------------------------------------------------------------------------
/// `DBSIZE`: how many metadata records there are.
pub open spec fn dbsize_op(s: StoreView) -> (StoreView, Answer<i64>) {
    (s, Ok(scan(s.db, seq![META_PREFIX]).len() as i64))
}

/// `RAWCOUNT`: how many records of members there are, garbage included.
pub open spec fn rawcount_op(s: StoreView) -> (StoreView, Answer<i64>) {
    (
        s,
        Ok((scan(s.db, seq![SUBKEY_PREFIX]).len() + scan(s.db, seq![ZSCORE_PREFIX]).len()) as i64),
    )
}

/// `COMPACT`: the garbage is gone.
pub open spec fn compact_op(s: StoreView) -> (StoreView, Answer<()>) {
    (
        with_db(
            s,
            Map::new(
                |k: Seq<u8>| s.db.contains_key(k) && is_current(s.versions, k),
                |k: Seq<u8>| s.db[k],
            ),
        ),
        Ok(()),
    )
}

/// The record is one of a store: metadata, a subkey or a score index.
pub open spec fn is_record(raw: Seq<u8>) -> bool {
    raw.len() > 0 && (raw[0] == META_PREFIX || raw[0] == SUBKEY_PREFIX || raw[0] == ZSCORE_PREFIX)
}

/// `FLUSHALL`: no key is left.
pub open spec fn flush_op(s: StoreView) -> (StoreView, Answer<()>) {
    (
        StoreView {
            db: Map::new(
                |k: Seq<u8>| s.db.contains_key(k) && !is_record(k),
                |k: Seq<u8>| s.db[k],
            ),
            versions: Map::empty(),
            ..s
        },
        Ok(()),
    )
}

/// The version in the metadata of a key, where there is any that can be decoded.
pub open spec fn version_at(db: Records, key: Seq<u8>) -> Option<u64> {
    match value_at(db, meta_name(key)) {
        Some(raw) => match meta_of(raw) {
            Some(meta) => Some(meta.version),
            None => None,
        },
        None => None,
    }
}

/// `last` is the greatest version in any metadata, or zero where there is none.
pub open spec fn is_last_version(db: Records, last: u64) -> bool {
    &&& forall|key: Seq<u8>| (#[trigger] version_at(db, key)) matches Some(v) ==> v <= last
    &&& last == 0 || exists|key: Seq<u8>| #[trigger] version_at(db, key) == Some(last)
}

/// The versions that the metadata records give.
pub open spec fn rebuilt(db: Records) -> Map<Seq<u8>, u64> {
    Map::new(
        |k: Seq<u8>|
            db.contains_key(meta_name(k)) && (meta_of(db[meta_name(k)]) matches Some(meta)
                && meta.composite()),
        |k: Seq<u8>| meta_of(db[meta_name(k)])->0.version,
    )
}

} // verus!
