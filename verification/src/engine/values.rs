//! The values that the records of a store stand for, and when records fit together.
use vstd::prelude::*;

use super::bigend::{be, be_ranges, be_reads_back};
use super::encoding::{
    index_key_reads_back, index_name, index_suffix, meta_keys_differ, meta_name, meta_of,
    owner_prefix, record_key_reads_back, record_owner, score_bytes, sub_name, MetaView, META_PREFIX,
    SUBKEY_PREFIX, TYPE_HASH, TYPE_LIST, TYPE_SET, TYPE_STRING, TYPE_ZSET, ZSCORE_PREFIX,
};
use super::engine::{value_at, Records};
use super::model::{
    element_name, has_field, next_version, sound_bounds, stored, stored_score, Now, StoreView,
};

verus! {

/// What a key can hold.
#[verifier::ext_equal]
pub enum Value {
    /// A byte string.
    Text(Seq<u8>),
    /// Fields and their values.
    Fields(Map<Seq<u8>, Seq<u8>>),
    /// A set of members.
    Members(Set<Seq<u8>>),
    /// Members and the bits of their scores.
    Scores(Map<Seq<u8>, u64>),
    /// A sequence of elements.
    Items(Seq<Seq<u8>>),
}

/// A value and when its time is up (zero for never).
#[verifier::ext_equal]
pub struct Entry {
    pub value: Value,
    pub expire_ms: u64,
}

/// The fields of one version of a key, and their values.
pub open spec fn fields_of(db: Records, key: Seq<u8>, version: u64) -> Map<Seq<u8>, Seq<u8>> {
    Map::new(
        |f: Seq<u8>| has_field(db, key, version, f),
        |f: Seq<u8>| db[sub_name(key, version, f)],
    )
}

/// The members of one version of a key, and their scores.
pub open spec fn scores_of(db: Records, key: Seq<u8>, version: u64) -> Map<Seq<u8>, u64> {
    Map::new(
        |m: Seq<u8>| has_field(db, key, version, m),
        |m: Seq<u8>| stored_score(db[sub_name(key, version, m)])->0,
    )
}

/// The elements of one version of a list.
pub open spec fn items_of(db: Records, key: Seq<u8>, version: u64, head: u64, tail: u64) -> Seq<
    Seq<u8>,
> {
    Seq::new((tail - head) as nat, |i: int| db[element_name(key, version, head + i)])
}

/// The value that metadata and records stand for.
pub open spec fn value_of(db: Records, key: Seq<u8>, meta: MetaView) -> Value {
    if meta.type_id == TYPE_STRING {
        Value::Text(meta.payload)
    } else if meta.type_id == TYPE_HASH {
        Value::Fields(fields_of(db, key, meta.version))
    } else if meta.type_id == TYPE_SET {
        Value::Members(fields_of(db, key, meta.version).dom())
    } else if meta.type_id == TYPE_ZSET {
        Value::Scores(scores_of(db, key, meta.version))
    } else {
        match sound_bounds(meta) {
            Some((head, tail)) => Value::Items(items_of(db, key, meta.version, head, tail)),
            None => Value::Items(Seq::empty()),
        }
    }
}

/// What is stored at a key, whether or not its time is up.
pub open spec fn entry(s: StoreView, key: Seq<u8>) -> Option<Entry> {
    match stored(s, key) {
        Ok(Some(meta)) => Some(
            Entry { value: value_of(s.db, key, meta), expire_ms: meta.expire_ms },
        ),
        _ => None,
    }
}

/// What a reader sees at a key.
pub open spec fn visible(s: StoreView, now: Now, key: Seq<u8>) -> Option<Entry> {
    match entry(s, key) {
        Some(e) => if e.expire_ms != 0 && now.ms >= e.expire_ms {
            None
        } else {
            Some(e)
        },
        None => None,
    }
}

/// Each member has a score, there is an index record for each member and its score, and none
/// besides.
pub open spec fn sound_scores(db: Records, key: Seq<u8>, version: u64) -> bool {
    &&& forall|m: Seq<u8>| #[trigger]
        has_field(db, key, version, m) ==> stored_score(db[sub_name(key, version, m)]) is Some
            && db.contains_key(index_name(key, version, scores_of(db, key, version)[m], m))
    &&& forall|rest: Seq<u8>| #[trigger]
        db.contains_key(owner_prefix(ZSCORE_PREFIX, key, version) + rest) ==> (index_suffix(
            rest,
        ) matches Some((score, m)) && has_field(db, key, version, m) && scores_of(
            db,
            key,
            version,
        )[m] == score)
}

/// Each index within the bounds of a list has an element.
pub open spec fn sound_items(
    db: Records,
    key: Seq<u8>,
    version: u64,
    head: u64,
    tail: u64,
) -> bool {
    forall|i: int| head <= i < tail ==> db.contains_key(#[trigger] element_name(key, version, i))
}

/// The metadata of a key and its records fit together.
pub open spec fn sound_meta(s: StoreView, key: Seq<u8>, meta: MetaView) -> bool {
    &&& key.len() <= u32::MAX
    &&& meta.type_id == TYPE_STRING || meta.composite()
    &&& meta.composite() == s.versions.contains_key(key)
    &&& meta.composite() ==> s.versions[key] == meta.version
    &&& meta.counted() ==> {
        let fields = fields_of(s.db, key, meta.version).dom();
        fields.finite() && fields.len() >= 1 && meta.count() == fields.len()
    }
    &&& meta.type_id == TYPE_ZSET ==> sound_scores(s.db, key, meta.version)
    &&& meta.type_id == TYPE_LIST ==> (sound_bounds(meta) matches Some((head, tail)) && head < tail
        && sound_items(s.db, key, meta.version, head, tail))
}

/// The records of a key fit together, and it has a current version if it holds a composite value.
pub open spec fn sound_key(s: StoreView, key: Seq<u8>) -> bool {
    match value_at(s.db, meta_name(key)) {
        Some(raw) => meta_of(raw) matches Some(meta) && sound_meta(s, key, meta),
        None => !s.versions.contains_key(key),
    }
}

/// The records of a store fit together. This says nothing of the clock, so that it holds of a store
/// that was just opened as well.
pub open spec fn sound(s: StoreView) -> bool {
    forall|key: Seq<u8>| #[trigger] sound_key(s, key)
}

/// The next version is greater than that of any record: a value that is made now has no records
/// yet.
pub open spec fn fresh(s: StoreView, now: Now) -> bool {
    forall|raw: Seq<u8>| #[trigger]
        s.db.contains_key(raw) ==> (record_owner(raw) matches Some((_, v)) ==> v < next_version(
            s.clock,
            now.micros,
        ))
}

/// No record and no key has a version past `last`.
pub open spec fn versions_upto(s: StoreView, last: u64) -> bool {
    &&& forall|raw: Seq<u8>| #[trigger]
        s.db.contains_key(raw) ==> (record_owner(raw) matches Some((_, v)) ==> v <= last)
    &&& forall|key: Seq<u8>| #[trigger] s.versions.contains_key(key) ==> s.versions[key] <= last
}

/// The clock did not go back, and the only version in `t` that may be past those in `s` is the one
/// that the clock stands at.
pub open spec fn adds_only(s: StoreView, t: StoreView) -> bool {
    &&& s.clock <= t.clock
    &&& forall|last: u64| #[trigger]
        versions_upto(s, last) && t.clock <= last ==> versions_upto(t, last)
}

/// Where all versions lie before the next one, a value that is made now has no records yet. In a
/// store that has run since it was empty the last version is the one that the clock stands at; in
/// one that was opened the machine's clock must have moved past it.
pub proof fn upto_is_fresh(s: StoreView, now: Now, last: u64)
    requires
        versions_upto(s, last),
        last < next_version(s.clock, now.micros),
    ensures
        fresh(s, now),
{
}

/// As long as a store is not opened again, no version is past the one that its clock stands at, so
/// that the next one is always greater than that of any record.
pub proof fn clock_stays_ahead(s: StoreView, t: StoreView, now: Now)
    requires
        versions_upto(s, s.clock),
        adds_only(s, t),
    ensures
        versions_upto(t, t.clock),
        t.clock < u64::MAX ==> fresh(t, now),
{
    assert(versions_upto(s, t.clock));
    if t.clock < u64::MAX {
        upto_is_fresh(t, now, t.clock);
    }
}

/// An empty store is sound.
pub proof fn empty_is_sound(s: StoreView)
    requires
        s.db == Map::<Seq<u8>, Seq<u8>>::empty(),
        s.versions == Map::<Seq<u8>, u64>::empty(),
    ensures
        sound(s),
        versions_upto(s, s.clock),
{
}

// ---------------------------------------------------------------------------
// Whose record is it
// ---------------------------------------------------------------------------
/// A record of one of the two families with owners belongs to its owner's key and version.
pub proof fn owner_of_record(family: u8, key: Seq<u8>, version: u64, rest: Seq<u8>)
    requires
        key.len() <= u32::MAX,
        family == SUBKEY_PREFIX || family == ZSCORE_PREFIX,
    ensures
        record_owner(owner_prefix(family, key, version) + rest) == Some((key, version)),
        (owner_prefix(family, key, version) + rest)[0] == family,
        (owner_prefix(family, key, version) + rest).len() > 0,
{
    record_key_reads_back(family, key, version, rest);
}

/// The record of a field belongs to its owner's key and version.
pub proof fn owner_of_field(key: Seq<u8>, version: u64, field: Seq<u8>)
    requires
        key.len() <= u32::MAX,
    ensures
        record_owner(sub_name(key, version, field)) == Some((key, version)),
        sub_name(key, version, field)[0] == SUBKEY_PREFIX,
        sub_name(key, version, field).len() > 0,
{
    owner_of_record(SUBKEY_PREFIX, key, version, field);
}

/// A score-index record belongs to its owner's key and version.
pub proof fn owner_of_index(key: Seq<u8>, version: u64, score: u64, member: Seq<u8>)
    requires
        key.len() <= u32::MAX,
    ensures
        record_owner(index_name(key, version, score, member)) == Some((key, version)),
        index_name(key, version, score, member)[0] == ZSCORE_PREFIX,
        index_name(key, version, score, member).len() > 0,
{
    index_key_reads_back(key, version, score, member);
    owner_of_record(ZSCORE_PREFIX, key, version, score_bytes(score) + member);
}

/// A metadata record belongs to no version.
pub proof fn meta_has_no_owner(key: Seq<u8>)
    ensures
        record_owner(meta_name(key)) is None,
        meta_name(key)[0] == META_PREFIX,
        meta_name(key).len() > 0,
{
}

/// Different fields have different records.
pub proof fn field_names_differ(key: Seq<u8>, version: u64, f: Seq<u8>, g: Seq<u8>)
    requires
        sub_name(key, version, f) == sub_name(key, version, g),
    ensures
        f == g,
{
    let p = owner_prefix(SUBKEY_PREFIX, key, version);
    assert(sub_name(key, version, f).skip(p.len() as int) =~= f);
    assert(sub_name(key, version, g).skip(p.len() as int) =~= g);
}

/// Different list indexes have different records.
pub proof fn element_names_differ(key: Seq<u8>, version: u64, i: int, j: int)
    requires
        0 <= i <= u64::MAX,
        0 <= j <= u64::MAX,
        element_name(key, version, i) == element_name(key, version, j),
    ensures
        i == j,
{
    field_names_differ(key, version, be(i as nat, 8), be(j as nat, 8));
    be_ranges();
    be_reads_back(i as nat, 8);
    be_reads_back(j as nat, 8);
}

// ---------------------------------------------------------------------------
// What an operation on one key leaves alone
// ---------------------------------------------------------------------------
/// The record is the metadata of `key` or belongs to it.
pub open spec fn belongs(raw: Seq<u8>, key: Seq<u8>) -> bool {
    raw == meta_name(key) || (record_owner(raw) matches Some((k, _)) && k == key)
}

/// The two states differ in nothing but what belongs to `key`, and in the clock having moved on.
pub open spec fn same_but(s: StoreView, t: StoreView, key: Seq<u8>) -> bool {
    &&& forall|raw: Seq<u8>|
        !belongs(raw, key) ==> (#[trigger] s.db.contains_key(raw) == t.db.contains_key(raw)) && (
        s.db.contains_key(raw) ==> s.db[raw] == t.db[raw])
    &&& forall|k: Seq<u8>|
        k != key ==> (#[trigger] s.versions.contains_key(k) == t.versions.contains_key(k)) && (
        s.versions.contains_key(k) ==> s.versions[k] == t.versions[k])
    &&& s.clock <= t.clock
}

/// What `t` has of `key` has a version that `s` knew, or the one that the clock of `t` stands at.
pub open spec fn draws(s: StoreView, t: StoreView, key: Seq<u8>) -> bool {
    &&& forall|raw: Seq<u8>| #[trigger]
        t.db.contains_key(raw) && belongs(raw, key) ==> (record_owner(raw) matches Some((_, v))
            ==> s.db.contains_key(raw) || v == t.clock || s.versions.contains_key(key) && v
            == s.versions[key])
    &&& t.versions.contains_key(key) ==> t.versions[key] == t.clock || s.versions.contains_key(key)
        && t.versions[key] == s.versions[key]
}

/// Whatever happens to one key, the others keep their values, and their records still fit.
pub proof fn others_unharmed(s: StoreView, t: StoreView, key: Seq<u8>, other: Seq<u8>)
    requires
        same_but(s, t, key),
        sound_key(s, other),
        other != key,
    ensures
        sound_key(t, other),
        entry(t, other) == entry(s, other),
{
    let name = meta_name(other);
    meta_has_no_owner(other);
    if name == meta_name(key) {
        meta_keys_differ(other, key);
    }
    assert(!belongs(name, key));
    assert(s.db.contains_key(name) == t.db.contains_key(name));
    if s.db.contains_key(name) {
        let meta = meta_of(s.db[name])->0;
        let v = meta.version;
        assert forall|f: Seq<u8>| has_field(t.db, other, v, f) == has_field(s.db, other, v, f) && (
        has_field(s.db, other, v, f) ==> t.db[sub_name(other, v, f)] == s.db[sub_name(
            other,
            v,
            f,
        )]) by {
            record_of_other(SUBKEY_PREFIX, other, v, f, key);
            assert(s.db.contains_key(sub_name(other, v, f)) == t.db.contains_key(
                sub_name(other, v, f),
            ));
        }
        assert(fields_of(t.db, other, v) =~= fields_of(s.db, other, v));
        assert(scores_of(t.db, other, v) =~= scores_of(s.db, other, v));
        assert forall|rest: Seq<u8>| s.db.contains_key(
            #[trigger] (owner_prefix(ZSCORE_PREFIX, other, v) + rest),
        ) == t.db.contains_key(owner_prefix(ZSCORE_PREFIX, other, v) + rest) by {
            record_of_other(ZSCORE_PREFIX, other, v, rest, key);
        }
        if meta.type_id == TYPE_ZSET {
            assert forall|m: Seq<u8>| #[trigger] has_field(t.db, other, v, m) implies stored_score(
                t.db[sub_name(other, v, m)],
            ) is Some && t.db.contains_key(
                index_name(other, v, scores_of(t.db, other, v)[m], m),
            ) by {
                assert(has_field(s.db, other, v, m));
                let score = scores_of(s.db, other, v)[m];
                index_key_reads_back(other, v, score, m);
                assert(s.db.contains_key(
                    owner_prefix(ZSCORE_PREFIX, other, v) + (score_bytes(score) + m),
                ));
            }
            assert forall|rest: Seq<u8>| #[trigger] t.db.contains_key(
                owner_prefix(ZSCORE_PREFIX, other, v) + rest,
            ) implies (index_suffix(rest) matches Some((score, m)) && has_field(t.db, other, v, m)
                && scores_of(t.db, other, v)[m] == score) by {
                assert(s.db.contains_key(owner_prefix(ZSCORE_PREFIX, other, v) + rest));
            }
        }
        if let Some((head, tail)) = sound_bounds(meta) {
            assert forall|i: int| s.db.contains_key(#[trigger] element_name(other, v, i))
                == t.db.contains_key(element_name(other, v, i)) by {
                assert(has_field(t.db, other, v, be(i as nat, 8)) == has_field(
                    s.db,
                    other,
                    v,
                    be(i as nat, 8),
                ));
            }
            if meta.type_id == TYPE_LIST {
                let a = items_of(s.db, other, v, head, tail);
                let b = items_of(t.db, other, v, head, tail);
                assert forall|i: int| 0 <= i < a.len() implies a[i] == b[i] by {
                    assert(s.db.contains_key(element_name(other, v, head + i)));
                    assert(has_field(s.db, other, v, be((head + i) as nat, 8)));
                }
                assert(a =~= b);
            }
        }
    }
    assert(s.versions.contains_key(other) == t.versions.contains_key(other));
}

/// A record of another key does not belong to this one.
proof fn record_of_other(family: u8, other: Seq<u8>, version: u64, rest: Seq<u8>, key: Seq<u8>)
    requires
        other.len() <= u32::MAX,
        other != key,
        family == SUBKEY_PREFIX || family == ZSCORE_PREFIX,
    ensures
        !belongs(owner_prefix(family, other, version) + rest, key),
{
    owner_of_record(family, other, version, rest);
    meta_has_no_owner(key);
}

} // verus!
