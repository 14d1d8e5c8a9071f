//! What holds of a store as a whole.
//!
//! The laws speak of the values that the records stand for ([`entry`], [`visible`]) and of stores
//! whose records fit together ([`sound`]): every operation keeps that so, does to the value at its
//! key what it promises, and leaves all other keys alone.
pub mod counts;
pub mod lists;
pub mod members;
pub mod reads;
pub mod records;
pub mod scores;
pub mod whole;

use vstd::prelude::*;

use crate::engine::bigend::be;
use crate::engine::encoding::{
    bounds_read_back, count_reads_back, index_name, index_suffix, meta_name, meta_reads_back,
    owner_prefix, record_owner, sub_name, MetaView, LIST_INITIAL_INDEX, TYPE_HASH, TYPE_LIST,
    TYPE_SET, TYPE_STRING, TYPE_ZSET, ZSCORE_PREFIX,
};
use crate::engine::engine::Records;
use crate::engine::error::EngineErrorView;
use crate::engine::model::{
    del_op, exists_op, expire_op, found_or_fresh, get_op, has_field, live, next_version, pttl_op,
    set_op, sound_bounds, stored, stored_score, swept, type_op, typed, with_db, with_meta, without,
    Now, StoreView,
};
use crate::engine::values::{
    adds_only, belongs, draws, entry, fields_of, fresh, items_of, meta_has_no_owner,
    others_unharmed, owner_of_field, owner_of_index, owner_of_record, same_but, scores_of, sound,
    sound_items, sound_key, sound_meta, sound_scores, value_of, versions_upto, visible, Entry,
    Value,
};

verus! {

// ---------------------------------------------------------------------------
// One key at a time
// ---------------------------------------------------------------------------
/// A change to one key of a sound store leaves a sound store if the records of that key fit, and
/// leaves the other keys their values.
pub proof fn one_key_changes(s: StoreView, t: StoreView, key: Seq<u8>)
    requires
        sound(s),
        same_but(s, t, key),
        sound_key(t, key),
        draws(s, t, key),
    ensures
        sound(t),
        adds_only(s, t),
        forall|k: Seq<u8>| k != key ==> #[trigger] entry(t, k) == entry(s, k),
{
    assert forall|k: Seq<u8>| #[trigger] sound_key(t, k) by {
        if k != key {
            assert(sound_key(s, k));
            others_unharmed(s, t, key, k);
        }
    }
    assert forall|k: Seq<u8>| k != key implies #[trigger] entry(t, k) == entry(s, k) by {
        assert(sound_key(s, k));
        others_unharmed(s, t, key, k);
    }
    assert forall|last: u64| #[trigger] versions_upto(s, last) && t.clock <= last implies
        versions_upto(t, last) by {
        assert forall|raw: Seq<u8>| #[trigger] t.db.contains_key(raw) implies (record_owner(
            raw,
        ) matches Some((_, v)) ==> v <= last) by {
            if !belongs(raw, key) {
                assert(s.db.contains_key(raw) == t.db.contains_key(raw));
            }
        }
        assert forall|k: Seq<u8>| #[trigger] t.versions.contains_key(k) implies t.versions[k]
            <= last by {
            if k != key {
                assert(s.versions.contains_key(k) == t.versions.contains_key(k));
            }
        }
    }
}

/// Taking a key away keeps a store sound and leaves the other keys their values.
pub proof fn without_is_sound(s: StoreView, key: Seq<u8>)
    requires
        sound(s),
    ensures
        sound(without(s, key)),
        adds_only(s, without(s, key)),
        same_but(s, without(s, key), key),
        draws(s, without(s, key), key),
        entry(without(s, key), key) is None,
        forall|k: Seq<u8>| k != key ==> #[trigger] entry(without(s, key), k) == entry(s, k),
{
    let t = without(s, key);
    assert(same_but(s, t, key));
    one_key_changes(s, t, key);
}

/// A look at a key keeps a store sound and changes nothing that a reader sees, at any key.
pub proof fn swept_is_sound(s: StoreView, now: Now, key: Seq<u8>)
    requires
        sound(s),
    ensures
        sound(swept(s, now, key)),
        adds_only(s, swept(s, now, key)),
        same_but(s, swept(s, now, key), key),
        draws(s, swept(s, now, key), key),
        entry(swept(s, now, key), key) == visible(s, now, key),
        stored(swept(s, now, key), key) == live(s, now, key),
        live(s, now, key) is Ok,
        forall|k: Seq<u8>|
            k != key ==> #[trigger] entry(swept(s, now, key), k) == entry(s, k),
{
    assert(sound_key(s, key));
    without_is_sound(s, key);
}

/// What the metadata at a key says in a sound store.
pub proof fn stored_is_sound(s: StoreView, key: Seq<u8>)
    requires
        sound(s),
    ensures
        stored(s, key) is Ok,
        stored(s, key) matches Ok(Some(meta)) ==> sound_meta(s, key, meta) && entry(s, key) == Some(
            Entry { value: value_of(s.db, key, meta), expire_ms: meta.expire_ms },
        ),
        stored(s, key) matches Ok(None) ==> entry(s, key) is None,
{
    assert(sound_key(s, key));
}

// ---------------------------------------------------------------------------
// Versions
// ---------------------------------------------------------------------------
/// Versions grow: a version that is given out is greater than the last one, and no less than the
/// clock's microseconds.
pub proof fn versions_grow(last: u64, micros: u64)
    requires
        last < u64::MAX,
    ensures
        next_version(last, micros) > last,
        next_version(last, micros) >= micros,
{
}

/// A version that was just given out has no records: a key that is rebuilt never sees what an
/// earlier value at it left behind.
pub proof fn fresh_version_has_no_records(s: StoreView, now: Now, key: Seq<u8>)
    requires
        fresh(s, now),
        key.len() <= u32::MAX,
    ensures
        ({
            let version = next_version(s.clock, now.micros);
            &&& fields_of(s.db, key, version) == Map::<Seq<u8>, Seq<u8>>::empty()
            &&& scores_of(s.db, key, version) == Map::<Seq<u8>, u64>::empty()
            &&& sound_scores(s.db, key, version)
            &&& forall|f: Seq<u8>| !(#[trigger] has_field(s.db, key, version, f))
        }),
{
    let version = next_version(s.clock, now.micros);
    assert forall|f: Seq<u8>| !(#[trigger] has_field(s.db, key, version, f)) by {
        owner_of_field(key, version, f);
    }
    assert forall|rest: Seq<u8>| !(#[trigger] s.db.contains_key(
        owner_prefix(ZSCORE_PREFIX, key, version) + rest,
    )) by {
        owner_of_record(ZSCORE_PREFIX, key, version, rest);
    }
    assert(fields_of(s.db, key, version) =~= Map::<Seq<u8>, Seq<u8>>::empty());
    assert(scores_of(s.db, key, version) =~= Map::<Seq<u8>, u64>::empty());
}

// ---------------------------------------------------------------------------
// Strings and keys
// ---------------------------------------------------------------------------
/// `SET` makes the key hold the string, whatever it held before, and touches no other key.
pub proof fn set_law(s: StoreView, now: Now, key: Seq<u8>, value: Seq<u8>, expire_ms: u64)
    requires
        sound(s),
        key.len() <= u32::MAX,
    ensures
        ({
            let (t, r) = set_op(s, now, key, value, expire_ms);
            &&& r is Ok
            &&& sound(t)
            &&& adds_only(s, t)
            &&& entry(t, key) == Some(Entry { value: Value::Text(value), expire_ms })
            &&& forall|k: Seq<u8>| k != key ==> #[trigger] entry(t, k) == entry(s, k)
        }),
{
    let (t, r) = set_op(s, now, key, value, expire_ms);
    let meta = MetaView {
        type_id: TYPE_STRING,
        version: next_version(s.clock, now.micros),
        expire_ms,
        payload: value,
    };
    meta_reads_back(meta);
    meta_has_no_owner(key);
    assert(same_but(s, t, key));
    assert(draws(s, t, key));
    one_key_changes(s, t, key);
}

/// A string reads back from the moment it is set until its time is up, and is gone from then on.
/// This needs no sound store.
pub proof fn get_after_set(
    s: StoreView,
    now: Now,
    later: Now,
    key: Seq<u8>,
    value: Seq<u8>,
    expire_ms: u64,
)
    ensures
        ({
            let t = set_op(s, now, key, value, expire_ms).0;
            let (u, r) = get_op(t, later, key);
            &&& expire_ms == 0 || later.ms < expire_ms ==> u == t && r == Ok::<
                Option<Seq<u8>>,
                EngineErrorView,
            >(Some(value))
            &&& expire_ms != 0 && later.ms >= expire_ms ==> r == Ok::<
                Option<Seq<u8>>,
                EngineErrorView,
            >(None) && !u.db.contains_key(meta_name(key))
        }),
{
    meta_reads_back(
        MetaView {
            type_id: TYPE_STRING,
            version: next_version(s.clock, now.micros),
            expire_ms,
            payload: value,
        },
    );
}

/// `GET`, `EXISTS`, `TYPE` and `PTTL` answer from what a reader sees at the key, and change
/// nothing that a reader sees.
pub proof fn reads_law(s: StoreView, now: Now, key: Seq<u8>)
    requires
        sound(s),
    ensures
        get_op(s, now, key) == (
            swept(s, now, key),
            match visible(s, now, key) {
                Some(e) => match e.value {
                    Value::Text(text) => Ok(Some(text)),
                    _ => Err(EngineErrorView::WrongType),
                },
                None => Ok::<Option<Seq<u8>>, EngineErrorView>(None),
            },
        ),
        exists_op(s, now, key) == (
            swept(s, now, key),
            Ok::<bool, EngineErrorView>(visible(s, now, key) is Some),
        ),
        type_op(s, now, key) == (
            swept(s, now, key),
            Ok::<Seq<char>, EngineErrorView>(
                match visible(s, now, key) {
                    Some(e) => match e.value {
                        Value::Text(_) => "string"@,
                        Value::Fields(_) => "hash"@,
                        Value::Members(_) => "set"@,
                        Value::Scores(_) => "zset"@,
                        Value::Items(_) => "list"@,
                    },
                    None => "none"@,
                },
            ),
        ),
        pttl_op(s, now, key) == (
            swept(s, now, key),
            Ok::<i64, EngineErrorView>(
                match visible(s, now, key) {
                    Some(e) => if e.expire_ms == 0 {
                        (-1) as i64
                    } else {
                        (e.expire_ms - now.ms) as i64
                    },
                    None => (-2) as i64,
                },
            ),
        ),
{
    stored_is_sound(s, key);
}

/// `DEL` takes the key away and says whether a reader saw it; no other key is touched.
pub proof fn del_law(s: StoreView, now: Now, key: Seq<u8>)
    requires
        sound(s),
    ensures
        ({
            let (t, r) = del_op(s, now, key);
            &&& r == Ok::<bool, EngineErrorView>(visible(s, now, key) is Some)
            &&& sound(t)
            &&& adds_only(s, t)
            &&& entry(t, key) is None
            &&& forall|k: Seq<u8>| k != key ==> #[trigger] entry(t, k) == entry(s, k)
        }),
{
    stored_is_sound(s, key);
    without_is_sound(s, key);
    swept_is_sound(s, now, key);
}

/// `PEXPIREAT` sets when the value's time is up and leaves the value as it is; no other key is
/// touched.
pub proof fn expire_law(s: StoreView, now: Now, key: Seq<u8>, at_ms: u64)
    requires
        sound(s),
    ensures
        ({
            let (t, r) = expire_op(s, now, key, at_ms);
            &&& r == Ok::<bool, EngineErrorView>(visible(s, now, key) is Some)
            &&& sound(t)
            &&& adds_only(s, t)
            &&& entry(t, key) == match visible(s, now, key) {
                Some(e) => Some(Entry { value: e.value, expire_ms: at_ms }),
                None => None,
            }
            &&& forall|k: Seq<u8>| k != key ==> #[trigger] entry(t, k) == entry(s, k)
        }),
{
    stored_is_sound(s, key);
    swept_is_sound(s, now, key);
    if let Ok(Some(meta)) = live(s, now, key) {
        let t = expire_op(s, now, key, at_ms).0;
        let changed = MetaView { expire_ms: at_ms, ..meta };
        meta_reads_back(changed);
        assert(same_but(s, t, key));
        assert(sound_meta(t, key, changed)) by {
            sound_meta_of_fields(s, t, key, meta, changed);
        }
        meta_has_no_owner(key);
        assert(draws(s, t, key));
        one_key_changes(s, t, key);
        same_value(s.db, t.db, key, meta, changed);
    }
}

/// Records that agree on everything but metadata have the same fields, scores and elements.
proof fn same_value(a: Records, b: Records, key: Seq<u8>, m1: MetaView, m2: MetaView)
    requires
        key.len() <= u32::MAX,
        forall|raw: Seq<u8>|
            raw != meta_name(key) ==> (#[trigger] b.contains_key(raw) == a.contains_key(raw))
                && b[raw] == a[raw],
        m1.type_id == m2.type_id,
        m1.version == m2.version,
        m1.payload == m2.payload,
    ensures
        fields_of(a, key, m1.version) == fields_of(b, key, m1.version),
        scores_of(a, key, m1.version) == scores_of(b, key, m1.version),
        value_of(a, key, m1) == value_of(b, key, m2),
{
    let v = m1.version;
    assert forall|f: Seq<u8>| has_field(a, key, v, f) == has_field(b, key, v, f) && b[sub_name(
        key,
        v,
        f,
    )] == a[sub_name(key, v, f)] by {
        owner_of_field(key, v, f);
        meta_has_no_owner(key);
        assert(b.contains_key(sub_name(key, v, f)) == a.contains_key(sub_name(key, v, f)));
    }
    assert(fields_of(a, key, v) =~= fields_of(b, key, v));
    assert(scores_of(a, key, v) =~= scores_of(b, key, v));
    assert(m1.bounds() == m2.bounds());
    if let Some((head, tail)) = crate::engine::model::sound_bounds(m1) {
        let x = items_of(a, key, v, head, tail);
        let y = items_of(b, key, v, head, tail);
        assert forall|i: int| 0 <= i < x.len() implies x[i] == y[i] by {
            let f = be((head + i) as nat, 8);
            assert(has_field(a, key, v, f) == has_field(b, key, v, f));
        }
        assert(x =~= y);
    }
}

/// Metadata that differs in the expiry alone fits the same records.
proof fn sound_meta_of_fields(
    s: StoreView,
    t: StoreView,
    key: Seq<u8>,
    m1: MetaView,
    m2: MetaView,
)
    requires
        sound_meta(s, key, m1),
        t.versions == s.versions,
        t.clock == s.clock,
        forall|raw: Seq<u8>|
            raw != meta_name(key) ==> (#[trigger] t.db.contains_key(raw) == s.db.contains_key(raw))
                && t.db[raw] == s.db[raw],
        m1.type_id == m2.type_id,
        m1.version == m2.version,
        m1.payload == m2.payload,
    ensures
        sound_meta(t, key, m2),
{
    let v = m1.version;
    same_value(s.db, t.db, key, m1, m2);
    assert(m1.count() == m2.count());
    assert(m1.bounds() == m2.bounds());
    if m1.type_id == TYPE_ZSET {
        same_scores(s.db, t.db, key, v);
    }
    if m1.type_id == TYPE_LIST {
        let (head, tail) = crate::engine::model::sound_bounds(m1)->0;
        assert forall|i: int| head <= i < tail implies t.db.contains_key(
            #[trigger] crate::engine::model::element_name(key, v, i),
        ) by {
            let f = be(i as nat, 8);
            owner_of_field(key, v, f);
            meta_has_no_owner(key);
            assert(s.db.contains_key(crate::engine::model::element_name(key, v, i)));
            assert(t.db.contains_key(sub_name(key, v, f)) == s.db.contains_key(
                sub_name(key, v, f),
            ));
        }
    }
}

/// Records that agree on everything but metadata have the same sound scores.
proof fn same_scores(a: Records, b: Records, key: Seq<u8>, version: u64)
    requires
        key.len() <= u32::MAX,
        forall|raw: Seq<u8>|
            raw != meta_name(key) ==> (#[trigger] b.contains_key(raw) == a.contains_key(raw))
                && b[raw] == a[raw],
        sound_scores(a, key, version),
    ensures
        sound_scores(b, key, version),
{
    let v = version;
    assert forall|f: Seq<u8>| has_field(a, key, v, f) == has_field(b, key, v, f) && b[sub_name(
        key,
        v,
        f,
    )] == a[sub_name(key, v, f)] by {
        owner_of_field(key, v, f);
        meta_has_no_owner(key);
        assert(b.contains_key(sub_name(key, v, f)) == a.contains_key(sub_name(key, v, f)));
    }
    assert(scores_of(a, key, v) =~= scores_of(b, key, v));
    assert forall|m: Seq<u8>| #[trigger] has_field(b, key, v, m) implies stored_score(
        b[sub_name(key, v, m)],
    ) is Some && b.contains_key(index_name(key, v, scores_of(b, key, v)[m], m)) by {
        assert(has_field(a, key, v, m));
        let index = index_name(key, v, scores_of(a, key, v)[m], m);
        owner_of_index(key, v, scores_of(a, key, v)[m], m);
        meta_has_no_owner(key);
        assert(b.contains_key(index) == a.contains_key(index));
    }
    assert forall|rest: Seq<u8>| #[trigger] b.contains_key(
        owner_prefix(ZSCORE_PREFIX, key, v) + rest,
    ) implies (index_suffix(rest) matches Some((score, m)) && has_field(b, key, v, m)
        && scores_of(b, key, v)[m] == score) by {
        owner_of_record(ZSCORE_PREFIX, key, v, rest);
        meta_has_no_owner(key);
        assert(a.contains_key(owner_prefix(ZSCORE_PREFIX, key, v) + rest));
    }
}

// ---------------------------------------------------------------------------
// Composite values
// ---------------------------------------------------------------------------
/// The records of a composite value fit its metadata, which need not be stored yet, and which may
/// say that there are no members.
pub open spec fn ready(s: StoreView, key: Seq<u8>, meta: MetaView) -> bool {
    &&& key.len() <= u32::MAX
    &&& meta.composite()
    &&& s.versions.contains_key(key) && s.versions[key] == meta.version
    &&& meta.counted() ==> {
        let fields = fields_of(s.db, key, meta.version).dom();
        fields.finite() && meta.count() == fields.len()
    }
    &&& meta.type_id == TYPE_ZSET ==> sound_scores(s.db, key, meta.version)
    &&& meta.type_id == TYPE_LIST ==> (sound_bounds(meta) matches Some((head, tail))
        && sound_items(s.db, key, meta.version, head, tail))
}

/// The payload of a new composite value of the given type: no members, or no elements.
pub open spec fn fresh_payload(type_id: u8) -> Seq<u8> {
    if type_id == TYPE_LIST {
        be(LIST_INITIAL_INDEX as nat, 8) + be(LIST_INITIAL_INDEX as nat, 8)
    } else {
        be(0, 4)
    }
}

/// An operation on a composite value finds records that fit: those of the value that a reader
/// sees, or none.
pub proof fn opened(s: StoreView, now: Now, key: Seq<u8>, type_id: u8)
    requires
        sound(s),
        visible(s, now, key) is Some || fresh(s, now),
        key.len() <= u32::MAX,
        type_id == TYPE_HASH || type_id == TYPE_SET || type_id == TYPE_ZSET || type_id == TYPE_LIST,
    ensures
        typed(s, now, key, type_id) matches Ok(found) ==> {
            let s0 = swept(s, now, key);
            let (s1, meta) = found_or_fresh(
                s0,
                now,
                key,
                found,
                type_id,
                fresh_payload(type_id),
            );
            &&& ready(s1, key, meta)
            &&& meta.type_id == type_id
            &&& same_but(s, s1, key)
            &&& draws(s, s1, key)
            &&& match found {
                Some(_) => visible(s, now, key) == Some(
                    Entry { value: value_of(s1.db, key, meta), expire_ms: meta.expire_ms },
                ),
                None => {
                    &&& visible(s, now, key) is None
                    &&& meta.expire_ms == 0
                    &&& fields_of(s1.db, key, meta.version) == Map::<Seq<u8>, Seq<u8>>::empty()
                    &&& scores_of(s1.db, key, meta.version) == Map::<Seq<u8>, u64>::empty()
                    &&& forall|f: Seq<u8>| !(#[trigger] has_field(s1.db, key, meta.version, f))
                },
            }
        },
{
    let s0 = swept(s, now, key);
    swept_is_sound(s, now, key);
    stored_is_sound(s0, key);
    if let Ok(found) = typed(s, now, key, type_id) {
        let (s1, meta) = found_or_fresh(s0, now, key, found, type_id, fresh_payload(type_id));
        if found is None {
            assert(fresh(s0, now));
            fresh_version_has_no_records(s0, now, key);
            if type_id == TYPE_LIST {
                let m = MetaView { payload: Seq::empty(), ..meta };
                assert(m.with_bounds(LIST_INITIAL_INDEX, LIST_INITIAL_INDEX) =~= meta);
                bounds_read_back(m, LIST_INITIAL_INDEX, LIST_INITIAL_INDEX);
            } else {
                let m = MetaView { payload: Seq::empty(), ..meta };
                assert(m.with_count(0) =~= meta);
                count_reads_back(m, 0);
            }
        }
    }
}

/// The records differ in nothing but what belongs to one version of a key.
pub open spec fn touches(a: Records, b: Records, key: Seq<u8>, version: u64) -> bool {
    forall|raw: Seq<u8>|
        record_owner(raw) != Some((key, version)) ==> (#[trigger] a.contains_key(raw)
            == b.contains_key(raw)) && (a.contains_key(raw) ==> a[raw] == b[raw])
}

/// Storing metadata that fits the changed records of its key keeps a store sound, makes the key
/// hold the value that they stand for, and leaves the other keys theirs.
pub proof fn stored_value(
    s: StoreView,
    s1: StoreView,
    db: Records,
    key: Seq<u8>,
    meta: MetaView,
)
    requires
        sound(s),
        same_but(s, s1, key),
        draws(s, s1, key),
        touches(s1.db, db, key, meta.version),
        meta.composite(),
        sound_meta(with_db(s1, db), key, meta),
    ensures
        ({
            let t = with_meta(with_db(s1, db), key, meta);
            &&& sound(t)
            &&& adds_only(s, t)
            &&& entry(t, key) == Some(
                Entry { value: value_of(db, key, meta), expire_ms: meta.expire_ms },
            )
            &&& forall|k: Seq<u8>| k != key ==> #[trigger] entry(t, k) == entry(s, k)
        }),
{
    let mid = with_db(s1, db);
    let t = with_meta(mid, key, meta);
    meta_reads_back(meta);
    meta_has_no_owner(key);
    assert(same_but(s, t, key)) by {
        assert forall|raw: Seq<u8>| !belongs(raw, key) implies (#[trigger] s.db.contains_key(raw)
            == t.db.contains_key(raw)) && (s.db.contains_key(raw) ==> s.db[raw] == t.db[raw]) by {
            assert(s1.db.contains_key(raw) == db.contains_key(raw));
        }
    }
    assert(sound_meta(t, key, meta)) by {
        sound_meta_of_fields(mid, t, key, meta, meta);
    }
    assert forall|raw: Seq<u8>| #[trigger]
        t.db.contains_key(raw) && belongs(raw, key) implies (record_owner(raw) matches Some((_, v))
        ==> s.db.contains_key(raw) || v == t.clock || s.versions.contains_key(key) && v
        == s.versions[key]) by {
        if raw != meta_name(key) && record_owner(raw) != Some((key, meta.version)) {
            assert(s1.db.contains_key(raw) == db.contains_key(raw));
        }
    }
    one_key_changes(s, t, key);
    same_value(db, t.db, key, meta, meta);
}

/// Taking a key away, along with records of it, keeps a store sound and leaves the other keys
/// their values.
pub proof fn removed_value(s: StoreView, s1: StoreView, db: Records, key: Seq<u8>, version: u64)
    requires
        sound(s),
        same_but(s, s1, key),
        draws(s, s1, key),
        s1.versions.contains_key(key),
        s1.versions[key] == version,
        touches(s1.db, db, key, version),
    ensures
        ({
            let t = without(with_db(s1, db), key);
            &&& sound(t)
            &&& adds_only(s, t)
            &&& entry(t, key) is None
            &&& forall|k: Seq<u8>| k != key ==> #[trigger] entry(t, k) == entry(s, k)
        }),
{
    let t = without(with_db(s1, db), key);
    meta_has_no_owner(key);
    assert(same_but(s, t, key)) by {
        assert forall|raw: Seq<u8>| !belongs(raw, key) implies (#[trigger] s.db.contains_key(raw)
            == t.db.contains_key(raw)) && (s.db.contains_key(raw) ==> s.db[raw] == t.db[raw]) by {
            assert(s1.db.contains_key(raw) == db.contains_key(raw));
        }
    }
    assert forall|raw: Seq<u8>| #[trigger]
        t.db.contains_key(raw) && belongs(raw, key) implies (record_owner(raw) matches Some((_, v))
        ==> s.db.contains_key(raw) || v == t.clock || s.versions.contains_key(key) && v
        == s.versions[key]) by {
        if record_owner(raw) != Some((key, version)) {
            assert(s1.db.contains_key(raw) == db.contains_key(raw));
        }
    }
    one_key_changes(s, t, key);
}

} // verus!
