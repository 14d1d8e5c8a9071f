//! Hashes and sets.
use vstd::prelude::*;

use super::{opened, removed_value, stored_is_sound, stored_value, swept_is_sound, touches};
use crate::engine::bigend::be;
use crate::engine::encoding::{
    count_reads_back, owner_prefix, record_owner, sub_name, MetaView, SUBKEY_PREFIX, TYPE_HASH,
    TYPE_SET, TYPE_ZSET,
};
use crate::engine::engine::{scan, scan_exists, Records};
use crate::engine::error::EngineErrorView;
use crate::engine::model::{
    count_down, count_op, count_up, drop_fields, firsts, found_or_fresh, has_field, has_op, hget_op,
    hgetall_op, hset_op, live, members_left, missing_count, present_count, put_fields, put_members,
    remove_op, sadd_op, smembers_op, swept, typed, unprefixed, with_db, Now, StoreView,
};
use crate::engine::values::{
    adds_only, draws, entry, field_names_differ, fields_of, fresh, owner_of_field, same_but, sound,
    sound_meta, value_of, visible, Entry, Value,
};

use crate::order::{before, before_behind_prefix};

verus! {

// ---------------------------------------------------------------------------
// Changes to fields
// ---------------------------------------------------------------------------
/// Fields with the values of `pairs`, a later one in place of an earlier.
pub open spec fn put_all(
    fields: Map<Seq<u8>, Seq<u8>>,
    pairs: Seq<(Seq<u8>, Seq<u8>)>,
) -> Map<Seq<u8>, Seq<u8>>
    decreases pairs.len(),
{
    if pairs.len() == 0 {
        fields
    } else {
        put_all(fields, pairs.drop_last()).insert(pairs.last().0, pairs.last().1)
    }
}

/// A field has the value that it was given last.
pub proof fn last_value_stays(
    fields: Map<Seq<u8>, Seq<u8>>,
    pairs: Seq<(Seq<u8>, Seq<u8>)>,
    i: int,
)
    requires
        0 <= i < pairs.len(),
        forall|j: int| i < j < pairs.len() ==> (#[trigger] pairs[j]).0 != pairs[i].0,
    ensures
        put_all(fields, pairs).contains_pair(pairs[i].0, pairs[i].1),
    decreases pairs.len(),
{
    if i < pairs.len() - 1 {
        assert(pairs[pairs.len() - 1].0 != pairs[i].0);
        last_value_stays(fields, pairs.drop_last(), i);
    }
}

/// One more value under a field.
proof fn field_put(db: Records, key: Seq<u8>, version: u64, field: Seq<u8>, value: Seq<u8>)
    requires
        key.len() <= u32::MAX,
    ensures
        fields_of(db.insert(sub_name(key, version, field), value), key, version) == fields_of(
            db,
            key,
            version,
        ).insert(field, value),
        touches(db, db.insert(sub_name(key, version, field), value), key, version),
{
    let name = sub_name(key, version, field);
    let a = fields_of(db.insert(name, value), key, version);
    let b = fields_of(db, key, version).insert(field, value);
    owner_of_field(key, version, field);
    assert forall|f: Seq<u8>| #[trigger] a.dom().contains(f) == b.dom().contains(f) by {
        if sub_name(key, version, f) == name {
            field_names_differ(key, version, f, field);
        }
    }
    assert forall|f: Seq<u8>| a.dom().contains(f) implies #[trigger] a[f] == b[f] by {
        if sub_name(key, version, f) == name {
            field_names_differ(key, version, f, field);
        }
    }
    assert(a =~= b);
}

/// One field less.
proof fn field_dropped(db: Records, key: Seq<u8>, version: u64, field: Seq<u8>)
    requires
        key.len() <= u32::MAX,
    ensures
        fields_of(db.remove(sub_name(key, version, field)), key, version) == fields_of(
            db,
            key,
            version,
        ).remove(field),
        touches(db, db.remove(sub_name(key, version, field)), key, version),
{
    let name = sub_name(key, version, field);
    let a = fields_of(db.remove(name), key, version);
    let b = fields_of(db, key, version).remove(field);
    owner_of_field(key, version, field);
    assert forall|f: Seq<u8>| #[trigger] a.dom().contains(f) == b.dom().contains(f) by {
        if sub_name(key, version, f) == name {
            field_names_differ(key, version, f, field);
        }
    }
    assert forall|f: Seq<u8>| a.dom().contains(f) implies #[trigger] a[f] == b[f] by {
        if sub_name(key, version, f) == name {
            field_names_differ(key, version, f, field);
        }
    }
    assert(a =~= b);
}

/// Records that touch one version touch it still after a further change to it.
pub proof fn touches_further(a: Records, b: Records, c: Records, key: Seq<u8>, version: u64)
    requires
        touches(a, b, key, version),
        touches(b, c, key, version),
    ensures
        touches(a, c, key, version),
{
    assert forall|raw: Seq<u8>| record_owner(raw) != Some((key, version)) implies (
    #[trigger] a.contains_key(raw) == c.contains_key(raw)) && (a.contains_key(raw) ==> a[raw]
        == c[raw]) by {
        assert(a.contains_key(raw) == b.contains_key(raw));
        assert(b.contains_key(raw) == c.contains_key(raw));
    }
}

/// Putting fields puts them, and touches nothing else.
proof fn fields_put(db: Records, key: Seq<u8>, version: u64, pairs: Seq<(Seq<u8>, Seq<u8>)>)
    requires
        key.len() <= u32::MAX,
    ensures
        fields_of(put_fields(db, key, version, pairs), key, version) == put_all(
            fields_of(db, key, version),
            pairs,
        ),
        touches(db, put_fields(db, key, version, pairs), key, version),
    decreases pairs.len(),
{
    if pairs.len() > 0 {
        let init = put_fields(db, key, version, pairs.drop_last());
        fields_put(db, key, version, pairs.drop_last());
        field_put(init, key, version, pairs.last().0, pairs.last().1);
        touches_further(
            db,
            init,
            put_fields(db, key, version, pairs),
            key,
            version,
        );
    }
}

/// Which fields are there once some are put.
pub proof fn put_all_dom(fields: Map<Seq<u8>, Seq<u8>>, pairs: Seq<(Seq<u8>, Seq<u8>)>)
    ensures
        forall|f: Seq<u8>| #[trigger] put_all(fields, pairs).contains_key(f) == (
        fields.contains_key(f) || firsts(pairs).contains(f)),
    decreases pairs.len(),
{
    if pairs.len() > 0 {
        let init = pairs.drop_last();
        put_all_dom(fields, init);
        assert forall|f: Seq<u8>| #[trigger] put_all(fields, pairs).contains_key(f) == (
        fields.contains_key(f) || firsts(pairs).contains(f)) by {
            assert(put_all(fields, init).contains_key(f) == (fields.contains_key(f) || firsts(
                init,
            ).contains(f)));
            names_one_more(pairs, f);
        }
    } else {
        assert(firsts(pairs) =~= Seq::empty());
    }
}

/// The names of pairs are those of all but the last, and that of the last.
proof fn names_one_more(pairs: Seq<(Seq<u8>, Seq<u8>)>, f: Seq<u8>)
    requires
        pairs.len() > 0,
    ensures
        firsts(pairs).contains(f) == (firsts(pairs.drop_last()).contains(f) || f == pairs.last().0),
        firsts(pairs).drop_last() == firsts(pairs.drop_last()),
        firsts(pairs).last() == pairs.last().0,
{
    let all = firsts(pairs);
    let init = firsts(pairs.drop_last());
    assert(all.drop_last() =~= init);
    if init.contains(f) {
        let i = choose|i: int| 0 <= i < init.len() && init[i] == f;
        assert(all[i] == f);
    }
    if all.contains(f) {
        let i = choose|i: int| 0 <= i < all.len() && all[i] == f;
        if i < init.len() {
            assert(init[i] == f);
        }
    }
    assert(all[all.len() - 1] == pairs.last().0);
}

/// As many fields are new as the number of fields grows by.
proof fn missing_is_growth(db: Records, key: Seq<u8>, version: u64, pairs: Seq<(Seq<u8>, Seq<u8>)>)
    requires
        fields_of(db, key, version).dom().finite(),
    ensures
        put_all(fields_of(db, key, version), pairs).dom().finite(),
        put_all(fields_of(db, key, version), pairs).dom().len() == fields_of(
            db,
            key,
            version,
        ).dom().len() + missing_count(db, key, version, firsts(pairs)),
    decreases pairs.len(),
{
    let fields = fields_of(db, key, version);
    if pairs.len() > 0 {
        let init = pairs.drop_last();
        let last = pairs.last().0;
        missing_is_growth(db, key, version, init);
        put_all_dom(fields, init);
        names_one_more(pairs, last);
        assert(put_all(fields, pairs).dom() =~= put_all(fields, init).dom().insert(last));
        assert(put_all(fields, init).contains_key(last) == (fields.contains_key(last) || firsts(
            init,
        ).contains(last)));
    } else {
        assert(firsts(pairs) =~= Seq::empty());
    }
}

/// What a reader sees at the key, taken as fields: none where there is nothing.
pub open spec fn fields_seen(s: StoreView, now: Now, key: Seq<u8>) -> Map<Seq<u8>, Seq<u8>> {
    match visible(s, now, key) {
        Some(e) => match e.value {
            Value::Fields(fields) => fields,
            _ => Map::empty(),
        },
        None => Map::empty(),
    }
}

/// When the time of what a reader sees at the key is up; zero where there is nothing.
pub open spec fn end_seen(s: StoreView, now: Now, key: Seq<u8>) -> u64 {
    match visible(s, now, key) {
        Some(e) => e.expire_ms,
        None => 0,
    }
}

/// The value that a reader sees at the key is there still at a later time.
pub open spec fn stays(s: StoreView, now: Now, key: Seq<u8>, later: Now) -> bool {
    end_seen(s, now, key) == 0 || later.ms < end_seen(s, now, key)
}

/// A reader sees a hash at the key, or nothing.
pub open spec fn hash_or_nothing(s: StoreView, now: Now, key: Seq<u8>) -> bool {
    visible(s, now, key) matches Some(e) ==> e.value is Fields
}

/// What a reader sees decides whether the type goes with the operation.
pub proof fn type_seen(s: StoreView, now: Now, key: Seq<u8>, type_id: u8)
    requires
        sound(s),
    ensures
        match visible(s, now, key) {
            Some(e) => live(s, now, key) matches Ok(Some(meta)) && e == (Entry {
                value: value_of(s.db, key, meta),
                expire_ms: meta.expire_ms,
            }) && sound_meta(s, key, meta) && (typed(s, now, key, type_id) == (if meta.type_id
                == type_id {
                Ok::<Option<MetaView>, EngineErrorView>(Some(meta))
            } else {
                Err(EngineErrorView::WrongType)
            })) && swept(s, now, key) == s,
            None => typed(s, now, key, type_id) == Ok::<Option<MetaView>, EngineErrorView>(None)
                && live(s, now, key) == Ok::<Option<MetaView>, EngineErrorView>(None),
        },
{
    stored_is_sound(s, key);
}

// ---------------------------------------------------------------------------
// Hashes
// ---------------------------------------------------------------------------
/// `HSET` puts the fields into the hash, or makes a new one of them; it answers how many fields
/// the hash has more than before, keeps the end of its time, and touches no other key.
pub proof fn hset_law(s: StoreView, now: Now, key: Seq<u8>, pairs: Seq<(Seq<u8>, Seq<u8>)>)
    requires
        sound(s),
        key.len() <= u32::MAX,
        visible(s, now, key) is Some || fresh(s, now),
        pairs.len() > 0 || visible(s, now, key) is Some,
        hash_or_nothing(s, now, key),
        put_all(fields_seen(s, now, key), pairs).dom().len() <= u32::MAX,
    ensures
        ({
            let (t, r) = hset_op(s, now, key, pairs);
            let was = fields_seen(s, now, key);
            let fields = put_all(was, pairs);
            &&& r == Ok::<i64, EngineErrorView>((fields.dom().len() - was.dom().len()) as i64)
            &&& sound(t)
            &&& adds_only(s, t)
            &&& entry(t, key) == Some(
                Entry { value: Value::Fields(fields), expire_ms: end_seen(s, now, key) },
            )
            &&& forall|k: Seq<u8>| k != key ==> #[trigger] entry(t, k) == entry(s, k)
        }),
{
    type_seen(s, now, key, TYPE_HASH);
    opened(s, now, key, TYPE_HASH);
    let found = typed(s, now, key, TYPE_HASH)->Ok_0;
    let s0 = swept(s, now, key);
    let (s1, meta) = found_or_fresh(s0, now, key, found, TYPE_HASH, be(0, 4));
    let was = fields_of(s1.db, key, meta.version);
    assert(was =~= fields_seen(s, now, key));
    let db = put_fields(s1.db, key, meta.version, pairs);
    fields_put(s1.db, key, meta.version, pairs);
    missing_is_growth(s1.db, key, meta.version, pairs);
    put_all_dom(was, pairs);
    let fields = put_all(was, pairs);
    let created = missing_count(s1.db, key, meta.version, firsts(pairs));
    let count = count_up(meta.count(), created);
    let changed = meta.with_count(count);
    count_reads_back(meta, count);
    if pairs.len() > 0 {
        assert(fields.contains_key(pairs.last().0));
        assert(fields.dom().len() >= 1) by {
            assert(fields.dom().contains(pairs.last().0));
            if fields.dom().len() == 0 {
                assert(fields.dom() =~= Set::empty());
            }
        }
    }
    assert(sound_meta(with_db(s1, db), key, changed));
    stored_value(s, s1, db, key, changed);
}

/// `HGET`, `HLEN` and `HEXISTS` answer from the fields that a reader sees, and change nothing that
/// a reader sees.
pub proof fn hash_reads_law(s: StoreView, now: Now, key: Seq<u8>, field: Seq<u8>)
    requires
        sound(s),
        hash_or_nothing(s, now, key),
    ensures
        ({
            let fields = fields_seen(s, now, key);
            &&& hget_op(s, now, key, field) == (
                swept(s, now, key),
                Ok::<Option<Seq<u8>>, EngineErrorView>(
                    if fields.contains_key(field) {
                        Some(fields[field])
                    } else {
                        None
                    },
                ),
            )
            &&& count_op(s, now, key, TYPE_HASH) == (
                swept(s, now, key),
                Ok::<i64, EngineErrorView>(fields.dom().len() as i64),
            )
            &&& has_op(s, now, key, TYPE_HASH, field) == (
                swept(s, now, key),
                Ok::<bool, EngineErrorView>(fields.contains_key(field)),
            )
        }),
{
    type_seen(s, now, key, TYPE_HASH);
}

/// The fields without some of them.
pub open spec fn drop_all(
    fields: Map<Seq<u8>, Seq<u8>>,
    names: Seq<Seq<u8>>,
) -> Map<Seq<u8>, Seq<u8>>
    decreases names.len(),
{
    if names.len() == 0 {
        fields
    } else {
        drop_all(fields, names.drop_last()).remove(names.last())
    }
}

/// Dropping fields drops them, and touches nothing else.
proof fn fields_dropped(db: Records, key: Seq<u8>, version: u64, names: Seq<Seq<u8>>)
    requires
        key.len() <= u32::MAX,
    ensures
        fields_of(drop_fields(db, key, version, names), key, version) == drop_all(
            fields_of(db, key, version),
            names,
        ),
        touches(db, drop_fields(db, key, version, names), key, version),
    decreases names.len(),
{
    if names.len() > 0 {
        let init = drop_fields(db, key, version, names.drop_last());
        fields_dropped(db, key, version, names.drop_last());
        field_dropped(init, key, version, names.last());
        touches_further(db, init, drop_fields(db, key, version, names), key, version);
    }
}

/// A name is among all of several if it is among all but the last or is the last.
pub proof fn name_one_more(names: Seq<Seq<u8>>, f: Seq<u8>)
    requires
        names.len() > 0,
    ensures
        names.contains(f) == (names.drop_last().contains(f) || f == names.last()),
{
    let init = names.drop_last();
    if init.contains(f) {
        let i = choose|i: int| 0 <= i < init.len() && init[i] == f;
        assert(names[i] == f);
    }
    if names.contains(f) {
        let i = choose|i: int| 0 <= i < names.len() && names[i] == f;
        if i < init.len() {
            assert(init[i] == f);
        }
    }
    assert(names[names.len() - 1] == names.last());
}

/// Which fields are there once some are dropped.
pub proof fn drop_all_dom(fields: Map<Seq<u8>, Seq<u8>>, names: Seq<Seq<u8>>)
    ensures
        forall|f: Seq<u8>| #[trigger] drop_all(fields, names).contains_key(f) == (
        fields.contains_key(f) && !names.contains(f)),
    decreases names.len(),
{
    if names.len() > 0 {
        let init = names.drop_last();
        drop_all_dom(fields, init);
        assert forall|f: Seq<u8>| #[trigger] drop_all(fields, names).contains_key(f) == (
        fields.contains_key(f) && !names.contains(f)) by {
            assert(drop_all(fields, init).contains_key(f) == (fields.contains_key(f)
                && !init.contains(f)));
            name_one_more(names, f);
        }
    }
}

/// As many fields were there as the number of fields shrinks by.
proof fn present_is_shrinkage(db: Records, key: Seq<u8>, version: u64, names: Seq<Seq<u8>>)
    requires
        fields_of(db, key, version).dom().finite(),
    ensures
        drop_all(fields_of(db, key, version), names).dom().finite(),
        drop_all(fields_of(db, key, version), names).dom().len() + present_count(
            db,
            key,
            version,
            names,
        ) == fields_of(db, key, version).dom().len(),
    decreases names.len(),
{
    let fields = fields_of(db, key, version);
    if names.len() > 0 {
        let init = names.drop_last();
        let last = names.last();
        present_is_shrinkage(db, key, version, init);
        drop_all_dom(fields, init);
        assert(drop_all(fields, names).dom() =~= drop_all(fields, init).dom().remove(last));
        assert(drop_all(fields, init).contains_key(last) == (fields.contains_key(last)
            && !init.contains(last)));
    }
}

/// What is left of a counted value once some members are gone, whatever they are: nothing where
/// none is left, and else the value that the records stand for.
pub proof fn members_left_law(
    s: StoreView,
    s0: StoreView,
    key: Seq<u8>,
    meta: MetaView,
    db: Records,
    removed: nat,
)
    requires
        sound(s),
        same_but(s, s0, key),
        draws(s, s0, key),
        sound_meta(s0, key, meta),
        meta.counted(),
        removed > 0,
        touches(s0.db, db, key, meta.version),
        fields_of(db, key, meta.version).dom().finite(),
        fields_of(db, key, meta.version).dom().len() + removed == fields_of(
            s0.db,
            key,
            meta.version,
        ).dom().len(),
        meta.type_id == TYPE_ZSET ==> crate::engine::values::sound_scores(db, key, meta.version),
    ensures
        ({
            let t = members_left(s0, key, meta, db, removed);
            &&& sound(t)
            &&& adds_only(s, t)
            &&& entry(t, key) == (if fields_of(db, key, meta.version).dom().len() == 0 {
                None
            } else {
                Some(
                    Entry {
                        value: value_of(db, key, meta),
                        expire_ms: meta.expire_ms,
                    },
                )
            })
            &&& forall|k: Seq<u8>| k != key ==> #[trigger] entry(t, k) == entry(s, k)
        }),
{
    let count = count_down(meta.count(), removed);
    assert(count == fields_of(db, key, meta.version).dom().len());
    if count == 0 {
        removed_value(s, s0, db, key, meta.version);
    } else {
        let changed = meta.with_count(count);
        count_reads_back(meta, count);
        assert(sound_meta(with_db(s0, db), key, changed));
        stored_value(s, s0, db, key, changed);
        assert(value_of(db, key, changed) == value_of(db, key, meta));
    }
}

/// `HDEL` takes the fields out of the hash and answers how many of them it had; without its last
/// field the hash is gone. The end of its time stays, and no other key is touched.
pub proof fn hdel_law(s: StoreView, now: Now, key: Seq<u8>, names: Seq<Seq<u8>>)
    requires
        sound(s),
        hash_or_nothing(s, now, key),
    ensures
        ({
            let (t, r) = remove_op(s, now, key, TYPE_HASH, names);
            let was = fields_seen(s, now, key);
            let fields = drop_all(was, names);
            &&& r == Ok::<i64, EngineErrorView>((was.dom().len() - fields.dom().len()) as i64)
            &&& sound(t)
            &&& adds_only(s, t)
            &&& entry(t, key) == (if fields.dom().len() == 0 {
                None
            } else {
                Some(Entry { value: Value::Fields(fields), expire_ms: end_seen(s, now, key) })
            })
            &&& forall|k: Seq<u8>| k != key ==> #[trigger] entry(t, k) == entry(s, k)
        }),
{
    type_seen(s, now, key, TYPE_HASH);
    swept_is_sound(s, now, key);
    let s0 = swept(s, now, key);
    let was = fields_seen(s, now, key);
    drop_all_dom(was, names);
    if let Ok(Some(meta)) = typed(s, now, key, TYPE_HASH) {
        let db = drop_fields(s0.db, key, meta.version, names);
        let removed = present_count(s0.db, key, meta.version, names);
        assert(was == fields_of(s0.db, key, meta.version));
        fields_dropped(s0.db, key, meta.version, names);
        present_is_shrinkage(s0.db, key, meta.version, names);
        if removed > 0 {
            members_left_law(s, s0, key, meta, db, removed);
        } else {
            drop_none(was, names);
        }
    } else {
        drop_none(was, names);
    }
}

/// Where nothing that is there is dropped, everything stays.
proof fn drop_none(fields: Map<Seq<u8>, Seq<u8>>, names: Seq<Seq<u8>>)
    requires
        fields.dom().finite(),
        drop_all(fields, names).dom().len() == fields.dom().len() || fields.dom().len() == 0,
    ensures
        drop_all(fields, names) == fields,
    decreases names.len(),
{
    drop_all_dom(fields, names);
    drop_all_values(fields, names);
    let dropped = drop_all(fields, names);
    assert(dropped.dom().subset_of(fields.dom()));
    vstd::set_lib::lemma_len_subset(dropped.dom(), fields.dom());
    if fields.dom().len() == 0 {
        assert(fields.dom() =~= Set::empty());
        assert(dropped =~= fields);
    } else {
        vstd::set_lib::lemma_subset_equality(dropped.dom(), fields.dom());
        assert(dropped =~= fields);
    }
}

/// Fields that are not dropped keep their values.
pub proof fn drop_all_values(fields: Map<Seq<u8>, Seq<u8>>, names: Seq<Seq<u8>>)
    ensures
        forall|f: Seq<u8>| #[trigger] drop_all(fields, names).contains_key(f) ==> drop_all(
            fields,
            names,
        )[f] == fields[f],
    decreases names.len(),
{
    if names.len() > 0 {
        let init = drop_all(fields, names.drop_last());
        drop_all_values(fields, names.drop_last());
        assert forall|f: Seq<u8>| #[trigger] drop_all(fields, names).contains_key(f) implies drop_all(
            fields,
            names,
        )[f] == fields[f] by {
            assert(init.contains_key(f));
        }
    }
}

// ---------------------------------------------------------------------------
// Fields in order
// ---------------------------------------------------------------------------
/// `list` holds each field and its value once, in ascending order of the fields.
pub open spec fn lists_fields(
    list: Seq<(Seq<u8>, Seq<u8>)>,
    fields: Map<Seq<u8>, Seq<u8>>,
) -> bool {
    &&& forall|i: int, j: int|
        0 <= i < j < list.len() ==> before((#[trigger] list[i]).0, (#[trigger] list[j]).0)
    &&& forall|i: int|
        0 <= i < list.len() ==> fields.contains_pair((#[trigger] list[i]).0, list[i].1)
    &&& forall|f: Seq<u8>| #[trigger]
        fields.contains_key(f) ==> exists|i: int| 0 <= i < list.len() && (#[trigger] list[i]).0 == f
}

/// A scan of the records of one version lists its fields.
pub proof fn scan_lists_fields(db: Records, key: Seq<u8>, version: u64)
    requires
        db.dom().finite(),
    ensures
        ({
            let prefix = owner_prefix(SUBKEY_PREFIX, key, version);
            lists_fields(
                unprefixed(scan(db, prefix), prefix.len()),
                fields_of(db, key, version),
            )
        }),
{
    let prefix = owner_prefix(SUBKEY_PREFIX, key, version);
    let items = scan(db, prefix);
    let list = unprefixed(items, prefix.len());
    let fields = fields_of(db, key, version);
    scan_exists(db, prefix);
    assert forall|i: int| 0 <= i < items.len() implies #[trigger] items[i].0 == prefix + list[i].0
        by {
        assert(prefix.is_prefix_of(items[i].0));
        assert(items[i].0 =~= prefix + list[i].0);
    }
    assert forall|i: int, j: int| 0 <= i < j < list.len() implies before(
        (#[trigger] list[i]).0,
        (#[trigger] list[j]).0,
    ) by {
        assert(before(items[i].0, items[j].0));
        assert(items[i].0 == prefix + list[i].0);
        assert(items[j].0 == prefix + list[j].0);
        before_behind_prefix(prefix, list[i].0, list[j].0);
    }
    assert forall|i: int| 0 <= i < list.len() implies fields.contains_pair(
        (#[trigger] list[i]).0,
        list[i].1,
    ) by {
        assert(items[i].0 == prefix + list[i].0);
        assert(db.contains_pair(items[i].0, items[i].1));
    }
    assert forall|f: Seq<u8>| #[trigger] fields.contains_key(f) implies exists|i: int|
        0 <= i < list.len() && (#[trigger] list[i]).0 == f by {
        let name = sub_name(key, version, f);
        assert(prefix.is_prefix_of(name)) by {
            assert(prefix =~= name.subrange(0, prefix.len() as int));
        }
        assert(db.contains_key(name));
        let i = choose|i: int| 0 <= i < items.len() && (#[trigger] items[i]).0 == name;
        assert(items[i].0 == prefix + list[i].0);
        assert(list[i].0 =~= f) by {
            assert(items[i].0.skip(prefix.len() as int) =~= f);
        }
    }
}

/// `HGETALL` answers all fields that a reader sees and their values, in the order of the fields.
pub proof fn hgetall_law(s: StoreView, now: Now, key: Seq<u8>)
    requires
        sound(s),
        s.db.dom().finite(),
        hash_or_nothing(s, now, key),
    ensures
        ({
            let (t, r) = hgetall_op(s, now, key);
            &&& t == swept(s, now, key)
            &&& r matches Ok(list)
            &&& lists_fields(list, fields_seen(s, now, key))
        }),
{
    type_seen(s, now, key, TYPE_HASH);
    if let Ok(Some(meta)) = typed(s, now, key, TYPE_HASH) {
        scan_lists_fields(s.db, key, meta.version);
    }
}

// ---------------------------------------------------------------------------
// Sets
// ---------------------------------------------------------------------------
/// A reader sees a set at the key, or nothing.
pub open spec fn set_or_nothing(s: StoreView, now: Now, key: Seq<u8>) -> bool {
    visible(s, now, key) matches Some(e) ==> e.value is Members
}

/// What a reader sees at the key, taken as members: none where there is nothing.
pub open spec fn members_seen(s: StoreView, now: Now, key: Seq<u8>) -> Set<Seq<u8>> {
    match visible(s, now, key) {
        Some(e) => match e.value {
            Value::Members(members) => members,
            _ => Set::empty(),
        },
        None => Set::empty(),
    }
}

/// Putting members puts them, counts those that are new, and touches nothing else.
proof fn members_put(db: Records, key: Seq<u8>, version: u64, members: Seq<Seq<u8>>)
    requires
        key.len() <= u32::MAX,
        fields_of(db, key, version).dom().finite(),
    ensures
        ({
            let after = put_members(db, key, version, members);
            let was = fields_of(db, key, version).dom();
            let now = fields_of(after, key, version).dom();
            &&& touches(db, after, key, version)
            &&& now.finite()
            &&& now.len() == was.len() + missing_count(db, key, version, members)
            &&& forall|m: Seq<u8>| #[trigger] now.contains(m) == (was.contains(m)
                || members.contains(m))
        }),
    decreases members.len(),
{
    let after = put_members(db, key, version, members);
    let was = fields_of(db, key, version).dom();
    let now = fields_of(after, key, version).dom();
    if members.len() > 0 {
        let init = members.drop_last();
        let last = members.last();
        let before = put_members(db, key, version, init);
        let mid = fields_of(before, key, version).dom();
        members_put(db, key, version, init);
        if !has_field(db, key, version, last) {
            field_put(before, key, version, last, Seq::empty());
            touches_further(db, before, after, key, version);
            assert(now =~= mid.insert(last));
        }
        assert(mid.contains(last) == (was.contains(last) || init.contains(last)));
        assert forall|m: Seq<u8>| #[trigger] now.contains(m) == (was.contains(m)
            || members.contains(m)) by {
            name_one_more(members, m);
            assert(mid.contains(m) == (was.contains(m) || init.contains(m)));
        }
    }
}

/// `SADD` puts the members into the set, or makes a new one of them; it answers how many members
/// the set has more than before, keeps the end of its time, and touches no other key.
pub proof fn sadd_law(s: StoreView, now: Now, key: Seq<u8>, members: Seq<Seq<u8>>)
    requires
        sound(s),
        key.len() <= u32::MAX,
        visible(s, now, key) is Some || fresh(s, now),
        members.len() > 0 || visible(s, now, key) is Some,
        set_or_nothing(s, now, key),
        members_seen(s, now, key).union(members.to_set()).len() <= u32::MAX,
    ensures
        ({
            let (t, r) = sadd_op(s, now, key, members);
            let was = members_seen(s, now, key);
            let all = was.union(members.to_set());
            &&& r == Ok::<i64, EngineErrorView>((all.len() - was.len()) as i64)
            &&& r == Ok::<i64, EngineErrorView>(0) ==> t == swept(s, now, key)
            &&& sound(t)
            &&& adds_only(s, t)
            &&& entry(t, key) == Some(
                Entry { value: Value::Members(all), expire_ms: end_seen(s, now, key) },
            )
            &&& forall|k: Seq<u8>| k != key ==> #[trigger] entry(t, k) == entry(s, k)
        }),
{
    type_seen(s, now, key, TYPE_SET);
    opened(s, now, key, TYPE_SET);
    swept_is_sound(s, now, key);
    let found = typed(s, now, key, TYPE_SET)->Ok_0;
    let s0 = swept(s, now, key);
    let (s1, meta) = found_or_fresh(s0, now, key, found, TYPE_SET, be(0, 4));
    let was = fields_of(s1.db, key, meta.version).dom();
    assert(was =~= members_seen(s, now, key));
    let db = put_members(s1.db, key, meta.version, members);
    members_put(s1.db, key, meta.version, members);
    let all = fields_of(db, key, meta.version).dom();
    assert(all =~= was.union(members.to_set()));
    let added = missing_count(s1.db, key, meta.version, members);
    if members.len() > 0 {
        assert(all.contains(members[0]));
    }
    if all.len() == 0 {
        assert(all =~= Set::empty());
    }
    if added == 0 {
        assert(was.subset_of(all));
        vstd::set_lib::lemma_subset_equality(was, all);
        assert(was == all);
        assert(found is Some);
        assert(s1 == s0);
    } else {
        let count = count_up(meta.count(), added);
        let changed = meta.with_count(count);
        count_reads_back(meta, count);
        assert(sound_meta(with_db(s1, db), key, changed));
        stored_value(s, s1, db, key, changed);
    }
}

/// `SREM` takes the members out of the set and answers how many of them it had; without its last
/// member the set is gone. The end of its time stays, and no other key is touched.
pub proof fn srem_law(s: StoreView, now: Now, key: Seq<u8>, members: Seq<Seq<u8>>)
    requires
        sound(s),
        set_or_nothing(s, now, key),
    ensures
        ({
            let (t, r) = remove_op(s, now, key, TYPE_SET, members);
            let was = members_seen(s, now, key);
            let left = was.difference(members.to_set());
            &&& r == Ok::<i64, EngineErrorView>((was.len() - left.len()) as i64)
            &&& sound(t)
            &&& adds_only(s, t)
            &&& entry(t, key) == (if left.len() == 0 {
                None
            } else {
                Some(Entry { value: Value::Members(left), expire_ms: end_seen(s, now, key) })
            })
            &&& forall|k: Seq<u8>| k != key ==> #[trigger] entry(t, k) == entry(s, k)
        }),
{
    type_seen(s, now, key, TYPE_SET);
    swept_is_sound(s, now, key);
    let s0 = swept(s, now, key);
    let was = members_seen(s, now, key);
    let left = was.difference(members.to_set());
    if let Ok(Some(meta)) = typed(s, now, key, TYPE_SET) {
        let db = drop_fields(s0.db, key, meta.version, members);
        let fields = fields_of(s0.db, key, meta.version);
        let removed = present_count(s0.db, key, meta.version, members);
        fields_dropped(s0.db, key, meta.version, members);
        present_is_shrinkage(s0.db, key, meta.version, members);
        drop_all_dom(fields, members);
        assert(drop_all(fields, members).dom() =~= left);
        if removed > 0 {
            members_left_law(s, s0, key, meta, db, removed);
        } else {
            drop_none(fields, members);
        }
    } else {
        assert(left =~= Set::empty());
    }
}

/// `SISMEMBER`, `SCARD` and `SMEMBERS` answer from the members that a reader sees, the last one in
/// ascending order, and change nothing that a reader sees.
pub proof fn set_reads_law(s: StoreView, now: Now, key: Seq<u8>, member: Seq<u8>)
    requires
        sound(s),
        s.db.dom().finite(),
        set_or_nothing(s, now, key),
    ensures
        ({
            let members = members_seen(s, now, key);
            &&& has_op(s, now, key, TYPE_SET, member) == (
                swept(s, now, key),
                Ok::<bool, EngineErrorView>(members.contains(member)),
            )
            &&& count_op(s, now, key, TYPE_SET) == (
                swept(s, now, key),
                Ok::<i64, EngineErrorView>(members.len() as i64),
            )
            &&& smembers_op(s, now, key).0 == swept(s, now, key)
            &&& smembers_op(s, now, key).1 matches Ok(list)
            &&& forall|i: int, j: int|
                0 <= i < j < list.len() ==> before(#[trigger] list[i], #[trigger] list[j])
            &&& list.to_set() == members
        }),
{
    type_seen(s, now, key, TYPE_SET);
    let members = members_seen(s, now, key);
    let list = smembers_op(s, now, key).1->Ok_0;
    if let Ok(Some(meta)) = typed(s, now, key, TYPE_SET) {
        scan_lists_fields(s.db, key, meta.version);
        let prefix = owner_prefix(SUBKEY_PREFIX, key, meta.version);
        let pairs = unprefixed(scan(s.db, prefix), prefix.len());
        let fields = fields_of(s.db, key, meta.version);
        assert(list == firsts(pairs));
        assert forall|m: Seq<u8>| #[trigger] list.to_set().contains(m) == members.contains(m) by {
            if list.contains(m) {
                let i = choose|i: int| 0 <= i < list.len() && list[i] == m;
                assert(fields.contains_pair(pairs[i].0, pairs[i].1));
            }
            if fields.contains_key(m) {
                let i = choose|i: int| 0 <= i < pairs.len() && (#[trigger] pairs[i]).0 == m;
                assert(list[i] == m);
            }
        }
        assert forall|i: int, j: int| 0 <= i < j < list.len() implies before(
            #[trigger] list[i],
            #[trigger] list[j],
        ) by {
            assert(before(pairs[i].0, pairs[j].0));
        }
    }
    assert(list.to_set() =~= members);
}

} // verus!
