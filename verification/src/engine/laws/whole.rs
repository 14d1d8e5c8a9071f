//! All keys together: compaction, flushing, restarts and types.
use vstd::prelude::*;

use super::stored_is_sound;
use crate::engine::encoding::{
    meta_keys_differ, meta_name, meta_of, owner_prefix, record_owner, sub_name, MetaView,
    META_PREFIX, TYPE_HASH, TYPE_LIST, TYPE_SET, TYPE_STRING, TYPE_ZSET, ZSCORE_PREFIX,
};
use crate::engine::engine::{kept_under, scan, scan_exists, Records};
use crate::engine::error::EngineErrorView;
use crate::engine::gc::is_current;
use crate::engine::model::{
    compact_op, count_op, dbsize_op, del_op, element_name, flush_op, get_op, has_field, has_op,
    hget_op, hgetall_op, hset_op, is_last_version, is_record, live, llen_op, lrange_op,
    next_version, pop_op, push_op, rebuilt, remove_op, sadd_op, smembers_op, sound_bounds,
    stored_score, version_at, zadd_op, zrange_by_score_op, zrange_op, zrem_op, zscore_op, Now,
    ScoreRange, StoreView,
};
use crate::engine::values::{
    adds_only, entry, fields_of, fresh, items_of, meta_has_no_owner, owner_of_field,
    owner_of_index, scores_of, sound, sound_key, sound_meta, sound_scores, upto_is_fresh, value_of,
    versions_upto,
};

verus! {

/// `COMPACT` takes away the records of versions that are not current, and nothing else: every key
/// keeps its value.
#[verifier::spinoff_prover]
pub proof fn compact_law(s: StoreView)
    requires
        sound(s),
    ensures
        ({
            let (t, r) = compact_op(s);
            &&& r is Ok
            &&& sound(t)
            &&& adds_only(s, t)
            &&& forall|k: Seq<u8>| #[trigger] entry(t, k) == entry(s, k)
            &&& no_garbage(t)
            &&& forall|raw: Seq<u8>| #[trigger]
                t.db.contains_key(raw) == (s.db.contains_key(raw) && (record_owner(
                    raw,
                ) matches Some((k, v)) ==> s.versions.contains_key(k) && s.versions[k] == v))
        }),
{
    let t = compact_op(s).0;
    assert forall|k: Seq<u8>| sound_key(t, k) && #[trigger] entry(t, k) == entry(s, k) by {
        assert(sound_key(s, k));
        meta_has_no_owner(k);
        let name = meta_name(k);
        assert(t.db.contains_key(name) == s.db.contains_key(name));
        if s.db.contains_key(name) {
            let meta = meta_of(s.db[name])->0;
            if meta.composite() {
                compact_keeps(s, t, k, meta);
            }
        }
    }
    assert forall|k: Seq<u8>| #[trigger] sound_key(t, k) by {
        assert(entry(t, k) == entry(s, k));
    }
}

/// A compaction keeps the records of current versions.
proof fn compact_keeps(s: StoreView, t: StoreView, key: Seq<u8>, meta: MetaView)
    requires
        sound_meta(s, key, meta),
        meta.composite(),
        t.versions == s.versions,
        t.clock == s.clock,
        forall|raw: Seq<u8>| #[trigger]
            t.db.contains_key(raw) == (s.db.contains_key(raw) && is_current(s.versions, raw)),
        forall|raw: Seq<u8>| t.db.contains_key(raw) ==> #[trigger] t.db[raw] == s.db[raw],
    ensures
        sound_meta(t, key, meta),
        value_of(t.db, key, meta) == value_of(s.db, key, meta),
{
    let v = meta.version;
    assert forall|f: Seq<u8>| (#[trigger] has_field(t.db, key, v, f)) == has_field(s.db, key, v, f)
        && (has_field(s.db, key, v, f) ==> t.db[sub_name(key, v, f)] == s.db[sub_name(key, v, f)])
        by {
        owner_of_field(key, v, f);
        assert(t.db.contains_key(sub_name(key, v, f)) == (s.db.contains_key(sub_name(key, v, f))
            && is_current(s.versions, sub_name(key, v, f))));
    }
    let a = fields_of(t.db, key, v);
    let b = fields_of(s.db, key, v);
    assert forall|f: Seq<u8>| #[trigger] a.dom().contains(f) == b.dom().contains(f) by {
        assert(has_field(t.db, key, v, f) == has_field(s.db, key, v, f));
    }
    assert forall|f: Seq<u8>| a.dom().contains(f) implies #[trigger] a[f] == b[f] by {
        assert(has_field(t.db, key, v, f) == has_field(s.db, key, v, f));
    }
    assert(a =~= b);
    let x = scores_of(t.db, key, v);
    let y = scores_of(s.db, key, v);
    assert forall|f: Seq<u8>| #[trigger] x.dom().contains(f) == y.dom().contains(f) by {
        assert(has_field(t.db, key, v, f) == has_field(s.db, key, v, f));
    }
    assert forall|f: Seq<u8>| x.dom().contains(f) implies #[trigger] x[f] == y[f] by {
        assert(has_field(t.db, key, v, f) == has_field(s.db, key, v, f));
    }
    assert(x =~= y);
    if meta.type_id == TYPE_ZSET {
        assert(sound_scores(t.db, key, v)) by {
            assert forall|m: Seq<u8>| #[trigger] has_field(t.db, key, v, m) implies stored_score(
                t.db[sub_name(key, v, m)],
            ) is Some && t.db.contains_key(
                crate::engine::encoding::index_name(key, v, x[m], m),
            ) by {
                assert(has_field(s.db, key, v, m));
                owner_of_index(key, v, y[m], m);
                let index = crate::engine::encoding::index_name(key, v, y[m], m);
                assert(s.db.contains_key(index));
                assert(t.db.contains_key(index) == (s.db.contains_key(index) && is_current(
                    s.versions,
                    index,
                )));
            }
            assert forall|rest: Seq<u8>| #[trigger] t.db.contains_key(
                owner_prefix(ZSCORE_PREFIX, key, v) + rest,
            ) implies (crate::engine::encoding::index_suffix(rest) matches Some((sc, m))
                && has_field(t.db, key, v, m) && x[m] == sc) by {
                assert(s.db.contains_key(owner_prefix(ZSCORE_PREFIX, key, v) + rest));
                let (sc, m) = crate::engine::encoding::index_suffix(rest)->0;
                assert(has_field(s.db, key, v, m));
                assert(has_field(t.db, key, v, m) == has_field(s.db, key, v, m));
            }
        }
    }
    if let Some((head, tail)) = sound_bounds(meta) {
        if meta.type_id == TYPE_LIST {
            assert forall|i: int| head <= i < tail implies t.db.contains_key(
                #[trigger] element_name(key, v, i),
            ) && t.db[element_name(key, v, i)] == s.db[element_name(key, v, i)] by {
                assert(s.db.contains_key(element_name(key, v, i)));
                let f = crate::engine::bigend::be(i as nat, 8);
                assert(has_field(t.db, key, v, f) == has_field(s.db, key, v, f));
            }
            let p = items_of(t.db, key, v, head, tail);
            let q = items_of(s.db, key, v, head, tail);
            assert forall|i: int| 0 <= i < p.len() implies p[i] == q[i] by {
                assert(t.db.contains_key(element_name(key, v, head + i)));
            }
            assert(p =~= q);
        }
    }
}

/// After a key is deleted, or its time is up and it was looked at, a compaction leaves no record
/// of it.
pub proof fn deleted_then_compacted(s: StoreView, now: Now, key: Seq<u8>, raw: Seq<u8>)
    requires
        sound(s),
        record_owner(raw) matches Some((k, _)) && k == key,
    ensures
        !compact_op(del_op(s, now, key).0).0.db.contains_key(raw),
{
    stored_is_sound(s, key);
    super::del_law(s, now, key);
    let t = del_op(s, now, key).0;
    assert(sound_key(t, key));
    assert(!t.versions.contains_key(key));
}

/// `FLUSHALL` leaves no key, no record of one and no version.
pub proof fn flush_law(s: StoreView)
    ensures
        ({
            let (t, r) = flush_op(s);
            &&& r is Ok
            &&& sound(t)
            &&& adds_only(s, t)
            &&& forall|k: Seq<u8>| #[trigger] entry(t, k) is None
            &&& forall|raw: Seq<u8>| #[trigger] t.db.contains_key(raw) ==> !is_record(raw)
            &&& t.versions == Map::<Seq<u8>, u64>::empty()
        }),
{
    let t = flush_op(s).0;
    assert forall|k: Seq<u8>| !(#[trigger] t.db.contains_key(meta_name(k))) by {
        meta_has_no_owner(k);
    }
    assert forall|k: Seq<u8>| #[trigger] entry(t, k) is None by {
        assert(!t.db.contains_key(meta_name(k)));
    }
    assert forall|k: Seq<u8>| #[trigger] sound_key(t, k) by {
        assert(!t.db.contains_key(meta_name(k)));
    }
}

/// The store that is opened on the records of `s`, whose clock starts at the last version in them.
pub open spec fn reopened(s: StoreView, clock: u64) -> StoreView {
    StoreView { db: s.db, versions: rebuilt(s.db), clock }
}

/// A restart loses nothing: the versions that the metadata records give are those that were
/// current, so that every key keeps its value and the records fit together as before. No key has a
/// version past the clock that the store starts with. So where there is no garbage, or once the
/// machine's clock has moved on past the last version, no record has the version that comes next.
pub proof fn restart_law(s: StoreView, now: Now, clock: u64)
    requires
        sound(s),
        is_last_version(s.db, clock),
    ensures
        rebuilt(s.db) == s.versions,
        ({
            let t = reopened(s, clock);
            &&& forall|k: Seq<u8>| #[trigger] entry(t, k) == entry(s, k)
            &&& sound(t)
            &&& forall|k: Seq<u8>| #[trigger] t.versions.contains_key(k) ==> t.versions[k] <= clock
            &&& forall|last: u64| #[trigger]
                versions_upto(s, last) ==> versions_upto(t, last) && (now.micros > last ==> fresh(
                    t,
                    now,
                ))
            &&& clock < u64::MAX && no_garbage(s) ==> fresh(t, now)
        }),
{
    let made = rebuilt(s.db);
    assert forall|k: Seq<u8>| #[trigger] made.dom().contains(k) == s.versions.dom().contains(k) by {
        assert(sound_key(s, k));
    }
    assert forall|k: Seq<u8>| made.dom().contains(k) implies #[trigger] made[k] == s.versions[k] by {
        assert(sound_key(s, k));
    }
    assert(made =~= s.versions);
    let t = reopened(s, clock);
    assert forall|k: Seq<u8>| #[trigger] sound_key(t, k) by {
        assert(sound_key(s, k));
    }
    assert forall|k: Seq<u8>| #[trigger] t.versions.contains_key(k) implies t.versions[k]
        <= clock by {
        assert(version_at(s.db, k) == Some(made[k]));
    }
    assert forall|last: u64| #[trigger] versions_upto(s, last) implies versions_upto(t, last) && (
    now.micros > last ==> fresh(t, now)) by {
        if now.micros > last {
            upto_is_fresh(t, now, last);
        }
    }
    if clock < u64::MAX && no_garbage(s) {
        assert forall|raw: Seq<u8>| #[trigger] t.db.contains_key(raw) implies (record_owner(
            raw,
        ) matches Some((_, v)) ==> v < next_version(clock, now.micros)) by {
            assert(is_current(s.versions, raw));
            if let Some((k, v)) = record_owner(raw) {
                assert(t.versions.contains_key(k));
            }
        }
    }
}

/// Every record is current, as it is after a compaction.
pub open spec fn no_garbage(s: StoreView) -> bool {
    forall|raw: Seq<u8>| #[trigger] s.db.contains_key(raw) ==> is_current(s.versions, raw)
}

/// The predicate that a store installs when it is opened keeps the record of a field just where the
/// metadata of its owner can be decoded and is that of a composite value of the record's version.
pub proof fn installed_predicate_law(db: Records, key: Seq<u8>, version: u64, field: Seq<u8>)
    requires
        key.len() <= u32::MAX,
    ensures
        kept_under(Some(rebuilt(db)), sub_name(key, version, field)) == (db.contains_key(
            meta_name(key),
        ) && (meta_of(db[meta_name(key)]) matches Some(meta) && meta.composite() && meta.version
            == version)),
{
    owner_of_field(key, version, field);
}

/// An operation that does not go with the type of the value at a key answers `WRONGTYPE` and
/// changes nothing.
pub proof fn wrong_type_changes_nothing(s: StoreView, now: Now, key: Seq<u8>, meta: MetaView)
    requires
        live(s, now, key) == Ok::<Option<MetaView>, EngineErrorView>(Some(meta)),
    ensures
        meta.type_id != TYPE_STRING ==> get_op(s, now, key) == (
            s,
            Err::<Option<Seq<u8>>, EngineErrorView>(EngineErrorView::WrongType),
        ),
        meta.type_id != TYPE_HASH ==> {
            &&& forall|pairs: Seq<(Seq<u8>, Seq<u8>)>| #[trigger]
                hset_op(s, now, key, pairs) == (
                    s,
                    Err::<i64, EngineErrorView>(EngineErrorView::WrongType),
                )
            &&& forall|field: Seq<u8>| #[trigger]
                hget_op(s, now, key, field) == (
                    s,
                    Err::<Option<Seq<u8>>, EngineErrorView>(EngineErrorView::WrongType),
                )
            &&& hgetall_op(s, now, key) == (
                s,
                Err::<Seq<(Seq<u8>, Seq<u8>)>, EngineErrorView>(EngineErrorView::WrongType),
            )
        },
        meta.type_id != TYPE_SET ==> {
            &&& forall|members: Seq<Seq<u8>>| #[trigger]
                sadd_op(s, now, key, members) == (
                    s,
                    Err::<i64, EngineErrorView>(EngineErrorView::WrongType),
                )
            &&& smembers_op(s, now, key) == (
                s,
                Err::<Seq<Seq<u8>>, EngineErrorView>(EngineErrorView::WrongType),
            )
        },
        meta.type_id != TYPE_ZSET ==> {
            &&& forall|pairs: Seq<(u64, Seq<u8>)>| #[trigger]
                zadd_op(s, now, key, pairs) == (
                    s,
                    Err::<i64, EngineErrorView>(EngineErrorView::WrongType),
                )
            &&& forall|members: Seq<Seq<u8>>| #[trigger]
                zrem_op(s, now, key, members) == (
                    s,
                    Err::<i64, EngineErrorView>(EngineErrorView::WrongType),
                )
            &&& forall|member: Seq<u8>| #[trigger]
                zscore_op(s, now, key, member) == (
                    s,
                    Err::<Option<u64>, EngineErrorView>(EngineErrorView::WrongType),
                )
            &&& forall|start: i64, stop: i64| #[trigger]
                zrange_op(s, now, key, start, stop) == (
                    s,
                    Err::<Seq<(Seq<u8>, u64)>, EngineErrorView>(EngineErrorView::WrongType),
                )
            &&& forall|range: ScoreRange| #[trigger]
                zrange_by_score_op(s, now, key, range) == (
                    s,
                    Err::<Seq<(Seq<u8>, u64)>, EngineErrorView>(EngineErrorView::WrongType),
                )
        },
        meta.type_id != TYPE_LIST ==> {
            &&& forall|values: Seq<Seq<u8>>, left: bool| #[trigger]
                push_op(s, now, key, values, left) == (
                    s,
                    Err::<i64, EngineErrorView>(EngineErrorView::WrongType),
                )
            &&& forall|count: usize, left: bool| #[trigger]
                pop_op(s, now, key, count, left) == (
                    s,
                    Err::<Seq<Seq<u8>>, EngineErrorView>(EngineErrorView::WrongType),
                )
            &&& forall|start: i64, stop: i64| #[trigger]
                lrange_op(s, now, key, start, stop) == (
                    s,
                    Err::<Seq<Seq<u8>>, EngineErrorView>(EngineErrorView::WrongType),
                )
            &&& llen_op(s, now, key) == (
                s,
                Err::<i64, EngineErrorView>(EngineErrorView::WrongType),
            )
        },
        forall|type_id: u8, fields: Seq<Seq<u8>>|
            meta.type_id != type_id ==> #[trigger] remove_op(s, now, key, type_id, fields) == (
                s,
                Err::<i64, EngineErrorView>(EngineErrorView::WrongType),
            ),
        forall|type_id: u8|
            meta.type_id != type_id ==> #[trigger] count_op(s, now, key, type_id) == (
                s,
                Err::<i64, EngineErrorView>(EngineErrorView::WrongType),
            ),
        forall|type_id: u8, field: Seq<u8>|
            meta.type_id != type_id ==> #[trigger] has_op(s, now, key, type_id, field) == (
                s,
                Err::<bool, EngineErrorView>(EngineErrorView::WrongType),
            ),
{
}

/// `DBSIZE` counts the keys that have metadata.
pub proof fn dbsize_law(s: StoreView, keys: Set<Seq<u8>>)
    requires
        s.db.dom().finite(),
        forall|k: Seq<u8>| #[trigger] keys.contains(k) == s.db.contains_key(meta_name(k)),
    ensures
        keys.finite(),
        dbsize_op(s) == (s, Ok::<i64, EngineErrorView>(keys.len() as i64)),
{
    let prefix = seq![META_PREFIX];
    let items = scan(s.db, prefix);
    scan_exists(s.db, prefix);
    let names = items.map_values(|item: (Seq<u8>, Seq<u8>)| item.0.skip(1));
    assert forall|i: int| 0 <= i < items.len() implies (#[trigger] items[i]).0 == meta_name(
        names[i],
    ) by {
        assert(prefix.is_prefix_of(items[i].0));
        assert(items[i].0.subrange(0, 1)[0] == items[i].0[0]);
        assert(items[i].0 =~= meta_name(names[i]));
    }
    assert(names.no_duplicates()) by {
        assert forall|i: int, j: int| 0 <= i < j < names.len() implies names[i] != names[j] by {
            assert(crate::order::before(items[i].0, items[j].0));
            crate::order::before_irreflexive(items[i].0);
        }
    }
    names.unique_seq_to_set();
    assert forall|k: Seq<u8>| #[trigger] names.to_set().contains(k) == keys.contains(k) by {
        if names.contains(k) {
            let i = choose|i: int| 0 <= i < names.len() && names[i] == k;
            assert(s.db.contains_pair(items[i].0, items[i].1));
            assert(items[i].0 == meta_name(names[i]));
        }
        if keys.contains(k) {
            assert(prefix.is_prefix_of(meta_name(k))) by {
                assert(prefix =~= meta_name(k).subrange(0, 1));
            }
            assert(s.db.contains_key(meta_name(k)));
            let i = choose|i: int| 0 <= i < items.len() && (#[trigger] items[i]).0 == meta_name(k);
            assert(items[i].0 == meta_name(names[i]));
            meta_keys_differ(names[i], k);
            assert(names[i] == k);
        }
    }
    assert(names.to_set() =~= keys);
}

} // verus!
