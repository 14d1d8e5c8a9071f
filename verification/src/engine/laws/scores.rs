//! Sorted sets.
use vstd::prelude::*;

use super::counts::{family, member_records, metadata_does_not_count, scan_counts};
use super::members::{end_seen, members_left_law, name_one_more, touches_further, type_seen};
use super::{opened, stored_value, swept_is_sound, touches};
use crate::engine::bigend::{be, be_ranges, be_reads_back, be_value, be_value_writes_back};
use crate::engine::encoding::{
    count_reads_back, index_key_reads_back, index_keys_ordered, index_name, index_suffix,
    owner_prefix, score_bytes, score_is_nan, score_less, score_order, score_order_inverts,
    score_same, sub_name, SUBKEY_PREFIX, TYPE_ZSET, ZSCORE_PREFIX,
};
use crate::engine::engine::{scan, scan_exists, Records};
use crate::engine::error::EngineErrorView;
use crate::engine::model::{
    any_change, bad_score, count_down, count_op, count_up, drop_scores, found_or_fresh, has_field,
    index_items, last_scores, member_at, members_of, missing_count, present_count, put_scores,
    rank_range, ranked, score_changes, scores_within, stored_score, swept, typed, with_db, zadd_op,
    zrange_by_score_op, zrange_op, zrem_op, zscore_op, Now, ScoreRange, StoreView,
};
use crate::engine::store::{
    distinct_members, drop_scores_again, last_scores_distinct, member_at_is,
};
use crate::engine::values::{
    adds_only, entry, field_names_differ, fields_of, fresh, owner_of_field, owner_of_index,
    owner_of_record, scores_of, sound, sound_meta, sound_scores, visible, Entry, Value,
};
use crate::order::{before, before_irreflexive};

verus! {

// ---------------------------------------------------------------------------
// Changes to scores
// ---------------------------------------------------------------------------
/// Eight bytes that were written for a score read back as it.
pub proof fn score_reads_back(score: u64)
    ensures
        score_bytes(score).len() == 8,
        stored_score(score_bytes(score)) == Some(score),
{
    be_ranges();
    be_reads_back(score_order(score) as nat, 8);
    score_order_inverts(score);
}

/// What stands behind the prefix of a score-index key is the score and the member.
proof fn suffix_is(rest: Seq<u8>)
    ensures
        index_suffix(rest) matches Some((score, member)) ==> rest == score_bytes(score) + member,
{
    if let Some((score, member)) = index_suffix(rest) {
        be_ranges();
        be_value_writes_back(rest.take(8));
        score_order_inverts(be_value(rest.take(8)) as u64);
        assert(rest =~= rest.take(8) + rest.skip(8));
    }
}

/// Score-index records of different members differ.
proof fn index_names_differ(key: Seq<u8>, version: u64, s1: u64, m1: Seq<u8>, s2: u64, m2: Seq<u8>)
    requires
        key.len() <= u32::MAX,
        index_name(key, version, s1, m1) == index_name(key, version, s2, m2),
    ensures
        s1 == s2,
        m1 == m2,
{
    index_key_reads_back(key, version, s1, m1);
    index_key_reads_back(key, version, s2, m2);
}

/// The records with another score for one member.
pub open spec fn rescored(db: Records, key: Seq<u8>, version: u64, member: Seq<u8>, score: u64) -> Records {
    let name = sub_name(key, version, member);
    let cleared = if db.contains_key(name) {
        db.remove(index_name(key, version, stored_score(db[name])->0, member))
    } else {
        db
    };
    cleared.insert(name, score_bytes(score)).insert(
        index_name(key, version, score, member),
        Seq::empty(),
    )
}

/// Another score for one member: the member has it, the others keep theirs, and the index still
/// fits.
#[verifier::spinoff_prover]
proof fn score_put(db: Records, key: Seq<u8>, version: u64, member: Seq<u8>, score: u64)
    requires
        key.len() <= u32::MAX,
        sound_scores(db, key, version),
    ensures
        ({
            let after = rescored(db, key, version, member, score);
            &&& sound_scores(after, key, version)
            &&& scores_of(after, key, version) == scores_of(db, key, version).insert(member, score)
            &&& fields_of(after, key, version).dom() == fields_of(db, key, version).dom().insert(
                member,
            )
            &&& touches(db, after, key, version)
            &&& forall|m: Seq<u8>|
                m != member ==> (#[trigger] has_field(after, key, version, m) == has_field(
                    db,
                    key,
                    version,
                    m,
                )) && after[sub_name(key, version, m)] == db[sub_name(key, version, m)]
        }),
{
    let after = rescored(db, key, version, member, score);
    let name = sub_name(key, version, member);
    let index = index_name(key, version, score, member);
    let was = stored_score(db[name])->0;
    let old_index = index_name(key, version, was, member);
    let prefix = owner_prefix(ZSCORE_PREFIX, key, version);
    owner_of_field(key, version, member);
    owner_of_index(key, version, score, member);
    owner_of_index(key, version, was, member);
    score_reads_back(score);
    assert forall|m: Seq<u8>| m != member implies (#[trigger] has_field(after, key, version, m)
        == has_field(db, key, version, m)) && after[sub_name(key, version, m)] == db[sub_name(
        key,
        version,
        m,
    )] by {
        let other = sub_name(key, version, m);
        owner_of_field(key, version, m);
        if other == name {
            field_names_differ(key, version, m, member);
        }
    }
    assert(has_field(after, key, version, member) && after[name] == score_bytes(score));
    let a = scores_of(after, key, version);
    let b = scores_of(db, key, version).insert(member, score);
    assert forall|m: Seq<u8>| #[trigger] a.dom().contains(m) == b.dom().contains(m) by {
        if m != member {
            assert(has_field(after, key, version, m) == has_field(db, key, version, m));
        }
    }
    assert forall|m: Seq<u8>| a.dom().contains(m) implies #[trigger] a[m] == b[m] by {
        if m != member {
            assert(has_field(after, key, version, m) == has_field(db, key, version, m));
        }
    }
    assert(a =~= b);
    let x = fields_of(after, key, version).dom();
    let y = fields_of(db, key, version).dom().insert(member);
    assert forall|m: Seq<u8>| #[trigger] x.contains(m) == y.contains(m) by {
        if m != member {
            assert(has_field(after, key, version, m) == has_field(db, key, version, m));
        }
    }
    assert(x =~= y);
    assert forall|m: Seq<u8>| #[trigger] has_field(after, key, version, m) implies stored_score(
        after[sub_name(key, version, m)],
    ) is Some && after.contains_key(index_name(key, version, a[m], m)) by {
        if m != member {
            assert(has_field(db, key, version, m));
            let own = index_name(key, version, scores_of(db, key, version)[m], m);
            owner_of_index(key, version, a[m], m);
            if own == old_index {
                index_names_differ(key, version, a[m], m, was, member);
            }
            assert(db.contains_key(own));
        }
    }
    assert forall|rest: Seq<u8>| #[trigger] after.contains_key(prefix + rest) implies (index_suffix(
        rest,
    ) matches Some((sc, m)) && has_field(after, key, version, m) && a[m] == sc) by {
        let raw = prefix + rest;
        owner_of_record(ZSCORE_PREFIX, key, version, rest);
        index_key_reads_back(key, version, score, member);
        if raw == index {
            assert(rest =~= score_bytes(score) + member) by {
                assert(raw.skip(prefix.len() as int) =~= rest);
                assert(index.skip(prefix.len() as int) =~= score_bytes(score) + member);
            }
        } else {
            assert(db.contains_key(raw));
            let (sc, m) = index_suffix(rest)->0;
            suffix_is(rest);
            index_key_reads_back(key, version, sc, m);
            assert(raw == index_name(key, version, sc, m));
            if m == member {
                assert(sc == was);
                assert(raw == old_index);
            } else {
                assert(has_field(after, key, version, m) == has_field(db, key, version, m));
            }
        }
    }
    assert(touches(db, after, key, version));
}

/// Scores with those of `list` in place, but for those that are the same number already.
pub open spec fn score_all(
    scores: Map<Seq<u8>, u64>,
    list: Seq<(Seq<u8>, u64)>,
) -> Map<Seq<u8>, u64>
    decreases list.len(),
{
    if list.len() == 0 {
        scores
    } else {
        let before = score_all(scores, list.drop_last());
        let (member, score) = list.last();
        if scores.contains_key(member) && score_same(scores[member], score) {
            before
        } else {
            before.insert(member, score)
        }
    }
}

/// Putting scores puts them, counts the members that are new, and touches nothing else.
#[verifier::spinoff_prover]
proof fn scores_put(db: Records, key: Seq<u8>, version: u64, list: Seq<(Seq<u8>, u64)>)
    requires
        key.len() <= u32::MAX,
        sound_scores(db, key, version),
        distinct_members(list),
        fields_of(db, key, version).dom().finite(),
    ensures
        ({
            let after = put_scores(db, key, version, list);
            let was = fields_of(db, key, version).dom();
            let now = fields_of(after, key, version).dom();
            &&& touches(db, after, key, version)
            &&& sound_scores(after, key, version)
            &&& scores_of(after, key, version) == score_all(scores_of(db, key, version), list)
            &&& now.finite()
            &&& now.len() == was.len() + missing_count(db, key, version, members_of(list))
            &&& forall|m: Seq<u8>|
                !members_of(list).contains(m) ==> (#[trigger] has_field(after, key, version, m)
                    == has_field(db, key, version, m)) && after[sub_name(key, version, m)]
                    == db[sub_name(key, version, m)]
        }),
    decreases list.len(),
{
    let after = put_scores(db, key, version, list);
    let was = fields_of(db, key, version).dom();
    let now = fields_of(after, key, version).dom();
    let names = members_of(list);
    if list.len() > 0 {
        let init = list.drop_last();
        let (member, score) = list.last();
        let name = sub_name(key, version, member);
        let mid = put_scores(db, key, version, init);
        assert(distinct_members(init)) by {
            assert forall|i: int, j: int| 0 <= i < j < init.len() implies (#[trigger] init[i]).0
                != (#[trigger] init[j]).0 by {
                assert(list[i].0 != list[j].0);
            }
        }
        scores_put(db, key, version, init);
        assert(names.drop_last() =~= members_of(init));
        assert(names.last() == member);
        assert(!members_of(init).contains(member)) by {
            if members_of(init).contains(member) {
                let i = choose|i: int|
                    0 <= i < members_of(init).len() && members_of(init)[i] == member;
                assert(list[i].0 == list[list.len() - 1].0);
            }
        }
        assert(has_field(mid, key, version, member) == has_field(db, key, version, member));
        if score_changes(db, key, version, member, score) {
            assert(after == rescored(mid, key, version, member, score));
            score_put(mid, key, version, member, score);
            touches_further(db, mid, after, key, version);
        }
        assert forall|m: Seq<u8>| !names.contains(m) implies (#[trigger] has_field(
            after,
            key,
            version,
            m,
        ) == has_field(db, key, version, m)) && after[sub_name(key, version, m)] == db[sub_name(
            key,
            version,
            m,
        )] by {
            name_one_more(names, m);
            assert(has_field(mid, key, version, m) == has_field(db, key, version, m));
            if score_changes(db, key, version, member, score) {
                assert(has_field(after, key, version, m) == has_field(mid, key, version, m));
            }
        }
    } else {
        assert(names =~= Seq::empty());
    }
}

/// Where no score changes, the scores stay.
proof fn no_change_no_scores(db: Records, key: Seq<u8>, version: u64, list: Seq<(Seq<u8>, u64)>)
    requires
        sound_scores(db, key, version),
        !any_change(db, key, version, list),
    ensures
        score_all(scores_of(db, key, version), list) == scores_of(db, key, version),
        missing_count(db, key, version, members_of(list)) == 0,
    decreases list.len(),
{
    if list.len() > 0 {
        let init = list.drop_last();
        let (member, score) = list.last();
        if any_change(db, key, version, init) {
            let i = choose|i: int|
                0 <= i < init.len() && score_changes(
                    db,
                    key,
                    version,
                    (#[trigger] init[i]).0,
                    init[i].1,
                );
            assert(list[i] == init[i]);
        }
        no_change_no_scores(db, key, version, init);
        assert(!score_changes(db, key, version, list[list.len() - 1].0, list[list.len() - 1].1));
        assert(members_of(list).drop_last() =~= members_of(init));
        assert(members_of(list).last() == member);
    } else {
        assert(members_of(list) =~= Seq::empty());
    }
}

// ---------------------------------------------------------------------------
// Sorted sets
// ---------------------------------------------------------------------------
/// A reader sees a sorted set at the key, or nothing.
pub open spec fn zset_or_nothing(s: StoreView, now: Now, key: Seq<u8>) -> bool {
    visible(s, now, key) matches Some(e) ==> e.value is Scores
}

/// What a reader sees at the key, taken as scores: none where there is nothing.
pub open spec fn scores_seen(s: StoreView, now: Now, key: Seq<u8>) -> Map<Seq<u8>, u64> {
    match visible(s, now, key) {
        Some(e) => match e.value {
            Value::Scores(scores) => scores,
            _ => Map::empty(),
        },
        None => Map::empty(),
    }
}

/// `ZADD` gives the members their scores, the last one given for each, in the sorted set or in a
/// new one; it answers how many members the set has more than before, keeps the end of its time,
/// and touches no other key.
#[verifier::spinoff_prover]
pub proof fn zadd_law(s: StoreView, now: Now, key: Seq<u8>, pairs: Seq<(u64, Seq<u8>)>)
    requires
        sound(s),
        key.len() <= u32::MAX,
        visible(s, now, key) is Some || fresh(s, now),
        pairs.len() > 0 || visible(s, now, key) is Some,
        zset_or_nothing(s, now, key),
        score_all(scores_seen(s, now, key), last_scores(pairs)).dom().len() <= u32::MAX,
    ensures
        ({
            let (t, r) = zadd_op(s, now, key, pairs);
            let was = scores_seen(s, now, key);
            let scores = score_all(was, last_scores(pairs));
            &&& r == Ok::<i64, EngineErrorView>((scores.dom().len() - was.dom().len()) as i64)
            &&& sound(t)
            &&& adds_only(s, t)
            &&& entry(t, key) == Some(
                Entry { value: Value::Scores(scores), expire_ms: end_seen(s, now, key) },
            )
            &&& forall|k: Seq<u8>| k != key ==> #[trigger] entry(t, k) == entry(s, k)
        }),
{
    type_seen(s, now, key, TYPE_ZSET);
    opened(s, now, key, TYPE_ZSET);
    swept_is_sound(s, now, key);
    let found = typed(s, now, key, TYPE_ZSET)->Ok_0;
    let s0 = swept(s, now, key);
    let (s1, meta) = found_or_fresh(s0, now, key, found, TYPE_ZSET, be(0, 4));
    let version = meta.version;
    let list = last_scores(pairs);
    let was = scores_of(s1.db, key, version);
    assert(was =~= scores_seen(s, now, key));
    assert(was.dom() =~= fields_of(s1.db, key, version).dom());
    last_scores_distinct(pairs);
    if pairs.len() > 0 {
        last_scores_some(pairs);
    }
    scores_put(s1.db, key, version, list);
    let db = put_scores(s1.db, key, version, list);
    let scores = score_all(was, list);
    assert(scores.dom() =~= fields_of(db, key, version).dom());
    assert(!bad_score(s1.db, key, version, members_of(list)));
    if any_change(s1.db, key, version, list) {
        let added = missing_count(s1.db, key, version, members_of(list));
        let count = count_up(meta.count(), added);
        let changed = meta.with_count(count);
        count_reads_back(meta, count);
        let i = choose|i: int|
            0 <= i < list.len() && score_changes(
                s1.db,
                key,
                version,
                (#[trigger] list[i]).0,
                list[i].1,
            );
        score_all_has(was, list, i);
        assert(scores.dom().contains(list[i].0));
        if scores.dom().len() == 0 {
            assert(scores.dom() =~= Set::empty());
        }
        assert(sound_meta(with_db(s1, db), key, changed));
        stored_value(s, s1, db, key, changed);
    } else {
        no_change_no_scores(s1.db, key, version, list);
        if found is None {
            assert(score_changes(s1.db, key, version, list[0].0, list[0].1));
        }
    }
}

/// Where there are pairs there are last scores.
proof fn last_scores_some(pairs: Seq<(u64, Seq<u8>)>)
    requires
        pairs.len() > 0,
    ensures
        last_scores(pairs).len() > 0,
{
    member_at_is(last_scores(pairs.drop_last()), pairs.last().1);
}

/// A member whose score is given is there.
proof fn score_all_has(scores: Map<Seq<u8>, u64>, list: Seq<(Seq<u8>, u64)>, i: int)
    requires
        0 <= i < list.len(),
    ensures
        score_all(scores, list).contains_key(list[i].0),
    decreases list.len(),
{
    if i < list.len() - 1 {
        score_all_has(scores, list.drop_last(), i);
    } else {
        score_all_keeps(scores, list.drop_last());
    }
}

/// Giving scores takes no member away.
proof fn score_all_keeps(scores: Map<Seq<u8>, u64>, list: Seq<(Seq<u8>, u64)>)
    ensures
        forall|m: Seq<u8>| #[trigger]
            scores.contains_key(m) ==> score_all(scores, list).contains_key(m),
    decreases list.len(),
{
    if list.len() > 0 {
        score_all_keeps(scores, list.drop_last());
    }
}

/// The score that is given last for a member is the one that counts.
proof fn last_score_counts(pairs: Seq<(u64, Seq<u8>)>, i: int)
    requires
        0 <= i < pairs.len(),
        forall|j: int| i < j < pairs.len() ==> (#[trigger] pairs[j]).1 != pairs[i].1,
    ensures
        last_scores(pairs).contains((pairs[i].1, pairs[i].0)),
    decreases pairs.len(),
{
    let init = pairs.drop_last();
    let list = last_scores(init);
    let all = last_scores(pairs);
    member_at_is(list, pairs.last().1);
    if i < pairs.len() - 1 {
        assert(pairs[pairs.len() - 1].1 != pairs[i].1);
        last_score_counts(init, i);
        let k = choose|k: int| 0 <= k < list.len() && list[k] == (pairs[i].1, pairs[i].0);
        assert(all[k] == list[k]);
    } else {
        match member_at(list, pairs.last().1) {
            Some(k) => assert(all[k] == (pairs[i].1, pairs[i].0)),
            None => assert(all[list.len() as int] == (pairs[i].1, pairs[i].0)),
        }
    }
}

/// Giving scores leaves the other members theirs.
proof fn other_scores_stay(scores: Map<Seq<u8>, u64>, list: Seq<(Seq<u8>, u64)>, member: Seq<u8>)
    requires
        forall|i: int| 0 <= i < list.len() ==> (#[trigger] list[i]).0 != member,
        scores.contains_key(member),
    ensures
        score_all(scores, list).contains_pair(member, scores[member]),
    decreases list.len(),
{
    if list.len() > 0 {
        let init = list.drop_last();
        assert forall|i: int| 0 <= i < init.len() implies (#[trigger] init[i]).0 != member by {
            assert(list[i].0 != member);
        }
        assert(list[list.len() - 1].0 != member);
        other_scores_stay(scores, init, member);
    }
}

/// A member whose score is given has that score, or one that is the same number.
proof fn given_score_stays(scores: Map<Seq<u8>, u64>, list: Seq<(Seq<u8>, u64)>, i: int)
    requires
        0 <= i < list.len(),
        distinct_members(list),
    ensures
        ({
            let all = score_all(scores, list);
            let (member, score) = list[i];
            all.contains_key(member) && (all[member] == score || score_same(all[member], score))
        }),
    decreases list.len(),
{
    let init = list.drop_last();
    if i < list.len() - 1 {
        assert(list[i].0 != list[list.len() - 1].0);
        assert(distinct_members(init)) by {
            assert forall|a: int, b: int| 0 <= a < b < init.len() implies (#[trigger] init[a]).0
                != (#[trigger] init[b]).0 by {
                assert(list[a].0 != list[b].0);
            }
        }
        given_score_stays(scores, init, i);
    } else {
        let (member, score) = list.last();
        if scores.contains_key(member) && score_same(scores[member], score) {
            assert forall|a: int| 0 <= a < init.len() implies (#[trigger] init[a]).0 != member by {
                assert(list[a].0 != list[list.len() - 1].0);
            }
            other_scores_stay(scores, init, member);
        }
    }
}

/// After `ZADD` a member has the score that was given last for it, or one that is the same number.
pub proof fn given_score_is_seen(scores: Map<Seq<u8>, u64>, pairs: Seq<(u64, Seq<u8>)>, i: int)
    requires
        0 <= i < pairs.len(),
        forall|j: int| i < j < pairs.len() ==> (#[trigger] pairs[j]).1 != pairs[i].1,
    ensures
        ({
            let all = score_all(scores, last_scores(pairs));
            let (score, member) = pairs[i];
            all.contains_key(member) && (all[member] == score || score_same(all[member], score))
        }),
{
    let list = last_scores(pairs);
    last_scores_distinct(pairs);
    last_score_counts(pairs, i);
    let k = choose|k: int| 0 <= k < list.len() && list[k] == (pairs[i].1, pairs[i].0);
    given_score_stays(scores, list, k);
}

/// `ZSCORE` and `ZCARD` answer from the scores that a reader sees, and change nothing that a
/// reader sees.
pub proof fn zset_reads_law(s: StoreView, now: Now, key: Seq<u8>, member: Seq<u8>)
    requires
        sound(s),
        zset_or_nothing(s, now, key),
    ensures
        ({
            let scores = scores_seen(s, now, key);
            &&& zscore_op(s, now, key, member) == (
                swept(s, now, key),
                Ok::<Option<u64>, EngineErrorView>(
                    if scores.contains_key(member) {
                        Some(scores[member])
                    } else {
                        None
                    },
                ),
            )
            &&& count_op(s, now, key, TYPE_ZSET) == (
                swept(s, now, key),
                Ok::<i64, EngineErrorView>(scores.dom().len() as i64),
            )
        }),
{
    type_seen(s, now, key, TYPE_ZSET);
    if let Ok(Some(meta)) = typed(s, now, key, TYPE_ZSET) {
        assert(scores_of(s.db, key, meta.version).dom() =~= fields_of(
            s.db,
            key,
            meta.version,
        ).dom());
        if has_field(s.db, key, meta.version, member) {
            assert(stored_score(s.db[sub_name(key, meta.version, member)]) is Some);
        }
    }
}

// ---------------------------------------------------------------------------
// Removal
// ---------------------------------------------------------------------------
/// One member less: the others keep their scores, and the index still fits.
#[verifier::spinoff_prover]
proof fn score_dropped(db: Records, key: Seq<u8>, version: u64, member: Seq<u8>)
    requires
        key.len() <= u32::MAX,
        sound_scores(db, key, version),
        has_field(db, key, version, member),
    ensures
        ({
            let name = sub_name(key, version, member);
            let index = index_name(key, version, stored_score(db[name])->0, member);
            let after = db.remove(name).remove(index);
            &&& sound_scores(after, key, version)
            &&& scores_of(after, key, version) == scores_of(db, key, version).remove(member)
            &&& fields_of(after, key, version).dom() == fields_of(db, key, version).dom().remove(
                member,
            )
            &&& touches(db, after, key, version)
            &&& forall|m: Seq<u8>|
                m != member ==> (#[trigger] has_field(after, key, version, m) == has_field(
                    db,
                    key,
                    version,
                    m,
                )) && after[sub_name(key, version, m)] == db[sub_name(key, version, m)]
        }),
{
    let name = sub_name(key, version, member);
    let was = stored_score(db[name])->0;
    let index = index_name(key, version, was, member);
    let after = db.remove(name).remove(index);
    let prefix = owner_prefix(ZSCORE_PREFIX, key, version);
    owner_of_field(key, version, member);
    owner_of_index(key, version, was, member);
    assert forall|m: Seq<u8>| m != member implies (#[trigger] has_field(after, key, version, m)
        == has_field(db, key, version, m)) && after[sub_name(key, version, m)] == db[sub_name(
        key,
        version,
        m,
    )] by {
        let other = sub_name(key, version, m);
        owner_of_field(key, version, m);
        if other == name {
            field_names_differ(key, version, m, member);
        }
    }
    let a = scores_of(after, key, version);
    let b = scores_of(db, key, version).remove(member);
    assert forall|m: Seq<u8>| #[trigger] a.dom().contains(m) == b.dom().contains(m) by {
        if m != member {
            assert(has_field(after, key, version, m) == has_field(db, key, version, m));
        }
    }
    assert forall|m: Seq<u8>| a.dom().contains(m) implies #[trigger] a[m] == b[m] by {
        if m != member {
            assert(has_field(after, key, version, m) == has_field(db, key, version, m));
        }
    }
    assert(a =~= b);
    let x = fields_of(after, key, version).dom();
    let y = fields_of(db, key, version).dom().remove(member);
    assert forall|m: Seq<u8>| #[trigger] x.contains(m) == y.contains(m) by {
        if m != member {
            assert(has_field(after, key, version, m) == has_field(db, key, version, m));
        }
    }
    assert(x =~= y);
    assert forall|m: Seq<u8>| #[trigger] has_field(after, key, version, m) implies stored_score(
        after[sub_name(key, version, m)],
    ) is Some && after.contains_key(index_name(key, version, a[m], m)) by {
        if m != member {
            assert(has_field(db, key, version, m));
            let own = index_name(key, version, scores_of(db, key, version)[m], m);
            owner_of_index(key, version, a[m], m);
            if own == index {
                index_names_differ(key, version, a[m], m, was, member);
            }
            assert(db.contains_key(own));
        }
    }
    assert forall|rest: Seq<u8>| #[trigger] after.contains_key(prefix + rest) implies (index_suffix(
        rest,
    ) matches Some((sc, m)) && has_field(after, key, version, m) && a[m] == sc) by {
        let raw = prefix + rest;
        owner_of_record(ZSCORE_PREFIX, key, version, rest);
        assert(db.contains_key(raw));
        let (sc, m) = index_suffix(rest)->0;
        suffix_is(rest);
        index_key_reads_back(key, version, sc, m);
        assert(raw == index_name(key, version, sc, m));
        if m == member {
            assert(sc == was);
            assert(raw == index);
        } else {
            assert(has_field(after, key, version, m) == has_field(db, key, version, m));
        }
    }
}

/// The scores without those of some members.
pub open spec fn unscore_all(scores: Map<Seq<u8>, u64>, members: Seq<Seq<u8>>) -> Map<Seq<u8>, u64> {
    scores.remove_keys(members.to_set())
}

/// Dropping members drops them, counts those that were there, and touches nothing else.
#[verifier::spinoff_prover]
proof fn scores_dropped(db: Records, key: Seq<u8>, version: u64, members: Seq<Seq<u8>>)
    requires
        key.len() <= u32::MAX,
        sound_scores(db, key, version),
        fields_of(db, key, version).dom().finite(),
    ensures
        ({
            let after = drop_scores(db, key, version, members);
            let was = fields_of(db, key, version).dom();
            let now = fields_of(after, key, version).dom();
            &&& touches(db, after, key, version)
            &&& sound_scores(after, key, version)
            &&& scores_of(after, key, version) == unscore_all(scores_of(db, key, version), members)
            &&& now.finite()
            &&& now.len() + present_count(db, key, version, members) == was.len()
            &&& forall|m: Seq<u8>|
                !members.contains(m) ==> (#[trigger] has_field(after, key, version, m) == has_field(
                    db,
                    key,
                    version,
                    m,
                )) && after[sub_name(key, version, m)] == db[sub_name(key, version, m)]
            &&& forall|m: Seq<u8>|
                members.contains(m) ==> !(#[trigger] has_field(after, key, version, m))
        }),
    decreases members.len(),
{
    let after = drop_scores(db, key, version, members);
    let was = fields_of(db, key, version).dom();
    let now = fields_of(after, key, version).dom();
    let scores = scores_of(db, key, version);
    if members.len() > 0 {
        let init = members.drop_last();
        let member = members.last();
        let name = sub_name(key, version, member);
        let mid = drop_scores(db, key, version, init);
        scores_dropped(db, key, version, init);
        if has_field(db, key, version, member) {
            if init.contains(member) {
                drop_scores_again(db, key, version, init, member);
                assert(after == mid);
            } else {
                assert(has_field(mid, key, version, member) == has_field(db, key, version, member));
                score_dropped(mid, key, version, member);
                touches_further(db, mid, after, key, version);
            }
        } else {
            if !init.contains(member) {
                assert(has_field(mid, key, version, member) == has_field(db, key, version, member));
            }
        }
        assert forall|m: Seq<u8>| !members.contains(m) implies (#[trigger] has_field(
            after,
            key,
            version,
            m,
        ) == has_field(db, key, version, m)) && after[sub_name(key, version, m)] == db[sub_name(
            key,
            version,
            m,
        )] by {
            name_one_more(members, m);
            assert(has_field(mid, key, version, m) == has_field(db, key, version, m));
            if after != mid {
                assert(has_field(after, key, version, m) == has_field(mid, key, version, m));
            }
        }
        assert forall|m: Seq<u8>| members.contains(m) implies !(#[trigger] has_field(
            after,
            key,
            version,
            m,
        )) by {
            name_one_more(members, m);
            if m != member {
                assert(!has_field(mid, key, version, m));
                if after != mid {
                    assert(has_field(after, key, version, m) == has_field(mid, key, version, m));
                }
            } else if has_field(db, key, version, member) && !init.contains(member) {
                assert(!fields_of(after, key, version).dom().contains(m));
            } else if init.contains(member) {
                assert(!has_field(mid, key, version, m));
            } else {
                assert(has_field(mid, key, version, m) == has_field(db, key, version, m));
            }
        }
    }
    let a = scores_of(after, key, version);
    let b = unscore_all(scores, members);
    assert forall|m: Seq<u8>| #[trigger] a.dom().contains(m) == b.dom().contains(m) by {
        if !members.contains(m) {
            assert(has_field(after, key, version, m) == has_field(db, key, version, m));
        } else {
            assert(!has_field(after, key, version, m));
            assert(members.to_set().contains(m));
        }
    }
    assert forall|m: Seq<u8>| a.dom().contains(m) implies #[trigger] a[m] == b[m] by {
        if members.contains(m) {
            assert(!has_field(after, key, version, m));
        }
        assert(has_field(after, key, version, m) == has_field(db, key, version, m));
    }
    assert(a =~= b);
}

/// `ZREM` takes the members out of the sorted set and answers how many of them it had; without its
/// last member the set is gone. The end of its time stays, and no other key is touched.
pub proof fn zrem_law(s: StoreView, now: Now, key: Seq<u8>, members: Seq<Seq<u8>>)
    requires
        sound(s),
        zset_or_nothing(s, now, key),
    ensures
        ({
            let (t, r) = zrem_op(s, now, key, members);
            let was = scores_seen(s, now, key);
            let left = unscore_all(was, members);
            &&& r == Ok::<i64, EngineErrorView>((was.dom().len() - left.dom().len()) as i64)
            &&& sound(t)
            &&& adds_only(s, t)
            &&& entry(t, key) == (if left.dom().len() == 0 {
                None
            } else {
                Some(Entry { value: Value::Scores(left), expire_ms: end_seen(s, now, key) })
            })
            &&& forall|k: Seq<u8>| k != key ==> #[trigger] entry(t, k) == entry(s, k)
        }),
{
    type_seen(s, now, key, TYPE_ZSET);
    swept_is_sound(s, now, key);
    let s0 = swept(s, now, key);
    let was = scores_seen(s, now, key);
    let left = unscore_all(was, members);
    if let Ok(Some(meta)) = typed(s, now, key, TYPE_ZSET) {
        let version = meta.version;
        let db = drop_scores(s0.db, key, version, members);
        let removed = present_count(s0.db, key, version, members);
        scores_dropped(s0.db, key, version, members);
        assert(was.dom() =~= fields_of(s0.db, key, version).dom());
        assert(left.dom() =~= fields_of(db, key, version).dom());
        assert(!bad_score(s0.db, key, version, members));
        if removed > 0 {
            members_left_law(s, s0, key, meta, db, removed);
        } else {
            assert(left.dom().subset_of(was.dom()));
            vstd::set_lib::lemma_subset_equality(left.dom(), was.dom());
            assert(left =~= was);
        }
    } else {
        assert(left.dom() =~= Set::empty());
    }
}

/// Each member that is dropped takes two records with it: its own and that in the index.
proof fn two_records_each(db: Records, key: Seq<u8>, version: u64, members: Seq<Seq<u8>>)
    requires
        key.len() <= u32::MAX,
        sound_scores(db, key, version),
        fields_of(db, key, version).dom().finite(),
        db.dom().finite(),
    ensures
        ({
            let after = drop_scores(db, key, version, members);
            let n = present_count(db, key, version, members);
            &&& after.dom().finite()
            &&& family(after, SUBKEY_PREFIX).len() + n == family(db, SUBKEY_PREFIX).len()
            &&& family(after, ZSCORE_PREFIX).len() + n == family(db, ZSCORE_PREFIX).len()
        }),
    decreases members.len(),
{
    if members.len() > 0 {
        let init = members.drop_last();
        let member = members.last();
        let name = sub_name(key, version, member);
        let mid = drop_scores(db, key, version, init);
        let after = drop_scores(db, key, version, members);
        two_records_each(db, key, version, init);
        scores_dropped(db, key, version, init);
        if has_field(db, key, version, member) {
            if init.contains(member) {
                drop_scores_again(db, key, version, init, member);
            } else {
                assert(has_field(mid, key, version, member) == has_field(db, key, version, member));
                let index = index_name(key, version, stored_score(db[name])->0, member);
                assert(mid[name] == db[name]);
                assert(scores_of(mid, key, version)[member] == stored_score(mid[name])->0);
                assert(mid.contains_key(index));
                assert(name[0] == SUBKEY_PREFIX);
                assert(index[0] == ZSCORE_PREFIX);
                scan_counts(mid, SUBKEY_PREFIX);
                scan_counts(mid, ZSCORE_PREFIX);
                assert(family(after, SUBKEY_PREFIX) =~= family(mid, SUBKEY_PREFIX).remove(name));
                assert(family(after, ZSCORE_PREFIX) =~= family(mid, ZSCORE_PREFIX).remove(index));
            }
        }
    }
}

/// `ZREM` takes two records for each member that it takes out, so that `RAWCOUNT` is lower by twice
/// as many as it answers.
pub proof fn zrem_counts(s: StoreView, now: Now, key: Seq<u8>, members: Seq<Seq<u8>>)
    requires
        sound(s),
        s.db.dom().finite(),
        zset_or_nothing(s, now, key),
    ensures
        ({
            let (t, r) = zrem_op(s, now, key, members);
            let was = scores_seen(s, now, key).dom();
            let left = unscore_all(scores_seen(s, now, key), members).dom();
            &&& r == Ok::<i64, EngineErrorView>((was.len() - left.len()) as i64)
            &&& member_records(t.db) + 2 * (was.len() - left.len()) == member_records(s.db)
            &&& t.db.dom().finite()
        }),
{
    zrem_law(s, now, key, members);
    type_seen(s, now, key, TYPE_ZSET);
    swept_is_sound(s, now, key);
    let s0 = swept(s, now, key);
    let t = zrem_op(s, now, key, members).0;
    metadata_does_not_count(s.db, key, Seq::empty(), SUBKEY_PREFIX);
    metadata_does_not_count(s.db, key, Seq::empty(), ZSCORE_PREFIX);
    let was = scores_seen(s, now, key);
    let left = unscore_all(was, members);
    if let Ok(Some(meta)) = typed(s, now, key, TYPE_ZSET) {
        let version = meta.version;
        let db = drop_scores(s0.db, key, version, members);
        let removed = present_count(s0.db, key, version, members);
        scores_dropped(s0.db, key, version, members);
        two_records_each(s0.db, key, version, members);
        assert(was.dom() =~= fields_of(s0.db, key, version).dom());
        assert(left.dom() =~= fields_of(db, key, version).dom());
        assert(!bad_score(s0.db, key, version, members));
        let count = meta.with_count(count_down(meta.count(), removed)).encoded();
        metadata_does_not_count(db, key, count, SUBKEY_PREFIX);
        metadata_does_not_count(db, key, count, ZSCORE_PREFIX);
    } else {
        assert(left.dom() =~= Set::empty());
    }
}

// ---------------------------------------------------------------------------
// Scores in order
// ---------------------------------------------------------------------------
/// `a` comes before `b` in a sorted set: it has the smaller score, or the same one and the smaller
/// member. (Of the two zeros the negative one counts as smaller.)
pub open spec fn ranks_before(a: (Seq<u8>, u64), b: (Seq<u8>, u64)) -> bool {
    score_order(a.1) < score_order(b.1) || a.1 == b.1 && before(a.0, b.0)
}

/// `list` holds each member and its score once, in the order of score and member.
pub open spec fn lists_scores(list: Seq<(Seq<u8>, u64)>, scores: Map<Seq<u8>, u64>) -> bool {
    &&& forall|i: int, j: int|
        0 <= i < j < list.len() ==> ranks_before(#[trigger] list[i], #[trigger] list[j])
    &&& forall|i: int|
        0 <= i < list.len() ==> scores.contains_pair((#[trigger] list[i]).0, list[i].1)
    &&& forall|m: Seq<u8>| #[trigger]
        scores.contains_key(m) ==> exists|i: int| 0 <= i < list.len() && (#[trigger] list[i]).0 == m
}

/// The order of scores is the order of the numbers: what ranks before has no greater score.
pub proof fn ranks_follow_scores(a: (Seq<u8>, u64), b: (Seq<u8>, u64))
    requires
        ranks_before(a, b),
        !score_is_nan(a.1),
        !score_is_nan(b.1),
    ensures
        score_less(a.1, b.1) || score_same(a.1, b.1),
{
}

/// A list of all members has as many of them as there are.
proof fn list_len(list: Seq<(Seq<u8>, u64)>, scores: Map<Seq<u8>, u64>)
    requires
        lists_scores(list, scores),
    ensures
        scores.dom().finite(),
        list.len() == scores.dom().len(),
{
    let names = members_of(list);
    assert(names.no_duplicates()) by {
        assert forall|i: int, j: int| 0 <= i < j < names.len() implies names[i] != names[j] by {
            if names[i] == names[j] {
                assert(ranks_before(list[i], list[j]));
                assert(scores.contains_pair(list[i].0, list[i].1));
                assert(scores.contains_pair(list[j].0, list[j].1));
                before_irreflexive(names[i]);
            }
        }
    }
    names.unique_seq_to_set();
    assert forall|m: Seq<u8>| #[trigger] names.to_set().contains(m) == scores.dom().contains(m) by {
        if names.contains(m) {
            let i = choose|i: int| 0 <= i < names.len() && names[i] == m;
            assert(scores.contains_pair(list[i].0, list[i].1));
        }
        if scores.contains_key(m) {
            let i = choose|i: int| 0 <= i < list.len() && (#[trigger] list[i]).0 == m;
            assert(names[i] == m);
        }
    }
    assert(names.to_set() =~= scores.dom());
}

/// Score-index records that can be read, read one by one.
proof fn index_items_read(items: Seq<(Seq<u8>, Seq<u8>)>, n: nat)
    requires
        forall|i: int|
            0 <= i < items.len() ==> index_suffix((#[trigger] items[i]).0.skip(n as int)) is Some,
    ensures
        index_items(items, n) matches Ok(list) && list.len() == items.len() && forall|i: int|
            0 <= i < list.len() ==> index_suffix(items[i].0.skip(n as int)) == Some(
                ((#[trigger] list[i]).1, list[i].0),
            ),
    decreases items.len(),
{
    if items.len() > 0 {
        let init = items.drop_last();
        assert forall|i: int| 0 <= i < init.len() implies index_suffix(
            (#[trigger] init[i]).0.skip(n as int),
        ) is Some by {
            assert(init[i] == items[i]);
        }
        index_items_read(init, n);
        assert(index_suffix(items[items.len() - 1].0.skip(n as int)) is Some);
        let list = index_items(items, n)->Ok_0;
        assert forall|i: int| 0 <= i < list.len() implies index_suffix(items[i].0.skip(n as int))
            == Some(((#[trigger] list[i]).1, list[i].0)) by {
            if i < init.len() {
                assert(init[i] == items[i]);
            }
        }
    }
}

/// The members and scores that the score index of one version lists.
pub open spec fn indexed(db: Records, key: Seq<u8>, version: u64) -> Seq<(Seq<u8>, u64)> {
    let prefix = owner_prefix(ZSCORE_PREFIX, key, version);
    index_items(scan(db, prefix), prefix.len())->Ok_0
}

/// A scan of the score index of one version lists its members and scores.
#[verifier::spinoff_prover]
proof fn index_lists_scores(db: Records, key: Seq<u8>, version: u64)
    requires
        db.dom().finite(),
        key.len() <= u32::MAX,
        sound_scores(db, key, version),
    ensures
        ({
            let prefix = owner_prefix(ZSCORE_PREFIX, key, version);
            let items = scan(db, prefix);
            let list = indexed(db, key, version);
            &&& lists_scores(list, scores_of(db, key, version))
            &&& list.len() == items.len()
            &&& forall|i: int|
                0 <= i < items.len() ==> index_suffix(
                    (#[trigger] items[i]).0.skip(prefix.len() as int),
                ) == Some((list[i].1, list[i].0))
        }),
{
    let prefix = owner_prefix(ZSCORE_PREFIX, key, version);
    let n = prefix.len();
    let items = scan(db, prefix);
    let scores = scores_of(db, key, version);
    scan_exists(db, prefix);
    assert forall|i: int| 0 <= i < items.len() implies index_suffix(
        (#[trigger] items[i]).0.skip(n as int),
    ) is Some by {
        assert(prefix.is_prefix_of(items[i].0));
        let rest = items[i].0.skip(n as int);
        assert(items[i].0 =~= prefix + rest);
        assert(db.contains_key(prefix + rest));
    }
    index_items_read(items, n);
    let list = indexed(db, key, version);
    assert forall|i: int| 0 <= i < items.len() implies (#[trigger] items[i]).0 == index_name(
        key,
        version,
        list[i].1,
        list[i].0,
    ) && has_field(db, key, version, list[i].0) && scores[list[i].0] == list[i].1 by {
        assert(prefix.is_prefix_of(items[i].0));
        let rest = items[i].0.skip(n as int);
        assert(items[i].0 =~= prefix + rest);
        assert(db.contains_key(prefix + rest));
        assert(index_suffix(rest) == Some((list[i].1, list[i].0)));
        suffix_is(rest);
        index_key_reads_back(key, version, list[i].1, list[i].0);
    }
    assert forall|i: int, j: int| 0 <= i < j < list.len() implies ranks_before(
        #[trigger] list[i],
        #[trigger] list[j],
    ) by {
        assert(before(items[i].0, items[j].0));
        index_keys_ordered(key, version, list[i].1, list[i].0, list[j].1, list[j].0);
    }
    assert forall|i: int| 0 <= i < list.len() implies scores.contains_pair(
        (#[trigger] list[i]).0,
        list[i].1,
    ) by {
        assert(items[i].0 == index_name(key, version, list[i].1, list[i].0));
    }
    assert forall|m: Seq<u8>| #[trigger] scores.contains_key(m) implies exists|i: int|
        0 <= i < list.len() && (#[trigger] list[i]).0 == m by {
        assert(has_field(db, key, version, m));
        let name = index_name(key, version, scores[m], m);
        assert(db.contains_key(name));
        index_key_reads_back(key, version, scores[m], m);
        assert(prefix.is_prefix_of(name)) by {
            assert(prefix =~= name.subrange(0, n as int));
        }
        let i = choose|i: int| 0 <= i < items.len() && (#[trigger] items[i]).0 == name;
        assert(items[i].0 == index_name(key, version, list[i].1, list[i].0));
        index_names_differ(key, version, list[i].1, list[i].0, scores[m], m);
        assert(list[i].0 == m);
    }
}

/// The members and scores that a reader sees at the key, in the order of score and member.
pub open spec fn ranking(s: StoreView, now: Now, key: Seq<u8>) -> Seq<(Seq<u8>, u64)> {
    match typed(s, now, key, TYPE_ZSET) {
        Ok(Some(meta)) => indexed(s.db, key, meta.version),
        _ => Seq::empty(),
    }
}

/// `ZRANGE` answers the members of the given ranks and their scores, out of all that a reader
/// sees, in the order of score and member.
#[verifier::spinoff_prover]
pub proof fn zrange_law(s: StoreView, now: Now, key: Seq<u8>, start: i64, stop: i64)
    requires
        sound(s),
        s.db.dom().finite(),
        zset_or_nothing(s, now, key),
    ensures
        lists_scores(ranking(s, now, key), scores_seen(s, now, key)),
        zrange_op(s, now, key, start, stop) == (
            swept(s, now, key),
            Ok::<Seq<(Seq<u8>, u64)>, EngineErrorView>(
                match rank_range(start, stop, scores_seen(s, now, key).dom().len() as i64) {
                    Some((lo, hi)) => ranking(s, now, key).subrange(lo, hi + 1),
                    None => Seq::empty(),
                },
            ),
        ),
{
    type_seen(s, now, key, TYPE_ZSET);
    let scores = scores_seen(s, now, key);
    let list = ranking(s, now, key);
    if let Ok(Some(meta)) = typed(s, now, key, TYPE_ZSET) {
        let prefix = owner_prefix(ZSCORE_PREFIX, key, meta.version);
        let n = prefix.len();
        let items = scan(s.db, prefix);
        index_lists_scores(s.db, key, meta.version);
        list_len(list, scores);
        assert(scores.dom() =~= fields_of(s.db, key, meta.version).dom());
        if let Some((lo, hi)) = rank_range(start, stop, meta.count() as i64) {
            let chosen = ranked(items, lo, hi);
            assert(chosen =~= items.subrange(lo, hi + 1));
            assert forall|i: int| 0 <= i < chosen.len() implies index_suffix(
                (#[trigger] chosen[i]).0.skip(n as int),
            ) == Some((list[lo + i].1, list[lo + i].0)) by {
                assert(chosen[i] == items[lo + i]);
            }
            index_items_read(chosen, n);
            let got = index_items(chosen, n)->Ok_0;
            assert forall|i: int| 0 <= i < got.len() implies got[i] == list.subrange(
                lo,
                hi + 1,
            )[i] by {
                assert(index_suffix(chosen[i].0.skip(n as int)) == Some(
                    (list[lo + i].1, list[lo + i].0),
                ));
            }
            assert(got =~= list.subrange(lo, hi + 1));
        }
    } else {
        assert(rank_range(start, stop, 0) is None);
        assert(scores.dom() =~= Set::<Seq<u8>>::empty());
    }
}

/// The score lies within the bounds.
pub open spec fn within(range: ScoreRange, p: (Seq<u8>, u64)) -> bool {
    !range.above(p.1) && !range.below(p.1)
}

/// Out of records in the order of their scores, the first that is past the upper bound ends what
/// is within the bounds.
proof fn within_is_filter(
    items: Seq<(Seq<u8>, Seq<u8>)>,
    list: Seq<(Seq<u8>, u64)>,
    n: nat,
    range: ScoreRange,
)
    requires
        items.len() == list.len(),
        forall|i: int|
            0 <= i < items.len() ==> index_suffix((#[trigger] items[i]).0.skip(n as int)) == Some(
                (list[i].1, list[i].0),
            ),
        forall|i: int, j: int|
            0 <= i < j < list.len() ==> ranks_before(#[trigger] list[i], #[trigger] list[j]),
        forall|i: int| 0 <= i < list.len() ==> !score_is_nan((#[trigger] list[i]).1),
    ensures
        scores_within(items, n, range) == Ok::<Seq<(Seq<u8>, u64)>, EngineErrorView>(
            list.filter(|p: (Seq<u8>, u64)| within(range, p)),
        ),
    decreases items.len(),
{
    let keep = |p: (Seq<u8>, u64)| within(range, p);
    if items.len() > 0 {
        let rest = items.skip(1);
        let tail = list.skip(1);
        assert(index_suffix(items[0].0.skip(n as int)) == Some((list[0].1, list[0].0)));
        assert forall|i: int| 0 <= i < rest.len() implies index_suffix(
            (#[trigger] rest[i]).0.skip(n as int),
        ) == Some((tail[i].1, tail[i].0)) by {
            assert(rest[i] == items[i + 1]);
        }
        assert forall|i: int, j: int| 0 <= i < j < tail.len() implies ranks_before(
            #[trigger] tail[i],
            #[trigger] tail[j],
        ) by {
            assert(ranks_before(list[i + 1], list[j + 1]));
        }
        assert forall|i: int| 0 <= i < tail.len() implies !score_is_nan((#[trigger] tail[i]).1) by {
            assert(!score_is_nan(list[i + 1].1));
        }
        within_is_filter(rest, tail, n, range);
        filter_first(list, keep);
        if range.above(list[0].1) {
            assert forall|i: int| 0 <= i < tail.len() implies !keep(#[trigger] tail[i]) by {
                assert(ranks_before(list[0], list[i + 1]));
                ranks_follow_scores(list[0], list[i + 1]);
                assert(!score_is_nan(list[0].1));
            }
            filter_none(tail, keep);
        }
        assert(seq![list[0]] + tail.filter(keep) =~= seq![(list[0].0, list[0].1)] + tail.filter(
            keep,
        ));
    } else {
        assert(list =~= Seq::empty());
        assert(list.filter(keep) =~= Seq::empty()) by {
            reveal(Seq::filter);
        }
    }
}

/// Filtering goes element by element.
proof fn filter_first<T>(s: Seq<T>, keep: spec_fn(T) -> bool)
    requires
        s.len() > 0,
    ensures
        s.filter(keep) == (if keep(s[0]) {
            seq![s[0]] + s.skip(1).filter(keep)
        } else {
            s.skip(1).filter(keep)
        }),
{
    let front = seq![s[0]];
    assert(s =~= front + s.skip(1));
    Seq::filter_distributes_over_add(front, s.skip(1), keep);
    assert(front.filter(keep) =~= if keep(s[0]) {
        front
    } else {
        Seq::empty()
    }) by {
        reveal(Seq::filter);
        assert(front.drop_last() =~= Seq::empty());
        assert(front.drop_last().filter(keep) =~= Seq::empty());
        assert(Seq::<T>::empty().push(s[0]) =~= front);
    }
    assert(Seq::<T>::empty() + s.skip(1).filter(keep) =~= s.skip(1).filter(keep));
}

/// Where nothing is kept, nothing is left.
proof fn filter_none<T>(s: Seq<T>, keep: spec_fn(T) -> bool)
    requires
        forall|i: int| 0 <= i < s.len() ==> !keep(#[trigger] s[i]),
    ensures
        s.filter(keep) == Seq::<T>::empty(),
    decreases s.len(),
{
    if s.len() > 0 {
        filter_first(s, keep);
        assert forall|i: int| 0 <= i < s.skip(1).len() implies !keep(#[trigger] s.skip(1)[i]) by {
            assert(s.skip(1)[i] == s[i + 1]);
        }
        filter_none(s.skip(1), keep);
    } else {
        reveal(Seq::filter);
        assert(s.filter(keep) =~= Seq::empty());
    }
}

/// `ZRANGEBYSCORE` answers the members whose scores lie within the bounds, out of all that a
/// reader sees, in the order of score and member. (Scores that are no numbers have no place in
/// that order; commands give none.)
pub proof fn zrange_by_score_law(s: StoreView, now: Now, key: Seq<u8>, range: ScoreRange)
    requires
        sound(s),
        s.db.dom().finite(),
        zset_or_nothing(s, now, key),
        forall|m: Seq<u8>| #[trigger]
            scores_seen(s, now, key).contains_key(m) ==> !score_is_nan(
                scores_seen(s, now, key)[m],
            ),
    ensures
        lists_scores(ranking(s, now, key), scores_seen(s, now, key)),
        zrange_by_score_op(s, now, key, range) == (
            swept(s, now, key),
            Ok::<Seq<(Seq<u8>, u64)>, EngineErrorView>(
                ranking(s, now, key).filter(|p: (Seq<u8>, u64)| within(range, p)),
            ),
        ),
{
    type_seen(s, now, key, TYPE_ZSET);
    let scores = scores_seen(s, now, key);
    let list = ranking(s, now, key);
    let keep = |p: (Seq<u8>, u64)| within(range, p);
    if let Ok(Some(meta)) = typed(s, now, key, TYPE_ZSET) {
        let prefix = owner_prefix(ZSCORE_PREFIX, key, meta.version);
        let items = scan(s.db, prefix);
        index_lists_scores(s.db, key, meta.version);
        assert forall|i: int| 0 <= i < list.len() implies !score_is_nan((#[trigger] list[i]).1) by {
            assert(scores.contains_pair(list[i].0, list[i].1));
        }
        within_is_filter(items, list, prefix.len(), range);
    } else {
        filter_none(list, keep);
    }
}

} // verus!
