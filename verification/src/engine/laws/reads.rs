//! What reads find after writes.
use vstd::prelude::*;

use super::counts::{member_records, metadata_does_not_count, rawcount_law};
use super::lists::{
    has_room, items_seen, left_over, list_or_nothing, list_reads_law, pop_law, push_law,
    push_then_pop,
};
use super::members::{
    end_seen, fields_seen, hash_or_nothing, hash_reads_law, hgetall_law, hset_law, lists_fields,
    members_seen, put_all, put_all_dom, sadd_law, scan_lists_fields, set_or_nothing, set_reads_law,
    stays, type_seen,
};
use super::scores::{
    given_score_is_seen, lists_scores, ranking, ranks_before, score_all, scores_seen, zadd_law,
    zrange_law, zset_or_nothing, zset_reads_law,
};
use super::whole::{flush_law, no_garbage, reopened, restart_law};
use super::{del_law, opened, reads_law, stored_is_sound};
use crate::engine::bigend::be;
use crate::engine::encoding::{
    count_reads_back, meta_reads_back, record_owner, score_same, sub_name, MetaView, SUBKEY_PREFIX,
    TYPE_HASH, TYPE_SET, TYPE_ZSET, ZSCORE_PREFIX,
};
use crate::engine::engine::Records;
use crate::engine::error::EngineErrorView;
use crate::engine::model::{
    count_op, count_up, del_op, exists_op, firsts, flush_op, found_or_fresh, has_field, has_op,
    hget_op, hgetall_op, hset_op, is_last_version, last_scores, llen_op, lrange_op, member_at,
    members_of, missing_count, pop_op, push_op, put_fields, put_members, put_scores, rank_range,
    rawcount_op, sadd_op, smembers_op, stored, swept, zadd_op, zrange_op, zscore_op, Now,
    StoreView,
};
use crate::engine::store::member_at_is;
use crate::engine::values::{
    entry, fields_of, fresh, meta_has_no_owner, scores_of, sound, versions_upto, visible, Entry,
    Value,
};
use crate::order::{before, before_irreflexive};

verus! {

// ---------------------------------------------------------------------------
// Finitely many records
// ---------------------------------------------------------------------------
/// Fields are put one by one.
proof fn fields_finite(db: Records, key: Seq<u8>, version: u64, pairs: Seq<(Seq<u8>, Seq<u8>)>)
    requires
        db.dom().finite(),
    ensures
        put_fields(db, key, version, pairs).dom().finite(),
    decreases pairs.len(),
{
    if pairs.len() > 0 {
        fields_finite(db, key, version, pairs.drop_last());
    }
}

/// Members are put one by one.
proof fn members_finite(db: Records, key: Seq<u8>, version: u64, members: Seq<Seq<u8>>)
    requires
        db.dom().finite(),
    ensures
        put_members(db, key, version, members).dom().finite(),
    decreases members.len(),
{
    if members.len() > 0 {
        members_finite(db, key, version, members.drop_last());
    }
}

/// Scores are put one by one.
proof fn scores_finite(db: Records, key: Seq<u8>, version: u64, list: Seq<(Seq<u8>, u64)>)
    requires
        db.dom().finite(),
    ensures
        put_scores(db, key, version, list).dom().finite(),
    decreases list.len(),
{
    if list.len() > 0 {
        scores_finite(db, key, version, list.drop_last());
    }
}

/// `HSET`, `SADD` and `ZADD` leave finitely many records.
pub proof fn adding_is_finite(s: StoreView, now: Now, key: Seq<u8>)
    requires
        s.db.dom().finite(),
    ensures
        forall|pairs: Seq<(Seq<u8>, Seq<u8>)>|
            (#[trigger] hset_op(s, now, key, pairs)).0.db.dom().finite(),
        forall|members: Seq<Seq<u8>>|
            (#[trigger] sadd_op(s, now, key, members)).0.db.dom().finite(),
        forall|pairs: Seq<(u64, Seq<u8>)>|
            (#[trigger] zadd_op(s, now, key, pairs)).0.db.dom().finite(),
{
    let db = swept(s, now, key).db;
    assert(db.dom().finite());
    assert forall|pairs: Seq<(Seq<u8>, Seq<u8>)>|
        (#[trigger] hset_op(s, now, key, pairs)).0.db.dom().finite() by {
        assert forall|v: u64| (#[trigger] put_fields(db, key, v, pairs)).dom().finite() by {
            fields_finite(db, key, v, pairs);
        }
    }
    assert forall|members: Seq<Seq<u8>>|
        (#[trigger] sadd_op(s, now, key, members)).0.db.dom().finite() by {
        assert forall|v: u64| (#[trigger] put_members(db, key, v, members)).dom().finite() by {
            members_finite(db, key, v, members);
        }
    }
    assert forall|pairs: Seq<(u64, Seq<u8>)>|
        (#[trigger] zadd_op(s, now, key, pairs)).0.db.dom().finite() by {
        let list = last_scores(pairs);
        assert forall|v: u64| (#[trigger] put_scores(db, key, v, list)).dom().finite() by {
            scores_finite(db, key, v, list);
        }
    }
}

// ---------------------------------------------------------------------------
// After adding
// ---------------------------------------------------------------------------
/// What the second set adds to the first is what it has and the first has not.
pub proof fn new_ones(was: Set<Seq<u8>>, given: Set<Seq<u8>>)
    requires
        was.finite(),
        given.finite(),
    ensures
        was.union(given).len() == was.len() + given.difference(was).len(),
{
    vstd::set_lib::lemma_set_disjoint_lens(was, given.difference(was));
    assert(was.union(given) =~= was.union(given.difference(was)));
}

/// `HSET` answers how many of the given fields, each counted once, were not there. After it,
/// `HGETALL` lists the fields that were there and those that were set, the last value of each, in
/// order; `HLEN` counts them, and `HGET` and `HEXISTS` find them. The end of the hash's time and
/// all other keys are as before.
pub proof fn hset_then_reads(
    s: StoreView,
    now: Now,
    key: Seq<u8>,
    pairs: Seq<(Seq<u8>, Seq<u8>)>,
    later: Now,
    field: Seq<u8>,
)
    requires
        sound(s),
        s.db.dom().finite(),
        visible(s, now, key) is Some || fresh(s, now),
        key.len() <= u32::MAX,
        pairs.len() > 0 || visible(s, now, key) is Some,
        hash_or_nothing(s, now, key),
        put_all(fields_seen(s, now, key), pairs).dom().len() <= u32::MAX,
        stays(s, now, key, later),
    ensures
        ({
            let (t, r) = hset_op(s, now, key, pairs);
            let was = fields_seen(s, now, key);
            let fields = put_all(was, pairs);
            &&& r == Ok::<i64, EngineErrorView>(
                firsts(pairs).to_set().difference(was.dom()).len() as i64,
            )
            &&& hgetall_op(t, later, key).1 matches Ok(list) && lists_fields(list, fields)
            &&& count_op(t, later, key, TYPE_HASH).1 == Ok::<i64, EngineErrorView>(
                fields.dom().len() as i64,
            )
            &&& hget_op(t, later, key, field).1 == Ok::<Option<Seq<u8>>, EngineErrorView>(
                if fields.contains_key(field) {
                    Some(fields[field])
                } else {
                    None
                },
            )
            &&& has_op(t, later, key, TYPE_HASH, field).1 == Ok::<bool, EngineErrorView>(
                fields.contains_key(field),
            )
            &&& end_seen(t, later, key) == end_seen(s, now, key)
            &&& forall|k: Seq<u8>| k != key ==> #[trigger] entry(t, k) == entry(s, k)
        }),
{
    hset_law(s, now, key, pairs);
    adding_is_finite(s, now, key);
    let t = hset_op(s, now, key, pairs).0;
    let was = fields_seen(s, now, key);
    assert(visible(t, later, key) == entry(t, key));
    hash_reads_law(t, later, key, field);
    hgetall_law(t, later, key);
    put_all_dom(was, pairs);
    fields_seen_finite(s, now, key);
    new_ones(was.dom(), firsts(pairs).to_set());
    assert(put_all(was, pairs).dom() =~= was.dom().union(firsts(pairs).to_set()));
}

/// A hash has finitely many fields, a set and a sorted set finitely many members.
pub proof fn fields_seen_finite(s: StoreView, now: Now, key: Seq<u8>)
    requires
        sound(s),
    ensures
        fields_seen(s, now, key).dom().finite(),
        members_seen(s, now, key).finite(),
        scores_seen(s, now, key).dom().finite(),
{
    stored_is_sound(s, key);
    if let Ok(Some(meta)) = stored(s, key) {
        assert(scores_of(s.db, key, meta.version).dom() =~= fields_of(
            s.db,
            key,
            meta.version,
        ).dom());
    }
}

/// `HSET` of no fields makes an empty hash where there is none.
pub proof fn hset_of_nothing(s: StoreView, now: Now, key: Seq<u8>, later: Now)
    requires
        sound(s),
        s.db.dom().finite(),
        fresh(s, now),
        key.len() <= u32::MAX,
        visible(s, now, key) is None,
    ensures
        ({
            let (t, r) = hset_op(s, now, key, Seq::empty());
            &&& r == Ok::<i64, EngineErrorView>(0)
            &&& hgetall_op(t, later, key).1 == Ok::<Seq<(Seq<u8>, Seq<u8>)>, EngineErrorView>(
                Seq::empty(),
            )
            &&& count_op(t, later, key, TYPE_HASH).1 == Ok::<i64, EngineErrorView>(0)
        }),
{
    type_seen(s, now, key, TYPE_HASH);
    opened(s, now, key, TYPE_HASH);
    adding_is_finite(s, now, key);
    let s0 = swept(s, now, key);
    let (s1, meta) = found_or_fresh(s0, now, key, None, TYPE_HASH, be(0, 4));
    let t = hset_op(s, now, key, Seq::empty()).0;
    let made = meta.with_count(count_up(meta.count(), 0));
    let none = firsts(Seq::<(Seq<u8>, Seq<u8>)>::empty());
    assert(missing_count(s1.db, key, meta.version, none) == 0);
    count_reads_back(meta, 0);
    meta_reads_back(made);
    meta_has_no_owner(key);
    assert(stored(t, key) == Ok::<Option<MetaView>, EngineErrorView>(Some(made)));
    assert forall|f: Seq<u8>| !(#[trigger] has_field(t.db, key, made.version, f)) by {
        assert(sub_name(key, made.version, f)[0] == SUBKEY_PREFIX);
        assert(!has_field(s1.db, key, meta.version, f));
    }
    scan_lists_fields(t.db, key, made.version);
    let list = hgetall_op(t, later, key).1->Ok_0;
    if list.len() > 0 {
        assert(fields_of(t.db, key, made.version).contains_pair(list[0].0, list[0].1));
    }
    assert(list =~= Seq::empty());
}

/// `SADD` of no members and `ZADD` of no scores write nothing: where there is no key, there is none
/// afterwards.
pub proof fn nothing_given_nothing_made(s: StoreView, now: Now, key: Seq<u8>)
    ensures
        set_or_nothing(s, now, key) ==> sadd_op(s, now, key, Seq::empty()).0.db == swept(
            s,
            now,
            key,
        ).db,
        zset_or_nothing(s, now, key) ==> zadd_op(s, now, key, Seq::empty()).0.db == swept(
            s,
            now,
            key,
        ).db,
{
    let none = Seq::<Seq<u8>>::empty();
    let db = swept(s, now, key).db;
    assert forall|v: u64| missing_count(db, key, v, none) == 0 by {}
    assert(last_scores(Seq::<(u64, Seq<u8>)>::empty()) =~= Seq::empty());
}

/// `SADD` answers how many of the given members, each counted once, were not there. After it,
/// `SMEMBERS` lists the members that were there and those that were added, each once and in order;
/// `SCARD` counts them, and `SISMEMBER` finds them. Where `SADD` answers zero, nothing was written.
/// The end of the set's time and all other keys are as before.
pub proof fn sadd_then_reads(
    s: StoreView,
    now: Now,
    key: Seq<u8>,
    members: Seq<Seq<u8>>,
    later: Now,
    member: Seq<u8>,
)
    requires
        sound(s),
        s.db.dom().finite(),
        visible(s, now, key) is Some || fresh(s, now),
        key.len() <= u32::MAX,
        members.len() > 0 || visible(s, now, key) is Some,
        set_or_nothing(s, now, key),
        members_seen(s, now, key).union(members.to_set()).len() <= u32::MAX,
        stays(s, now, key, later),
    ensures
        ({
            let (t, r) = sadd_op(s, now, key, members);
            let all = members_seen(s, now, key).union(members.to_set());
            &&& r == Ok::<i64, EngineErrorView>(
                members.to_set().difference(members_seen(s, now, key)).len() as i64,
            )
            &&& r == Ok::<i64, EngineErrorView>(0) ==> t == swept(s, now, key)
            &&& end_seen(t, later, key) == end_seen(s, now, key)
            &&& forall|k: Seq<u8>| k != key ==> #[trigger] entry(t, k) == entry(s, k)
            &&& count_op(t, later, key, TYPE_SET).1 == Ok::<i64, EngineErrorView>(all.len() as i64)
            &&& has_op(t, later, key, TYPE_SET, member).1 == Ok::<bool, EngineErrorView>(
                all.contains(member),
            )
            &&& smembers_op(t, later, key).1 matches Ok(list)
            &&& list.to_set() == all
            &&& forall|i: int, j: int|
                0 <= i < j < list.len() ==> before(#[trigger] list[i], #[trigger] list[j])
        }),
{
    sadd_law(s, now, key, members);
    adding_is_finite(s, now, key);
    let t = sadd_op(s, now, key, members).0;
    assert(visible(t, later, key) == entry(t, key));
    set_reads_law(t, later, key, member);
    fields_seen_finite(s, now, key);
    new_ones(members_seen(s, now, key), members.to_set());
}

/// The members of pairs of scores and members.
pub open spec fn given_members(pairs: Seq<(u64, Seq<u8>)>) -> Seq<Seq<u8>> {
    pairs.map_values(|p: (u64, Seq<u8>)| p.1)
}

/// No later pair has the member of the one at `i`.
pub open spec fn given_last(pairs: Seq<(u64, Seq<u8>)>, i: int) -> bool {
    forall|j: int| i < j < pairs.len() ==> (#[trigger] pairs[j]).1 != pairs[i].1
}

/// The last scores are those of the members that are given.
pub proof fn names_given(pairs: Seq<(u64, Seq<u8>)>)
    ensures
        forall|m: Seq<u8>| #[trigger] members_of(last_scores(pairs)).contains(m) == given_members(
            pairs,
        ).contains(m),
    decreases pairs.len(),
{
    if pairs.len() > 0 {
        let init = pairs.drop_last();
        let list = last_scores(init);
        let (score, member) = pairs.last();
        names_given(init);
        member_at_is(list, member);
        let a = members_of(last_scores(pairs));
        let b = given_members(pairs);
        assert(b =~= given_members(init).push(member));
        assert forall|m: Seq<u8>| #[trigger] a.contains(m) == b.contains(m) by {
            let was = members_of(list);
            assert(was.contains(m) == given_members(init).contains(m));
            match member_at(list, member) {
                Some(i) => {
                    assert(a =~= was);
                    assert(was[i] == member);
                },
                None => {
                    assert(a =~= was.push(member));
                },
            }
            in_one_more(was, member, m);
            in_one_more(given_members(init), member, m);
        }
    }
}

/// What is in a sequence with one more element.
proof fn in_one_more(v: Seq<Seq<u8>>, x: Seq<u8>, m: Seq<u8>)
    ensures
        v.push(x).contains(m) == (v.contains(m) || m == x),
{
    if v.contains(m) {
        let i = choose|i: int| 0 <= i < v.len() && v[i] == m;
        assert(v.push(x)[i] == m);
    }
    if v.push(x).contains(m) {
        let i = choose|i: int| 0 <= i < v.len() + 1 && v.push(x)[i] == m;
        if i < v.len() {
            assert(v[i] == m);
        }
    }
    assert(v.push(x)[v.len() as int] == x);
}

/// Giving scores adds the members that they are given to, and leaves the scores of all others.
pub proof fn scores_given(scores: Map<Seq<u8>, u64>, list: Seq<(Seq<u8>, u64)>)
    ensures
        forall|m: Seq<u8>| #[trigger] score_all(scores, list).contains_key(m) == (
        scores.contains_key(m) || members_of(list).contains(m)),
        forall|m: Seq<u8>| #[trigger]
            score_all(scores, list).contains_key(m) && !members_of(list).contains(m)
                ==> score_all(scores, list)[m] == scores[m],
    decreases list.len(),
{
    if list.len() > 0 {
        let init = list.drop_last();
        scores_given(scores, init);
        assert(members_of(list) =~= members_of(init).push(list.last().0));
        let all = score_all(scores, list);
        assert forall|m: Seq<u8>| #[trigger] all.contains_key(m) == (scores.contains_key(m)
            || members_of(list).contains(m)) by {
            in_one_more(members_of(init), list.last().0, m);
            assert(score_all(scores, init).contains_key(m) == (scores.contains_key(m)
                || members_of(init).contains(m)));
        }
        assert forall|m: Seq<u8>| #[trigger]
            all.contains_key(m) && !members_of(list).contains(m) implies all[m] == scores[m] by {
            in_one_more(members_of(init), list.last().0, m);
            assert(score_all(scores, init).contains_key(m));
        }
    }
}

/// A list of all members has as many elements as there are members.
pub proof fn all_are_listed(list: Seq<(Seq<u8>, u64)>, scores: Map<Seq<u8>, u64>)
    requires
        lists_scores(list, scores),
    ensures
        list.len() == scores.dom().len(),
{
    let names = list.map_values(|p: (Seq<u8>, u64)| p.0);
    assert(names.no_duplicates()) by {
        assert forall|i: int, j: int| 0 <= i < j < names.len() implies names[i] != names[j] by {
            assert(ranks_before(list[i], list[j]));
            assert(scores.contains_pair(list[i].0, list[i].1));
            assert(scores.contains_pair(list[j].0, list[j].1));
            before_irreflexive(list[i].0);
        }
    }
    names.unique_seq_to_set();
    assert forall|m: Seq<u8>| #[trigger] names.to_set().contains(m) == scores.dom().contains(m) by {
        if names.contains(m) {
            let i = choose|i: int| 0 <= i < names.len() && names[i] == m;
            assert(scores.contains_pair(list[i].0, list[i].1));
        }
        if scores.contains_key(m) {
            let i = choose|i: int| 0 <= i < list.len() && (#[trigger] list[i]).0 == m;
            assert(names[i] == m);
        }
    }
    assert(names.to_set() =~= scores.dom());
}

/// `ZADD` answers how many of the given members, each counted once, were not there. After it,
/// `ZRANGE` selects by rank from the members that were there and those that were given, each once
/// and with its last score, or one that is the same number, in the order of score and member: from
/// the first to the last it lists them all. `ZCARD` counts them, and `ZSCORE` tells the same
/// scores. The end of the set's time and all other keys are as before.
pub proof fn zadd_then_reads(
    s: StoreView,
    now: Now,
    key: Seq<u8>,
    pairs: Seq<(u64, Seq<u8>)>,
    later: Now,
    member: Seq<u8>,
    start: i64,
    stop: i64,
)
    requires
        sound(s),
        s.db.dom().finite(),
        visible(s, now, key) is Some || fresh(s, now),
        key.len() <= u32::MAX,
        pairs.len() > 0 || visible(s, now, key) is Some,
        zset_or_nothing(s, now, key),
        score_all(scores_seen(s, now, key), last_scores(pairs)).dom().len() <= u32::MAX,
        stays(s, now, key, later),
    ensures
        ({
            let (t, r) = zadd_op(s, now, key, pairs);
            let was = scores_seen(s, now, key);
            let scores = score_all(was, last_scores(pairs));
            let list = ranking(t, later, key);
            &&& r == Ok::<i64, EngineErrorView>(
                given_members(pairs).to_set().difference(was.dom()).len() as i64,
            )
            &&& forall|i: int|
                0 <= i < pairs.len() && given_last(pairs, i) ==> scores.contains_key(
                    (#[trigger] pairs[i]).1,
                ) && (scores[pairs[i].1] == pairs[i].0 || score_same(
                    scores[pairs[i].1],
                    pairs[i].0,
                ))
            &&& forall|m: Seq<u8>| #[trigger]
                scores.contains_key(m) && !given_members(pairs).contains(m) ==> was.contains_key(m)
                    && was[m] == scores[m]
            &&& lists_scores(list, scores)
            &&& zrange_op(t, later, key, 0, (-1) as i64).1 == Ok::<
                Seq<(Seq<u8>, u64)>,
                EngineErrorView,
            >(list)
            &&& end_seen(t, later, key) == end_seen(s, now, key)
            &&& forall|k: Seq<u8>| k != key ==> #[trigger] entry(t, k) == entry(s, k)
            &&& zrange_op(t, later, key, start, stop).1 == Ok::<
                Seq<(Seq<u8>, u64)>,
                EngineErrorView,
            >(
                match rank_range(start, stop, scores.dom().len() as i64) {
                    Some((lo, hi)) => list.subrange(lo, hi + 1),
                    None => Seq::empty(),
                },
            )
            &&& count_op(t, later, key, TYPE_ZSET).1 == Ok::<i64, EngineErrorView>(
                scores.dom().len() as i64,
            )
            &&& zscore_op(t, later, key, member).1 == Ok::<Option<u64>, EngineErrorView>(
                if scores.contains_key(member) {
                    Some(scores[member])
                } else {
                    None
                },
            )
        }),
{
    zadd_law(s, now, key, pairs);
    adding_is_finite(s, now, key);
    let t = zadd_op(s, now, key, pairs).0;
    assert(visible(t, later, key) == entry(t, key));
    zset_reads_law(t, later, key, member);
    zrange_law(t, later, key, start, stop);
    zrange_law(t, later, key, 0, (-1) as i64);
    let was = scores_seen(s, now, key);
    let scores = score_all(was, last_scores(pairs));
    let list = ranking(t, later, key);
    assert(scores_seen(t, later, key) == scores);
    all_are_listed(list, scores);
    let n: i64 = scores.dom().len() as i64;
    assert(n == list.len());
    if n == 0 {
        assert(list =~= Seq::empty());
        assert(rank_range(0, (-1) as i64, n) is None);
    } else {
        assert(rank_range(0, (-1) as i64, n) == Some((0int, n - 1)));
        assert(list.subrange(0, n as int) =~= list);
    }
    assert forall|i: int| 0 <= i < pairs.len() && given_last(pairs, i) implies scores.contains_key(
        (#[trigger] pairs[i]).1,
    ) && (scores[pairs[i].1] == pairs[i].0 || score_same(scores[pairs[i].1], pairs[i].0)) by {
        given_score_is_seen(was, pairs, i);
    }
    names_given(pairs);
    scores_given(was, last_scores(pairs));
    fields_seen_finite(s, now, key);
    new_ones(was.dom(), given_members(pairs).to_set());
    let given = members_of(last_scores(pairs));
    assert forall|m: Seq<u8>| #[trigger]
        scores.contains_key(m) && !given_members(pairs).contains(m) implies was.contains_key(m)
        && was[m] == scores[m] by {
        assert(!given.contains(m));
    }
    assert forall|m: Seq<u8>| #[trigger] scores.dom().contains(m) == was.dom().union(
        given_members(pairs).to_set(),
    ).contains(m) by {
        assert(given.contains(m) == given_members(pairs).contains(m));
    }
    assert(scores.dom() =~= was.dom().union(given_members(pairs).to_set()));
}

/// What is written to a store that was opened again adds to what was there, as long as there was no
/// garbage or the machine's clock has moved on past the versions that were given out before: `HSET`
/// to a hash, `SADD` to a set, `ZADD` to a sorted set.
pub proof fn writes_after_restart(
    s: StoreView,
    clock: u64,
    last: u64,
    now: Now,
    key: Seq<u8>,
    pairs: Seq<(Seq<u8>, Seq<u8>)>,
    members: Seq<Seq<u8>>,
    scored: Seq<(u64, Seq<u8>)>,
)
    requires
        sound(s),
        is_last_version(s.db, clock),
        versions_upto(s, last) && now.micros > last || no_garbage(s) && clock < u64::MAX,
        key.len() <= u32::MAX,
        pairs.len() > 0,
        members.len() > 0,
        scored.len() > 0,
    ensures
        hash_or_nothing(s, now, key) && put_all(fields_seen(s, now, key), pairs).dom().len()
            <= u32::MAX ==> entry(hset_op(reopened(s, clock), now, key, pairs).0, key) == Some(
            Entry {
                value: Value::Fields(put_all(fields_seen(s, now, key), pairs)),
                expire_ms: end_seen(s, now, key),
            },
        ),
        set_or_nothing(s, now, key) && members_seen(s, now, key).union(members.to_set()).len()
            <= u32::MAX ==> entry(sadd_op(reopened(s, clock), now, key, members).0, key) == Some(
            Entry {
                value: Value::Members(members_seen(s, now, key).union(members.to_set())),
                expire_ms: end_seen(s, now, key),
            },
        ),
        zset_or_nothing(s, now, key) && score_all(
            scores_seen(s, now, key),
            last_scores(scored),
        ).dom().len() <= u32::MAX ==> entry(
            zadd_op(reopened(s, clock), now, key, scored).0,
            key,
        ) == Some(
            Entry {
                value: Value::Scores(score_all(scores_seen(s, now, key), last_scores(scored))),
                expire_ms: end_seen(s, now, key),
            },
        ),
{
    restart_law(s, now, clock);
    let t = reopened(s, clock);
    assert(entry(t, key) == entry(s, key));
    assert(visible(t, now, key) == visible(s, now, key));
    if hash_or_nothing(s, now, key) && put_all(fields_seen(s, now, key), pairs).dom().len()
        <= u32::MAX {
        hset_law(t, now, key, pairs);
    }
    if set_or_nothing(s, now, key) && members_seen(s, now, key).union(members.to_set()).len()
        <= u32::MAX {
        sadd_law(t, now, key, members);
    }
    if zset_or_nothing(s, now, key) && score_all(
        scores_seen(s, now, key),
        last_scores(scored),
    ).dom().len() <= u32::MAX {
        zadd_law(t, now, key, scored);
    }
}

// ---------------------------------------------------------------------------
// After taking away
// ---------------------------------------------------------------------------
/// After a pop, `LRANGE` and `LLEN` see what is left of the list, and `EXISTS` finds the key as
/// long as something is.
pub proof fn pop_then_reads(
    s: StoreView,
    now: Now,
    key: Seq<u8>,
    count: usize,
    left: bool,
    later: Now,
    start: i64,
    stop: i64,
)
    requires
        sound(s),
        list_or_nothing(s, now, key),
        items_seen(s, now, key).len() <= i64::MAX,
        stays(s, now, key, later),
    ensures
        ({
            let t = pop_op(s, now, key, count, left).0;
            let was = items_seen(s, now, key);
            let n = if count < was.len() {
                count as nat
            } else {
                was.len()
            };
            let rest = left_over(was, n, left);
            &&& lrange_op(t, later, key, start, stop).1 == Ok::<Seq<Seq<u8>>, EngineErrorView>(
                match rank_range(start, stop, rest.len() as i64) {
                    Some((lo, hi)) => rest.subrange(lo, hi + 1),
                    None => Seq::empty(),
                },
            )
            &&& llen_op(t, later, key).1 == Ok::<i64, EngineErrorView>(rest.len() as i64)
            &&& exists_op(t, later, key).1 == Ok::<bool, EngineErrorView>(rest.len() > 0)
        }),
{
    pop_law(s, now, key, count, left);
    let t = pop_op(s, now, key, count, left).0;
    let was = items_seen(s, now, key);
    let n = if count < was.len() {
        count as nat
    } else {
        was.len()
    };
    let rest = left_over(was, n, left);
    assert(visible(t, later, key) == entry(t, key));
    if rest.len() == 0 {
        assert(rest =~= Seq::empty());
    }
    assert(items_seen(t, later, key) == rest);
    list_reads_law(t, later, key, start, stop);
    reads_law(t, later, key);
}

/// After a push, `LRANGE` and `LLEN` see what was there and the values at that end.
pub proof fn push_then_reads(
    s: StoreView,
    now: Now,
    key: Seq<u8>,
    values: Seq<Seq<u8>>,
    left: bool,
    later: Now,
    start: i64,
    stop: i64,
)
    requires
        sound(s),
        visible(s, now, key) is Some || fresh(s, now),
        key.len() <= u32::MAX,
        values.len() > 0,
        list_or_nothing(s, now, key),
        has_room(s, now, key, values.len(), left),
        items_seen(s, now, key).len() + values.len() <= i64::MAX,
        stays(s, now, key, later),
    ensures
        ({
            let t = push_op(s, now, key, values, left).0;
            let was = items_seen(s, now, key);
            let items = if left {
                values.reverse() + was
            } else {
                was + values
            };
            &&& lrange_op(t, later, key, start, stop).1 == Ok::<Seq<Seq<u8>>, EngineErrorView>(
                match rank_range(start, stop, items.len() as i64) {
                    Some((lo, hi)) => items.subrange(lo, hi + 1),
                    None => Seq::empty(),
                },
            )
            &&& llen_op(t, later, key).1 == Ok::<i64, EngineErrorView>(items.len() as i64)
            &&& exists_op(t, later, key).1 == Ok::<bool, EngineErrorView>(true)
        }),
{
    push_law(s, now, key, values, left);
    let t = push_op(s, now, key, values, left).0;
    assert(visible(t, later, key) == entry(t, key));
    list_reads_law(t, later, key, start, stop);
    reads_law(t, later, key);
}

/// A pop of as many elements as were pushed undoes the push at the same end: it answers the values,
/// the last one pushed first, and `LRANGE`, `LLEN` and `EXISTS` are as before.
pub proof fn pop_undoes_push(
    s: StoreView,
    now: Now,
    key: Seq<u8>,
    values: Seq<Seq<u8>>,
    left: bool,
    count: usize,
    later: Now,
    latest: Now,
)
    requires
        sound(s),
        visible(s, now, key) is Some || fresh(s, now),
        key.len() <= u32::MAX,
        values.len() > 0,
        count == values.len(),
        list_or_nothing(s, now, key),
        has_room(s, now, key, values.len(), left),
        items_seen(s, now, key).len() <= i64::MAX,
        stays(s, now, key, later),
        stays(s, now, key, latest),
    ensures
        ({
            let was = items_seen(s, now, key);
            let (t, r) = pop_op(push_op(s, now, key, values, left).0, later, key, count, left);
            &&& r == Ok::<Seq<Seq<u8>>, EngineErrorView>(values.reverse())
            &&& lrange_op(t, latest, key, 0, (-1) as i64).1 == Ok::<
                Seq<Seq<u8>>,
                EngineErrorView,
            >(was)
            &&& llen_op(t, latest, key).1 == Ok::<i64, EngineErrorView>(was.len() as i64)
            &&& exists_op(t, latest, key).1 == Ok::<bool, EngineErrorView>(was.len() > 0)
            &&& forall|k: Seq<u8>| k != key ==> #[trigger] entry(t, k) == entry(s, k)
        }),
{
    let was = items_seen(s, now, key);
    push_law(s, now, key, values, left);
    let p = push_op(s, now, key, values, left).0;
    assert(visible(p, later, key) == entry(p, key));
    pop_law(p, later, key, count, left);
    push_then_pop(was, values, left);
    let t = pop_op(p, later, key, count, left).0;
    assert(visible(t, latest, key) == entry(t, key));
    assert(items_seen(t, latest, key) =~= was);
    list_reads_law(t, latest, key, 0, (-1) as i64);
    reads_law(t, latest, key);
    assert(was.subrange(0, was.len() as int) =~= was);
    assert forall|k: Seq<u8>| k != key implies #[trigger] entry(t, k) == entry(s, k) by {
        assert(entry(p, k) == entry(s, k));
    }
}

/// After `DEL` the key does not exist, a second `DEL` finds nothing, and the records of its members
/// are still there, as garbage that `RAWCOUNT` counts.
pub proof fn del_then_reads(s: StoreView, now: Now, key: Seq<u8>, later: Now)
    requires
        sound(s),
        s.db.dom().finite(),
    ensures
        ({
            let t = del_op(s, now, key).0;
            &&& exists_op(t, later, key).1 == Ok::<bool, EngineErrorView>(false)
            &&& del_op(t, later, key) == (t, Ok::<bool, EngineErrorView>(false))
            &&& rawcount_op(t).1 == rawcount_op(s).1
            &&& member_records(t.db) == member_records(s.db)
        }),
{
    del_law(s, now, key);
    stored_is_sound(s, key);
    let t = del_op(s, now, key).0;
    stored_is_sound(t, key);
    reads_law(t, later, key);
    metadata_does_not_count(s.db, key, Seq::empty(), SUBKEY_PREFIX);
    metadata_does_not_count(s.db, key, Seq::empty(), ZSCORE_PREFIX);
    rawcount_law(s);
    rawcount_law(t);
}

/// A hash that is made where a key was deleted holds what it is made of, and nothing of what the
/// key held before.
pub proof fn rebuilt_after_del(
    s: StoreView,
    now: Now,
    key: Seq<u8>,
    later: Now,
    pairs: Seq<(Seq<u8>, Seq<u8>)>,
)
    requires
        sound(s),
        fresh(s, later),
        key.len() <= u32::MAX,
        pairs.len() > 0,
        put_all(Map::empty(), pairs).dom().len() <= u32::MAX,
    ensures
        entry(hset_op(del_op(s, now, key).0, later, key, pairs).0, key) == Some(
            Entry { value: Value::Fields(put_all(Map::empty(), pairs)), expire_ms: 0 },
        ),
{
    del_law(s, now, key);
    stored_is_sound(s, key);
    let t = del_op(s, now, key).0;
    assert(fresh(t, later));
    assert(visible(t, later, key) is None);
    hset_law(t, later, key, pairs);
}

/// A hash that is made after `FLUSHALL` holds what it is made of, and nothing of what was there
/// before.
pub proof fn rebuilt_after_flush(
    s: StoreView,
    now: Now,
    key: Seq<u8>,
    pairs: Seq<(Seq<u8>, Seq<u8>)>,
)
    requires
        key.len() <= u32::MAX,
        pairs.len() > 0,
        put_all(Map::empty(), pairs).dom().len() <= u32::MAX,
    ensures
        entry(hset_op(flush_op(s).0, now, key, pairs).0, key) == Some(
            Entry { value: Value::Fields(put_all(Map::empty(), pairs)), expire_ms: 0 },
        ),
{
    flush_law(s);
    let t = flush_op(s).0;
    assert forall|raw: Seq<u8>| #[trigger] t.db.contains_key(raw) implies record_owner(raw) is None
        by {
    }
    assert(fresh(t, now));
    assert(entry(t, key) is None);
    assert(visible(t, now, key) is None);
    hset_law(t, now, key, pairs);
}

} // verus!
