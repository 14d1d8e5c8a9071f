//! What the commands of sorted sets promise.
use vstd::prelude::*;
use vstd::utf8::encode_utf8_decode_utf8;

use super::{
    first_given, is_named, is_range_of, named_of, pairs_given, parts_add_up, ranks_pick,
    rest_as_set, second_given, sizes_fit, sweep_hides_nothing,
};
use crate::datamodel::commands::zset::{
    bound_value, limited, range_options, range_view, score_text, score_value, scored,
};
use crate::datamodel::commands::{command_op, two_by_two, Command};
use crate::datamodel::registry::is_word;
use crate::engine::encoding::{score_is_nan, score_less, score_same};
use crate::engine::laws::members::{end_seen, stays};
use crate::engine::laws::reads::{
    all_are_listed, fields_seen_finite, given_members, names_given, new_ones, scores_given,
};
use crate::engine::laws::scores::{
    given_score_is_seen, lists_scores, ranking, ranks_before, score_all, scores_seen, unscore_all,
    within, zadd_law, zrange_by_score_law, zrange_law, zrem_law, zset_or_nothing, zset_reads_law,
};
use crate::engine::model::{last_scores, members_of, rank_range, Now, ScoreRange, StoreView};
use crate::engine::values::{entry, fresh, sound, visible};
use crate::protocol::frame::{FrameView, RespVersion};
use crate::text::int_value;

verus! {

/// After `ZREM key member ...` none of the named members is there, and every other member has the
/// score that it had. The reply is the number of distinct named members that were there. A sorted
/// set without members is gone; the end of its time and all other keys are as before.
pub proof fn zrem_removes_the_named(
    version: RespVersion,
    args: Seq<Seq<u8>>,
    s: StoreView,
    times: Seq<Now>,
    later: Now,
)
    requires
        args.len() >= 3,
        sound(s),
        zset_or_nothing(s, times[0], args[1]),
        stays(s, times[0], args[1], later),
    ensures
        ({
            let (t, reply) = command_op(Command::Zrem, version, args, s, times);
            let was = scores_seen(s, times[0], args[1]);
            let left = scores_seen(t, later, args[1]);
            &&& sound(t)
            &&& zset_or_nothing(t, later, args[1])
            &&& forall|i: int| 2 <= i < args.len() ==> !left.contains_key(#[trigger] args[i])
            &&& forall|m: Seq<u8>| #[trigger]
                was.contains_key(m) && !is_named(args, 2, m) ==> left.contains_key(m) && left[m]
                    == was[m]
            &&& forall|m: Seq<u8>| #[trigger] left.contains_key(m) ==> was.contains_key(m)
            &&& reply == FrameView::Integer(named_of(was.dom(), args, 2).len() as i64)
            &&& visible(t, later, args[1]) is Some == (exists|m: Seq<u8>| #[trigger]
                was.contains_key(m) && !is_named(args, 2, m))
            &&& visible(t, later, args[1]) is Some ==> end_seen(t, later, args[1]) == end_seen(
                s,
                times[0],
                args[1],
            )
            &&& forall|k: Seq<u8>| k != args[1] ==> #[trigger] entry(t, k) == entry(s, k)
        }),
{
    let key = args[1];
    let now = times[0];
    let names = args.skip(2);
    zrem_law(s, now, key, names);
    rest_as_set(args, 2);
    fields_seen_finite(s, now, key);
    let t = command_op(Command::Zrem, version, args, s, times).0;
    let was = scores_seen(s, now, key);
    let left = unscore_all(was, names);
    assert(visible(t, later, key) == entry(t, key));
    parts_add_up(was.dom(), named_of(was.dom(), args, 2));
    assert(was.dom().difference(named_of(was.dom(), args, 2)) =~= left.dom());
    assert(left.dom().finite());
    if left.dom().len() == 0 {
        assert(left.dom() =~= Set::empty());
        assert forall|m: Seq<u8>| #[trigger] was.contains_key(m) && !is_named(
            args,
            2,
            m,
        ) implies false by {
            assert(left.dom().contains(m));
        }
    } else {
        let m = left.dom().choose();
        assert(left.dom().contains(m));
        assert(was.contains_key(m) && !is_named(args, 2, m));
    }
    assert forall|i: int| 2 <= i < args.len() implies is_named(args, 2, #[trigger] args[i]) by {
    }
}

/// The reply lists members one behind the other, with their scores where `scores` asks for them:
/// in RESP2 each member and behind it the text of its score, in RESP3 pairs of a member and its
/// score.
pub open spec fn shows_members(
    reply: FrameView,
    list: Seq<(Seq<u8>, u64)>,
    scores: bool,
    version: RespVersion,
) -> bool {
    reply matches FrameView::Array(items) && if !scores {
        &&& items.len() == list.len()
        &&& forall|k: int|
            0 <= k < list.len() ==> #[trigger] items[k] == FrameView::Bulk(list[k].0)
    } else if version == RespVersion::V2 {
        &&& items.len() == 2 * list.len()
        &&& forall|k: int|
            0 <= k < list.len() ==> items[2 * k] == FrameView::Bulk((#[trigger] list[k]).0)
                && items[2 * k + 1] == FrameView::Bulk(score_text(list[k].1))
    } else {
        &&& items.len() == list.len()
        &&& forall|k: int|
            0 <= k < list.len() ==> #[trigger] items[k] == FrameView::Array(
                seq![FrameView::Bulk(list[k].0), FrameView::Double(list[k].1)],
            )
    }
}

/// The reply to a range lists its members.
proof fn range_shows_members(list: Seq<(Seq<u8>, u64)>, scores: bool, version: RespVersion)
    ensures
        shows_members(range_view(list, scores, version), list, scores, version),
{
}

/// `ZRANGE key start stop [WITHSCORES]` answers, out of all members in the order of score and
/// member, those whose ranks are not before `start` and not behind `stop`; a negative bound counts
/// from the end.
pub proof fn zrange_answers_the_ranks(
    version: RespVersion,
    args: Seq<Seq<u8>>,
    s: StoreView,
    times: Seq<Now>,
    start: i64,
    stop: i64,
)
    requires
        args.len() == 4 || args.len() == 5 && is_word(args[4], "WITHSCORES"@),
        int_value(args[2]) == Some(start),
        int_value(args[3]) == Some(stop),
        sound(s),
        s.db.dom().finite(),
        zset_or_nothing(s, times[0], args[1]),
    ensures
        ({
            let (t, reply) = command_op(Command::Zrange, version, args, s, times);
            let all = ranking(s, times[0], args[1]);
            &&& lists_scores(all, scores_seen(s, times[0], args[1]))
            &&& all.len() == scores_seen(s, times[0], args[1]).dom().len()
            &&& forall|k: Seq<u8>| #[trigger]
                visible(t, times[0], k) == visible(s, times[0], k)
            &&& exists|part: Seq<(Seq<u8>, u64)>|
                #![trigger is_range_of(all, start, stop, part)]
                {
                    &&& shows_members(reply, part, args.len() == 5, version)
                    &&& is_range_of(all, start, stop, part)
                    &&& part.len() > 0 && -all.len() <= stop < 0 ==> part.last() == all[all.len()
                        + stop]
                    &&& part.len() > 0 && start >= 0 ==> part[0] == all[start as int]
                }
        }),
{
    let key = args[1];
    let now = times[0];
    let all = ranking(s, now, key);
    zrange_law(s, now, key, start, stop);
    all_are_listed(all, scores_seen(s, now, key));
    sizes_fit(s, now, key);
    sweep_hides_nothing(s, now, key);
    ranks_pick(all, start, stop);
    let part = match rank_range(start, stop, all.len() as i64) {
        Some((lo, hi)) => all.subrange(lo, hi + 1),
        None => Seq::empty(),
    };
    range_shows_members(part, args.len() == 5, version);
}

/// The score is not before the lower bound and not past the upper one; a bound that is left out
/// counts as past.
pub open spec fn in_bounds(
    min: u64,
    min_exclusive: bool,
    max: u64,
    max_exclusive: bool,
    score: u64,
) -> bool {
    &&& !score_less(score, min)
    &&& !score_less(max, score)
    &&& min_exclusive ==> !score_same(score, min)
    &&& max_exclusive ==> !score_same(score, max)
}

/// The members whose scores are within bounds, in the order of score and member.
pub open spec fn ranking_within(
    s: StoreView,
    now: Now,
    key: Seq<u8>,
    min: u64,
    min_exclusive: bool,
    max: u64,
    max_exclusive: bool,
) -> Seq<(Seq<u8>, u64)> {
    ranking(s, now, key).filter(
        |p: (Seq<u8>, u64)| in_bounds(min, min_exclusive, max, max_exclusive, p.1),
    )
}

/// The members, and their scores, that are within bounds.
pub open spec fn scores_in_bounds(
    scores: Map<Seq<u8>, u64>,
    min: u64,
    min_exclusive: bool,
    max: u64,
    max_exclusive: bool,
) -> Map<Seq<u8>, u64> {
    Map::new(
        |m: Seq<u8>|
            scores.contains_key(m) && in_bounds(
                min,
                min_exclusive,
                max,
                max_exclusive,
                scores[m],
            ),
        |m: Seq<u8>| scores[m],
    )
}

/// What passes a test keeps its order, and nothing that passes gets lost.
proof fn filter_keeps_order(
    list: Seq<(Seq<u8>, u64)>,
    keep: spec_fn((Seq<u8>, u64)) -> bool,
) -> (at: Seq<int>)
    ensures
        at.len() == list.filter(keep).len(),
        forall|k: int|
            0 <= k < at.len() ==> 0 <= #[trigger] at[k] < list.len() && list.filter(keep)[k]
                == list[at[k]] && keep(list[at[k]]),
        forall|k: int, l: int| 0 <= k < l < at.len() ==> #[trigger] at[k] < #[trigger] at[l],
        forall|i: int|
            0 <= i < list.len() && keep(#[trigger] list[i]) ==> list.filter(keep).contains(list[i]),
    decreases list.len(),
{
    reveal(Seq::filter);
    if list.len() == 0 {
        Seq::empty()
    } else {
        let init = list.drop_last();
        let before = filter_keeps_order(init, keep);
        let all = list.filter(keep);
        assert forall|i: int| 0 <= i < list.len() && keep(#[trigger] list[i]) implies all.contains(
            list[i],
        ) by {
            if i < init.len() {
                assert(init[i] == list[i]);
                let k = choose|k: int|
                    0 <= k < init.filter(keep).len() && init.filter(keep)[k] == list[i];
                assert(all[k] == list[i]);
            } else {
                assert(all.last() == list[i]);
            }
        }
        if keep(list.last()) {
            before.push(list.len() - 1)
        } else {
            before
        }
    }
}

/// Out of the ranking of all members comes the ranking of those within bounds.
proof fn ranking_of_some(
    list: Seq<(Seq<u8>, u64)>,
    scores: Map<Seq<u8>, u64>,
    min: u64,
    min_exclusive: bool,
    max: u64,
    max_exclusive: bool,
)
    requires
        lists_scores(list, scores),
    ensures
        lists_scores(
            list.filter(
                |p: (Seq<u8>, u64)| in_bounds(min, min_exclusive, max, max_exclusive, p.1),
            ),
            scores_in_bounds(scores, min, min_exclusive, max, max_exclusive),
        ),
{
    let keep = |p: (Seq<u8>, u64)| in_bounds(min, min_exclusive, max, max_exclusive, p.1);
    let some = list.filter(keep);
    let at = filter_keeps_order(list, keep);
    let within = scores_in_bounds(scores, min, min_exclusive, max, max_exclusive);
    assert forall|i: int, j: int| 0 <= i < j < some.len() implies ranks_before(
        #[trigger] some[i],
        #[trigger] some[j],
    ) by {
        assert(at[i] < at[j]);
    }
    assert forall|i: int| 0 <= i < some.len() implies within.contains_pair(
        (#[trigger] some[i]).0,
        some[i].1,
    ) by {
        assert(scores.contains_pair(list[at[i]].0, list[at[i]].1));
    }
    assert forall|m: Seq<u8>| #[trigger] within.contains_key(m) implies exists|i: int|
        0 <= i < some.len() && (#[trigger] some[i]).0 == m by {
        assert(scores.contains_key(m));
        let i = choose|i: int| 0 <= i < list.len() && (#[trigger] list[i]).0 == m;
        assert(scores.contains_pair(list[i].0, list[i].1));
        assert(keep(list[i]));
        let k = choose|k: int| 0 <= k < some.len() && some[k] == list[i];
        assert(some[k].0 == m);
    }
}

/// What the arguments of `ZRANGEBYSCORE` behind the bounds ask for: scores where `WITHSCORES` is
/// there, and a limit where `LIMIT` is, its offset and its count behind it.
pub open spec fn asks_for(args: Seq<Seq<u8>>, scores: bool, limit: Option<(i64, i64)>) -> bool {
    match limit {
        None => if scores {
            args.len() == 5 && is_word(args[4], "WITHSCORES"@)
        } else {
            args.len() == 4
        },
        Some((offset, count)) => if scores {
            ||| args.len() == 8 && is_word(args[4], "WITHSCORES"@) && is_word(args[5], "LIMIT"@)
                && int_value(args[6]) == Some(offset) && int_value(args[7]) == Some(count)
            ||| args.len() == 8 && is_word(args[4], "LIMIT"@) && int_value(args[5]) == Some(offset)
                && int_value(args[6]) == Some(count) && is_word(args[7], "WITHSCORES"@)
        } else {
            args.len() == 7 && is_word(args[4], "LIMIT"@) && int_value(args[5]) == Some(offset)
                && int_value(args[6]) == Some(count)
        },
    }
}

/// `part` is what a limit lets through of `list`: all of it where there is no limit, nothing where
/// the offset is negative, and else the elements from the offset on, as many as there are and no
/// more than the count, if that is not negative.
pub open spec fn is_limited<T>(list: Seq<T>, limit: Option<(i64, i64)>, part: Seq<T>) -> bool {
    match limit {
        None => part == list,
        Some((offset, count)) => {
            &&& offset < 0 || offset >= list.len() || count == 0 ==> part.len() == 0
            &&& 0 <= offset < list.len() && (count < 0 || count >= list.len() - offset)
                ==> part.len() == list.len() - offset
            &&& 0 <= offset < list.len() && 0 <= count < list.len() - offset ==> part.len() == count
            &&& forall|i: int| 0 <= i < part.len() ==> #[trigger] part[i] == list[offset + i]
        },
    }
}

/// `ZRANGEBYSCORE key min max [WITHSCORES] [LIMIT offset count]` answers the members whose scores
/// are within the bounds, in the order of score and member. With a limit the i-th that it answers
/// is the one at offset + i among them, and it answers as many as the count says, as long as there
/// are any. Scores that are no numbers have no place in that order; commands give none.
pub proof fn zrangebyscore_answers_the_range(
    version: RespVersion,
    args: Seq<Seq<u8>>,
    s: StoreView,
    times: Seq<Now>,
    min: u64,
    min_exclusive: bool,
    max: u64,
    max_exclusive: bool,
    scores: bool,
    limit: Option<(i64, i64)>,
)
    requires
        asks_for(args, scores, limit),
        bound_value(args[2]) == Some((min, min_exclusive)),
        bound_value(args[3]) == Some((max, max_exclusive)),
        sound(s),
        s.db.dom().finite(),
        zset_or_nothing(s, times[0], args[1]),
        forall|m: Seq<u8>| #[trigger]
            scores_seen(s, times[0], args[1]).contains_key(m) ==> !score_is_nan(
                scores_seen(s, times[0], args[1])[m],
            ),
    ensures
        ({
            let (t, reply) = command_op(Command::Zrangebyscore, version, args, s, times);
            let all = ranking_within(
                s,
                times[0],
                args[1],
                min,
                min_exclusive,
                max,
                max_exclusive,
            );
            &&& lists_scores(
                all,
                scores_in_bounds(
                    scores_seen(s, times[0], args[1]),
                    min,
                    min_exclusive,
                    max,
                    max_exclusive,
                ),
            )
            &&& forall|k: Seq<u8>| #[trigger]
                visible(t, times[0], k) == visible(s, times[0], k)
            &&& exists|part: Seq<(Seq<u8>, u64)>|
                #![trigger is_limited(all, limit, part)]
                shows_members(reply, part, scores, version) && is_limited(all, limit, part)
        }),
{
    let key = args[1];
    let now = times[0];
    let range = ScoreRange { min, min_exclusive, max, max_exclusive };
    zrange_by_score_law(s, now, key, range);
    sweep_hides_nothing(s, now, key);
    let keep = |p: (Seq<u8>, u64)| in_bounds(min, min_exclusive, max, max_exclusive, p.1);
    assert((|p: (Seq<u8>, u64)| within(range, p)) =~= keep);
    ranking_of_some(
        ranking(s, now, key),
        scores_seen(s, now, key),
        min,
        min_exclusive,
        max,
        max_exclusive,
    );
    let all = ranking_within(s, now, key, min, min_exclusive, max, max_exclusive);
    let part = limited(all, limit);
    options_are_read(args, scores, limit);
    range_shows_members(part, scores, version);
    assert(is_limited(all, limit, part));
}

/// The options say what they ask for.
proof fn options_are_read(args: Seq<Seq<u8>>, scores: bool, limit: Option<(i64, i64)>)
    requires
        asks_for(args, scores, limit),
    ensures
        range_options(args.skip(4), false, None) == Some((scores, limit)),
{
    reveal_with_fuel(range_options, 3);
    words_of_options_differ();
    let options = args.skip(4);
    if options.len() >= 1 {
        assert(options.skip(1) =~= args.skip(5));
    }
    if options.len() >= 3 {
        assert(options.skip(3) =~= args.skip(7));
    }
    if options.len() == 4 {
        assert(options.skip(1).skip(3) =~= args.skip(8));
        assert(options.skip(3).skip(1) =~= args.skip(8));
    }
}

/// `ZSCORE key member` answers the score that a reader sees, as a double in RESP3 and as its text
/// in RESP2, or null where there is no such member; `ZCARD key` answers how many members there are.
pub proof fn zscore_and_zcard_answer(
    version: RespVersion,
    args: Seq<Seq<u8>>,
    s: StoreView,
    times: Seq<Now>,
)
    requires
        sound(s),
        zset_or_nothing(s, times[0], args[1]),
    ensures
        ({
            let scores = scores_seen(s, times[0], args[1]);
            let (t, score) = command_op(Command::Zscore, version, args, s, times);
            let (u, card) = command_op(Command::Zcard, version, args, s, times);
            &&& !scores.contains_key(args[2]) ==> score == FrameView::Null
            &&& scores.contains_key(args[2]) && version == RespVersion::V3 ==> score
                == FrameView::Double(scores[args[2]])
            &&& scores.contains_key(args[2]) && version == RespVersion::V2 ==> score
                == FrameView::Bulk(score_text(scores[args[2]]))
            &&& card == FrameView::Integer(scores.dom().len() as i64)
            &&& forall|k: Seq<u8>| #[trigger]
                visible(t, times[0], k) == visible(s, times[0], k)
            &&& forall|k: Seq<u8>| #[trigger]
                visible(u, times[0], k) == visible(s, times[0], k)
        }),
{
    zset_reads_law(s, times[0], args[1], args[2]);
    sweep_hides_nothing(s, times[0], args[1]);
}

/// No later pair gives the member of the pair at `i` again.
pub open spec fn gives_last(args: Seq<Seq<u8>>, i: int) -> bool {
    forall|j: int|
        i < j < pairs_given(args) ==> #[trigger] second_given(args, j) != second_given(args, i)
}

/// The member is given a score.
pub open spec fn is_given(args: Seq<Seq<u8>>, m: Seq<u8>) -> bool {
    exists|i: int| 0 <= i < pairs_given(args) && #[trigger] second_given(args, i) == m
}

/// The members that are given a score, each of them once.
pub open spec fn members_given(args: Seq<Seq<u8>>) -> Set<Seq<u8>> {
    Set::new(|m: Seq<u8>| is_given(args, m))
}

/// After `ZADD key score member ...` each of the given members has the score that was given last
/// for it, or one that is the same number, and every other member has the score that it had. The
/// reply is the number of distinct given members that were not there. The end of the set's time and
/// all other keys are as before.
pub proof fn zadd_gives_the_scores(
    version: RespVersion,
    args: Seq<Seq<u8>>,
    s: StoreView,
    times: Seq<Now>,
    later: Now,
)
    requires
        args.len() >= 4,
        args.len() % 2 == 0,
        !is_word(args[2], "NX"@) && !is_word(args[2], "XX"@) && !is_word(args[2], "GT"@)
            && !is_word(args[2], "LT"@) && !is_word(args[2], "CH"@) && !is_word(args[2], "INCR"@),
        forall|i: int|
            0 <= i < pairs_given(args) ==> score_value(#[trigger] first_given(args, i)) is Some,
        sound(s),
        zset_or_nothing(s, times[0], args[1]),
        visible(s, times[0], args[1]) is Some || fresh(s, times[0]),
        args[1].len() <= u32::MAX,
        scores_seen(s, times[0], args[1]).dom().union(members_given(args)).len() <= u32::MAX,
        stays(s, times[0], args[1], later),
    ensures
        ({
            let (t, reply) = command_op(Command::Zadd, version, args, s, times);
            let was = scores_seen(s, times[0], args[1]);
            let scores = scores_seen(t, later, args[1]);
            &&& sound(t)
            &&& zset_or_nothing(t, later, args[1])
            &&& forall|i: int|
                0 <= i < pairs_given(args) && gives_last(args, i) ==> scores.contains_key(
                    #[trigger] second_given(args, i),
                ) && is_score(scores[second_given(args, i)], first_given(args, i))
            &&& forall|m: Seq<u8>| #[trigger]
                scores.contains_key(m) == (was.contains_key(m) || is_given(args, m))
            &&& forall|m: Seq<u8>| #[trigger]
                was.contains_key(m) && !is_given(args, m) ==> scores[m] == was[m]
            &&& reply == FrameView::Integer(members_given(args).difference(was.dom()).len() as i64)
            &&& end_seen(t, later, args[1]) == end_seen(s, times[0], args[1])
            &&& forall|k: Seq<u8>| k != args[1] ==> #[trigger] entry(t, k) == entry(s, k)
        }),
{
    let key = args[1];
    let now = times[0];
    let given = two_by_two(args.skip(2));
    assert(given.len() == pairs_given(args));
    assert forall|i: int| 0 <= i < given.len() implies #[trigger] given[i] == (
        first_given(args, i),
        second_given(args, i),
    ) by {}
    all_scored(given);
    let pairs = scored(given)->0;
    let was = scores_seen(s, now, key);
    let scores = score_all(was, last_scores(pairs));
    names_given(pairs);
    scores_given(was, last_scores(pairs));
    fields_seen_finite(s, now, key);
    let names = given_members(pairs);
    vstd::seq_lib::seq_to_set_is_finite(names);
    assert forall|m: Seq<u8>| is_given(args, m) == #[trigger] names.contains(m) by {
        if is_given(args, m) {
            let i = choose|i: int| 0 <= i < pairs_given(args) && #[trigger] second_given(args, i)
                == m;
            assert(names[i] == given[i].1);
        }
        if names.contains(m) {
            let i = choose|i: int| 0 <= i < names.len() && names[i] == m;
            assert(names[i] == given[i].1);
            assert(second_given(args, i) == m);
        }
    }
    assert(members_given(args) =~= names.to_set());
    assert(scores.dom() =~= was.dom().union(members_given(args))) by {
        assert forall|m: Seq<u8>| #[trigger] scores.dom().contains(m) == was.dom().union(
            members_given(args),
        ).contains(m) by {
            assert(scores.contains_key(m) == (was.contains_key(m) || members_of(
                last_scores(pairs),
            ).contains(m)));
        }
    }
    new_ones(was.dom(), members_given(args));
    zadd_law(s, now, key, pairs);
    let t = command_op(Command::Zadd, version, args, s, times).0;
    assert(visible(t, later, key) == entry(t, key));
    assert(scores_seen(t, later, key) == scores);
    assert forall|i: int| 0 <= i < pairs_given(args) && gives_last(
        args,
        i,
    ) implies scores.contains_key(#[trigger] second_given(args, i)) && is_score(
        scores[second_given(args, i)],
        first_given(args, i),
    ) by {
        assert(pairs[i] == (score_value(given[i].0)->0, given[i].1));
        assert forall|j: int| i < j < pairs.len() implies (#[trigger] pairs[j]).1 != pairs[i].1 by {
            assert(pairs[j].1 == given[j].1);
            assert(second_given(args, j) != second_given(args, i));
        }
        given_score_is_seen(was, pairs, i);
    }
    assert forall|m: Seq<u8>| #[trigger] was.contains_key(m) && !is_given(args, m) implies scores[m]
        == was[m] by {
        assert(scores.contains_key(m) && !members_of(last_scores(pairs)).contains(m));
    }
}

/// The score is the one that the argument spells, or the same number.
pub open spec fn is_score(score: u64, arg: Seq<u8>) -> bool {
    score_value(arg) matches Some(given) && (score == given || score_same(score, given))
}

/// Where every pair has a score, all of them are read, in their order.
proof fn all_scored(pairs: Seq<(Seq<u8>, Seq<u8>)>)
    requires
        forall|i: int| 0 <= i < pairs.len() ==> score_value((#[trigger] pairs[i]).0) is Some,
    ensures
        scored(pairs) matches Some(list) && list.len() == pairs.len() && forall|i: int|
            0 <= i < pairs.len() ==> #[trigger] list[i] == (
                score_value(pairs[i].0)->0,
                pairs[i].1,
            ),
    decreases pairs.len(),
{
    if pairs.len() > 0 {
        let init = pairs.drop_last();
        assert forall|i: int| 0 <= i < init.len() implies score_value(
            (#[trigger] init[i]).0,
        ) is Some by {
            assert(init[i] == pairs[i]);
        }
        all_scored(init);
        assert(score_value(pairs[pairs.len() - 1].0) is Some);
    }
}

/// Of several limits the last one counts, scores are asked for once or more often, and it makes no
/// difference whether a limit or `WITHSCORES` comes first.
pub proof fn later_options_count(
    version: RespVersion,
    request: Seq<Seq<u8>>,
    withscores: Seq<u8>,
    limit: Seq<Seq<u8>>,
    other: Seq<Seq<u8>>,
    more: Seq<Seq<u8>>,
    s: StoreView,
    times: Seq<Now>,
)
    requires
        request.len() == 4,
        is_word(withscores, "WITHSCORES"@),
        is_limit(limit),
        is_limit(other),
    ensures
        ({
            let asked = |options: Seq<Seq<u8>>|
                command_op(Command::Zrangebyscore, version, request + options, s, times);
            &&& asked(limit + other + more) == asked(other + more)
            &&& asked(seq![withscores] + seq![withscores] + more) == asked(
                seq![withscores] + more,
            )
            &&& asked(seq![withscores] + limit + more) == asked(limit + seq![withscores] + more)
        }),
{
    words_of_options_differ();
    let one = seq![withscores];
    let first = Some((int_value(limit[1])->0, int_value(limit[2])->0));
    later_limit_counts(limit, other, more);
    assert(limit + other + more =~= limit + (other + more));
    same_options(version, request, limit + other + more, other + more, s, times);
    scores_are_read(withscores, one + more, false, None);
    scores_are_read(withscores, more, true, None);
    scores_are_read(withscores, more, false, None);
    assert(one + one + more =~= one + (one + more));
    same_options(version, request, one + one + more, one + more, s, times);
    scores_are_read(withscores, limit + more, false, None);
    limits_are_read(limit, more, true, None);
    limits_are_read(limit, one + more, false, None);
    scores_are_read(withscores, more, false, first);
    assert(one + limit + more =~= one + (limit + more));
    assert(limit + one + more =~= limit + (one + more));
    same_options(version, request, one + limit + more, limit + one + more, s, times);
}

/// Options that say the same are answered the same.
proof fn same_options(
    version: RespVersion,
    request: Seq<Seq<u8>>,
    a: Seq<Seq<u8>>,
    b: Seq<Seq<u8>>,
    s: StoreView,
    times: Seq<Now>,
)
    requires
        request.len() == 4,
        range_options(a, false, None) == range_options(b, false, None),
    ensures
        command_op(Command::Zrangebyscore, version, request + a, s, times) == command_op(
            Command::Zrangebyscore,
            version,
            request + b,
            s,
            times,
        ),
{
    let p = request + a;
    let q = request + b;
    assert(p.skip(4) =~= a);
    assert(q.skip(4) =~= b);
    assert(p[1] == q[1] && p[2] == q[2] && p[3] == q[3]);
}

/// `WITHSCORES` asks for scores.
proof fn scores_are_read(
    withscores: Seq<u8>,
    rest: Seq<Seq<u8>>,
    scores: bool,
    limit: Option<(i64, i64)>,
)
    requires
        is_word(withscores, "WITHSCORES"@),
    ensures
        range_options(seq![withscores] + rest, scores, limit) == range_options(rest, true, limit),
{
    let options = seq![withscores] + rest;
    assert(options.skip(1) =~= rest);
    assert(options[0] == withscores);
}

/// `LIMIT` and two integers.
pub open spec fn is_limit(limit: Seq<Seq<u8>>) -> bool {
    limit.len() == 3 && is_word(limit[0], "LIMIT"@) && int_value(limit[1]) is Some && int_value(
        limit[2],
    ) is Some
}

/// A limit is read in place of the one before it.
proof fn limits_are_read(
    limit: Seq<Seq<u8>>,
    rest: Seq<Seq<u8>>,
    scores: bool,
    was: Option<(i64, i64)>,
)
    requires
        is_limit(limit),
    ensures
        range_options(limit + rest, scores, was) == range_options(
            rest,
            scores,
            Some((int_value(limit[1])->0, int_value(limit[2])->0)),
        ),
{
    words_of_options_differ();
    let options = limit + rest;
    assert(options.skip(3) =~= rest);
    assert(options[0] == limit[0] && options[1] == limit[1] && options[2] == limit[2]);
}

/// What a limit is put in place of makes no difference.
proof fn later_limit_counts(limit: Seq<Seq<u8>>, other: Seq<Seq<u8>>, more: Seq<Seq<u8>>)
    requires
        is_limit(limit),
        is_limit(other),
    ensures
        range_options(limit + (other + more), false, None) == range_options(
            other + more,
            false,
            None,
        ),
{
    let first = Some((int_value(limit[1])->0, int_value(limit[2])->0));
    limits_are_read(limit, other + more, false, None);
    limits_are_read(other, more, false, first);
    limits_are_read(other, more, false, None);
}

/// `LIMIT` is not `WITHSCORES`.
proof fn words_of_options_differ()
    ensures
        forall|arg: Seq<u8>| #[trigger] is_word(arg, "LIMIT"@) ==> !is_word(arg, "WITHSCORES"@),
{
    reveal_strlit("WITHSCORES");
    reveal_strlit("LIMIT");
    assert forall|arg: Seq<u8>| #[trigger] is_word(arg, "LIMIT"@) implies !is_word(
        arg,
        "WITHSCORES"@,
    ) by {
        encode_utf8_decode_utf8("LIMIT"@);
        encode_utf8_decode_utf8("WITHSCORES"@);
        assert("LIMIT"@.len() != "WITHSCORES"@.len());
    }
}

} // verus!
