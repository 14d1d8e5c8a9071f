//! Sorted sets: `ZADD`, `ZSCORE`, `ZRANGE`, `ZRANGEBYSCORE`, `ZREM` and `ZCARD`.
//!
//! A score is given by the bits of a double. RESP3 clients get scores as doubles and members with
//! scores as pairs; RESP2 clients get bulk strings, one behind the other.
use bytes::Bytes;
use vstd::prelude::*;
use vstd::slice::{slice_subrange, slice_to_vec};

use crate::buffer::{all_bytes_of, bytes_copy, bytes_from, bytes_of, bytes_slice};
use crate::datamodel::commands::{
    array, bulks, copy_args, one_reading, replied, two_by_two, with_command, Command, Commands,
};
use crate::datamodel::registry::{
    engine_error, engine_error_view, is_word, later, readings_since, served_at, word_is,
    CommandRegistry, NOT_AN_INTEGER, SYNTAX_ERROR,
};
use crate::engine::encoding::TYPE_ZSET;
use crate::engine::engine::GeneralEngine;
use crate::engine::model::{
    at_a_step, count_op, members_of, zadd_op, zrange_by_score_op, zrange_op, zrem_op, zscore_op,
    Now, ScoreRange, StoreView,
};
use crate::engine::store::{member_scores, score_pairs, Store};
use crate::float::round::INFINITE;
use crate::float::text::{double_text, double_value, magnitude, read_double, write_double, SIGN};
use crate::float::whole::{is_whole, small_whole, whole_part, WHOLE_LIMIT};
use crate::protocol::frame::{frame_view, frames_view, Frame, FrameView, RespVersion};
use crate::text::{decimal, decimal_i64, int_value, read_int};

verus! {

/// The commands together with those of sorted sets.
pub open spec fn with_zset(commands: Commands) -> Commands {
    let c = commands;
    let c = with_command(c, "ZADD"@, (-4) as i32, Command::Zadd);
    let c = with_command(c, "ZSCORE"@, 3, Command::Zscore);
    let c = with_command(c, "ZRANGE"@, (-4) as i32, Command::Zrange);
    let c = with_command(c, "ZRANGEBYSCORE"@, (-4) as i32, Command::Zrangebyscore);
    let c = with_command(c, "ZREM"@, (-3) as i32, Command::Zrem);
    let c = with_command(c, "ZCARD"@, 2, Command::Zcard);
    c
}

/// Registers the commands of sorted sets.
pub fn register(reg: &mut CommandRegistry<Command>)
    ensures
        final(reg).commands() == with_zset(old(reg).commands()),
{
    proof {
        reveal_strlit("ZADD");
    }
    reg.register("ZADD", -4, Command::Zadd);
    proof {
        reveal_strlit("ZSCORE");
    }
    reg.register("ZSCORE", 3, Command::Zscore);
    proof {
        reveal_strlit("ZRANGE");
    }
    reg.register("ZRANGE", -4, Command::Zrange);
    proof {
        reveal_strlit("ZRANGEBYSCORE");
    }
    reg.register("ZRANGEBYSCORE", -4, Command::Zrangebyscore);
    proof {
        reveal_strlit("ZREM");
    }
    reg.register("ZREM", -3, Command::Zrem);
    proof {
        reveal_strlit("ZCARD");
    }
    reg.register("ZCARD", 2, Command::Zcard);
}

/// The reply to something that should be a score and is not.
pub const NOT_A_FLOAT: &'static str = "ERR value is not a valid float";

/// The reply to something that should be the bound of a range of scores and is not.
pub const BAD_RANGE_BOUND: &'static str = "ERR min or max is not a float";

// ---------------------------------------------------------------------------
// Scores as text
// ---------------------------------------------------------------------------
/// The bits of the score that an argument spells: any double that is a number or infinite.
pub open spec fn score_value(raw: Seq<u8>) -> Option<u64> {
    match double_value(raw) {
        Some(bits) => if magnitude(bits) > INFINITE {
            None
        } else {
            Some(bits)
        },
        None => None,
    }
}

/// The bits of the score that an argument spells.
pub fn parse_score(raw: &[u8]) -> (r: Option<u64>)
    ensures
        r == score_value(raw@),
{
    match read_double(raw) {
        Some(bits) => if bits % SIGN > INFINITE {
            None
        } else {
            Some(bits)
        },
        None => None,
    }
}

/// The bound of a range of scores: a score, and whether the parenthesis in front of it leaves it
/// out of the range.
pub open spec fn bound_value(raw: Seq<u8>) -> Option<(u64, bool)> {
    let exclusive = raw.len() > 0 && raw[0] == 40;
    match score_value(
        if exclusive {
            raw.skip(1)
        } else {
            raw
        },
    ) {
        Some(bits) => Some((bits, exclusive)),
        None => None,
    }
}

/// The bound of a range of scores.
pub fn parse_score_bound(raw: &[u8]) -> (r: Option<(u64, bool)>)
    ensures
        r == bound_value(raw@),
{
    if raw.len() > 0 && raw[0] == 40 {
        let rest = slice_subrange(raw, 1, raw.len());
        assert(rest@ =~= raw@.skip(1));
        match parse_score(rest) {
            Some(bits) => Some((bits, true)),
            None => None,
        }
    } else {
        match parse_score(raw) {
            Some(bits) => Some((bits, false)),
            None => None,
        }
    }
}

/// The text of a score: a whole number that is not too large in full, and any other score in the
/// shortest form that reads back as it.
pub open spec fn score_text(bits: u64) -> Seq<u8> {
    let b = magnitude(bits);
    if is_whole(b) && whole_part(b) < WHOLE_LIMIT {
        decimal(
            if bits >= SIGN {
                -(whole_part(b) as int)
            } else {
                whole_part(b) as int
            },
        )
    } else if b > INFINITE {
        seq![78u8, 97, 78]
    } else {
        double_text(bits)
    }
}

/// The text of a score.
pub fn format_score(bits: u64) -> (r: Vec<u8>)
    ensures
        r@ == score_text(bits),
{
    let b: u64 = bits % SIGN;
    match small_whole(b) {
        Some(n) => {
            if bits >= SIGN {
                decimal_i64(-(n as i64))
            } else {
                decimal_i64(n as i64)
            }
        },
        None => {
            if b > INFINITE {
                let mut nan: Vec<u8> = Vec::new();
                nan.push(78);
                nan.push(97);
                nan.push(78);
                assert(nan@ =~= seq![78u8, 97, 78]);
                nan
            } else {
                write_double(bits)
            }
        },
    }
}

/// A score as a reply.
pub open spec fn score_view(bits: u64, version: RespVersion) -> FrameView {
    match version {
        RespVersion::V3 => FrameView::Double(bits),
        RespVersion::V2 => FrameView::Bulk(score_text(bits)),
    }
}

/// A score as a reply.
fn score_frame(bits: u64, version: RespVersion) -> (r: Frame)
    ensures
        frame_view(r) == score_view(bits, version),
{
    match version {
        RespVersion::V3 => Frame::Double(bits),
        RespVersion::V2 => Frame::Bulk(bytes_from(format_score(bits))),
    }
}

/// Members and scores one behind the other.
pub open spec fn flat_scores(pairs: Seq<(Seq<u8>, u64)>) -> Seq<FrameView> {
    Seq::new(
        2 * pairs.len(),
        |i: int|
            FrameView::Bulk(
                if i % 2 == 0 {
                    pairs[i / 2].0
                } else {
                    score_text(pairs[i / 2].1)
                },
            ),
    )
}

/// Members and scores as pairs.
pub open spec fn paired_scores(pairs: Seq<(Seq<u8>, u64)>) -> Seq<FrameView> {
    pairs.map_values(
        |p: (Seq<u8>, u64)|
            FrameView::Array(seq![FrameView::Bulk(p.0), FrameView::Double(p.1)]),
    )
}

/// The reply with members, and with their scores where `scores` asks for them.
pub open spec fn range_view(pairs: Seq<(Seq<u8>, u64)>, scores: bool, version: RespVersion) -> FrameView {
    FrameView::Array(
        if !scores {
            bulks(members_of(pairs))
        } else {
            match version {
                RespVersion::V2 => flat_scores(pairs),
                RespVersion::V3 => paired_scores(pairs),
            }
        },
    )
}

/// Members without their scores.
fn member_frames(pairs: &[(Vec<u8>, u64)]) -> (r: Vec<Frame>)
    ensures
        frames_view(r@) == bulks(members_of(member_scores(pairs@))),
{
    let mut out: Vec<Frame> = Vec::new();
    let mut i: usize = 0;
    while i < pairs.len()
        invariant
            i <= pairs@.len(),
            out@.len() == i,
            forall|j: int|
                0 <= j < i ==> frame_view(#[trigger] out@[j]) == FrameView::Bulk(pairs@[j].0@),
        decreases pairs@.len() - i,
    {
        out.push(Frame::Bulk(bytes_copy(&pairs[i].0)));
        i += 1;
    }
    assert(frames_view(out@) =~= bulks(members_of(member_scores(pairs@))));
    out
}

/// Members and scores one behind the other.
fn flat_frames(pairs: &[(Vec<u8>, u64)]) -> (r: Vec<Frame>)
    ensures
        frames_view(r@) == flat_scores(member_scores(pairs@)),
{
    let mut out: Vec<Frame> = Vec::new();
    let mut i: usize = 0;
    while i < pairs.len()
        invariant
            i <= pairs@.len(),
            out@.len() == 2 * i,
            forall|j: int|
                0 <= j < 2 * i ==> frame_view(#[trigger] out@[j]) == flat_scores(
                    member_scores(pairs@),
                )[j],
        decreases pairs@.len() - i,
    {
        let ghost was = out@;
        out.push(Frame::Bulk(bytes_copy(&pairs[i].0)));
        out.push(Frame::Bulk(bytes_from(format_score(pairs[i].1))));
        proof {
            assert forall|j: int| 0 <= j < 2 * (i + 1) implies frame_view(#[trigger] out@[j])
                == flat_scores(member_scores(pairs@))[j] by {
                if j < 2 * i {
                    assert(out@[j] == was[j]);
                }
            }
        }
        i += 1;
    }
    assert(frames_view(out@) =~= flat_scores(member_scores(pairs@)));
    out
}

/// Members and scores as pairs.
fn paired_frames(pairs: &[(Vec<u8>, u64)]) -> (r: Vec<Frame>)
    ensures
        frames_view(r@) == paired_scores(member_scores(pairs@)),
{
    let mut out: Vec<Frame> = Vec::new();
    let mut i: usize = 0;
    while i < pairs.len()
        invariant
            i <= pairs@.len(),
            out@.len() == i,
            forall|j: int|
                0 <= j < i ==> frame_view(#[trigger] out@[j]) == FrameView::Array(
                    seq![FrameView::Bulk(pairs@[j].0@), FrameView::Double(pairs@[j].1)],
                ),
        decreases pairs@.len() - i,
    {
        let mut pair: Vec<Frame> = Vec::new();
        pair.push(Frame::Bulk(bytes_copy(&pairs[i].0)));
        pair.push(Frame::Double(pairs[i].1));
        assert(frames_view(pair@) =~= seq![
            FrameView::Bulk(pairs@[i as int].0@),
            FrameView::Double(pairs@[i as int].1),
        ]);
        out.push(array(pair));
        i += 1;
    }
    assert(frames_view(out@) =~= paired_scores(member_scores(pairs@)));
    out
}

/// The reply with members, and with their scores where `scores` asks for them.
fn range_reply(pairs: &[(Vec<u8>, u64)], scores: bool, version: RespVersion) -> (r: Frame)
    ensures
        frame_view(r) == range_view(member_scores(pairs@), scores, version),
{
    if !scores {
        return array(member_frames(pairs));
    }
    match version {
        RespVersion::V2 => array(flat_frames(pairs)),
        RespVersion::V3 => array(paired_frames(pairs)),
    }
}

// ---------------------------------------------------------------------------
// Commands
// ---------------------------------------------------------------------------
/// The argument is an option of `ZADD` in other servers, which is an error here.
pub open spec fn is_flag(arg: Seq<u8>) -> bool {
    is_word(arg, "NX"@) || is_word(arg, "XX"@) || is_word(arg, "GT"@) || is_word(arg, "LT"@)
        || is_word(arg, "CH"@) || is_word(arg, "INCR"@)
}

/// The scores and members that pairs of arguments give, or `None` where one of the scores is none.
pub open spec fn scored(pairs: Seq<(Seq<u8>, Seq<u8>)>) -> Option<Seq<(u64, Seq<u8>)>>
    decreases pairs.len(),
{
    if pairs.len() == 0 {
        Some(Seq::empty())
    } else {
        match (scored(pairs.drop_last()), score_value(pairs.last().0)) {
            (Some(list), Some(score)) => Some(list.push((score, pairs.last().1))),
            _ => None,
        }
    }
}

/// One bad score among the pairs is enough.
proof fn scored_fails(pairs: Seq<(Seq<u8>, Seq<u8>)>, n: int)
    requires
        0 <= n <= pairs.len(),
        scored(pairs.take(n)) is None,
    ensures
        scored(pairs) is None,
    decreases pairs.len() - n,
{
    if n == pairs.len() {
        assert(pairs.take(n) =~= pairs);
    } else {
        let next = pairs.take(n + 1);
        assert(next.drop_last() =~= pairs.take(n));
        scored_fails(pairs, n + 1);
    }
}

/// `ZADD key score member [score member ...]`.
pub open spec fn zadd_command(args: Seq<Seq<u8>>, s: StoreView, times: Seq<Now>) -> (
    StoreView,
    FrameView,
) {
    if is_flag(args[2]) || args.len() % 2 != 0 {
        (s, FrameView::Error(SYNTAX_ERROR@))
    } else {
        match scored(two_by_two(args.skip(2))) {
            None => (s, FrameView::Error(NOT_A_FLOAT@)),
            Some(pairs) => replied(
                zadd_op(s, times[0], args[1], pairs),
                |added: i64| FrameView::Integer(added),
            ),
        }
    }
}

/// `ZADD` refuses flags, a score without a member, and scores that are no numbers.
pub open spec fn zadd_refused(args: Seq<Seq<u8>>) -> bool {
    is_flag(args[2]) || args.len() % 2 != 0 || scored(two_by_two(args.skip(2))) is None
}

/// `ZADD key score member [score member ...]`: how many of the members are new.
pub(crate) fn zadd<E: GeneralEngine>(store: &mut Store<E>, args: &[Bytes]) -> (r: Frame)
    requires
        args@.len() >= 4,
    ensures
        later(*old(store), *final(store)),
        served_at(
            frame_view(r),
            old(store)@,
            all_bytes_of(args@)[1],
            final(store)@,
            zadd_command(
                all_bytes_of(args@),
                old(store)@,
                readings_since(*old(store), *final(store)),
            ),
            old(store).failures(),
            zadd_refused(all_bytes_of(args@)),
        ),
{
    let ghost all = all_bytes_of(args@);
    assert(all[1] == bytes_of(args@[1]));
    assert(all[2] == bytes_of(args@[2]));
    if word_is(&args[2], "NX") || word_is(&args[2], "XX") || word_is(&args[2], "GT") || word_is(
        &args[2],
        "LT",
    ) || word_is(&args[2], "CH") || word_is(&args[2], "INCR") {
        return Frame::error(SYNTAX_ERROR);
    }
    if args.len() % 2 != 0 {
        return Frame::error(SYNTAX_ERROR);
    }
    let pairs = match scored_args(args) {
        Some(pairs) => pairs,
        None => return Frame::error(NOT_A_FLOAT),
    };
    let done = store.zadd(bytes_slice(&args[1]), &pairs);
    proof {
        one_reading(*old(store), *store);
        let want = zadd_command(
            all_bytes_of(args@),
            old(store)@,
            readings_since(*old(store), *store),
        );
        assert(done matches Err(e) ==> want == (store@, engine_error_view(e@)) || at_a_step(
            old(store)@,
            store.last_now(),
            all_bytes_of(args@)[1],
            store@,
            want.0,
        ));
    }
    match done {
        Ok(added) => Frame::Integer(added),
        Err(e) => engine_error(e),
    }
}

/// The scores and members behind the key.
fn scored_args(args: &[Bytes]) -> (r: Option<Vec<(u64, Vec<u8>)>>)
    requires
        args@.len() >= 2,
        args@.len() % 2 == 0,
    ensures
        match r {
            Some(pairs) => scored(two_by_two(all_bytes_of(args@).skip(2))) == Some(
                score_pairs(pairs@),
            ),
            None => scored(two_by_two(all_bytes_of(args@).skip(2))) is None,
        },
{
    let ghost all = two_by_two(all_bytes_of(args@).skip(2));
    let mut out: Vec<(u64, Vec<u8>)> = Vec::new();
    let mut i: usize = 2;
    proof {
        assert(score_pairs(out@) =~= Seq::empty());
        assert(all.take(0) =~= Seq::empty());
    }
    while i < args.len()
        invariant
            2 <= i <= args@.len(),
            i % 2 == 0,
            args@.len() % 2 == 0,
            all == two_by_two(all_bytes_of(args@).skip(2)),
            scored(all.take((i - 2) / 2)) == Some(score_pairs(out@)),
        decreases args@.len() - i,
    {
        let ghost n = (i - 2) / 2;
        let ghost was = score_pairs(out@);
        proof {
            assert(all[n].0 == bytes_of(args@[i as int]));
            assert(all[n].1 == bytes_of(args@[i + 1]));
            assert(all.take(n + 1).drop_last() =~= all.take(n));
            assert(all.take(n + 1).last() == all[n]);
        }
        match parse_score(bytes_slice(&args[i])) {
            Some(score) => {
                out.push((score, slice_to_vec(bytes_slice(&args[i + 1]))));
            },
            None => {
                proof {
                    scored_fails(all, n + 1);
                }
                return None;
            },
        }
        i += 2;
        assert(score_pairs(out@) =~= was.push((score_pairs(out@).last().0, all[n].1)));
    }
    assert(all.take((i - 2) / 2) =~= all);
    Some(out)
}

/// `ZSCORE key member`.
pub open spec fn zscore_command(
    version: RespVersion,
    args: Seq<Seq<u8>>,
    s: StoreView,
    times: Seq<Now>,
) -> (StoreView, FrameView) {
    replied(
        zscore_op(s, times[0], args[1], args[2]),
        |score: Option<u64>|
            match score {
                Some(bits) => score_view(bits, version),
                None => FrameView::Null,
            },
    )
}

/// `ZSCORE key member`: the member's score, null where there is none.
pub(crate) fn zscore<E: GeneralEngine>(
    store: &mut Store<E>,
    version: RespVersion,
    args: &[Bytes],
) -> (r: Frame)
    requires
        args@.len() >= 3,
    ensures
        later(*old(store), *final(store)),
        served_at(
            frame_view(r),
            old(store)@,
            all_bytes_of(args@)[1],
            final(store)@,
            zscore_command(
                version,
                all_bytes_of(args@),
                old(store)@,
                readings_since(*old(store), *final(store)),
            ),
            old(store).failures(),
            false,
        ),
{
    assert(all_bytes_of(args@)[1] == bytes_of(args@[1]));
    assert(all_bytes_of(args@)[2] == bytes_of(args@[2]));
    let done = store.zscore(bytes_slice(&args[1]), bytes_slice(&args[2]));
    proof {
        one_reading(*old(store), *store);
        let want = zscore_command(
            version,
            all_bytes_of(args@),
            old(store)@,
            readings_since(*old(store), *store),
        );
        assert(done matches Err(e) ==> want == (store@, engine_error_view(e@)) || at_a_step(
            old(store)@,
            store.last_now(),
            all_bytes_of(args@)[1],
            store@,
            want.0,
        ));
    }
    match done {
        Ok(Some(bits)) => score_frame(bits, version),
        Ok(None) => Frame::Null,
        Err(e) => engine_error(e),
    }
}

/// `ZRANGE key start stop [WITHSCORES]`.
pub open spec fn zrange_command(
    version: RespVersion,
    args: Seq<Seq<u8>>,
    s: StoreView,
    times: Seq<Now>,
) -> (StoreView, FrameView) {
    match (int_value(args[2]), int_value(args[3])) {
        (Some(start), Some(stop)) => if args.len() > 5 || args.len() == 5 && !is_word(
            args[4],
            "WITHSCORES"@,
        ) {
            (s, FrameView::Error(SYNTAX_ERROR@))
        } else {
            replied(
                zrange_op(s, times[0], args[1], start, stop),
                |pairs: Seq<(Seq<u8>, u64)>| range_view(pairs, args.len() == 5, version),
            )
        },
        _ => (s, FrameView::Error(NOT_AN_INTEGER@)),
    }
}

/// `ZRANGE` refuses ranks that are no integers, and options other than `WITHSCORES`.
pub open spec fn zrange_refused(args: Seq<Seq<u8>>) -> bool {
    int_value(args[2]) is None || int_value(args[3]) is None || args.len() > 5 || args.len() == 5
        && !is_word(args[4], "WITHSCORES"@)
}

/// `ZRANGE key start stop [WITHSCORES]`: the members of the given ranks.
pub(crate) fn zrange<E: GeneralEngine>(
    store: &mut Store<E>,
    version: RespVersion,
    args: &[Bytes],
) -> (r: Frame)
    requires
        args@.len() >= 4,
    ensures
        later(*old(store), *final(store)),
        served_at(
            frame_view(r),
            old(store)@,
            all_bytes_of(args@)[1],
            final(store)@,
            zrange_command(
                version,
                all_bytes_of(args@),
                old(store)@,
                readings_since(*old(store), *final(store)),
            ),
            old(store).failures(),
            zrange_refused(all_bytes_of(args@)),
        ),
{
    assert(all_bytes_of(args@)[1] == bytes_of(args@[1]));
    assert(all_bytes_of(args@)[2] == bytes_of(args@[2]));
    assert(all_bytes_of(args@)[3] == bytes_of(args@[3]));
    let (start, stop): (i64, i64) = match (
        read_int(bytes_slice(&args[2])),
        read_int(bytes_slice(&args[3])),
    ) {
        (Some(start), Some(stop)) => (start, stop),
        _ => return Frame::error(NOT_AN_INTEGER),
    };
    let scores = args.len() > 4;
    if args.len() > 5 {
        return Frame::error(SYNTAX_ERROR);
    }
    if scores {
        assert(all_bytes_of(args@)[4] == bytes_of(args@[4]));
        if !word_is(&args[4], "WITHSCORES") {
            return Frame::error(SYNTAX_ERROR);
        }
    }
    let done = store.zrange(bytes_slice(&args[1]), start, stop);
    proof {
        one_reading(*old(store), *store);
        let want = zrange_command(
            version,
            all_bytes_of(args@),
            old(store)@,
            readings_since(*old(store), *store),
        );
        assert(done matches Err(e) ==> want == (store@, engine_error_view(e@)) || at_a_step(
            old(store)@,
            store.last_now(),
            all_bytes_of(args@)[1],
            store@,
            want.0,
        ));
    }
    match done {
        Ok(pairs) => range_reply(&pairs, scores, version),
        Err(e) => engine_error(e),
    }
}

/// What the options of `ZRANGEBYSCORE` say, behind what was said before: whether scores are wanted,
/// and where to start and how many to give. `None` where they make no sense.
pub open spec fn range_options(
    options: Seq<Seq<u8>>,
    scores: bool,
    limit: Option<(i64, i64)>,
) -> Option<(bool, Option<(i64, i64)>)>
    decreases options.len(),
{
    if options.len() == 0 {
        Some((scores, limit))
    } else if is_word(options[0], "WITHSCORES"@) {
        range_options(options.skip(1), true, limit)
    } else if is_word(options[0], "LIMIT"@) && options.len() >= 3 {
        match (int_value(options[1]), int_value(options[2])) {
            (Some(offset), Some(count)) => range_options(
                options.skip(3),
                scores,
                Some((offset, count)),
            ),
            _ => None,
        }
    } else {
        None
    }
}

/// The elements that a limit lets through: none where the offset is negative, and all from the
/// offset on where the count is.
pub open spec fn limited<T>(list: Seq<T>, limit: Option<(i64, i64)>) -> Seq<T> {
    match limit {
        None => list,
        Some((offset, count)) => if offset < 0 || offset >= list.len() {
            Seq::empty()
        } else if count < 0 || count >= list.len() - offset {
            list.skip(offset as int)
        } else {
            list.subrange(offset as int, offset + count)
        },
    }
}

/// `ZRANGEBYSCORE key min max [WITHSCORES] [LIMIT offset count]`.
pub open spec fn zrangebyscore_command(
    version: RespVersion,
    args: Seq<Seq<u8>>,
    s: StoreView,
    times: Seq<Now>,
) -> (StoreView, FrameView) {
    match (bound_value(args[2]), bound_value(args[3])) {
        (Some((min, min_exclusive)), Some((max, max_exclusive))) => match range_options(
            args.skip(4),
            false,
            None,
        ) {
            None => (s, FrameView::Error(SYNTAX_ERROR@)),
            Some((scores, limit)) => replied(
                zrange_by_score_op(
                    s,
                    times[0],
                    args[1],
                    ScoreRange { min, min_exclusive, max, max_exclusive },
                ),
                |pairs: Seq<(Seq<u8>, u64)>| range_view(limited(pairs, limit), scores, version),
            ),
        },
        _ => (s, FrameView::Error(BAD_RANGE_BOUND@)),
    }
}

/// What the options of `ZRANGEBYSCORE` say.
fn read_range_options(args: &[Bytes]) -> (r: Option<(bool, Option<(i64, i64)>)>)
    requires
        args@.len() >= 4,
    ensures
        r == range_options(all_bytes_of(args@).skip(4), false, None),
{
    let ghost all = all_bytes_of(args@);
    let mut scores = false;
    let mut limit: Option<(i64, i64)> = None;
    let mut i: usize = 4;
    while i < args.len()
        invariant
            4 <= i <= args@.len(),
            all == all_bytes_of(args@),
            range_options(all.skip(4), false, None) == range_options(
                all.skip(i as int),
                scores,
                limit,
            ),
        decreases args@.len() - i,
    {
        let ghost options = all.skip(i as int);
        assert(options[0] == bytes_of(args@[i as int]));
        if word_is(&args[i], "WITHSCORES") {
            scores = true;
            i += 1;
            assert(all.skip(i as int) =~= options.skip(1));
        } else if word_is(&args[i], "LIMIT") && args.len() - i >= 3 {
            assert(options[1] == bytes_of(args@[i + 1]));
            assert(options[2] == bytes_of(args@[i + 2]));
            match (read_int(bytes_slice(&args[i + 1])), read_int(bytes_slice(&args[i + 2]))) {
                (Some(offset), Some(count)) => {
                    limit = Some((offset, count));
                },
                _ => return None,
            }
            i += 3;
            assert(all.skip(i as int) =~= options.skip(3));
        } else {
            return None;
        }
    }
    assert(all.skip(i as int) =~= Seq::<Seq<u8>>::empty());
    Some((scores, limit))
}

/// The part of a list that a limit lets through.
fn limit_pairs(pairs: &[(Vec<u8>, u64)], limit: Option<(i64, i64)>) -> (r: &[(Vec<u8>, u64)])
    ensures
        member_scores(r@) == limited(member_scores(pairs@), limit),
{
    let n: usize = pairs.len();
    let (from, to): (usize, usize) = match limit {
        None => (0, n),
        Some((offset, count)) => {
            if offset < 0 || offset as u64 >= n as u64 {
                (0, 0)
            } else {
                let from: usize = offset as usize;
                if count < 0 || count as u64 >= (n - from) as u64 {
                    (from, n)
                } else {
                    (from, from + count as usize)
                }
            }
        },
    };
    let r = slice_subrange(pairs, from, to);
    assert(member_scores(r@) =~= limited(member_scores(pairs@), limit));
    r
}

/// `ZRANGEBYSCORE` refuses bounds that are no numbers, and options that it does not know.
pub open spec fn zrangebyscore_refused(args: Seq<Seq<u8>>) -> bool {
    bound_value(args[2]) is None || bound_value(args[3]) is None || range_options(
        args.skip(4),
        false,
        None,
    ) is None
}

/// `ZRANGEBYSCORE key min max [WITHSCORES] [LIMIT offset count]`: the members with scores between
/// the bounds.
pub(crate) fn zrangebyscore<E: GeneralEngine>(
    store: &mut Store<E>,
    version: RespVersion,
    args: &[Bytes],
) -> (r: Frame)
    requires
        args@.len() >= 4,
    ensures
        later(*old(store), *final(store)),
        served_at(
            frame_view(r),
            old(store)@,
            all_bytes_of(args@)[1],
            final(store)@,
            zrangebyscore_command(
                version,
                all_bytes_of(args@),
                old(store)@,
                readings_since(*old(store), *final(store)),
            ),
            old(store).failures(),
            zrangebyscore_refused(all_bytes_of(args@)),
        ),
{
    assert(all_bytes_of(args@)[1] == bytes_of(args@[1]));
    assert(all_bytes_of(args@)[2] == bytes_of(args@[2]));
    assert(all_bytes_of(args@)[3] == bytes_of(args@[3]));
    let (min, min_exclusive): (u64, bool) = match parse_score_bound(bytes_slice(&args[2])) {
        Some(bound) => bound,
        None => return Frame::error(BAD_RANGE_BOUND),
    };
    let (max, max_exclusive): (u64, bool) = match parse_score_bound(bytes_slice(&args[3])) {
        Some(bound) => bound,
        None => return Frame::error(BAD_RANGE_BOUND),
    };
    let (scores, limit): (bool, Option<(i64, i64)>) = match read_range_options(args) {
        Some(options) => options,
        None => return Frame::error(SYNTAX_ERROR),
    };
    let done = store.zrange_by_score(
        bytes_slice(&args[1]),
        min,
        min_exclusive,
        max,
        max_exclusive,
    );
    proof {
        one_reading(*old(store), *store);
        let want = zrangebyscore_command(
            version,
            all_bytes_of(args@),
            old(store)@,
            readings_since(*old(store), *store),
        );
        assert(done matches Err(e) ==> want == (store@, engine_error_view(e@)) || at_a_step(
            old(store)@,
            store.last_now(),
            all_bytes_of(args@)[1],
            store@,
            want.0,
        ));
    }
    match done {
        Ok(pairs) => range_reply(limit_pairs(&pairs, limit), scores, version),
        Err(e) => engine_error(e),
    }
}

/// `ZREM key member [member ...]`.
pub open spec fn zrem_command(args: Seq<Seq<u8>>, s: StoreView, times: Seq<Now>) -> (
    StoreView,
    FrameView,
) {
    replied(
        zrem_op(s, times[0], args[1], args.skip(2)),
        |removed: i64| FrameView::Integer(removed),
    )
}

/// `ZREM key member [member ...]`: how many of them were there.
pub(crate) fn zrem<E: GeneralEngine>(store: &mut Store<E>, args: &[Bytes]) -> (r: Frame)
    requires
        args@.len() >= 2,
    ensures
        later(*old(store), *final(store)),
        served_at(
            frame_view(r),
            old(store)@,
            all_bytes_of(args@)[1],
            final(store)@,
            zrem_command(
                all_bytes_of(args@),
                old(store)@,
                readings_since(*old(store), *final(store)),
            ),
            old(store).failures(),
            false,
        ),
{
    assert(all_bytes_of(args@)[1] == bytes_of(args@[1]));
    let members = copy_args(args, 2);
    let done = store.zrem(bytes_slice(&args[1]), &members);
    proof {
        one_reading(*old(store), *store);
        let want = zrem_command(
            all_bytes_of(args@),
            old(store)@,
            readings_since(*old(store), *store),
        );
        assert(done matches Err(e) ==> want == (store@, engine_error_view(e@)) || at_a_step(
            old(store)@,
            store.last_now(),
            all_bytes_of(args@)[1],
            store@,
            want.0,
        ));
    }
    match done {
        Ok(removed) => Frame::Integer(removed),
        Err(e) => engine_error(e),
    }
}

/// `ZCARD key`.
pub open spec fn zcard_command(args: Seq<Seq<u8>>, s: StoreView, times: Seq<Now>) -> (
    StoreView,
    FrameView,
) {
    replied(count_op(s, times[0], args[1], TYPE_ZSET), |n: i64| FrameView::Integer(n))
}

/// `ZCARD key`: how many members there are.
pub(crate) fn zcard<E: GeneralEngine>(store: &mut Store<E>, args: &[Bytes]) -> (r: Frame)
    requires
        args@.len() >= 2,
    ensures
        later(*old(store), *final(store)),
        served_at(
            frame_view(r),
            old(store)@,
            all_bytes_of(args@)[1],
            final(store)@,
            zcard_command(
                all_bytes_of(args@),
                old(store)@,
                readings_since(*old(store), *final(store)),
            ),
            old(store).failures(),
            false,
        ),
{
    assert(all_bytes_of(args@)[1] == bytes_of(args@[1]));
    let done = store.zcard(bytes_slice(&args[1]));
    proof {
        one_reading(*old(store), *store);
        let want = zcard_command(
            all_bytes_of(args@),
            old(store)@,
            readings_since(*old(store), *store),
        );
        assert(done matches Err(e) ==> want == (store@, engine_error_view(e@)) || at_a_step(
            old(store)@,
            store.last_now(),
            all_bytes_of(args@)[1],
            store@,
            want.0,
        ));
    }
    match done {
        Ok(n) => Frame::Integer(n),
        Err(e) => engine_error(e),
    }
}

} // verus!
