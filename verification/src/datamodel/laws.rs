//! What holds of the commands as a whole.
use vstd::prelude::*;

use crate::datamodel::commands::hash::{hget_command, hset_command};
use crate::datamodel::commands::list::push_command;
use crate::datamodel::commands::set::{sadd_command, sismember_command};
use crate::datamodel::commands::string::{
    expire_command, get_command, past_or_future, seconds_left, set_command, set_options,
};
use crate::datamodel::commands::zset::{
    is_flag, score_view, scored, zadd_command, zscore_command,
};
use crate::datamodel::commands::{command_op, two_by_two, Command};
use crate::datamodel::registry::{
    arity_fits, dispatches, is_word, CommandArgs, CommandHandler, Entry as CommandEntry,
};
use crate::engine::encoding::{score_same, TYPE_SET};
use crate::engine::engine::{Failures, GeneralEngine};
use crate::engine::error::EngineErrorView;
use crate::engine::laws::lists::{
    has_room, items_seen, list_or_nothing, pop_law, push_law, push_then_pop,
};
use crate::engine::laws::members::{
    end_seen, fields_seen, hash_or_nothing, hash_reads_law, hset_law, last_value_stays,
    members_seen, put_all, sadd_law, set_or_nothing, stays, type_seen,
};
use crate::engine::laws::scores::{
    given_score_is_seen, score_all, scores_seen, zadd_law, zset_or_nothing, zset_reads_law,
};
use crate::engine::laws::{expire_law, get_after_set, reads_law};
use crate::engine::model::{
    exists_op, expire_op, hset_op, last_scores, pop_op, push_op, sadd_op, zadd_op, Now, StoreView,
};
use crate::engine::values::{entry, fresh, sound, visible, Entry, Value};
use crate::protocol::frame::{FrameView, RespVersion};
use crate::text::{int_value, upper_all};

verus! {

/// A request that is refused before any handler runs (one without a command, with an unknown
/// command or with the wrong number of arguments) is answered with an error and changes nothing.
pub proof fn refused_changes_nothing<E: GeneralEngine, H: CommandHandler<E>>(
    commands: Map<Seq<u8>, CommandEntry<H>>,
    version: RespVersion,
    args: Seq<Seq<u8>>,
    before: StoreView,
    times: Seq<Now>,
    after: StoreView,
    reply: FrameView,
    failures: Failures,
)
    requires
        dispatches::<E, H>(commands, version, args, before, times, after, reply, failures),
        args.len() == 0 || !commands.contains_key(upper_all(args[0])) || !arity_fits(
            commands[upper_all(args[0])].arity,
            args.len(),
        ),
    ensures
        after == before,
        reply is Error,
{
}

/// The letter case of a command's name makes no difference to what the command does.
pub proof fn letter_case_does_not_matter(
    command: Command,
    version: RespVersion,
    a: Seq<Seq<u8>>,
    b: Seq<Seq<u8>>,
    s: StoreView,
    times: Seq<Now>,
)
    requires
        a.len() >= command.least_args(),
        a.len() == b.len(),
        upper_all(a[0]) == upper_all(b[0]),
        a.skip(1) == b.skip(1),
    ensures
        command_op(command, version, a, s, times) == command_op(command, version, b, s, times),
{
    assert forall|i: int| 1 <= i < a.len() implies #[trigger] a[i] == b[i] by {
        assert(a.skip(1)[i - 1] == b.skip(1)[i - 1]);
    }
    if a.len() >= 2 {
        assert(a.skip(2) =~= b.skip(2));
    }
    if a.len() >= 3 {
        assert(a.skip(3) =~= b.skip(3));
    }
    if a.len() >= 4 {
        assert(a.skip(4) =~= b.skip(4));
    }
}

/// What `SET` without options stores, `GET` gives back, at any later time.
pub proof fn set_then_get(
    args: Seq<Seq<u8>>,
    s: StoreView,
    times: Seq<Now>,
    request: Seq<Seq<u8>>,
    later: Seq<Now>,
)
    requires
        args.len() == 3,
        request.len() == 2,
        request[1] == args[1],
    ensures
        ({
            let (t, set) = set_command(args, s, times);
            let (u, got) = get_command(request, t, later);
            &&& set == FrameView::Simple("OK"@)
            &&& got == FrameView::Bulk(args[2])
            &&& u == t
        }),
{
    assert(args.skip(3) =~= Seq::<Seq<u8>>::empty());
    get_after_set(s, times[0], later[0], args[1], args[2], 0);
}

/// What `SET` stores with an expiry, `GET` gives back until the time is up, and not from then on.
pub proof fn set_with_expiry_then_get(
    args: Seq<Seq<u8>>,
    s: StoreView,
    times: Seq<Now>,
    request: Seq<Seq<u8>>,
    later: Seq<Now>,
    at: u64,
    rest: Seq<Now>,
)
    requires
        args.len() > 3,
        set_options(args.skip(3), 0, times) == Ok::<(u64, Seq<Now>), Seq<char>>((at, rest)),
        at != 0,
        request.len() == 2,
        request[1] == args[1],
    ensures
        ({
            let (t, set) = set_command(args, s, times);
            let (u, got) = get_command(request, t, later);
            &&& set == FrameView::Simple("OK"@)
            &&& got == (if later[0].ms < at {
                FrameView::Bulk(args[2])
            } else {
                FrameView::Null
            })
        }),
{
    get_after_set(s, rest[0], later[0], args[1], args[2], at);
}

/// A `SET` whose options are wrong changes nothing.
pub proof fn wrong_options_change_nothing(args: Seq<Seq<u8>>, s: StoreView, times: Seq<Now>)
    requires
        set_options(args.skip(3), 0, times) is Err,
    ensures
        set_command(args, s, times).0 == s,
        set_command(args, s, times).1 is Error,
{
}

/// What `HSET` puts under a field last, `HGET` gives back, unless the hash is at its end by then.
pub proof fn hset_then_hget(
    args: Seq<Seq<u8>>,
    s: StoreView,
    times: Seq<Now>,
    i: int,
    request: Seq<Seq<u8>>,
    later: Seq<Now>,
)
    requires
        sound(s),
        fresh(s, times[0]),
        args.len() >= 4,
        args.len() % 2 == 0,
        args[1].len() <= u32::MAX,
        hash_or_nothing(s, times[0], args[1]),
        put_all(fields_seen(s, times[0], args[1]), two_by_two(args.skip(2))).dom().len()
            <= u32::MAX,
        stays(s, times[0], args[1], later[0]),
        0 <= i < two_by_two(args.skip(2)).len(),
        forall|j: int|
            i < j < two_by_two(args.skip(2)).len() ==> (#[trigger] two_by_two(args.skip(2))[j]).0
                != two_by_two(args.skip(2))[i].0,
        request.len() == 3,
        request[1] == args[1],
        request[2] == two_by_two(args.skip(2))[i].0,
    ensures
        hget_command(request, hset_command(args, s, times).0, later).1 == FrameView::Bulk(
            two_by_two(args.skip(2))[i].1,
        ),
{
    let pairs = two_by_two(args.skip(2));
    hset_law(s, times[0], args[1], pairs);
    last_value_stays(fields_seen(s, times[0], args[1]), pairs, i);
    let t = hset_op(s, times[0], args[1], pairs).0;
    hash_reads_law(t, later[0], args[1], request[2]);
}

/// What `SADD` adds, `SISMEMBER` finds, unless the set is at its end by then.
pub proof fn sadd_then_sismember(
    args: Seq<Seq<u8>>,
    s: StoreView,
    times: Seq<Now>,
    i: int,
    request: Seq<Seq<u8>>,
    later: Seq<Now>,
)
    requires
        sound(s),
        fresh(s, times[0]),
        args.len() >= 3,
        args[1].len() <= u32::MAX,
        set_or_nothing(s, times[0], args[1]),
        members_seen(s, times[0], args[1]).union(args.skip(2).to_set()).len() <= u32::MAX,
        stays(s, times[0], args[1], later[0]),
        2 <= i < args.len(),
        request.len() == 3,
        request[1] == args[1],
        request[2] == args[i],
    ensures
        sismember_command(request, sadd_command(args, s, times).0, later).1 == FrameView::Integer(
            1,
        ),
{
    let members = args.skip(2);
    sadd_law(s, times[0], args[1], members);
    let t = sadd_op(s, times[0], args[1], members).0;
    type_seen(t, later[0], args[1], TYPE_SET);
    assert(members[i - 2] == args[i]);
    assert(members.to_set().contains(args[i]));
    let all = members_seen(s, times[0], args[1]).union(members.to_set());
    assert(visible(t, later[0], args[1]) matches Some(e) && e.value == Value::Members(all));
    assert(all.contains(request[2]));
}

/// The score that `ZADD` gives a member last, or one that is the same number, is what `ZSCORE`
/// tells, unless the sorted set is at its end by then.
pub proof fn zadd_then_zscore(
    version: RespVersion,
    args: Seq<Seq<u8>>,
    s: StoreView,
    times: Seq<Now>,
    pairs: Seq<(u64, Seq<u8>)>,
    i: int,
    request: Seq<Seq<u8>>,
    later: Seq<Now>,
) -> (bits: u64)
    requires
        sound(s),
        fresh(s, times[0]),
        args.len() >= 4,
        args.len() % 2 == 0,
        !is_flag(args[2]),
        args[1].len() <= u32::MAX,
        scored(two_by_two(args.skip(2))) == Some(pairs),
        zset_or_nothing(s, times[0], args[1]),
        score_all(scores_seen(s, times[0], args[1]), last_scores(pairs)).dom().len() <= u32::MAX,
        stays(s, times[0], args[1], later[0]),
        0 <= i < pairs.len(),
        forall|j: int| i < j < pairs.len() ==> (#[trigger] pairs[j]).1 != pairs[i].1,
        request.len() == 3,
        request[1] == args[1],
        request[2] == pairs[i].1,
    ensures
        bits == pairs[i].0 || score_same(bits, pairs[i].0),
        zscore_command(version, request, zadd_command(args, s, times).0, later).1 == score_view(
            bits,
            version,
        ),
{
    zadd_law(s, times[0], args[1], pairs);
    given_score_is_seen(scores_seen(s, times[0], args[1]), pairs, i);
    let t = zadd_op(s, times[0], args[1], pairs).0;
    zset_reads_law(t, later[0], args[1], request[2]);
    scores_seen(t, later[0], args[1])[request[2]]
}

/// What `LPUSH` and `RPUSH` put at an end of a list, the pop at that end takes off again, the last
/// one first, unless the list is at its end by then; what was there before stays.
pub proof fn push_then_pop_command(
    args: Seq<Seq<u8>>,
    s: StoreView,
    times: Seq<Now>,
    count: usize,
    later: Now,
)
    requires
        sound(s),
        fresh(s, times[0]),
        args.len() >= 3,
        args[1].len() <= u32::MAX,
        list_or_nothing(s, times[0], args[1]),
        has_room(s, times[0], args[1], args.skip(2).len(), is_word(args[0], "LPUSH"@)),
        stays(s, times[0], args[1], later),
        count == args.len() - 2,
    ensures
        ({
            let left = is_word(args[0], "LPUSH"@);
            let was = items_seen(s, times[0], args[1]);
            let (t, popped) = pop_op(push_command(args, s, times).0, later, args[1], count, left);
            &&& popped == Ok::<Seq<Seq<u8>>, EngineErrorView>(args.skip(2).reverse())
            &&& entry(t, args[1]) == (if was.len() == 0 {
                None
            } else {
                Some(
                    Entry {
                        value: Value::Items(was),
                        expire_ms: end_seen(s, times[0], args[1]),
                    },
                )
            })
        }),
{
    let left = is_word(args[0], "LPUSH"@);
    let values = args.skip(2);
    push_law(s, times[0], args[1], values, left);
    let t = push_op(s, times[0], args[1], values, left).0;
    pop_law(t, later, args[1], count, left);
    push_then_pop(items_seen(s, times[0], args[1]), values, left);
}

/// `EXPIRE` and `PEXPIRE` with an amount that takes the instant to the epoch or before it reply 1
/// for a key that is there, and the key is gone for whoever looks at it then.
pub proof fn expiry_in_the_past_deletes(
    unit: i64,
    name: Seq<char>,
    args: Seq<Seq<u8>>,
    s: StoreView,
    times: Seq<Now>,
    n: i64,
    later: Now,
)
    requires
        sound(s),
        int_value(args[2]) == Some(n),
        i64::MIN <= n * unit <= i64::MAX,
        times[0].ms as i64 + n * unit <= later.ms,
        later.ms >= 1,
        visible(s, times[1], args[1]) is Some,
    ensures
        ({
            let (t, reply) = expire_command(unit, name, args, s, times);
            &&& reply == FrameView::Integer(1)
            &&& exists_op(t, later, args[1]).1 == Ok::<bool, EngineErrorView>(false)
        }),
{
    let at = past_or_future((n * unit) as i64, times[0]);
    expire_law(s, times[1], args[1], at);
    let t = expire_op(s, times[1], args[1], at).0;
    reads_law(t, later, args[1]);
}

/// Seconds are rounded up: the seconds left cover the milliseconds left, and one less would not.
pub proof fn seconds_round_up(ms: i64)
    ensures
        ms < 0 ==> seconds_left(ms) == ms,
        ms >= 0 ==> 1000 * (seconds_left(ms) - 1) < ms <= 1000 * seconds_left(ms),
{
}

} // verus!
