//! What the commands promise whatever a key holds, and what those promise that take no key.
use vstd::prelude::*;

use super::{first_given, pairs_given};
use crate::datamodel::commands::zset::{bound_value, range_options, score_value, scored};
use crate::datamodel::commands::{command_op, two_by_two, Command};
use crate::datamodel::registry::is_word;
use crate::engine::encoding::{meta_name, record_owner, SUBKEY_PREFIX, TYPE_STRING, ZSCORE_PREFIX};
use crate::engine::laws::counts::{family, rawcount_law};
use crate::engine::laws::members::type_seen;
use crate::engine::laws::whole::{compact_law, dbsize_law, wrong_type_changes_nothing};
use crate::engine::model::{live, Now, StoreView};
use crate::engine::values::{entry, sound, sound_key, visible, Value};
use crate::protocol::frame::{FrameView, RespVersion};
use crate::text::int_value;

verus! {

/// The command works on another type of value than the given one.
pub open spec fn goes_with_another(command: Command, value: Value) -> bool {
    match command {
        Command::Get => !(value is Text),
        Command::Hset | Command::Hget | Command::Hmget | Command::Hgetall | Command::Hdel
        | Command::Hlen | Command::Hexists => !(value is Fields),
        Command::Sadd | Command::Srem | Command::Sismember | Command::Smembers | Command::Scard => {
            !(value is Members)
        },
        Command::Zadd | Command::Zscore | Command::Zrange | Command::Zrangebyscore | Command::Zrem
        | Command::Zcard => !(value is Scores),
        Command::Push | Command::Pop | Command::Lrange | Command::Llen => !(value is Items),
        _ => false,
    }
}

/// The arguments have the form that the command asks for.
pub open spec fn well_formed(command: Command, args: Seq<Seq<u8>>) -> bool {
    match command {
        Command::Hset => args.len() >= 4 && args.len() % 2 == 0,
        Command::Hmget => args.len() >= 3,
        Command::Zadd => args.len() >= 4 && args.len() % 2 == 0 && !is_word(args[2], "NX"@)
            && !is_word(args[2], "XX"@) && !is_word(args[2], "GT"@) && !is_word(args[2], "LT"@)
            && !is_word(args[2], "CH"@) && !is_word(args[2], "INCR"@) && scored(
            two_by_two(args.skip(2)),
        ) is Some,
        Command::Zrange => int_value(args[2]) is Some && int_value(args[3]) is Some && (args.len()
            == 4 || args.len() == 5 && is_word(args[4], "WITHSCORES"@)),
        Command::Zrangebyscore => bound_value(args[2]) is Some && bound_value(args[3]) is Some
            && range_options(args.skip(4), false, None) is Some,
        Command::Lrange => int_value(args[2]) is Some && int_value(args[3]) is Some,
        Command::Pop => args.len() == 2 || args.len() == 3 && (int_value(args[2]) matches Some(n)
            && n >= 0),
        _ => true,
    }
}

/// A command that does not go with the value at its key is answered `WRONGTYPE` and changes
/// nothing.
pub proof fn wrong_type_is_refused(
    command: Command,
    version: RespVersion,
    args: Seq<Seq<u8>>,
    s: StoreView,
    times: Seq<Now>,
)
    requires
        sound(s),
        well_formed(command, args),
        visible(s, times[0], args[1]) matches Some(e) && goes_with_another(command, e.value),
    ensures
        command_op(command, version, args, s, times) == (
            s,
            FrameView::Error("WRONGTYPE Operation against a key holding the wrong kind of value"@),
        ),
{
    let key = args[1];
    let now = times[0];
    type_seen(s, now, key, TYPE_STRING);
    if let Ok(Some(meta)) = live(s, now, key) {
        wrong_type_changes_nothing(s, now, key, meta);
    }
}

/// `ZADD` with a flag, with a score and no member behind it or with a score that is no number, and
/// `ZRANGE` and `ZRANGEBYSCORE` with bounds that are none or options that they do not know, are
/// answered with an error and change nothing.
pub proof fn wrong_zset_requests_change_nothing(
    command: Command,
    version: RespVersion,
    args: Seq<Seq<u8>>,
    s: StoreView,
    times: Seq<Now>,
)
    requires
        args.len() >= 4,
        command == Command::Zadd || command == Command::Zrange || command
            == Command::Zrangebyscore,
        command == Command::Zadd ==> is_word(args[2], "NX"@) || is_word(args[2], "XX"@) || is_word(
            args[2],
            "GT"@,
        ) || is_word(args[2], "LT"@) || is_word(args[2], "CH"@) || is_word(args[2], "INCR"@)
            || args.len() % 2 == 1 || exists|i: int|
            0 <= i < pairs_given(args) && score_value(#[trigger] first_given(args, i)) is None,
        command == Command::Zrange ==> int_value(args[2]) is None || int_value(args[3]) is None
            || args.len() > 5 || args.len() == 5 && !is_word(args[4], "WITHSCORES"@),
        command == Command::Zrangebyscore ==> bound_value(args[2]) is None || bound_value(
            args[3],
        ) is None || args.len() >= 5 && !is_word(args[4], "WITHSCORES"@) && !is_word(
            args[4],
            "LIMIT"@,
        ) || args.len() >= 5 && is_word(args[4], "LIMIT"@) && !is_word(args[4], "WITHSCORES"@) && (
        args.len() < 7 || int_value(args[5]) is None || int_value(args[6]) is None),
    ensures
        ({
            let (t, reply) = command_op(command, version, args, s, times);
            &&& t == s
            &&& reply is Error
            &&& command == Command::Zrange && (int_value(args[2]) is None || int_value(
                args[3],
            ) is None) ==> reply == FrameView::Error(
                "ERR value is not an integer or out of range"@,
            )
            &&& command == Command::Zrangebyscore && (bound_value(args[2]) is None || bound_value(
                args[3],
            ) is None) ==> reply == FrameView::Error("ERR min or max is not a float"@)
            &&& command == Command::Zadd && args.len() % 2 == 1 ==> reply == FrameView::Error(
                "ERR syntax error"@,
            )
        }),
{
    if command == Command::Zadd {
        let pairs = two_by_two(args.skip(2));
        if exists|i: int|
            0 <= i < pairs_given(args) && score_value(#[trigger] first_given(args, i)) is None {
            let i = choose|i: int|
                0 <= i < pairs_given(args) && score_value(#[trigger] first_given(args, i)) is None;
            assert(pairs[i].0 == first_given(args, i));
            bad_score_spoils(pairs, i);
        }
    }
    if command == Command::Zrangebyscore && args.len() >= 5 {
        let options = args.skip(4);
        assert(options[0] == args[4]);
        if options.len() >= 3 {
            assert(options[1] == args[5]);
            assert(options[2] == args[6]);
        }
    }
}

/// One bad score among the pairs is enough.
proof fn bad_score_spoils(pairs: Seq<(Seq<u8>, Seq<u8>)>, i: int)
    requires
        0 <= i < pairs.len(),
        score_value(pairs[i].0) is None,
    ensures
        scored(pairs) is None,
    decreases pairs.len(),
{
    if i < pairs.len() - 1 {
        bad_score_spoils(pairs.drop_last(), i);
    }
}

/// `PING` answers `PONG`, `PING message` and `ECHO message` answer the message; `PING` with more
/// arguments is refused. Nothing changes.
pub proof fn ping_and_echo_answer(
    version: RespVersion,
    args: Seq<Seq<u8>>,
    s: StoreView,
    times: Seq<Now>,
)
    ensures
        command_op(Command::Ping, version, args, s, times).0 == s,
        command_op(Command::Echo, version, args, s, times) == (s, FrameView::Bulk(args[1])),
        args.len() == 1 ==> command_op(Command::Ping, version, args, s, times).1
            == FrameView::Simple("PONG"@),
        args.len() == 2 ==> command_op(Command::Ping, version, args, s, times).1 == FrameView::Bulk(
            args[1],
        ),
        args.len() >= 3 ==> command_op(Command::Ping, version, args, s, times).1
            == FrameView::Error("ERR wrong number of arguments for '"@ + "ping"@ + "' command"@),
{
}

/// `DBSIZE` answers how many keys are stored, those included whose time is up and that nobody has
/// looked at since.
pub proof fn dbsize_counts_the_keys(
    version: RespVersion,
    args: Seq<Seq<u8>>,
    s: StoreView,
    times: Seq<Now>,
    keys: Set<Seq<u8>>,
)
    requires
        sound(s),
        s.db.dom().finite(),
        forall|k: Seq<u8>| #[trigger] keys.contains(k) == (entry(s, k) is Some),
    ensures
        keys.finite(),
        command_op(Command::Dbsize, version, args, s, times) == (
            s,
            FrameView::Integer(keys.len() as i64),
        ),
{
    assert forall|k: Seq<u8>| #[trigger] keys.contains(k) == s.db.contains_key(meta_name(k)) by {
        assert(sound_key(s, k));
    }
    dbsize_law(s, keys);
}

/// `RAWCOUNT` answers how many records of members there are, garbage included: those of fields,
/// members and elements, and those of the index of scores.
pub proof fn rawcount_counts_the_records(
    version: RespVersion,
    args: Seq<Seq<u8>>,
    s: StoreView,
    times: Seq<Now>,
)
    requires
        s.db.dom().finite(),
    ensures
        command_op(Command::Rawcount, version, args, s, times) == (
            s,
            FrameView::Integer(
                (family(s.db, SUBKEY_PREFIX).len() + family(s.db, ZSCORE_PREFIX).len()) as i64,
            ),
        ),
{
    rawcount_law(s);
}

/// `COMPACT` replies `OK` and changes no key; the records that it leaves are those of the versions
/// that keys have now.
pub proof fn compact_leaves_the_keys(
    version: RespVersion,
    args: Seq<Seq<u8>>,
    s: StoreView,
    times: Seq<Now>,
)
    requires
        sound(s),
    ensures
        ({
            let (t, reply) = command_op(Command::Compact, version, args, s, times);
            &&& reply == FrameView::Simple("OK"@)
            &&& sound(t)
            &&& forall|k: Seq<u8>| #[trigger] entry(t, k) == entry(s, k)
            &&& forall|raw: Seq<u8>| #[trigger]
                t.db.contains_key(raw) == (s.db.contains_key(raw) && (record_owner(
                    raw,
                ) matches Some((k, v)) ==> s.versions.contains_key(k) && s.versions[k] == v))
        }),
{
    compact_law(s);
}

} // verus!
