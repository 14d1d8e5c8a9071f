//! What the commands of byte strings, of keys and of their expiry promise.
use vstd::prelude::*;
use vstd::utf8::encode_utf8_decode_utf8;

use super::{
    goes_on, is_named, rest_as_set, sweep_hides_nothing, sweep_hides_nothing_later,
};
use crate::datamodel::commands::string::{
    count_keys, deadline, del_keys, expiry_unit, past_or_future, set_options,
};
use crate::datamodel::commands::{command_op, Command};
use crate::datamodel::registry::is_word;
use crate::engine::laws::{del_law, expire_law, reads_law, set_law};
use crate::engine::model::{del_op, swept, Now, StoreView};
use crate::engine::values::{entry, sound, visible, Entry, Value};
use crate::protocol::frame::{FrameView, RespVersion};
use crate::text::int_value;

verus! {

/// What a command answers that takes a key and nothing more.
pub open spec fn asked(
    command: Command,
    version: RespVersion,
    name: Seq<u8>,
    key: Seq<u8>,
    s: StoreView,
    times: Seq<Now>,
) -> FrameView {
    command_op(command, version, seq![name, key], s, times).1
}

/// `EX` and `PX` are two words.
proof fn units_differ(arg: Seq<u8>)
    ensures
        is_word(arg, "PX"@) ==> !is_word(arg, "EX"@),
{
    reveal_strlit("EX");
    reveal_strlit("PX");
    encode_utf8_decode_utf8("EX"@);
    encode_utf8_decode_utf8("PX"@);
    assert("EX"@[0] != "PX"@[0]);
}

/// After `SET key value` the key holds the value without an end, whatever it held before: `GET`
/// answers the value at any time, and `TTL` and `PTTL` answer minus one. All other keys are as
/// before.
pub proof fn set_holds_the_value(
    version: RespVersion,
    args: Seq<Seq<u8>>,
    s: StoreView,
    times: Seq<Now>,
    name: Seq<u8>,
    later: Seq<Now>,
)
    requires
        args.len() == 3,
        sound(s),
        args[1].len() <= u32::MAX,
    ensures
        ({
            let (t, reply) = command_op(Command::SetValue, version, args, s, times);
            &&& reply == FrameView::Simple("OK"@)
            &&& sound(t)
            &&& asked(Command::Get, version, name, args[1], t, later) == FrameView::Bulk(args[2])
            &&& asked(Command::Ttl, version, name, args[1], t, later) == FrameView::Integer(
                (-1) as i64,
            )
            &&& asked(Command::Pttl, version, name, args[1], t, later) == FrameView::Integer(
                (-1) as i64,
            )
            &&& asked(Command::Type, version, name, args[1], t, later) == FrameView::Simple(
                "string"@,
            )
            &&& visible(t, later[0], args[1]) == Some(
                Entry { value: Value::Text(args[2]), expire_ms: 0 },
            )
            &&& forall|k: Seq<u8>| k != args[1] ==> #[trigger] entry(t, k) == entry(s, k)
        }),
{
    assert(args.skip(3) =~= Seq::empty());
    set_law(s, times[0], args[1], args[2], 0);
    let t = command_op(Command::SetValue, version, args, s, times).0;
    reads_law(t, later[0], args[1]);
}

/// After `SET key value EX n`, where the clock stands at t milliseconds, `GET` answers the value
/// before t + 1000 * n milliseconds and null from then on; with `PX n`, before t + n milliseconds.
/// `PTTL` answers the milliseconds left until then, and `TTL` the seconds, rounded up. All other
/// keys are as before.
pub proof fn set_with_expiry_holds_until(
    version: RespVersion,
    args: Seq<Seq<u8>>,
    s: StoreView,
    times: Seq<Now>,
    n: i64,
    name: Seq<u8>,
    later: Seq<Now>,
)
    requires
        args.len() == 5,
        is_word(args[3], "EX"@) || is_word(args[3], "PX"@),
        int_value(args[4]) == Some(n),
        n > 0,
        is_word(args[3], "EX"@) ==> times[0].ms + 1000 * n <= i64::MAX,
        is_word(args[3], "PX"@) ==> times[0].ms + n <= i64::MAX,
        times.len() >= 2,
        sound(s),
        args[1].len() <= u32::MAX,
    ensures
        ({
            let (t, reply) = command_op(Command::SetValue, version, args, s, times);
            let end = if is_word(args[3], "EX"@) {
                times[0].ms + 1000 * n
            } else {
                times[0].ms + n
            };
            let left = end - later[0].ms;
            &&& reply == FrameView::Simple("OK"@)
            &&& sound(t)
            &&& later[0].ms < end ==> asked(Command::Get, version, name, args[1], t, later)
                == FrameView::Bulk(args[2])
            &&& later[0].ms >= end ==> asked(Command::Get, version, name, args[1], t, later)
                == FrameView::Null
            &&& later[0].ms < end ==> asked(Command::Pttl, version, name, args[1], t, later)
                == FrameView::Integer(left as i64)
            &&& later[0].ms < end ==> (asked(
                Command::Ttl,
                version,
                name,
                args[1],
                t,
                later,
            ) matches FrameView::Integer(seconds) && 1000 * (seconds - 1) < left <= 1000 * seconds)
            &&& later[0].ms >= end ==> asked(Command::Pttl, version, name, args[1], t, later)
                == FrameView::Integer((-2) as i64)
            &&& later[0].ms >= end ==> asked(Command::Ttl, version, name, args[1], t, later)
                == FrameView::Integer((-2) as i64)
            &&& forall|k: Seq<u8>| k != args[1] ==> #[trigger] entry(t, k) == entry(s, k)
        }),
{
    units_differ(args[3]);
    reveal_with_fuel(set_options, 2);
    let options = args.skip(3);
    assert(options[0] == args[3]);
    assert(options[1] == args[4]);
    assert(options.skip(2) =~= Seq::empty());
    let end = if is_word(args[3], "EX"@) {
        times[0].ms + 1000 * n
    } else {
        times[0].ms + n
    };
    let unit: i64 = if is_word(args[3], "EX"@) {
        1000
    } else {
        1
    };
    assert(expiry_unit(options[0]) == Some(unit));
    assert(n * unit == end - times[0].ms);
    assert(deadline(n, unit, times[0]) == Some(end as u64));
    assert(set_options(options, 0, times) == Ok::<(u64, Seq<Now>), Seq<char>>(
        (end as u64, times.skip(1)),
    ));
    assert(times.skip(1)[0] == times[1]);
    set_law(s, times[1], args[1], args[2], end as u64);
    let t = command_op(Command::SetValue, version, args, s, times).0;
    reads_law(t, later[0], args[1]);
}

/// `SET` with an option that is neither `EX` nor `PX`, one without an amount or with one that is no
/// integer or not positive, one that takes the end out of range, or with anything behind the first
/// option, is answered with an error and changes nothing.
pub proof fn wrong_set_changes_nothing(
    version: RespVersion,
    args: Seq<Seq<u8>>,
    s: StoreView,
    times: Seq<Now>,
)
    requires
        args.len() >= 4,
        times.len() >= 1,
        times[0].ms <= i64::MAX,
        args.len() != 5 || !is_word(args[3], "EX"@) && !is_word(args[3], "PX"@) || int_value(
            args[4],
        ) is None || int_value(args[4])->0 <= 0 || is_word(args[3], "EX"@) && times[0].ms + 1000
            * int_value(args[4])->0 > i64::MAX || is_word(args[3], "PX"@) && times[0].ms
            + int_value(args[4])->0 > i64::MAX,
    ensures
        ({
            let (t, reply) = command_op(Command::SetValue, version, args, s, times);
            &&& t == s
            &&& reply is Error
            &&& args.len() == 5 && (is_word(args[3], "EX"@) || is_word(args[3], "PX"@))
                && int_value(args[4]) is Some ==> reply == FrameView::Error(
                "ERR invalid expire time in '"@ + "set"@ + "' command"@,
            )
            &&& args.len() == 5 && (is_word(args[3], "EX"@) || is_word(args[3], "PX"@))
                && int_value(args[4]) is None ==> reply == FrameView::Error(
                "ERR value is not an integer or out of range"@,
            )
            &&& args.len() == 4 || !is_word(args[3], "EX"@) && !is_word(args[3], "PX"@) ==> reply
                == FrameView::Error("ERR syntax error"@)
        }),
{
    units_differ(args[3]);
    reveal_with_fuel(set_options, 2);
    let options = args.skip(3);
    assert(options[0] == args[3]);
    if options.len() >= 2 && expiry_unit(options[0]) is Some {
        assert(options[1] == args[4]);
        assert(options.skip(2).len() == options.len() - 2);
        let unit = expiry_unit(options[0])->0;
        if let Some(n) = int_value(options[1]) {
            if is_word(args[3], "EX"@) {
                assert(n * unit == 1000 * n) by (nonlinear_arith)
                    requires
                        unit == 1000,
                ;
            } else {
                assert(n * unit == n) by (nonlinear_arith)
                    requires
                        unit == 1,
                ;
            }
        }
    }
}

/// `GET key` answers the byte string that the key holds, null where there is no key, and an error
/// where the key holds something else. `TYPE key` answers what it holds. Neither changes what a
/// reader sees.
pub proof fn get_and_type_answer(
    version: RespVersion,
    args: Seq<Seq<u8>>,
    s: StoreView,
    times: Seq<Now>,
)
    requires
        sound(s),
    ensures
        ({
            let seen = visible(s, times[0], args[1]);
            let (t, value) = command_op(Command::Get, version, args, s, times);
            let (u, kind) = command_op(Command::Type, version, args, s, times);
            &&& seen is None ==> value == FrameView::Null && kind == FrameView::Simple("none"@)
            &&& seen matches Some(e) ==> match e.value {
                Value::Text(text) => value == FrameView::Bulk(text) && kind == FrameView::Simple(
                    "string"@,
                ),
                Value::Fields(_) => value is Error && kind == FrameView::Simple("hash"@),
                Value::Members(_) => value is Error && kind == FrameView::Simple("set"@),
                Value::Scores(_) => value is Error && kind == FrameView::Simple("zset"@),
                Value::Items(_) => value is Error && kind == FrameView::Simple("list"@),
            }
            &&& forall|k: Seq<u8>| #[trigger]
                visible(t, times[0], k) == visible(s, times[0], k)
            &&& forall|k: Seq<u8>| #[trigger]
                visible(u, times[0], k) == visible(s, times[0], k)
        }),
{
    reads_law(s, times[0], args[1]);
    sweep_hides_nothing(s, times[0], args[1]);
}

/// `PTTL key` answers how many milliseconds the key has left, `TTL key` the seconds, rounded up;
/// both answer minus one where it has no end, and minus two where there is no such key.
pub proof fn ttl_and_pttl_answer(
    version: RespVersion,
    args: Seq<Seq<u8>>,
    s: StoreView,
    times: Seq<Now>,
)
    requires
        sound(s),
        visible(s, times[0], args[1]) matches Some(e) ==> e.expire_ms - times[0].ms <= i64::MAX,
    ensures
        ({
            let seen = visible(s, times[0], args[1]);
            let (t, millis) = command_op(Command::Pttl, version, args, s, times);
            let (u, secs) = command_op(Command::Ttl, version, args, s, times);
            &&& seen is None ==> millis == FrameView::Integer((-2) as i64) && secs
                == FrameView::Integer((-2) as i64)
            &&& seen matches Some(e) ==> if e.expire_ms == 0 {
                &&& millis == FrameView::Integer((-1) as i64)
                &&& secs == FrameView::Integer((-1) as i64)
            } else {
                let left = e.expire_ms - times[0].ms;
                &&& left > 0
                &&& millis == FrameView::Integer(left as i64)
                &&& secs matches FrameView::Integer(n) && 1000 * (n - 1) < left <= 1000 * n
            }
            &&& forall|k: Seq<u8>| #[trigger]
                visible(t, times[0], k) == visible(s, times[0], k)
            &&& forall|k: Seq<u8>| #[trigger]
                visible(u, times[0], k) == visible(s, times[0], k)
        }),
{
    reads_law(s, times[0], args[1]);
    sweep_hides_nothing(s, times[0], args[1]);
}

/// After `EXPIRE key n`, where the clock stands at t milliseconds, a key that is there is seen
/// before t + 1000 * n milliseconds, with the value that it had, and not from then on; after
/// `PEXPIRE key n`, before t + n milliseconds. An end at the epoch or before it is one millisecond
/// behind it, and one that an integer of 64 bits cannot tell is the last that it can. The reply is
/// one, or zero where there is no such key. All other keys are as before.
pub proof fn expire_sets_the_end(
    version: RespVersion,
    args: Seq<Seq<u8>>,
    s: StoreView,
    times: Seq<Now>,
    n: i64,
    seconds: bool,
    later: Now,
)
    requires
        int_value(args[2]) == Some(n),
        times[0].ms <= i64::MAX,
        seconds ==> i64::MIN <= 1000 * n <= i64::MAX,
        sound(s),
    ensures
        ({
            let command = if seconds {
                Command::Expire
            } else {
                Command::Pexpire
            };
            let (t, reply) = command_op(command, version, args, s, times);
            let at = if seconds {
                times[0].ms + 1000 * n
            } else {
                times[0].ms + n
            };
            let end = if at < 1 {
                1
            } else if at > i64::MAX {
                i64::MAX as int
            } else {
                at
            };
            &&& sound(t)
            &&& visible(s, times[1], args[1]) is None ==> reply == FrameView::Integer(0) && visible(
                t,
                later,
                args[1],
            ) is None
            &&& visible(s, times[1], args[1]) matches Some(e) ==> {
                &&& reply == FrameView::Integer(1)
                &&& later.ms < end ==> visible(t, later, args[1]) == Some(
                    Entry { value: e.value, expire_ms: end as u64 },
                )
                &&& later.ms >= end ==> visible(t, later, args[1]) is None
            }
            &&& forall|k: Seq<u8>| k != args[1] ==> #[trigger] entry(t, k) == entry(s, k)
        }),
{
    let unit: i64 = if seconds {
        1000
    } else {
        1
    };
    let at = past_or_future((n * unit) as i64, times[0]);
    expire_law(s, times[1], args[1], at);
}

/// `EXPIRE` and `PEXPIRE` with an amount that is no integer, or of more milliseconds than an
/// integer of 64 bits can tell, are answered with an error and change nothing.
pub proof fn wrong_expire_changes_nothing(
    version: RespVersion,
    args: Seq<Seq<u8>>,
    s: StoreView,
    times: Seq<Now>,
    seconds: bool,
)
    requires
        int_value(args[2]) is None || seconds && !(i64::MIN <= 1000 * int_value(args[2])->0
            <= i64::MAX),
    ensures
        ({
            let command = if seconds {
                Command::Expire
            } else {
                Command::Pexpire
            };
            let (t, reply) = command_op(command, version, args, s, times);
            &&& t == s
            &&& int_value(args[2]) is None ==> reply == FrameView::Error(
                "ERR value is not an integer or out of range"@,
            )
            &&& int_value(args[2]) is Some ==> reply == FrameView::Error(
                "ERR invalid expire time in '"@ + "expire"@ + "' command"@,
            )
        }),
{
}

/// How many of the keys are seen, each at the reading of the clock that goes with it.
pub open spec fn seen_count(s: StoreView, times: Seq<Now>, keys: Seq<Seq<u8>>) -> nat
    decreases keys.len(),
{
    if keys.len() == 0 {
        0
    } else {
        seen_count(s, times.skip(1), keys.skip(1)) + if visible(s, times[0], keys[0]) is Some {
            1nat
        } else {
            0
        }
    }
}

/// How many of the keys are seen, each at the reading of the clock that goes with it, those left
/// out that are in `done` or stood before.
pub open spec fn first_seen_count(
    s: StoreView,
    times: Seq<Now>,
    keys: Seq<Seq<u8>>,
    done: Set<Seq<u8>>,
) -> nat
    decreases keys.len(),
{
    if keys.len() == 0 {
        0
    } else {
        first_seen_count(s, times.skip(1), keys.skip(1), done.insert(keys[0])) + if !done.contains(
            keys[0],
        ) && visible(s, times[0], keys[0]) is Some {
            1nat
        } else {
            0
        }
    }
}

/// The later readings go on too.
proof fn rest_goes_on(times: Seq<Now>)
    requires
        goes_on(times),
        times.len() > 0,
    ensures
        goes_on(times.skip(1)),
        forall|i: int|
            0 <= i < times.skip(1).len() ==> times[0].ms <= (#[trigger] times.skip(1)[i]).ms,
{
    let left = times.skip(1);
    assert forall|i: int, j: int| 0 <= i <= j < left.len() implies (#[trigger] left[i]).ms <= (
    #[trigger] left[j]).ms by {
        assert(left[i] == times[i + 1] && left[j] == times[j + 1]);
    }
    assert forall|i: int| 0 <= i < left.len() implies times[0].ms <= (#[trigger] left[i]).ms by {
        assert(left[i] == times[i + 1]);
    }
}

/// Two states in which the same is seen of the keys that are not done are the same to count.
proof fn same_first_seen(
    s: StoreView,
    t: StoreView,
    times: Seq<Now>,
    keys: Seq<Seq<u8>>,
    done: Set<Seq<u8>>,
)
    requires
        times.len() >= keys.len(),
        forall|i: int, k: Seq<u8>|
            0 <= i < times.len() && !done.contains(k) ==> #[trigger] visible(s, times[i], k)
                == visible(t, times[i], k),
    ensures
        first_seen_count(s, times, keys, done) == first_seen_count(t, times, keys, done),
    decreases keys.len(),
{
    if keys.len() > 0 {
        let left = times.skip(1);
        assert forall|i: int, k: Seq<u8>| 0 <= i < left.len() && !done.insert(keys[0]).contains(
            k,
        ) implies #[trigger] visible(s, left[i], k) == visible(t, left[i], k) by {
            assert(left[i] == times[i + 1]);
            assert(visible(s, times[i + 1], k) == visible(t, times[i + 1], k));
        }
        same_first_seen(s, t, left, keys.skip(1), done.insert(keys[0]));
        if !done.contains(keys[0]) {
            assert(visible(s, times[0], keys[0]) == visible(t, times[0], keys[0]));
        }
    }
}

/// Keys are deleted one by one.
proof fn keys_are_deleted(
    s: StoreView,
    times: Seq<Now>,
    keys: Seq<Seq<u8>>,
    removed: nat,
    done: Set<Seq<u8>>,
)
    requires
        sound(s),
        times.len() >= keys.len(),
        forall|k: Seq<u8>| #[trigger] done.contains(k) ==> entry(s, k) is None,
    ensures
        ({
            let (t, reply) = del_keys(s, times, keys, removed);
            &&& sound(t)
            &&& reply == FrameView::Integer(
                (removed + first_seen_count(s, times, keys, done)) as i64,
            )
            &&& forall|i: int| 0 <= i < keys.len() ==> entry(t, #[trigger] keys[i]) is None
            &&& forall|k: Seq<u8>| #[trigger] done.contains(k) ==> entry(t, k) is None
            &&& forall|k: Seq<u8>|
                !keys.contains(k) ==> #[trigger] entry(t, k) == entry(s, k)
        }),
    decreases keys.len(),
{
    if keys.len() > 0 {
        let key = keys[0];
        let rest = keys.skip(1);
        let left = times.skip(1);
        del_law(s, times[0], key);
        let after = del_op(s, times[0], key).0;
        let found = visible(s, times[0], key) is Some;
        let gone = done.insert(key);
        assert forall|k: Seq<u8>| #[trigger] gone.contains(k) implies entry(after, k) is None by {
            if k != key {
                assert(done.contains(k));
                assert(entry(after, k) == entry(s, k));
            }
        }
        keys_are_deleted(
            after,
            left,
            rest,
            if found {
                removed + 1
            } else {
                removed
            },
            gone,
        );
        assert forall|i: int, k: Seq<u8>| 0 <= i < left.len() && !gone.contains(
            k,
        ) implies #[trigger] visible(s, left[i], k) == visible(after, left[i], k) by {
            assert(entry(after, k) == entry(s, k));
        }
        same_first_seen(s, after, left, rest, gone);
        if done.contains(key) {
            assert(entry(s, key) is None);
        }
        let t = del_keys(s, times, keys, removed).0;
        assert forall|i: int| 0 <= i < keys.len() implies entry(t, #[trigger] keys[i]) is None by {
            if i > 0 {
                assert(rest[i - 1] == keys[i]);
            } else {
                assert(gone.contains(key));
            }
        }
        assert forall|k: Seq<u8>| #[trigger] done.contains(k) implies entry(t, k) is None by {
            assert(gone.contains(k));
        }
        assert forall|k: Seq<u8>| !keys.contains(k) implies #[trigger] entry(t, k) == entry(
            s,
            k,
        ) by {
            assert(k != keys[0]);
            if rest.contains(k) {
                let i = choose|i: int| 0 <= i < rest.len() && rest[i] == k;
                assert(keys[i + 1] == k);
            }
            assert(entry(t, k) == entry(after, k));
        }
    }
}

/// After `DEL key ...` none of the named keys is there, and all others are as before. The reply is
/// the number of distinct named keys that were there, each at the reading of the clock that goes
/// with its first mention.
pub proof fn del_removes_the_named(
    version: RespVersion,
    args: Seq<Seq<u8>>,
    s: StoreView,
    times: Seq<Now>,
)
    requires
        args.len() >= 2,
        times.len() >= args.len() - 1,
        sound(s),
    ensures
        ({
            let (t, reply) = command_op(Command::Del, version, args, s, times);
            &&& sound(t)
            &&& forall|i: int| 1 <= i < args.len() ==> entry(t, #[trigger] args[i]) is None
            &&& forall|k: Seq<u8>|
                !is_named(args, 1, k) ==> #[trigger] entry(t, k) == entry(s, k)
            &&& reply == FrameView::Integer(
                first_seen_count(s, times, args.skip(1), Set::empty()) as i64,
            )
        }),
{
    let keys = args.skip(1);
    keys_are_deleted(s, times, keys, 0, Set::empty());
    rest_as_set(args, 1);
    let t = command_op(Command::Del, version, args, s, times).0;
    assert forall|i: int| 1 <= i < args.len() implies entry(t, #[trigger] args[i]) is None by {
        assert(keys[i - 1] == args[i]);
    }
    assert forall|k: Seq<u8>| !is_named(args, 1, k) implies #[trigger] entry(t, k) == entry(
        s,
        k,
    ) by {
        assert(keys.to_set().contains(k) == is_named(args, 1, k));
    }
}

/// Where no key expires between the readings, `DEL` counts the distinct named keys that a reader
/// sees.
pub proof fn del_counts_the_named(
    keys: Seq<Seq<u8>>,
    s: StoreView,
    times: Seq<Now>,
    now: Now,
    done: Set<Seq<u8>>,
)
    requires
        times.len() >= keys.len(),
        forall|i: int, k: Seq<u8>|
            0 <= i < times.len() ==> #[trigger] visible(s, times[i], k) == visible(s, now, k),
    ensures
        first_seen_count(s, times, keys, done) == keys.to_set().filter(
            |k: Seq<u8>| visible(s, now, k) is Some && !done.contains(k),
        ).len(),
    decreases keys.len(),
{
    vstd::seq_lib::seq_to_set_is_finite(keys);
    let all = keys.to_set().filter(
        |k: Seq<u8>| visible(s, now, k) is Some && !done.contains(k),
    );
    if keys.len() == 0 {
        assert(all =~= Set::empty());
    } else {
        let key = keys[0];
        let rest = keys.skip(1);
        let left = times.skip(1);
        let gone = done.insert(key);
        vstd::seq_lib::seq_to_set_is_finite(rest);
        assert forall|i: int, k: Seq<u8>| 0 <= i < left.len() implies #[trigger] visible(
            s,
            left[i],
            k,
        ) == visible(s, now, k) by {
            assert(left[i] == times[i + 1]);
            assert(visible(s, times[i + 1], k) == visible(s, now, k));
        }
        del_counts_the_named(rest, s, left, now, gone);
        assert(visible(s, times[0], key) == visible(s, now, key));
        let some = rest.to_set().filter(
            |k: Seq<u8>| visible(s, now, k) is Some && !gone.contains(k),
        );
        let found = !done.contains(key) && visible(s, now, key) is Some;
        assert(!some.contains(key));
        assert forall|k: Seq<u8>| #[trigger] all.contains(k) == (some.contains(k) || found && k
            == key) by {
            if k != key {
                if keys.contains(k) {
                    let i = choose|i: int| 0 <= i < keys.len() && keys[i] == k;
                    assert(rest[i - 1] == k);
                }
                if rest.contains(k) {
                    let i = choose|i: int| 0 <= i < rest.len() && rest[i] == k;
                    assert(keys[i + 1] == k);
                }
            }
        }
        if found {
            assert(all =~= some.insert(key));
        } else {
            assert(all =~= some);
        }
    }
}

/// Two states in which the same is seen are the same to count.
proof fn same_seen(s: StoreView, t: StoreView, times: Seq<Now>, keys: Seq<Seq<u8>>)
    requires
        times.len() >= keys.len(),
        forall|i: int, k: Seq<u8>|
            0 <= i < times.len() ==> #[trigger] visible(s, times[i], k) == visible(t, times[i], k),
    ensures
        seen_count(s, times, keys) == seen_count(t, times, keys),
    decreases keys.len(),
{
    if keys.len() > 0 {
        let left = times.skip(1);
        assert forall|i: int, k: Seq<u8>| 0 <= i < left.len() implies #[trigger] visible(
            s,
            left[i],
            k,
        ) == visible(t, left[i], k) by {
            assert(left[i] == times[i + 1]);
            assert(visible(s, times[i + 1], k) == visible(t, times[i + 1], k));
        }
        same_seen(s, t, left, keys.skip(1));
        assert(visible(s, times[0], keys[0]) == visible(t, times[0], keys[0]));
    }
}

/// Keys are counted one by one.
proof fn keys_are_counted(s: StoreView, times: Seq<Now>, keys: Seq<Seq<u8>>, count: nat)
    requires
        sound(s),
        goes_on(times),
        times.len() >= keys.len(),
    ensures
        ({
            let (t, reply) = count_keys(s, times, keys, count);
            &&& sound(t)
            &&& reply == FrameView::Integer((count + seen_count(s, times, keys)) as i64)
            &&& forall|k: Seq<u8>, later: Now|
                (keys.len() > 0 ==> times[keys.len() - 1].ms <= later.ms) ==> #[trigger] visible(
                    t,
                    later,
                    k,
                ) == visible(s, later, k)
        }),
    decreases keys.len(),
{
    if keys.len() > 0 {
        let key = keys[0];
        let rest = keys.skip(1);
        let left = times.skip(1);
        reads_law(s, times[0], key);
        sweep_hides_nothing(s, times[0], key);
        rest_goes_on(times);
        let after = swept(s, times[0], key);
        let found = visible(s, times[0], key) is Some;
        keys_are_counted(
            after,
            left,
            rest,
            if found {
                count + 1
            } else {
                count
            },
        );
        assert forall|i: int, k: Seq<u8>| 0 <= i < left.len() implies #[trigger] visible(
            s,
            left[i],
            k,
        ) == visible(after, left[i], k) by {
            sweep_hides_nothing_later(s, times[0], key, left[i]);
        }
        same_seen(s, after, left, rest);
        let t = count_keys(s, times, keys, count).0;
        assert forall|k: Seq<u8>, later: Now|
            times[keys.len() - 1].ms <= later.ms implies #[trigger] visible(t, later, k)
            == visible(s, later, k) by {
            assert(times[0].ms <= times[keys.len() - 1].ms);
            sweep_hides_nothing_later(s, times[0], key, later);
            if rest.len() > 0 {
                assert(left[rest.len() - 1] == times[keys.len() - 1]);
            }
            assert(visible(t, later, k) == visible(after, later, k));
        }
    }
}

/// `EXISTS key ...` answers how many of the named keys are there, each counted as often as it is
/// named and at the reading of the clock that goes with it, and changes nothing that a reader sees.
/// (The clock must not go back meanwhile.)
pub proof fn exists_counts_the_named(
    version: RespVersion,
    args: Seq<Seq<u8>>,
    s: StoreView,
    times: Seq<Now>,
    later: Now,
)
    requires
        args.len() >= 2,
        times.len() >= args.len() - 1,
        goes_on(times),
        times[args.len() - 2].ms <= later.ms,
        sound(s),
    ensures
        ({
            let (t, reply) = command_op(Command::Exists, version, args, s, times);
            &&& sound(t)
            &&& reply == FrameView::Integer(seen_count(s, times, args.skip(1)) as i64)
            &&& forall|k: Seq<u8>| #[trigger] visible(t, later, k) == visible(s, later, k)
        }),
{
    keys_are_counted(s, times, args.skip(1), 0);
}

} // verus!
