//! Strings, keys and expiry: `SET` with `EX` and `PX`, `GET`, `DEL`, `EXISTS`, `TYPE`, `EXPIRE`,
//! `PEXPIRE`, `TTL` and `PTTL`.
//!
//! A store keeps the instant at which a value expires. Here the seconds or milliseconds that a
//! client gives become such an instant, and the milliseconds that are left become seconds, rounded
//! up.
use bytes::Bytes;
use vstd::prelude::*;

use crate::buffer::{all_bytes_of, bytes_from, bytes_of, bytes_slice};
use crate::datamodel::commands::{one_reading, replied, with_command, Command, Commands};
use crate::datamodel::registry::{
    engine_error, engine_error_view, goes_along, is_word, later, readings_since, served_along,
    served_at, served_set, some_gone, word_is, CommandRegistry, NOT_AN_INTEGER, SYNTAX_ERROR,
};
use crate::engine::engine::GeneralEngine;
use crate::engine::model::{
    at_a_step, del_op, exists_op, expire_op, get_op, pttl_op, set_op, type_op, Now, StoreView,
};
use crate::engine::store::Store;
use crate::protocol::frame::{frame_view, Frame, FrameView};
use crate::text::{int_value, join3, read_int};

verus! {

/// The commands together with those of strings, keys and expiry.
pub open spec fn with_string(commands: Commands) -> Commands {
    let c = commands;
    let c = with_command(c, "SET"@, (-3) as i32, Command::SetValue);
    let c = with_command(c, "GET"@, 2, Command::Get);
    let c = with_command(c, "DEL"@, (-2) as i32, Command::Del);
    let c = with_command(c, "EXISTS"@, (-2) as i32, Command::Exists);
    let c = with_command(c, "TYPE"@, 2, Command::Type);
    let c = with_command(c, "EXPIRE"@, 3, Command::Expire);
    let c = with_command(c, "PEXPIRE"@, 3, Command::Pexpire);
    let c = with_command(c, "TTL"@, 2, Command::Ttl);
    let c = with_command(c, "PTTL"@, 2, Command::Pttl);
    c
}

/// Registers the commands of strings, keys and expiry.
pub fn register(reg: &mut CommandRegistry<Command>)
    ensures
        final(reg).commands() == with_string(old(reg).commands()),
{
    proof {
        reveal_strlit("SET");
    }
    reg.register("SET", -3, Command::SetValue);
    proof {
        reveal_strlit("GET");
    }
    reg.register("GET", 2, Command::Get);
    proof {
        reveal_strlit("DEL");
    }
    reg.register("DEL", -2, Command::Del);
    proof {
        reveal_strlit("EXISTS");
    }
    reg.register("EXISTS", -2, Command::Exists);
    proof {
        reveal_strlit("TYPE");
    }
    reg.register("TYPE", 2, Command::Type);
    proof {
        reveal_strlit("EXPIRE");
    }
    reg.register("EXPIRE", 3, Command::Expire);
    proof {
        reveal_strlit("PEXPIRE");
    }
    reg.register("PEXPIRE", 3, Command::Pexpire);
    proof {
        reveal_strlit("TTL");
    }
    reg.register("TTL", 2, Command::Ttl);
    proof {
        reveal_strlit("PTTL");
    }
    reg.register("PTTL", 2, Command::Pttl);
}

/// The reply to an expiry that cannot be.
pub open spec fn invalid_expire_text(command: Seq<char>) -> Seq<char> {
    "ERR invalid expire time in '"@ + command + "' command"@
}

/// The reply to an expiry that cannot be.
fn invalid_expire(command: &str) -> (r: Frame)
    ensures
        frame_view(r) == FrameView::Error(invalid_expire_text(command@)),
{
    Frame::Error(join3("ERR invalid expire time in '", command, "' command"))
}

/// How many milliseconds the unit of an expiry option has.
pub open spec fn expiry_unit(option: Seq<u8>) -> Option<i64> {
    if is_word(option, "EX"@) {
        Some(1000)
    } else if is_word(option, "PX"@) {
        Some(1)
    } else {
        None
    }
}

/// The instant at which a value expires that has `n` units left, or `None` where there is no such
/// instant.
pub open spec fn deadline(n: i64, unit: i64, now: Now) -> Option<u64> {
    if n * unit > i64::MAX || n * unit + now.ms as i64 > i64::MAX {
        None
    } else {
        Some((n * unit + now.ms as i64) as u64)
    }
}

/// `n` units in milliseconds.
fn in_ms(n: i64, unit: i64) -> (r: i128)
    requires
        unit == 1 || unit == 1000,
    ensures
        r == n * unit,
{
    if unit == 1 {
        n as i128
    } else {
        n as i128 * 1000
    }
}

/// The instant at which a value expires that has `n` units left.
pub fn deadline_in(n: i64, unit: i64, now: Now) -> (r: Option<u64>)
    requires
        n > 0,
        unit == 1 || unit == 1000,
    ensures
        r == deadline(n, unit, now),
{
    let delta: i128 = in_ms(n, unit);
    if delta > i64::MAX as i128 {
        return None;
    }
    let at: i128 = delta + now.ms as i64 as i128;
    if at > i64::MAX as i128 {
        None
    } else {
        assert(at == n * unit + now.ms as i64);
        Some(at as u64)
    }
}

/// What the options of `SET` say: the instant at which the value expires, zero for never, and the
/// readings of the clock that are left; or what is wrong with them.
pub open spec fn set_options(options: Seq<Seq<u8>>, expire_ms: u64, times: Seq<Now>) -> Result<
    (u64, Seq<Now>),
    Seq<char>,
>
    decreases options.len(),
{
    if options.len() == 0 {
        Ok((expire_ms, times))
    } else {
        match expiry_unit(options[0]) {
            None => Err(SYNTAX_ERROR@),
            Some(unit) => if expire_ms != 0 || options.len() < 2 {
                Err(SYNTAX_ERROR@)
            } else {
                match int_value(options[1]) {
                    None => Err(NOT_AN_INTEGER@),
                    Some(n) => if n <= 0 || n * unit > i64::MAX {
                        Err(invalid_expire_text("set"@))
                    } else {
                        match deadline(n, unit, times[0]) {
                            None => Err(invalid_expire_text("set"@)),
                            Some(at) => set_options(options.skip(2), at, times.skip(1)),
                        }
                    },
                }
            },
        }
    }
}

/// `SET key value [EX seconds | PX milliseconds]`.
pub open spec fn set_command(args: Seq<Seq<u8>>, s: StoreView, times: Seq<Now>) -> (
    StoreView,
    FrameView,
) {
    match set_options(args.skip(3), 0, times) {
        Ok((expire_ms, rest)) => replied(
            set_op(s, rest[0], args[1], args[2], expire_ms),
            |v: ()| FrameView::Simple("OK"@),
        ),
        Err(text) => (s, FrameView::Error(text)),
    }
}

/// `SET` refuses options that it does not know or cannot read.
pub open spec fn set_refused(args: Seq<Seq<u8>>, times: Seq<Now>) -> bool {
    set_options(args.skip(3), 0, times) is Err
}

/// `SET key value [EX seconds | PX milliseconds]`: the amount must be positive, and only one of the
/// options may be there. Any other option is an error.
pub(crate) fn set<E: GeneralEngine>(store: &mut Store<E>, args: &[Bytes]) -> (r: Frame)
    requires
        args@.len() >= 3,
    ensures
        later(*old(store), *final(store)),
        served_set(
            frame_view(r),
            old(store)@,
            final(store)@,
            set_command(
                all_bytes_of(args@),
                old(store)@,
                readings_since(*old(store), *final(store)),
            ),
            old(store).failures(),
            set_refused(
                all_bytes_of(args@),
                readings_since(*old(store), *final(store)),
            ),
        ),
{
    let ghost all = all_bytes_of(args@);
    let ghost was = store.readings();
    let mut expire_ms: u64 = 0;
    let mut i: usize = 3;
    assert forall|times: Seq<Now>| #[trigger] set_options(all.skip(3), 0, times) == set_options(
        all.skip(3),
        0,
        times.skip(0),
    ) by {
        assert(times.skip(0) =~= times);
    }
    // However the clock will read, the options that are left decide.
    while i < args.len()
        invariant
            3 <= i,
            args@.len() >= 3,
            all == all_bytes_of(args@),
            i <= args@.len(),
            was == old(store).readings(),
            was.is_prefix_of(store.readings()),
            store@ == old(store)@,
            store.failures() == old(store).failures(),
            forall|times: Seq<Now>|
                store.readings().skip(was.len() as int).is_prefix_of(times) ==> #[trigger] set_options(
                    all.skip(3),
                    0,
                    times,
                ) == set_options(
                    all.skip(i as int),
                    expire_ms,
                    times.skip(store.readings().len() - was.len()),
                ),
        decreases args@.len() - i,
    {
        let ghost options = all.skip(i as int);
        let ghost seen = store.readings().skip(was.len() as int);
        assert(options[0] == bytes_of(args@[i as int]));
        assert(seen.is_prefix_of(seen));
        assert(later(*old(store), *store));
        assert(readings_since(*old(store), *store) == seen);
        assert(set_options(all.skip(3), 0, seen) == set_options(
            options,
            expire_ms,
            seen.skip(store.readings().len() - was.len()),
        ));
        let unit: i64 = if word_is(&args[i], "EX") {
            1000
        } else if word_is(&args[i], "PX") {
            1
        } else {
            return Frame::error(SYNTAX_ERROR);
        };
        if expire_ms != 0 || i + 1 == args.len() {
            return Frame::error(SYNTAX_ERROR);
        }
        assert(options[1] == bytes_of(args@[i + 1]));
        let n: i64 = match read_int(bytes_slice(&args[i + 1])) {
            Some(n) => n,
            None => return Frame::error(NOT_AN_INTEGER),
        };
        assert(unit == 1 || unit == 1000);
        if n <= 0 || in_ms(n, unit) > i64::MAX as i128 {
            return invalid_expire("set");
        }
        let ghost before = store.readings();
        let now = store.read_clock();
        let ghost then = store.readings().skip(was.len() as int);
        assert(then =~= seen.push(now));
        proof {
            assert(was.is_prefix_of(store.readings()));
            assert(then.skip(before.len() - was.len())[0] == now);
            assert(seen.is_prefix_of(then));
        }
        match deadline_in(n, unit, now) {
            Some(at) => {
                expire_ms = at;
            },
            None => {
                assert(readings_since(*old(store), *store) == then);
                return invalid_expire("set");
            },
        }
        i += 2;
        proof {
            assert(all.skip(i as int) =~= options.skip(2));
            assert forall|times: Seq<Now>| then.is_prefix_of(times) implies #[trigger] set_options(
                all.skip(3),
                0,
                times,
            ) == set_options(
                all.skip(i as int),
                expire_ms,
                times.skip(store.readings().len() - was.len()),
            ) by {
                assert(seen.is_prefix_of(times));
                let rest = times.skip(before.len() - was.len());
                assert(rest[0] == then[before.len() - was.len()]);
                assert(rest.skip(1) =~= times.skip(store.readings().len() - was.len()));
            }
        }
    }
    assert(all.skip(i as int) =~= Seq::<Seq<u8>>::empty());
    let ghost before = store.readings();
    let done = store.set(bytes_slice(&args[1]), bytes_slice(&args[2]), expire_ms);
    proof {
        let seen = before.skip(was.len() as int);
        let times = store.readings().skip(was.len() as int);
        assert(times =~= seen.push(store.last_now()));
        assert(seen.is_prefix_of(times));
        assert(was.is_prefix_of(store.readings()));
        assert(times.skip(before.len() - was.len())[0] == store.last_now());
        assert(all[1] == bytes_of(args@[1]));
        assert(all[2] == bytes_of(args@[2]));
    }
    match done {
        Ok(()) => Frame::ok(),
        Err(e) => engine_error(e),
    }
}

/// `GET key`.
pub open spec fn get_command(args: Seq<Seq<u8>>, s: StoreView, times: Seq<Now>) -> (
    StoreView,
    FrameView,
) {
    replied(
        get_op(s, times[0], args[1]),
        |v: Option<Seq<u8>>|
            match v {
                Some(value) => FrameView::Bulk(value),
                None => FrameView::Null,
            },
    )
}

/// `GET key`: null where there is none.
pub(crate) fn get<E: GeneralEngine>(store: &mut Store<E>, args: &[Bytes]) -> (r: Frame)
    requires
        args@.len() >= 2,
    ensures
        later(*old(store), *final(store)),
        served_at(
            frame_view(r),
            old(store)@,
            all_bytes_of(args@)[1],
            final(store)@,
            get_command(
                all_bytes_of(args@),
                old(store)@,
                readings_since(*old(store), *final(store)),
            ),
            old(store).failures(),
            false,
        ),
{
    assert(all_bytes_of(args@)[1] == bytes_of(args@[1]));
    let found = store.get(bytes_slice(&args[1]));
    proof {
        one_reading(*old(store), *store);
        let want = get_command(
            all_bytes_of(args@),
            old(store)@,
            readings_since(*old(store), *store),
        );
        assert(found matches Err(e) ==> want == (store@, engine_error_view(e@)) || at_a_step(
            old(store)@,
            store.last_now(),
            all_bytes_of(args@)[1],
            store@,
            want.0,
        ));
    }
    match found {
        Ok(Some(v)) => Frame::Bulk(bytes_from(v)),
        Ok(None) => Frame::Null,
        Err(e) => engine_error(e),
    }
}

/// How many of the keys were there, and the state without them; the first failure ends it.
pub open spec fn del_keys(s: StoreView, times: Seq<Now>, keys: Seq<Seq<u8>>, removed: nat) -> (
    StoreView,
    FrameView,
)
    decreases keys.len(),
{
    if keys.len() == 0 {
        (s, FrameView::Integer(removed as i64))
    } else {
        match del_op(s, times[0], keys[0]) {
            (after, Ok(found)) => del_keys(
                after,
                times.skip(1),
                keys.skip(1),
                if found {
                    removed + 1
                } else {
                    removed
                },
            ),
            (after, Err(e)) => (after, engine_error_view(e)),
        }
    }
}

/// `DEL key [key ...]`.
pub open spec fn del_command(args: Seq<Seq<u8>>, s: StoreView, times: Seq<Now>) -> (
    StoreView,
    FrameView,
) {
    del_keys(s, times, args.skip(1), 0)
}

/// `DEL key [key ...]`: how many keys were there.
pub(crate) fn del<E: GeneralEngine>(store: &mut Store<E>, args: &[Bytes]) -> (r: Frame)
    requires
        args@.len() >= 1,
    ensures
        later(*old(store), *final(store)),
        served_along(
            frame_view(r),
            old(store)@,
            all_bytes_of(args@).skip(1),
            final(store)@,
            del_command(
                all_bytes_of(args@),
                old(store)@,
                readings_since(*old(store), *final(store)),
            ),
            old(store).failures(),
        ),
{
    let ghost all = all_bytes_of(args@);
    let ghost was = store.readings();
    let mut removed: usize = 0;
    let mut i: usize = 1;
    assert forall|times: Seq<Now>| #[trigger] del_keys(store@, times, all.skip(1), 0) == del_keys(
        store@,
        times.skip(0),
        all.skip(1),
        0,
    ) by {
        assert(times.skip(0) =~= times);
    }
    while i < args.len()
        invariant
            1 <= i <= args.len(),
            0 <= removed < i,
            all == all_bytes_of(args@),
            was == old(store).readings(),
            was.is_prefix_of(store.readings()),
            store.failures() == old(store).failures(),
            some_gone(old(store)@, store@, all.skip(1)),
            forall|times: Seq<Now>|
                store.readings().skip(was.len() as int).is_prefix_of(times) ==> #[trigger] del_keys(
                    old(store)@,
                    times,
                    all.skip(1),
                    0,
                ) == del_keys(
                    store@,
                    times.skip(store.readings().len() - was.len()),
                    all.skip(i as int),
                    removed as nat,
                ),
        decreases args@.len() - i,
    {
        let ghost keys = all.skip(i as int);
        let ghost before = *store;
        let ghost seen = store.readings().skip(was.len() as int);
        assert(keys[0] == bytes_of(args@[i as int]));
        let done = store.del(bytes_slice(&args[i]));
        let ghost then = store.readings().skip(was.len() as int);
        proof {
            assert(then =~= seen.push(store.last_now()));
            assert(was.is_prefix_of(store.readings()));
            assert(seen.is_prefix_of(then));
            assert(then.skip(before.readings().len() - was.len())[0] == store.last_now());
            assert(all.skip(1)[i - 1] == keys[0]);
            goes_along(
                old(store)@,
                before@,
                store.last_now(),
                keys[0],
                store@,
                del_op(before@, store.last_now(), keys[0]).0,
                all.skip(1),
            );
        }
        match done {
            Ok(found) => {
                if found {
                    removed += 1;
                }
            },
            Err(e) => {
                assert(readings_since(*old(store), *store) == then);
                return engine_error(e);
            },
        }
        i += 1;
        proof {
            assert(all.skip(i as int) =~= keys.skip(1));
            assert forall|times: Seq<Now>| then.is_prefix_of(times) implies #[trigger] del_keys(
                old(store)@,
                times,
                all.skip(1),
                0,
            ) == del_keys(
                store@,
                times.skip(store.readings().len() - was.len()),
                all.skip(i as int),
                removed as nat,
            ) by {
                assert(seen.is_prefix_of(times));
                let rest = times.skip(before.readings().len() - was.len());
                assert(rest[0] == then[before.readings().len() - was.len()]);
                assert(rest.skip(1) =~= times.skip(store.readings().len() - was.len()));
            }
        }
    }
    proof {
        assert(all.skip(i as int) =~= Seq::<Seq<u8>>::empty());
        let times = store.readings().skip(was.len() as int);
        assert(times.is_prefix_of(times));
    }
    Frame::Integer(removed as i64)
}

/// How many of the keys are there, each counted as often as it is named; the first failure ends it.
pub open spec fn count_keys(s: StoreView, times: Seq<Now>, keys: Seq<Seq<u8>>, count: nat) -> (
    StoreView,
    FrameView,
)
    decreases keys.len(),
{
    if keys.len() == 0 {
        (s, FrameView::Integer(count as i64))
    } else {
        match exists_op(s, times[0], keys[0]) {
            (after, Ok(found)) => count_keys(
                after,
                times.skip(1),
                keys.skip(1),
                if found {
                    count + 1
                } else {
                    count
                },
            ),
            (after, Err(e)) => (after, engine_error_view(e)),
        }
    }
}

/// `EXISTS key [key ...]`.
pub open spec fn exists_command(args: Seq<Seq<u8>>, s: StoreView, times: Seq<Now>) -> (
    StoreView,
    FrameView,
) {
    count_keys(s, times, args.skip(1), 0)
}

/// `EXISTS key [key ...]`: how many of the keys are there, each counted as often as it is named.
pub(crate) fn key_exists<E: GeneralEngine>(store: &mut Store<E>, args: &[Bytes]) -> (r: Frame)
    requires
        args@.len() >= 1,
    ensures
        later(*old(store), *final(store)),
        served_along(
            frame_view(r),
            old(store)@,
            all_bytes_of(args@).skip(1),
            final(store)@,
            exists_command(
                all_bytes_of(args@),
                old(store)@,
                readings_since(*old(store), *final(store)),
            ),
            old(store).failures(),
        ),
{
    let ghost all = all_bytes_of(args@);
    let ghost was = store.readings();
    let mut count: usize = 0;
    let mut i: usize = 1;
    assert forall|times: Seq<Now>| #[trigger] count_keys(store@, times, all.skip(1), 0) == count_keys(
        store@,
        times.skip(0),
        all.skip(1),
        0,
    ) by {
        assert(times.skip(0) =~= times);
    }
    while i < args.len()
        invariant
            1 <= i <= args.len(),
            0 <= count < i,
            all == all_bytes_of(args@),
            was == old(store).readings(),
            was.is_prefix_of(store.readings()),
            store.failures() == old(store).failures(),
            some_gone(old(store)@, store@, all.skip(1)),
            forall|times: Seq<Now>|
                store.readings().skip(was.len() as int).is_prefix_of(times) ==> #[trigger] count_keys(
                    old(store)@,
                    times,
                    all.skip(1),
                    0,
                ) == count_keys(
                    store@,
                    times.skip(store.readings().len() - was.len()),
                    all.skip(i as int),
                    count as nat,
                ),
        decreases args@.len() - i,
    {
        let ghost keys = all.skip(i as int);
        let ghost before = *store;
        let ghost seen = store.readings().skip(was.len() as int);
        assert(keys[0] == bytes_of(args@[i as int]));
        let done = store.key_exists(bytes_slice(&args[i]));
        let ghost then = store.readings().skip(was.len() as int);
        proof {
            assert(then =~= seen.push(store.last_now()));
            assert(was.is_prefix_of(store.readings()));
            assert(seen.is_prefix_of(then));
            assert(then.skip(before.readings().len() - was.len())[0] == store.last_now());
            assert(all.skip(1)[i - 1] == keys[0]);
            goes_along(
                old(store)@,
                before@,
                store.last_now(),
                keys[0],
                store@,
                exists_op(before@, store.last_now(), keys[0]).0,
                all.skip(1),
            );
        }
        match done {
            Ok(found) => {
                if found {
                    count += 1;
                }
            },
            Err(e) => {
                assert(readings_since(*old(store), *store) == then);
                return engine_error(e);
            },
        }
        i += 1;
        proof {
            assert(all.skip(i as int) =~= keys.skip(1));
            assert forall|times: Seq<Now>| then.is_prefix_of(times) implies #[trigger] count_keys(
                old(store)@,
                times,
                all.skip(1),
                0,
            ) == count_keys(
                store@,
                times.skip(store.readings().len() - was.len()),
                all.skip(i as int),
                count as nat,
            ) by {
                assert(seen.is_prefix_of(times));
                let rest = times.skip(before.readings().len() - was.len());
                assert(rest[0] == then[before.readings().len() - was.len()]);
                assert(rest.skip(1) =~= times.skip(store.readings().len() - was.len()));
            }
        }
    }
    proof {
        assert(all.skip(i as int) =~= Seq::<Seq<u8>>::empty());
        let times = store.readings().skip(was.len() as int);
        assert(times.is_prefix_of(times));
    }
    Frame::Integer(count as i64)
}

/// `TYPE key`.
pub open spec fn type_command(args: Seq<Seq<u8>>, s: StoreView, times: Seq<Now>) -> (
    StoreView,
    FrameView,
) {
    replied(type_op(s, times[0], args[1]), |v: Seq<char>| FrameView::Simple(v))
}

/// `TYPE key`: the name of the type, as a simple string.
pub(crate) fn type_of<E: GeneralEngine>(store: &mut Store<E>, args: &[Bytes]) -> (r: Frame)
    requires
        args@.len() >= 2,
    ensures
        later(*old(store), *final(store)),
        served_at(
            frame_view(r),
            old(store)@,
            all_bytes_of(args@)[1],
            final(store)@,
            type_command(
                all_bytes_of(args@),
                old(store)@,
                readings_since(*old(store), *final(store)),
            ),
            old(store).failures(),
            false,
        ),
{
    assert(all_bytes_of(args@)[1] == bytes_of(args@[1]));
    let done = store.type_of(bytes_slice(&args[1]));
    proof {
        one_reading(*old(store), *store);
        let want = type_command(
            all_bytes_of(args@),
            old(store)@,
            readings_since(*old(store), *store),
        );
        assert(done matches Err(e) ==> want == (store@, engine_error_view(e@)) || at_a_step(
            old(store)@,
            store.last_now(),
            all_bytes_of(args@)[1],
            store@,
            want.0,
        ));
    }
    match done {
        Ok(name) => Frame::simple(name),
        Err(e) => engine_error(e),
    }
}

/// `EXPIRE key seconds` and `PEXPIRE key milliseconds`, with `unit` milliseconds to one of theirs.
/// An amount that is not positive puts the instant into the past.
pub open spec fn expire_command(
    unit: i64,
    name: Seq<char>,
    args: Seq<Seq<u8>>,
    s: StoreView,
    times: Seq<Now>,
) -> (StoreView, FrameView) {
    match int_value(args[2]) {
        None => (s, FrameView::Error(NOT_AN_INTEGER@)),
        Some(n) => if !(i64::MIN <= n * unit <= i64::MAX) {
            (s, FrameView::Error(invalid_expire_text(name)))
        } else {
            replied(
                expire_op(s, times[1], args[1], past_or_future((n * unit) as i64, times[0])),
                |found: bool|
                    FrameView::Integer(
                        if found {
                            1
                        } else {
                            0
                        },
                    ),
            )
        },
    }
}

/// The instant that lies `delta` milliseconds off, but never the epoch, which would mean none, and
/// none before it.
pub open spec fn past_or_future(delta: i64, now: Now) -> u64 {
    let at = now.ms as i64 + delta;
    if at > i64::MAX {
        i64::MAX as u64
    } else if at < 1 {
        1
    } else {
        at as u64
    }
}

/// The instant that lies `delta` milliseconds off, but never the epoch, which would mean none, and
/// none before it.
pub fn instant_at(delta: i64, now: Now) -> (r: u64)
    ensures
        r == past_or_future(delta, now),
{
    let at: i128 = now.ms as i64 as i128 + delta as i128;
    if at > i64::MAX as i128 {
        i64::MAX as u64
    } else if at < 1 {
        1
    } else {
        at as u64
    }
}

/// `EXPIRE` and `PEXPIRE` refuse what is no integer, and amounts that are out of range.
pub open spec fn expire_refused(unit: i64, args: Seq<Seq<u8>>) -> bool {
    match int_value(args[2]) {
        None => true,
        Some(n) => !(i64::MIN <= n * unit <= i64::MAX),
    }
}

/// `EXPIRE` and `PEXPIRE`: whether the key is there.
pub(crate) fn expire_generic<E: GeneralEngine>(
    store: &mut Store<E>,
    args: &[Bytes],
    unit: i64,
    name: &str,
) -> (r: Frame)
    requires
        args@.len() >= 3,
        unit == 1 || unit == 1000,
    ensures
        later(*old(store), *final(store)),
        served_at(
            frame_view(r),
            old(store)@,
            all_bytes_of(args@)[1],
            final(store)@,
            expire_command(
                unit,
                name@,
                all_bytes_of(args@),
                old(store)@,
                readings_since(*old(store), *final(store)),
            ),
            old(store).failures(),
            expire_refused(unit, all_bytes_of(args@)),
        ),
{
    assert(all_bytes_of(args@)[1] == bytes_of(args@[1]));
    assert(all_bytes_of(args@)[2] == bytes_of(args@[2]));
    let ghost start = *store;
    let n: i64 = match read_int(bytes_slice(&args[2])) {
        Some(n) => n,
        None => return Frame::error(NOT_AN_INTEGER),
    };
    let delta: i128 = in_ms(n, unit);
    if delta > i64::MAX as i128 || delta < i64::MIN as i128 {
        return invalid_expire(name);
    }
    let now = store.read_clock();
    let done = store.expire_at(bytes_slice(&args[1]), instant_at(delta as i64, now));
    proof {
        assert(store.readings() =~= start.readings() + seq![now, store.last_now()]);
        assert(readings_since(start, *store) =~= seq![now, store.last_now()]);
        assert(later(start, *store));
        let want = expire_command(
            unit,
            name@,
            all_bytes_of(args@),
            start@,
            readings_since(start, *store),
        );
        assert(done matches Err(e) ==> want == (store@, engine_error_view(e@)) || at_a_step(
            old(store)@,
            store.last_now(),
            all_bytes_of(args@)[1],
            store@,
            want.0,
        ));
    }
    match done {
        Ok(true) => Frame::Integer(1),
        Ok(false) => Frame::Integer(0),
        Err(e) => engine_error(e),
    }
}

/// Milliseconds as seconds, rounded up; what is negative stays as it is.
pub open spec fn seconds_left(ms: i64) -> i64 {
    if ms < 0 {
        ms
    } else {
        ((ms + 999) / 1000) as i64
    }
}

/// Milliseconds as seconds, rounded up; what is negative stays as it is.
pub fn round_up(ms: i64) -> (r: i64)
    ensures
        r == seconds_left(ms),
{
    if ms < 0 {
        ms
    } else {
        ((ms as u64 + 999) / 1000) as i64
    }
}

/// `TTL key`.
pub open spec fn ttl_command(args: Seq<Seq<u8>>, s: StoreView, times: Seq<Now>) -> (
    StoreView,
    FrameView,
) {
    replied(pttl_op(s, times[0], args[1]), |ms: i64| FrameView::Integer(seconds_left(ms)))
}

/// `TTL key`: the seconds left, rounded up; -1 where the value has no end, -2 where there is none.
pub(crate) fn ttl<E: GeneralEngine>(store: &mut Store<E>, args: &[Bytes]) -> (r: Frame)
    requires
        args@.len() >= 2,
    ensures
        later(*old(store), *final(store)),
        served_at(
            frame_view(r),
            old(store)@,
            all_bytes_of(args@)[1],
            final(store)@,
            ttl_command(
                all_bytes_of(args@),
                old(store)@,
                readings_since(*old(store), *final(store)),
            ),
            old(store).failures(),
            false,
        ),
{
    assert(all_bytes_of(args@)[1] == bytes_of(args@[1]));
    let done = store.pttl(bytes_slice(&args[1]));
    proof {
        one_reading(*old(store), *store);
        let want = ttl_command(
            all_bytes_of(args@),
            old(store)@,
            readings_since(*old(store), *store),
        );
        assert(done matches Err(e) ==> want == (store@, engine_error_view(e@)) || at_a_step(
            old(store)@,
            store.last_now(),
            all_bytes_of(args@)[1],
            store@,
            want.0,
        ));
    }
    match done {
        Ok(ms) => Frame::Integer(round_up(ms)),
        Err(e) => engine_error(e),
    }
}

/// `PTTL key`.
pub open spec fn pttl_command(args: Seq<Seq<u8>>, s: StoreView, times: Seq<Now>) -> (
    StoreView,
    FrameView,
) {
    replied(pttl_op(s, times[0], args[1]), |ms: i64| FrameView::Integer(ms))
}

/// `PTTL key`: the milliseconds left; -1 where the value has no end, -2 where there is none.
pub(crate) fn pttl<E: GeneralEngine>(store: &mut Store<E>, args: &[Bytes]) -> (r: Frame)
    requires
        args@.len() >= 2,
    ensures
        later(*old(store), *final(store)),
        served_at(
            frame_view(r),
            old(store)@,
            all_bytes_of(args@)[1],
            final(store)@,
            pttl_command(
                all_bytes_of(args@),
                old(store)@,
                readings_since(*old(store), *final(store)),
            ),
            old(store).failures(),
            false,
        ),
{
    assert(all_bytes_of(args@)[1] == bytes_of(args@[1]));
    let done = store.pttl(bytes_slice(&args[1]));
    proof {
        one_reading(*old(store), *store);
        let want = pttl_command(
            all_bytes_of(args@),
            old(store)@,
            readings_since(*old(store), *store),
        );
        assert(done matches Err(e) ==> want == (store@, engine_error_view(e@)) || at_a_step(
            old(store)@,
            store.last_now(),
            all_bytes_of(args@)[1],
            store@,
            want.0,
        ));
    }
    match done {
        Ok(ms) => Frame::Integer(ms),
        Err(e) => engine_error(e),
    }
}

} // verus!
