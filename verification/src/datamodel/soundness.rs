//! Every command keeps a sound store sound, and leaves the keys alone that it does not name.
use vstd::prelude::*;

use crate::datamodel::commands::hash::{bulk_or_null, get_fields};
use crate::datamodel::commands::list::pop_count;
use crate::datamodel::commands::string::{count_keys, del_keys, set_options};
use crate::datamodel::commands::zset::{is_flag, scored};
use crate::datamodel::commands::{command_op, two_by_two, Command};
use crate::datamodel::registry::{is_word, CommandArgs};
use crate::engine::encoding::{TYPE_HASH, TYPE_LIST, TYPE_SET, TYPE_ZSET};
use crate::engine::error::EngineErrorView;
use crate::engine::laws::lists::{has_room, list_or_nothing, pop_law, push_law};
use crate::engine::laws::members::{
    fields_seen, hash_or_nothing, hdel_law, hset_law, members_seen, put_all, sadd_law,
    set_or_nothing, srem_law, type_seen,
};
use crate::engine::laws::scores::{
    score_all, scores_seen, zadd_law, zrem_law, zset_or_nothing,
};
use crate::engine::laws::whole::compact_law;
use crate::engine::laws::{del_law, expire_law, set_law, swept_is_sound};
use crate::engine::model::{
    del_op, expire_op, hget_op, last_scores, pop_op, swept, Now, StoreView,
};
use crate::engine::values::{adds_only, entry, fresh, sound};
use crate::protocol::frame::{FrameView, RespVersion};

verus! {

/// `t` is sound, it holds no version past those that `s` holds but those that were given out since,
/// and the keys that `keys` does not name have in `t` what they have in `s`.
pub open spec fn kept(s: StoreView, t: StoreView, keys: Seq<Seq<u8>>) -> bool {
    &&& sound(t)
    &&& adds_only(s, t)
    &&& forall|k: Seq<u8>| !keys.contains(k) ==> #[trigger] entry(t, k) == entry(s, k)
}

/// A new value gets a version that no record has, and a record can hold the length of its key.
pub open spec fn new_value_fits(s: StoreView, now: Now, key: Seq<u8>) -> bool {
    fresh(s, now) && key.len() <= u32::MAX
}

/// What a command adds stays within the limits of the records: members are counted with 32 bits,
/// and the elements of a list with 64.
pub open spec fn fits(
    command: Command,
    args: Seq<Seq<u8>>,
    s: StoreView,
    times: Seq<Now>,
) -> bool {
    let key = args[1];
    match command {
        Command::SetValue => set_options(args.skip(3), 0, times) is Ok ==> key.len()
            <= u32::MAX,
        Command::Hset => hash_or_nothing(s, times[0], key) && args.len() % 2 == 0 ==> {
            &&& new_value_fits(s, times[0], key)
            &&& put_all(fields_seen(s, times[0], key), two_by_two(args.skip(2))).dom().len()
                <= u32::MAX
        },
        Command::Sadd => set_or_nothing(s, times[0], key) ==> {
            &&& new_value_fits(s, times[0], key)
            &&& members_seen(s, times[0], key).union(args.skip(2).to_set()).len() <= u32::MAX
        },
        Command::Zadd => zset_or_nothing(s, times[0], key) && !is_flag(args[2]) && args.len() % 2
            == 0 ==> (scored(two_by_two(args.skip(2))) matches Some(pairs) ==> {
            &&& new_value_fits(s, times[0], key)
            &&& score_all(scores_seen(s, times[0], key), last_scores(pairs)).dom().len()
                <= u32::MAX
        }),
        Command::Push => list_or_nothing(s, times[0], key) ==> {
            &&& new_value_fits(s, times[0], key)
            &&& has_room(
                s,
                times[0],
                key,
                args.skip(2).len(),
                is_word(args[0], "LPUSH"@),
            )
        },
        _ => true,
    }
}

/// A look at a key keeps a store.
proof fn look_keeps(s: StoreView, now: Now, key: Seq<u8>, keys: Seq<Seq<u8>>)
    requires
        sound(s),
        keys.contains(key),
    ensures
        kept(s, swept(s, now, key), keys),
{
    swept_is_sound(s, now, key);
}

/// What keeps the keys of a part keeps those of the whole.
proof fn kept_more(s: StoreView, m: StoreView, t: StoreView, keys: Seq<Seq<u8>>)
    requires
        kept(s, m, keys),
        kept(m, t, keys),
    ensures
        kept(s, t, keys),
{
    assert forall|k: Seq<u8>| !keys.contains(k) implies #[trigger] entry(t, k) == entry(s, k) by {
        assert(entry(m, k) == entry(s, k));
    }
}

/// `DEL` keeps a store.
proof fn del_keeps(
    s: StoreView,
    times: Seq<Now>,
    keys: Seq<Seq<u8>>,
    removed: nat,
    named: Seq<Seq<u8>>,
)
    requires
        sound(s),
        forall|i: int| 0 <= i < keys.len() ==> named.contains(#[trigger] keys[i]),
    ensures
        kept(s, del_keys(s, times, keys, removed).0, named),
    decreases keys.len(),
{
    if keys.len() > 0 {
        del_law(s, times[0], keys[0]);
        assert(named.contains(keys[0]));
        let (after, found) = del_op(s, times[0], keys[0]);
        assert(kept(s, after, named));
        let more = if found == Ok::<bool, EngineErrorView>(true) {
            removed + 1
        } else {
            removed
        };
        assert forall|i: int| 0 <= i < keys.skip(1).len() implies named.contains(
            #[trigger] keys.skip(1)[i],
        ) by {
            assert(named.contains(keys[i + 1]));
        }
        del_keeps(after, times.skip(1), keys.skip(1), more, named);
        kept_more(s, after, del_keys(after, times.skip(1), keys.skip(1), more).0, named);
    }
}

/// `EXISTS` keeps a store.
proof fn count_keeps(
    s: StoreView,
    times: Seq<Now>,
    keys: Seq<Seq<u8>>,
    n: nat,
    named: Seq<Seq<u8>>,
)
    requires
        sound(s),
        forall|i: int| 0 <= i < keys.len() ==> named.contains(#[trigger] keys[i]),
    ensures
        kept(s, count_keys(s, times, keys, n).0, named),
    decreases keys.len(),
{
    if keys.len() > 0 {
        assert(named.contains(keys[0]));
        let after = swept(s, times[0], keys[0]);
        look_keeps(s, times[0], keys[0], named);
        assert forall|i: int| 0 <= i < keys.skip(1).len() implies named.contains(
            #[trigger] keys.skip(1)[i],
        ) by {
            assert(named.contains(keys[i + 1]));
        }
        count_keeps(after, times.skip(1), keys.skip(1), n, named);
        count_keeps(after, times.skip(1), keys.skip(1), n + 1, named);
        kept_more(s, after, count_keys(after, times.skip(1), keys.skip(1), n).0, named);
        kept_more(s, after, count_keys(after, times.skip(1), keys.skip(1), n + 1).0, named);
    }
}

/// `HMGET` keeps a store.
proof fn get_fields_keeps(
    s: StoreView,
    times: Seq<Now>,
    key: Seq<u8>,
    fields: Seq<Seq<u8>>,
    got: Seq<FrameView>,
    named: Seq<Seq<u8>>,
)
    requires
        sound(s),
        named.contains(key),
    ensures
        kept(s, get_fields(s, times, key, fields, got).0, named),
    decreases fields.len(),
{
    if fields.len() > 0 {
        look_keeps(s, times[0], key, named);
        let (after, value) = hget_op(s, times[0], key, fields[0]);
        if let Ok(v) = value {
            let more = got.push(bulk_or_null(v));
            get_fields_keeps(after, times.skip(1), key, fields.skip(1), more, named);
            kept_more(
                s,
                after,
                get_fields(after, times.skip(1), key, fields.skip(1), more).0,
                named,
            );
        }
    }
}

/// Commands on composite values that add to them keep a store.
proof fn adding_keeps(
    command: Command,
    version: RespVersion,
    args: Seq<Seq<u8>>,
    s: StoreView,
    times: Seq<Now>,
)
    requires
        sound(s),
        args.len() >= command.least_args(),
        fits(command, args, s, times),
        command == Command::Hset || command == Command::Sadd || command == Command::Zadd || command
            == Command::Push,
    ensures
        kept(s, command_op(command, version, args, s, times).0, args.skip(1)),
{
    let key = args[1];
    let named = args.skip(1);
    assert(named[0] == key);
    look_keeps(s, times[0], key, named);
    match command {
        Command::Hset => {
            type_seen(s, times[0], key, TYPE_HASH);
            if hash_or_nothing(s, times[0], key) && args.len() % 2 == 0 {
                hset_law(s, times[0], key, two_by_two(args.skip(2)));
            }
        },
        Command::Sadd => {
            type_seen(s, times[0], key, TYPE_SET);
            if set_or_nothing(s, times[0], key) {
                sadd_law(s, times[0], key, args.skip(2));
            }
        },
        Command::Zadd => {
            type_seen(s, times[0], key, TYPE_ZSET);
            if zset_or_nothing(s, times[0], key) && !is_flag(args[2]) && args.len() % 2 == 0 {
                if let Some(pairs) = scored(two_by_two(args.skip(2))) {
                    scored_all(two_by_two(args.skip(2)));
                    zadd_law(s, times[0], key, pairs);
                }
            }
        },
        _ => {
            type_seen(s, times[0], key, TYPE_LIST);
            if list_or_nothing(s, times[0], key) {
                push_law(s, times[0], key, args.skip(2), is_word(args[0], "LPUSH"@));
            }
        },
    }
}

/// As many scores come out as pairs went in.
proof fn scored_all(pairs: Seq<(Seq<u8>, Seq<u8>)>)
    ensures
        scored(pairs) matches Some(list) ==> list.len() == pairs.len(),
    decreases pairs.len(),
{
    if pairs.len() > 0 {
        scored_all(pairs.drop_last());
    }
}

/// Commands on composite values that take from them keep a store.
proof fn removing_keeps(
    command: Command,
    version: RespVersion,
    args: Seq<Seq<u8>>,
    s: StoreView,
    times: Seq<Now>,
)
    requires
        sound(s),
        args.len() >= command.least_args(),
        command == Command::Hdel || command == Command::Srem || command == Command::Zrem || command
            == Command::Pop,
    ensures
        kept(s, command_op(command, version, args, s, times).0, args.skip(1)),
{
    let key = args[1];
    let named = args.skip(1);
    assert(named[0] == key);
    look_keeps(s, times[0], key, named);
    match command {
        Command::Hdel => {
            type_seen(s, times[0], key, TYPE_HASH);
            if hash_or_nothing(s, times[0], key) {
                hdel_law(s, times[0], key, args.skip(2));
            }
        },
        Command::Srem => {
            type_seen(s, times[0], key, TYPE_SET);
            if set_or_nothing(s, times[0], key) {
                srem_law(s, times[0], key, args.skip(2));
            }
        },
        Command::Zrem => {
            type_seen(s, times[0], key, TYPE_ZSET);
            if zset_or_nothing(s, times[0], key) {
                zrem_law(s, times[0], key, args.skip(2));
            }
        },
        _ => {
            if let Ok(asked) = pop_count(args) {
                let after = swept(s, times[0], key);
                let count: usize = match asked {
                    Some(n) => n,
                    None => 1,
                };
                let left = is_word(args[0], "LPOP"@);
                type_seen(after, times[1], key, TYPE_LIST);
                look_keeps(after, times[1], key, named);
                if list_or_nothing(after, times[1], key) {
                    pop_law(after, times[1], key, count, left);
                }
                let t = pop_op(after, times[1], key, count, left).0;
                assert(kept(after, t, named));
                kept_more(s, after, t, named);
            }
        },
    }
}

/// Every command keeps a sound store sound, whatever it replies, as long as what it adds fits; and
/// the keys that it does not name keep what they hold.
pub proof fn commands_keep_the_store(
    command: Command,
    version: RespVersion,
    args: Seq<Seq<u8>>,
    s: StoreView,
    times: Seq<Now>,
)
    requires
        sound(s),
        args.len() >= command.least_args(),
        fits(command, args, s, times),
    ensures
        kept(s, command_op(command, version, args, s, times).0, args.skip(1)),
{
    let named = args.skip(1);
    if args.len() >= 2 {
        assert(named[0] == args[1]);
        look_keeps(s, times[0], args[1], named);
    }
    match command {
        Command::SetValue => {
            if let Ok((expire_ms, rest)) = set_options(args.skip(3), 0, times) {
                set_law(s, rest[0], args[1], args[2], expire_ms);
            }
        },
        Command::Del => {
            del_keeps(s, times, named, 0, named);
        },
        Command::Exists => {
            count_keeps(s, times, named, 0, named);
        },
        Command::Expire | Command::Pexpire => {
            assert forall|at: u64| kept(
                s,
                (#[trigger] expire_op(s, times[1], args[1], at)).0,
                named,
            ) by {
                expire_law(s, times[1], args[1], at);
            }
        },
        Command::Hmget => {
            get_fields_keeps(s, times, args[1], args.skip(2), Seq::empty(), named);
        },
        Command::Hset | Command::Sadd | Command::Zadd | Command::Push => {
            adding_keeps(command, version, args, s, times);
        },
        Command::Hdel | Command::Srem | Command::Zrem | Command::Pop => {
            removing_keeps(command, version, args, s, times);
        },
        Command::Compact => {
            compact_law(s);
        },
        _ => {},
    }
}

} // verus!
