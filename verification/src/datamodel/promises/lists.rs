//! What the commands of lists promise.
use vstd::prelude::*;
use vstd::utf8::encode_utf8_decode_utf8;

use super::{is_range_of, ranks_pick, sweep_hides_nothing};
use crate::datamodel::commands::{bulks, command_op, Command};
use crate::datamodel::registry::is_word;
use crate::engine::encoding::TYPE_LIST;
use crate::engine::laws::lists::{
    has_room, items_seen, list_or_nothing, list_reads_law, pop_law, push_law,
};
use crate::engine::laws::members::{end_seen, stays, type_seen};
use crate::engine::laws::swept_is_sound;
use crate::engine::model::{rank_range, swept, Now, StoreView};
use crate::engine::values::{entry, fresh, sound, visible};
use crate::protocol::frame::{FrameView, RespVersion};
use crate::text::int_value;

verus! {

/// The names of the two commands that push differ, and so do those of the two that pop.
proof fn ends_differ(arg: Seq<u8>)
    ensures
        is_word(arg, "RPUSH"@) ==> !is_word(arg, "LPUSH"@),
        is_word(arg, "RPOP"@) ==> !is_word(arg, "LPOP"@),
{
    reveal_strlit("LPUSH");
    reveal_strlit("RPUSH");
    reveal_strlit("LPOP");
    reveal_strlit("RPOP");
    encode_utf8_decode_utf8("LPUSH"@);
    encode_utf8_decode_utf8("RPUSH"@);
    encode_utf8_decode_utf8("LPOP"@);
    encode_utf8_decode_utf8("RPOP"@);
    assert("LPUSH"@[0] != "RPUSH"@[0]);
    assert("LPOP"@[0] != "RPOP"@[0]);
}

/// After `LPUSH key element ...` the elements stand before those that were there, the last one
/// first; after `RPUSH` they stand behind them, in their order. The reply is the number of elements
/// then. The end of the list's time and all other keys are as before.
pub proof fn push_adds_the_elements(
    version: RespVersion,
    args: Seq<Seq<u8>>,
    s: StoreView,
    times: Seq<Now>,
    later: Now,
    left: bool,
)
    requires
        args.len() >= 3,
        is_word(
            args[0],
            if left {
                "LPUSH"@
            } else {
                "RPUSH"@
            },
        ),
        sound(s),
        list_or_nothing(s, times[0], args[1]),
        visible(s, times[0], args[1]) is Some || fresh(s, times[0]),
        args[1].len() <= u32::MAX,
        has_room(s, times[0], args[1], (args.len() - 2) as nat, left),
        stays(s, times[0], args[1], later),
    ensures
        ({
            let (t, reply) = command_op(Command::Push, version, args, s, times);
            let was = items_seen(s, times[0], args[1]);
            let items = items_seen(t, later, args[1]);
            let n = args.len() - 2;
            &&& sound(t)
            &&& list_or_nothing(t, later, args[1])
            &&& items.len() == was.len() + n
            &&& reply == FrameView::Integer(items.len() as i64)
            &&& left ==> forall|j: int|
                0 <= j < items.len() ==> #[trigger] items[j] == if j < n {
                    args[args.len() - 1 - j]
                } else {
                    was[j - n]
                }
            &&& !left ==> forall|j: int|
                0 <= j < items.len() ==> #[trigger] items[j] == if j < was.len() {
                    was[j]
                } else {
                    args[2 + (j - was.len())]
                }
            &&& end_seen(t, later, args[1]) == end_seen(s, times[0], args[1])
            &&& forall|k: Seq<u8>| k != args[1] ==> #[trigger] entry(t, k) == entry(s, k)
        }),
{
    let key = args[1];
    ends_differ(args[0]);
    push_law(s, times[0], key, args.skip(2), left);
    let t = command_op(Command::Push, version, args, s, times).0;
    assert(visible(t, later, key) == entry(t, key));
}

/// A list that has no room for the elements at that end is left as it is, and the reply is an
/// error.
pub proof fn full_lists_take_nothing(
    version: RespVersion,
    args: Seq<Seq<u8>>,
    s: StoreView,
    times: Seq<Now>,
    left: bool,
)
    requires
        args.len() >= 3,
        is_word(
            args[0],
            if left {
                "LPUSH"@
            } else {
                "RPUSH"@
            },
        ),
        sound(s),
        visible(s, times[0], args[1]) is Some,
        list_or_nothing(s, times[0], args[1]),
        !has_room(s, times[0], args[1], (args.len() - 2) as nat, left),
    ensures
        ({
            let (t, reply) = command_op(Command::Push, version, args, s, times);
            t == s && reply is Error
        }),
{
    ends_differ(args[0]);
    type_seen(s, times[0], args[1], TYPE_LIST);
}

/// `LPOP key [count]` takes elements off the front of a list, `RPOP` off its end: one where there
/// is no count, and else as many as the count says or as there are. The reply is the element, or
/// with a count an array of them in the order in which they were taken off; where there is no list
/// it is null. A list without elements is gone; the end of its time and all other keys are as
/// before. (The key must not expire between the two readings of the clock.)
pub proof fn pop_takes_from_the_end(
    version: RespVersion,
    args: Seq<Seq<u8>>,
    s: StoreView,
    times: Seq<Now>,
    later: Now,
    left: bool,
    count: Option<i64>,
)
    requires
        is_word(
            args[0],
            if left {
                "LPOP"@
            } else {
                "RPOP"@
            },
        ),
        match count {
            None => args.len() == 2,
            Some(n) => args.len() == 3 && int_value(args[2]) == Some(n) && 0 <= n <= usize::MAX,
        },
        sound(s),
        list_or_nothing(s, times[0], args[1]),
        items_seen(s, times[0], args[1]).len() <= i64::MAX,
        visible(s, times[1], args[1]) == visible(s, times[0], args[1]),
        stays(s, times[0], args[1], later),
    ensures
        ({
            let (t, reply) = command_op(Command::Pop, version, args, s, times);
            let was = items_seen(s, times[0], args[1]);
            let items = items_seen(t, later, args[1]);
            let wanted = match count {
                None => 1,
                Some(n) => n as int,
            };
            let taken = if wanted < was.len() {
                wanted
            } else {
                was.len() as int
            };
            &&& sound(t)
            &&& list_or_nothing(t, later, args[1])
            &&& visible(s, times[0], args[1]) is None ==> reply == FrameView::Null
            &&& visible(s, times[0], args[1]) is Some && count is None ==> reply == FrameView::Bulk(
                if left {
                    was[0]
                } else {
                    was[was.len() - 1]
                },
            )
            &&& visible(s, times[0], args[1]) is Some && count is Some ==> (
            reply matches FrameView::Array(frames) && frames.len() == taken && forall|j: int|
                0 <= j < taken ==> #[trigger] frames[j] == FrameView::Bulk(
                    if left {
                        was[j]
                    } else {
                        was[was.len() - 1 - j]
                    },
                ))
            &&& items.len() == was.len() - taken
            &&& forall|j: int|
                0 <= j < items.len() ==> #[trigger] items[j] == if left {
                    was[taken + j]
                } else {
                    was[j]
                }
            &&& visible(t, later, args[1]) is Some == (items.len() > 0)
            &&& visible(t, later, args[1]) is Some ==> end_seen(t, later, args[1]) == end_seen(
                s,
                times[0],
                args[1],
            )
            &&& forall|k: Seq<u8>| k != args[1] ==> #[trigger] entry(t, k) == entry(s, k)
        }),
{
    let key = args[1];
    let now = times[0];
    ends_differ(args[0]);
    list_reads_law(s, now, key, 0, 0);
    swept_is_sound(s, now, key);
    type_seen(s, now, key, TYPE_LIST);
    let u = swept(s, now, key);
    let t = command_op(Command::Pop, version, args, s, times).0;
    if visible(s, now, key) is Some {
        assert(u == s);
        let n = match count {
            Some(n) => n as usize,
            None => 1,
        };
        pop_law(s, times[1], key, n, left);
        assert(visible(t, later, key) == entry(t, key));
    } else {
        assert(visible(t, later, key) == entry(t, key));
    }
}

/// A list whose time is up between the two readings of the clock is gone for `LPOP` and `RPOP`:
/// nothing is taken off, and the reply is null, or with a count an empty array.
pub proof fn pop_of_what_has_expired(
    version: RespVersion,
    args: Seq<Seq<u8>>,
    s: StoreView,
    times: Seq<Now>,
    later: Now,
    count: Option<i64>,
)
    requires
        match count {
            None => args.len() == 2,
            Some(n) => args.len() == 3 && int_value(args[2]) == Some(n) && 0 <= n <= usize::MAX,
        },
        sound(s),
        list_or_nothing(s, times[0], args[1]),
        items_seen(s, times[0], args[1]).len() <= i64::MAX,
        visible(s, times[0], args[1]) is Some,
        visible(s, times[1], args[1]) is None,
    ensures
        ({
            let (t, reply) = command_op(Command::Pop, version, args, s, times);
            &&& sound(t)
            &&& reply == if count is Some {
                FrameView::Array(Seq::empty())
            } else {
                FrameView::Null
            }
            &&& visible(t, later, args[1]) is None
            &&& forall|k: Seq<u8>| k != args[1] ==> #[trigger] entry(t, k) == entry(s, k)
        }),
{
    let key = args[1];
    let now = times[0];
    list_reads_law(s, now, key, 0, 0);
    type_seen(s, now, key, TYPE_LIST);
    let n = match count {
        Some(n) => n as usize,
        None => 1,
    };
    let left = is_word(args[0], "LPOP"@);
    pop_law(s, times[1], key, n, left);
    let none = Seq::<Seq<u8>>::empty();
    assert(items_seen(s, times[1], key) =~= none);
    assert(none.take(0) =~= none);
    assert(none.skip(0).reverse() =~= none);
    assert(bulks(none) =~= Seq::empty());
    let t = command_op(Command::Pop, version, args, s, times).0;
    assert(entry(t, key) is None);
}

/// `LPOP` and `RPOP` with a count that is negative or no integer, or with more arguments, are
/// answered with an error and change nothing.
pub proof fn wrong_pop_changes_nothing(
    version: RespVersion,
    args: Seq<Seq<u8>>,
    s: StoreView,
    times: Seq<Now>,
)
    requires
        args.len() >= 3,
        args.len() > 3 || int_value(args[2]) is None || int_value(args[2])->0 < 0,
    ensures
        ({
            let (t, reply) = command_op(Command::Pop, version, args, s, times);
            &&& t == s
            &&& reply is Error
            &&& int_value(args[2]) is None ==> reply == FrameView::Error(
                "ERR value is not an integer or out of range"@,
            )
            &&& int_value(args[2]) is Some && int_value(args[2])->0 < 0 ==> reply
                == FrameView::Error("ERR value is out of range, must be positive"@)
        }),
{
}

/// `LRANGE` with a bound that is no integer is answered with an error and changes nothing.
pub proof fn wrong_lrange_changes_nothing(
    version: RespVersion,
    args: Seq<Seq<u8>>,
    s: StoreView,
    times: Seq<Now>,
)
    requires
        int_value(args[2]) is None || int_value(args[3]) is None,
    ensures
        command_op(Command::Lrange, version, args, s, times) == (
            s,
            FrameView::Error("ERR value is not an integer or out of range"@),
        ),
{
}

/// `LRANGE key start stop` answers, out of all elements in their order, those that are not before
/// `start` and not behind `stop`; a negative bound counts from the end. `LLEN key` answers how many
/// elements there are.
pub proof fn lrange_answers_the_places(
    version: RespVersion,
    args: Seq<Seq<u8>>,
    s: StoreView,
    times: Seq<Now>,
    start: i64,
    stop: i64,
)
    requires
        int_value(args[2]) == Some(start),
        int_value(args[3]) == Some(stop),
        sound(s),
        list_or_nothing(s, times[0], args[1]),
        items_seen(s, times[0], args[1]).len() <= i64::MAX,
    ensures
        ({
            let (t, reply) = command_op(Command::Lrange, version, args, s, times);
            let (u, len) = command_op(Command::Llen, version, args, s, times);
            let all = items_seen(s, times[0], args[1]);
            &&& exists|part: Seq<Seq<u8>>|
                #![trigger is_range_of(all, start, stop, part)]
                {
                    &&& is_range_of(all, start, stop, part)
                    &&& reply matches FrameView::Array(frames) && frames.len() == part.len()
                        && forall|k: int|
                        0 <= k < part.len() ==> #[trigger] frames[k] == FrameView::Bulk(part[k])
                    &&& part.len() > 0 && -all.len() <= stop < 0 ==> part.last() == all[all.len()
                        + stop]
                    &&& part.len() > 0 && start >= 0 ==> part[0] == all[start as int]
                }
            &&& len == FrameView::Integer(all.len() as i64)
            &&& forall|k: Seq<u8>| #[trigger]
                visible(t, times[0], k) == visible(s, times[0], k)
            &&& forall|k: Seq<u8>| #[trigger]
                visible(u, times[0], k) == visible(s, times[0], k)
        }),
{
    let key = args[1];
    let now = times[0];
    let all = items_seen(s, now, key);
    list_reads_law(s, now, key, start, stop);
    sweep_hides_nothing(s, now, key);
    ranks_pick(all, start, stop);
    let part = match rank_range(start, stop, all.len() as i64) {
        Some((lo, hi)) => all.subrange(lo, hi + 1),
        None => Seq::empty(),
    };
    assert(is_range_of(all, start, stop, part));
}

} // verus!
