//! Lists: `LPUSH`, `RPUSH`, `LPOP`, `RPOP`, `LRANGE` and `LLEN`.
use bytes::Bytes;
use vstd::prelude::*;

use crate::buffer::{all_bytes_of, bytes_copy, bytes_of, bytes_slice};
use crate::datamodel::commands::{
    array, bulk_frames, bulks, copy_args, one_reading, replied, with_command, Command, Commands,
};
use crate::datamodel::registry::{
    engine_error, engine_error_view, is_word, later, readings_since, served_at, word_is, wrong_args,
    wrong_args_view, CommandRegistry, NOT_AN_INTEGER,
};
use crate::engine::engine::{byte_strings, GeneralEngine};
use crate::engine::model::{at_a_step, llen_op, lrange_op, pop_op, push_op, Now, StoreView};
use crate::engine::store::Store;
use crate::protocol::frame::{frame_view, Frame, FrameView};
use crate::text::{int_value, read_int};

verus! {

/// The commands together with those of lists.
pub open spec fn with_list(commands: Commands) -> Commands {
    let c = commands;
    let c = with_command(c, "LPUSH"@, (-3) as i32, Command::Push);
    let c = with_command(c, "RPUSH"@, (-3) as i32, Command::Push);
    let c = with_command(c, "LPOP"@, (-2) as i32, Command::Pop);
    let c = with_command(c, "RPOP"@, (-2) as i32, Command::Pop);
    let c = with_command(c, "LRANGE"@, 4, Command::Lrange);
    let c = with_command(c, "LLEN"@, 2, Command::Llen);
    c
}

/// Registers the commands of lists.
pub fn register(reg: &mut CommandRegistry<Command>)
    ensures
        final(reg).commands() == with_list(old(reg).commands()),
{
    proof {
        reveal_strlit("LPUSH");
    }
    reg.register("LPUSH", -3, Command::Push);
    proof {
        reveal_strlit("RPUSH");
    }
    reg.register("RPUSH", -3, Command::Push);
    proof {
        reveal_strlit("LPOP");
    }
    reg.register("LPOP", -2, Command::Pop);
    proof {
        reveal_strlit("RPOP");
    }
    reg.register("RPOP", -2, Command::Pop);
    proof {
        reveal_strlit("LRANGE");
    }
    reg.register("LRANGE", 4, Command::Lrange);
    proof {
        reveal_strlit("LLEN");
    }
    reg.register("LLEN", 2, Command::Llen);
}

/// `LPUSH key element [element ...]` and `RPUSH`.
pub open spec fn push_command(args: Seq<Seq<u8>>, s: StoreView, times: Seq<Now>) -> (
    StoreView,
    FrameView,
) {
    replied(
        push_op(s, times[0], args[1], args.skip(2), is_word(args[0], "LPUSH"@)),
        |len: i64| FrameView::Integer(len),
    )
}

/// `LPUSH key element [element ...]` and `RPUSH`: how many elements there are then.
pub(crate) fn push<E: GeneralEngine>(store: &mut Store<E>, args: &[Bytes]) -> (r: Frame)
    requires
        args@.len() >= 2,
    ensures
        later(*old(store), *final(store)),
        served_at(
            frame_view(r),
            old(store)@,
            all_bytes_of(args@)[1],
            final(store)@,
            push_command(
                all_bytes_of(args@),
                old(store)@,
                readings_since(*old(store), *final(store)),
            ),
            old(store).failures(),
            false,
        ),
{
    assert(all_bytes_of(args@)[0] == bytes_of(args@[0]));
    assert(all_bytes_of(args@)[1] == bytes_of(args@[1]));
    let left = word_is(&args[0], "LPUSH");
    let values = copy_args(args, 2);
    let done = store.push(bytes_slice(&args[1]), &values, left);
    proof {
        one_reading(*old(store), *store);
        let want = push_command(
            all_bytes_of(args@),
            old(store)@,
            readings_since(*old(store), *store),
        );
        assert(done matches Err(e) ==> want == (store@, engine_error_view(e@)) || at_a_step(
            old(store)@,
            store.last_now(),
            all_bytes_of(args@)[1],
            store@,
            want.0,
        ));
    }
    match done {
        Ok(len) => Frame::Integer(len),
        Err(e) => engine_error(e),
    }
}

/// The reply to a count that is negative.
pub const NOT_POSITIVE: &'static str = "ERR value is out of range, must be positive";

/// How many elements `LPOP` and `RPOP` are asked for, `None` where they were not told; or what is
/// wrong with the request.
pub open spec fn pop_count(args: Seq<Seq<u8>>) -> Result<Option<usize>, FrameView> {
    let left = is_word(args[0], "LPOP"@);
    if args.len() <= 2 {
        Ok(None)
    } else {
        match int_value(args[2]) {
            None => Err(FrameView::Error(NOT_AN_INTEGER@)),
            Some(n) => if n < 0 {
                Err(FrameView::Error(NOT_POSITIVE@))
            } else if args.len() > 3 {
                Err(
                    wrong_args_view(
                        if left {
                            "lpop"@
                        } else {
                            "rpop"@
                        },
                    ),
                )
            } else {
                Ok(Some(n as usize))
            },
        }
    }
}

/// The reply with the elements that were taken off: an array where a count was given, and else
/// the one element.
pub open spec fn popped_view(count: Option<usize>, popped: Seq<Seq<u8>>) -> FrameView {
    if count is Some {
        FrameView::Array(bulks(popped))
    } else if popped.len() > 0 {
        FrameView::Bulk(popped[0])
    } else {
        FrameView::Null
    }
}

/// `LPOP key [count]` and `RPOP`. Where there is no list the reply is null, whatever the count.
pub open spec fn pop_command(args: Seq<Seq<u8>>, s: StoreView, times: Seq<Now>) -> (
    StoreView,
    FrameView,
) {
    match pop_count(args) {
        Err(reply) => (s, reply),
        Ok(count) => match llen_op(s, times[0], args[1]) {
            (after, Err(e)) => (after, engine_error_view(e)),
            (after, Ok(len)) => if len <= 0 {
                (after, FrameView::Null)
            } else {
                replied(
                    pop_op(
                        after,
                        times[1],
                        args[1],
                        match count {
                            Some(n) => n,
                            None => 1,
                        },
                        is_word(args[0], "LPOP"@),
                    ),
                    |popped: Seq<Seq<u8>>| popped_view(count, popped),
                )
            },
        },
    }
}

/// `LPOP key [count]` and `RPOP`: elements off that end of the list.
pub(crate) fn pop<E: GeneralEngine>(store: &mut Store<E>, args: &[Bytes]) -> (r: Frame)
    requires
        args@.len() >= 2,
    ensures
        later(*old(store), *final(store)),
        served_at(
            frame_view(r),
            old(store)@,
            all_bytes_of(args@)[1],
            final(store)@,
            pop_command(
                all_bytes_of(args@),
                old(store)@,
                readings_since(*old(store), *final(store)),
            ),
            old(store).failures(),
            pop_count(all_bytes_of(args@)) is Err,
        ),
{
    let ghost start = *store;
    assert(all_bytes_of(args@)[0] == bytes_of(args@[0]));
    assert(all_bytes_of(args@)[1] == bytes_of(args@[1]));
    let left = word_is(&args[0], "LPOP");
    let count: Option<usize> = if args.len() <= 2 {
        None
    } else {
        assert(all_bytes_of(args@)[2] == bytes_of(args@[2]));
        match read_int(bytes_slice(&args[2])) {
            None => return Frame::error(NOT_AN_INTEGER),
            Some(n) => {
                if n < 0 {
                    return Frame::error(NOT_POSITIVE);
                }
                Some(n as usize)
            },
        }
    };
    if args.len() > 3 {
        return wrong_args(if left { "lpop" } else { "rpop" });
    }
    // A count of zero takes nothing off, and still tells a list from none.
    let len = store.llen(bytes_slice(&args[1]));
    let ghost middle = *store;
    proof {
        let now = middle.last_now();
        let key = all_bytes_of(args@)[1];
        let want = pop_command(all_bytes_of(args@), start@, readings_since(start, middle));
        one_reading(start, middle);
        assert(len matches Err(e) ==> want == (middle@, engine_error_view(e@)) || at_a_step(
            start@,
            now,
            key,
            middle@,
            want.0,
        ));
    }
    match len {
        Err(e) => return engine_error(e),
        Ok(n) => {
            if n <= 0 {
                return Frame::Null;
            }
        },
    }
    let wanted: usize = match count {
        Some(n) => n,
        None => 1,
    };
    let done = store.pop(bytes_slice(&args[1]), wanted, left);
    proof {
        one_reading(middle, *store);
        assert(store.readings() =~= start.readings() + seq![middle.last_now(), store.last_now()]);
        assert(readings_since(start, *store) =~= seq![middle.last_now(), store.last_now()]);
        assert(later(start, *store));
        let now = store.last_now();
        let key = all_bytes_of(args@)[1];
        let want = pop_command(all_bytes_of(args@), start@, readings_since(start, *store));
        assert(done matches Err(e) ==> want == (store@, engine_error_view(e@)) || at_a_step(
            start@,
            now,
            key,
            store@,
            want.0,
        ));
    }
    match done {
        Err(e) => engine_error(e),
        Ok(popped) => {
            if count.is_some() {
                array(bulk_frames(&popped))
            } else if popped.len() > 0 {
                assert(byte_strings(popped@)[0] == popped@[0]@);
                Frame::Bulk(bytes_copy(&popped[0]))
            } else {
                Frame::Null
            }
        },
    }
}

/// `LRANGE key start stop`.
pub open spec fn lrange_command(args: Seq<Seq<u8>>, s: StoreView, times: Seq<Now>) -> (
    StoreView,
    FrameView,
) {
    match (int_value(args[2]), int_value(args[3])) {
        (Some(start), Some(stop)) => replied(
            lrange_op(s, times[0], args[1], start, stop),
            |values: Seq<Seq<u8>>| FrameView::Array(bulks(values)),
        ),
        _ => (s, FrameView::Error(NOT_AN_INTEGER@)),
    }
}

/// `LRANGE` refuses ranks that are no integers.
pub open spec fn lrange_refused(args: Seq<Seq<u8>>) -> bool {
    int_value(args[2]) is None || int_value(args[3]) is None
}

/// `LRANGE key start stop`: the elements of the given ranks, both ends included; negative ranks
/// count from the end.
pub(crate) fn lrange<E: GeneralEngine>(store: &mut Store<E>, args: &[Bytes]) -> (r: Frame)
    requires
        args@.len() >= 4,
    ensures
        later(*old(store), *final(store)),
        served_at(
            frame_view(r),
            old(store)@,
            all_bytes_of(args@)[1],
            final(store)@,
            lrange_command(
                all_bytes_of(args@),
                old(store)@,
                readings_since(*old(store), *final(store)),
            ),
            old(store).failures(),
            lrange_refused(all_bytes_of(args@)),
        ),
{
    assert(all_bytes_of(args@)[1] == bytes_of(args@[1]));
    assert(all_bytes_of(args@)[2] == bytes_of(args@[2]));
    assert(all_bytes_of(args@)[3] == bytes_of(args@[3]));
    match (read_int(bytes_slice(&args[2])), read_int(bytes_slice(&args[3]))) {
        (Some(start), Some(stop)) => {
            let done = store.lrange(bytes_slice(&args[1]), start, stop);
            proof {
                one_reading(*old(store), *store);
                let want = lrange_command(
                    all_bytes_of(args@),
                    old(store)@,
                    readings_since(*old(store), *store),
                );
                assert(done matches Err(e) ==> want == (store@, engine_error_view(e@)) || at_a_step(
                    old(store)@,
                    store.last_now(),
                    all_bytes_of(args@)[1],
                    store@,
                    want.0,
                ));
            }
            match done {
                Ok(values) => array(bulk_frames(&values)),
                Err(e) => engine_error(e),
            }
        },
        _ => Frame::error(NOT_AN_INTEGER),
    }
}

/// `LLEN key`.
pub open spec fn llen_command(args: Seq<Seq<u8>>, s: StoreView, times: Seq<Now>) -> (
    StoreView,
    FrameView,
) {
    replied(llen_op(s, times[0], args[1]), |n: i64| FrameView::Integer(n))
}

/// `LLEN key`: how many elements there are.
pub(crate) fn llen<E: GeneralEngine>(store: &mut Store<E>, args: &[Bytes]) -> (r: Frame)
    requires
        args@.len() >= 2,
    ensures
        later(*old(store), *final(store)),
        served_at(
            frame_view(r),
            old(store)@,
            all_bytes_of(args@)[1],
            final(store)@,
            llen_command(
                all_bytes_of(args@),
                old(store)@,
                readings_since(*old(store), *final(store)),
            ),
            old(store).failures(),
            false,
        ),
{
    assert(all_bytes_of(args@)[1] == bytes_of(args@[1]));
    let done = store.llen(bytes_slice(&args[1]));
    proof {
        one_reading(*old(store), *store);
        let want = llen_command(
            all_bytes_of(args@),
            old(store)@,
            readings_since(*old(store), *store),
        );
        assert(done matches Err(e) ==> want == (store@, engine_error_view(e@)) || at_a_step(
            old(store)@,
            store.last_now(),
            all_bytes_of(args@)[1],
            store@,
            want.0,
        ));
    }
    match done {
        Ok(n) => Frame::Integer(n),
        Err(e) => engine_error(e),
    }
}

} // verus!
