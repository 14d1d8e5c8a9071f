//! Sets: `SADD`, `SREM`, `SISMEMBER`, `SMEMBERS` and `SCARD`.
use bytes::Bytes;
use vstd::prelude::*;

use crate::buffer::{all_bytes_of, bytes_of, bytes_slice};
use crate::datamodel::commands::{
    array, bulk_frames, bulks, copy_args, one_reading, replied, set_reply, with_command, Command,
    Commands,
};
use crate::datamodel::registry::{
    engine_error, engine_error_view, later, readings_since, served_at, CommandRegistry,
};
use crate::engine::encoding::TYPE_SET;
use crate::engine::engine::GeneralEngine;
use crate::engine::model::{
    at_a_step, count_op, has_op, remove_op, sadd_op, smembers_op, Now, StoreView,
};
use crate::engine::store::Store;
use crate::protocol::frame::{frame_view, Frame, FrameView, RespVersion};

verus! {

/// The commands together with those of sets.
pub open spec fn with_set(commands: Commands) -> Commands {
    let c = commands;
    let c = with_command(c, "SADD"@, (-3) as i32, Command::Sadd);
    let c = with_command(c, "SREM"@, (-3) as i32, Command::Srem);
    let c = with_command(c, "SISMEMBER"@, 3, Command::Sismember);
    let c = with_command(c, "SMEMBERS"@, 2, Command::Smembers);
    let c = with_command(c, "SCARD"@, 2, Command::Scard);
    c
}

/// Registers the commands of sets.
pub fn register(reg: &mut CommandRegistry<Command>)
    ensures
        final(reg).commands() == with_set(old(reg).commands()),
{
    proof {
        reveal_strlit("SADD");
    }
    reg.register("SADD", -3, Command::Sadd);
    proof {
        reveal_strlit("SREM");
    }
    reg.register("SREM", -3, Command::Srem);
    proof {
        reveal_strlit("SISMEMBER");
    }
    reg.register("SISMEMBER", 3, Command::Sismember);
    proof {
        reveal_strlit("SMEMBERS");
    }
    reg.register("SMEMBERS", 2, Command::Smembers);
    proof {
        reveal_strlit("SCARD");
    }
    reg.register("SCARD", 2, Command::Scard);
}

/// `SADD key member [member ...]`.
pub open spec fn sadd_command(args: Seq<Seq<u8>>, s: StoreView, times: Seq<Now>) -> (
    StoreView,
    FrameView,
) {
    replied(
        sadd_op(s, times[0], args[1], args.skip(2)),
        |added: i64| FrameView::Integer(added),
    )
}

/// `SADD key member [member ...]`: how many of them are new.
pub(crate) fn sadd<E: GeneralEngine>(store: &mut Store<E>, args: &[Bytes]) -> (r: Frame)
    requires
        args@.len() >= 2,
    ensures
        later(*old(store), *final(store)),
        served_at(
            frame_view(r),
            old(store)@,
            all_bytes_of(args@)[1],
            final(store)@,
            sadd_command(
                all_bytes_of(args@),
                old(store)@,
                readings_since(*old(store), *final(store)),
            ),
            old(store).failures(),
            false,
        ),
{
    assert(all_bytes_of(args@)[1] == bytes_of(args@[1]));
    let members = copy_args(args, 2);
    let done = store.sadd(bytes_slice(&args[1]), &members);
    proof {
        one_reading(*old(store), *store);
        let want = sadd_command(
            all_bytes_of(args@),
            old(store)@,
            readings_since(*old(store), *store),
        );
        assert(done matches Err(e) ==> want == (store@, engine_error_view(e@)) || at_a_step(
            old(store)@,
            store.last_now(),
            all_bytes_of(args@)[1],
            store@,
            want.0,
        ));
    }
    match done {
        Ok(added) => Frame::Integer(added),
        Err(e) => engine_error(e),
    }
}

/// `SREM key member [member ...]`.
pub open spec fn srem_command(args: Seq<Seq<u8>>, s: StoreView, times: Seq<Now>) -> (
    StoreView,
    FrameView,
) {
    replied(
        remove_op(s, times[0], args[1], TYPE_SET, args.skip(2)),
        |removed: i64| FrameView::Integer(removed),
    )
}

/// `SREM key member [member ...]`: how many of them were there.
pub(crate) fn srem<E: GeneralEngine>(store: &mut Store<E>, args: &[Bytes]) -> (r: Frame)
    requires
        args@.len() >= 2,
    ensures
        later(*old(store), *final(store)),
        served_at(
            frame_view(r),
            old(store)@,
            all_bytes_of(args@)[1],
            final(store)@,
            srem_command(
                all_bytes_of(args@),
                old(store)@,
                readings_since(*old(store), *final(store)),
            ),
            old(store).failures(),
            false,
        ),
{
    assert(all_bytes_of(args@)[1] == bytes_of(args@[1]));
    let members = copy_args(args, 2);
    let done = store.srem(bytes_slice(&args[1]), &members);
    proof {
        one_reading(*old(store), *store);
        let want = srem_command(
            all_bytes_of(args@),
            old(store)@,
            readings_since(*old(store), *store),
        );
        assert(done matches Err(e) ==> want == (store@, engine_error_view(e@)) || at_a_step(
            old(store)@,
            store.last_now(),
            all_bytes_of(args@)[1],
            store@,
            want.0,
        ));
    }
    match done {
        Ok(removed) => Frame::Integer(removed),
        Err(e) => engine_error(e),
    }
}

/// `SISMEMBER key member`.
pub open spec fn sismember_command(args: Seq<Seq<u8>>, s: StoreView, times: Seq<Now>) -> (
    StoreView,
    FrameView,
) {
    replied(has_op(s, times[0], args[1], TYPE_SET, args[2]), |found: bool|
            FrameView::Integer(
                if found {
                    1
                } else {
                    0
                },
            ))
}

/// `SISMEMBER key member`: whether the member is there.
pub(crate) fn sismember<E: GeneralEngine>(store: &mut Store<E>, args: &[Bytes]) -> (r: Frame)
    requires
        args@.len() >= 3,
    ensures
        later(*old(store), *final(store)),
        served_at(
            frame_view(r),
            old(store)@,
            all_bytes_of(args@)[1],
            final(store)@,
            sismember_command(
                all_bytes_of(args@),
                old(store)@,
                readings_since(*old(store), *final(store)),
            ),
            old(store).failures(),
            false,
        ),
{
    assert(all_bytes_of(args@)[1] == bytes_of(args@[1]));
    assert(all_bytes_of(args@)[2] == bytes_of(args@[2]));
    let done = store.sismember(bytes_slice(&args[1]), bytes_slice(&args[2]));
    proof {
        one_reading(*old(store), *store);
        let want = sismember_command(
            all_bytes_of(args@),
            old(store)@,
            readings_since(*old(store), *store),
        );
        assert(done matches Err(e) ==> want == (store@, engine_error_view(e@)) || at_a_step(
            old(store)@,
            store.last_now(),
            all_bytes_of(args@)[1],
            store@,
            want.0,
        ));
    }
    match done {
        Ok(true) => Frame::Integer(1),
        Ok(false) => Frame::Integer(0),
        Err(e) => engine_error(e),
    }
}

/// `SMEMBERS key`: a set in RESP3, and an array in RESP2.
pub open spec fn smembers_command(
    version: RespVersion,
    args: Seq<Seq<u8>>,
    s: StoreView,
    times: Seq<Now>,
) -> (StoreView, FrameView) {
    replied(
        smembers_op(s, times[0], args[1]),
        |members: Seq<Seq<u8>>|
            match version {
                RespVersion::V3 => FrameView::SetReply(bulks(members)),
                RespVersion::V2 => FrameView::Array(bulks(members)),
            },
    )
}

/// `SMEMBERS key`: all members.
pub(crate) fn smembers<E: GeneralEngine>(
    store: &mut Store<E>,
    version: RespVersion,
    args: &[Bytes],
) -> (r: Frame)
    requires
        args@.len() >= 2,
    ensures
        later(*old(store), *final(store)),
        served_at(
            frame_view(r),
            old(store)@,
            all_bytes_of(args@)[1],
            final(store)@,
            smembers_command(
                version,
                all_bytes_of(args@),
                old(store)@,
                readings_since(*old(store), *final(store)),
            ),
            old(store).failures(),
            false,
        ),
{
    assert(all_bytes_of(args@)[1] == bytes_of(args@[1]));
    let done = store.smembers(bytes_slice(&args[1]));
    proof {
        one_reading(*old(store), *store);
        let want = smembers_command(
            version,
            all_bytes_of(args@),
            old(store)@,
            readings_since(*old(store), *store),
        );
        assert(done matches Err(e) ==> want == (store@, engine_error_view(e@)) || at_a_step(
            old(store)@,
            store.last_now(),
            all_bytes_of(args@)[1],
            store@,
            want.0,
        ));
    }
    match done {
        Ok(members) => {
            let items = bulk_frames(&members);
            match version {
                RespVersion::V3 => set_reply(items),
                RespVersion::V2 => array(items),
            }
        },
        Err(e) => engine_error(e),
    }
}

/// `SCARD key`.
pub open spec fn scard_command(args: Seq<Seq<u8>>, s: StoreView, times: Seq<Now>) -> (
    StoreView,
    FrameView,
) {
    replied(count_op(s, times[0], args[1], TYPE_SET), |n: i64| FrameView::Integer(n))
}

/// `SCARD key`: how many members there are.
pub(crate) fn scard<E: GeneralEngine>(store: &mut Store<E>, args: &[Bytes]) -> (r: Frame)
    requires
        args@.len() >= 2,
    ensures
        later(*old(store), *final(store)),
        served_at(
            frame_view(r),
            old(store)@,
            all_bytes_of(args@)[1],
            final(store)@,
            scard_command(
                all_bytes_of(args@),
                old(store)@,
                readings_since(*old(store), *final(store)),
            ),
            old(store).failures(),
            false,
        ),
{
    assert(all_bytes_of(args@)[1] == bytes_of(args@[1]));
    let done = store.scard(bytes_slice(&args[1]));
    proof {
        one_reading(*old(store), *store);
        let want = scard_command(
            all_bytes_of(args@),
            old(store)@,
            readings_since(*old(store), *store),
        );
        assert(done matches Err(e) ==> want == (store@, engine_error_view(e@)) || at_a_step(
            old(store)@,
            store.last_now(),
            all_bytes_of(args@)[1],
            store@,
            want.0,
        ));
    }
    match done {
        Ok(n) => Frame::Integer(n),
        Err(e) => engine_error(e),
    }
}

} // verus!
