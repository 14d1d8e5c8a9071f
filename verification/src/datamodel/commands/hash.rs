//! Hashes: `HSET`, `HMSET`, `HGET`, `HMGET`, `HGETALL`, `HDEL`, `HLEN` and `HEXISTS`.
use bytes::Bytes;
use vstd::prelude::*;

use crate::buffer::{all_bytes_of, bytes_copy, bytes_of, bytes_slice};
use crate::datamodel::commands::{
    array, copy_args, copy_pairs, map_reply, one_reading, replied, two_by_two, with_command,
    Command, Commands,
};
use crate::datamodel::registry::{
    bulk, engine_error, engine_error_view, goes_along, is_word, later, readings_since, served_along,
    served_at, some_gone, word_is, wrong_args, wrong_args_view, CommandRegistry,
};
use crate::engine::encoding::TYPE_HASH;
use crate::engine::engine::{items_view, GeneralEngine};
use crate::engine::model::{
    at_a_step, count_op, has_op, hget_op, hgetall_op, hset_op, remove_op, Now, StoreView,
};
use crate::engine::store::Store;
use crate::protocol::frame::{
    frame_view, frames_view, pairs_view, Frame, FrameView, RespVersion,
};

verus! {

/// The commands together with those of hashes.
pub open spec fn with_hash(commands: Commands) -> Commands {
    let c = commands;
    let c = with_command(c, "HSET"@, (-4) as i32, Command::Hset);
    let c = with_command(c, "HMSET"@, (-4) as i32, Command::Hset);
    let c = with_command(c, "HGET"@, 3, Command::Hget);
    let c = with_command(c, "HMGET"@, (-3) as i32, Command::Hmget);
    let c = with_command(c, "HGETALL"@, 2, Command::Hgetall);
    let c = with_command(c, "HDEL"@, (-3) as i32, Command::Hdel);
    let c = with_command(c, "HLEN"@, 2, Command::Hlen);
    let c = with_command(c, "HEXISTS"@, 3, Command::Hexists);
    c
}

/// Registers the commands of hashes.
pub fn register(reg: &mut CommandRegistry<Command>)
    ensures
        final(reg).commands() == with_hash(old(reg).commands()),
{
    proof {
        reveal_strlit("HSET");
    }
    reg.register("HSET", -4, Command::Hset);
    proof {
        reveal_strlit("HMSET");
    }
    reg.register("HMSET", -4, Command::Hset);
    proof {
        reveal_strlit("HGET");
    }
    reg.register("HGET", 3, Command::Hget);
    proof {
        reveal_strlit("HMGET");
    }
    reg.register("HMGET", -3, Command::Hmget);
    proof {
        reveal_strlit("HGETALL");
    }
    reg.register("HGETALL", 2, Command::Hgetall);
    proof {
        reveal_strlit("HDEL");
    }
    reg.register("HDEL", -3, Command::Hdel);
    proof {
        reveal_strlit("HLEN");
    }
    reg.register("HLEN", 2, Command::Hlen);
    proof {
        reveal_strlit("HEXISTS");
    }
    reg.register("HEXISTS", 3, Command::Hexists);
}

/// `HSET key field value [field value ...]`, and `HMSET`, which does not say how many fields are
/// new. A field without a value is a wrong number of arguments.
pub open spec fn hset_command(args: Seq<Seq<u8>>, s: StoreView, times: Seq<Now>) -> (
    StoreView,
    FrameView,
) {
    let plain = is_word(args[0], "HMSET"@);
    if args.len() % 2 != 0 {
        (
            s,
            wrong_args_view(
                if plain {
                    "hmset"@
                } else {
                    "hset"@
                },
            ),
        )
    } else {
        replied(
            hset_op(s, times[0], args[1], two_by_two(args.skip(2))),
            |created: i64|
                if plain {
                    FrameView::Simple("OK"@)
                } else {
                    FrameView::Integer(created)
                },
        )
    }
}

/// `HSET` and `HMSET` refuse a field without a value.
pub open spec fn hset_refused(args: Seq<Seq<u8>>) -> bool {
    args.len() % 2 != 0
}

/// `HSET key field value [field value ...]`: how many of the fields are new; and `HMSET`, which
/// replies `OK`.
pub(crate) fn hset<E: GeneralEngine>(store: &mut Store<E>, args: &[Bytes]) -> (r: Frame)
    requires
        args@.len() >= 4,
    ensures
        later(*old(store), *final(store)),
        served_at(
            frame_view(r),
            old(store)@,
            all_bytes_of(args@)[1],
            final(store)@,
            hset_command(
                all_bytes_of(args@),
                old(store)@,
                readings_since(*old(store), *final(store)),
            ),
            old(store).failures(),
            hset_refused(all_bytes_of(args@)),
        ),
{
    assert(all_bytes_of(args@)[0] == bytes_of(args@[0]));
    assert(all_bytes_of(args@)[1] == bytes_of(args@[1]));
    let plain = word_is(&args[0], "HMSET");
    if args.len() % 2 != 0 {
        return wrong_args(if plain { "hmset" } else { "hset" });
    }
    let pairs = copy_pairs(args, 2);
    let done = store.hset(bytes_slice(&args[1]), &pairs);
    proof {
        one_reading(*old(store), *store);
        let want = hset_command(
            all_bytes_of(args@),
            old(store)@,
            readings_since(*old(store), *store),
        );
        assert(done matches Err(e) ==> want == (store@, engine_error_view(e@)) || at_a_step(
            old(store)@,
            store.last_now(),
            all_bytes_of(args@)[1],
            store@,
            want.0,
        ));
    }
    match done {
        Ok(created) => if plain {
            Frame::ok()
        } else {
            Frame::Integer(created)
        },
        Err(e) => engine_error(e),
    }
}

/// A value that may be missing: null where it is.
pub open spec fn bulk_or_null(v: Option<Seq<u8>>) -> FrameView {
    match v {
        Some(value) => FrameView::Bulk(value),
        None => FrameView::Null,
    }
}

/// `HGET key field`.
pub open spec fn hget_command(args: Seq<Seq<u8>>, s: StoreView, times: Seq<Now>) -> (
    StoreView,
    FrameView,
) {
    replied(hget_op(s, times[0], args[1], args[2]), |v: Option<Seq<u8>>| bulk_or_null(v))
}

/// `HGET key field`: null where there is none.
pub(crate) fn hget<E: GeneralEngine>(store: &mut Store<E>, args: &[Bytes]) -> (r: Frame)
    requires
        args@.len() >= 3,
    ensures
        later(*old(store), *final(store)),
        served_at(
            frame_view(r),
            old(store)@,
            all_bytes_of(args@)[1],
            final(store)@,
            hget_command(
                all_bytes_of(args@),
                old(store)@,
                readings_since(*old(store), *final(store)),
            ),
            old(store).failures(),
            false,
        ),
{
    assert(all_bytes_of(args@)[1] == bytes_of(args@[1]));
    assert(all_bytes_of(args@)[2] == bytes_of(args@[2]));
    let done = store.hget(bytes_slice(&args[1]), bytes_slice(&args[2]));
    proof {
        one_reading(*old(store), *store);
        let want = hget_command(
            all_bytes_of(args@),
            old(store)@,
            readings_since(*old(store), *store),
        );
        assert(done matches Err(e) ==> want == (store@, engine_error_view(e@)) || at_a_step(
            old(store)@,
            store.last_now(),
            all_bytes_of(args@)[1],
            store@,
            want.0,
        ));
    }
    match done {
        Ok(Some(v)) => bulk(v),
        Ok(None) => Frame::Null,
        Err(e) => engine_error(e),
    }
}

/// The values of the fields behind those that were got; the first failure ends it.
pub open spec fn get_fields(
    s: StoreView,
    times: Seq<Now>,
    key: Seq<u8>,
    fields: Seq<Seq<u8>>,
    got: Seq<FrameView>,
) -> (StoreView, FrameView)
    decreases fields.len(),
{
    if fields.len() == 0 {
        (s, FrameView::Array(got))
    } else {
        match hget_op(s, times[0], key, fields[0]) {
            (after, Ok(v)) => get_fields(
                after,
                times.skip(1),
                key,
                fields.skip(1),
                got.push(bulk_or_null(v)),
            ),
            (after, Err(e)) => (after, engine_error_view(e)),
        }
    }
}

/// `HMGET key field [field ...]`.
pub open spec fn hmget_command(args: Seq<Seq<u8>>, s: StoreView, times: Seq<Now>) -> (
    StoreView,
    FrameView,
) {
    get_fields(s, times, args[1], args.skip(2), Seq::empty())
}

/// `HMGET key field [field ...]`: for each field its value, or null.
pub(crate) fn hmget<E: GeneralEngine>(store: &mut Store<E>, args: &[Bytes]) -> (r: Frame)
    requires
        args@.len() >= 2,
    ensures
        later(*old(store), *final(store)),
        served_along(
            frame_view(r),
            old(store)@,
            seq![all_bytes_of(args@)[1]],
            final(store)@,
            hmget_command(
                all_bytes_of(args@),
                old(store)@,
                readings_since(*old(store), *final(store)),
            ),
            old(store).failures(),
        ),
{
    let ghost all = all_bytes_of(args@);
    let ghost key = all[1];
    let ghost was = store.readings();
    assert(all[1] == bytes_of(args@[1]));
    let mut items: Vec<Frame> = Vec::new();
    let mut i: usize = 2;
    assert(frames_view(items@) =~= Seq::<FrameView>::empty());
    assert forall|times: Seq<Now>| #[trigger]
        get_fields(store@, times, key, all.skip(2), Seq::empty()) == get_fields(
        store@,
        times.skip(0),
        key,
        all.skip(2),
        Seq::empty(),
    ) by {
        assert(times.skip(0) =~= times);
    }
    while i < args.len()
        invariant
            2 <= i <= args@.len(),
            all == all_bytes_of(args@),
            key == bytes_of(args@[1]),
            was == old(store).readings(),
            was.is_prefix_of(store.readings()),
            store.failures() == old(store).failures(),
            some_gone(old(store)@, store@, seq![key]),
            forall|times: Seq<Now>|
                store.readings().skip(was.len() as int).is_prefix_of(times) ==> #[trigger] get_fields(
                    old(store)@,
                    times,
                    key,
                    all.skip(2),
                    Seq::empty(),
                ) == get_fields(
                    store@,
                    times.skip(store.readings().len() - was.len()),
                    key,
                    all.skip(i as int),
                    frames_view(items@),
                ),
        decreases args@.len() - i,
    {
        let ghost fields = all.skip(i as int);
        let ghost before = *store;
        let ghost seen = store.readings().skip(was.len() as int);
        let ghost got = frames_view(items@);
        assert(fields[0] == bytes_of(args@[i as int]));
        let done = store.hget(bytes_slice(&args[1]), bytes_slice(&args[i]));
        let ghost then = store.readings().skip(was.len() as int);
        proof {
            assert(then =~= seen.push(store.last_now()));
            assert(was.is_prefix_of(store.readings()));
            assert(seen.is_prefix_of(then));
            assert(then.skip(before.readings().len() - was.len())[0] == store.last_now());
            assert(seq![key][0] == key);
            goes_along(
                old(store)@,
                before@,
                store.last_now(),
                key,
                store@,
                hget_op(before@, store.last_now(), key, fields[0]).0,
                seq![key],
            );
        }
        let ghost mut v: Option<Seq<u8>> = None;
        match done {
            Ok(found) => match found {
                Some(value) => {
                    proof {
                        v = Some(value@);
                    }
                    items.push(bulk(value));
                },
                None => items.push(Frame::Null),
            },
            Err(e) => {
                assert(readings_since(*old(store), *store) == then);
                return engine_error(e);
            },
        }
        i += 1;
        proof {
            assert(frames_view(items@) =~= got.push(bulk_or_null(v)));
            assert(all.skip(i as int) =~= fields.skip(1));
            assert forall|times: Seq<Now>| then.is_prefix_of(times) implies #[trigger] get_fields(
                old(store)@,
                times,
                key,
                all.skip(2),
                Seq::empty(),
            ) == get_fields(
                store@,
                times.skip(store.readings().len() - was.len()),
                key,
                all.skip(i as int),
                frames_view(items@),
            ) by {
                assert(seen.is_prefix_of(times));
                let rest = times.skip(before.readings().len() - was.len());
                assert(rest[0] == then[before.readings().len() - was.len()]);
                assert(rest.skip(1) =~= times.skip(store.readings().len() - was.len()));
            }
        }
    }
    proof {
        assert(all.skip(i as int) =~= Seq::<Seq<u8>>::empty());
        let times = store.readings().skip(was.len() as int);
        assert(times.is_prefix_of(times));
    }
    array(items)
}

/// Fields and values one behind the other.
pub open spec fn flat(pairs: Seq<(Seq<u8>, Seq<u8>)>) -> Seq<FrameView> {
    Seq::new(
        2 * pairs.len(),
        |i: int|
            FrameView::Bulk(
                if i % 2 == 0 {
                    pairs[i / 2].0
                } else {
                    pairs[i / 2].1
                },
            ),
    )
}

/// Fields and values as pairs.
pub open spec fn mapped(pairs: Seq<(Seq<u8>, Seq<u8>)>) -> Seq<(FrameView, FrameView)> {
    pairs.map_values(
        |p: (Seq<u8>, Seq<u8>)| (FrameView::Bulk(p.0), FrameView::Bulk(p.1)),
    )
}

/// `HGETALL key`: a map in RESP3, and fields and values one behind the other in RESP2.
pub open spec fn hgetall_command(
    version: RespVersion,
    args: Seq<Seq<u8>>,
    s: StoreView,
    times: Seq<Now>,
) -> (StoreView, FrameView) {
    replied(
        hgetall_op(s, times[0], args[1]),
        |pairs: Seq<(Seq<u8>, Seq<u8>)>|
            match version {
                RespVersion::V3 => FrameView::MapReply(mapped(pairs)),
                RespVersion::V2 => FrameView::Array(flat(pairs)),
            },
    )
}

/// Fields and values one behind the other.
fn flat_frames(pairs: &[(Vec<u8>, Vec<u8>)]) -> (r: Vec<Frame>)
    ensures
        frames_view(r@) == flat(items_view(pairs@)),
{
    let mut out: Vec<Frame> = Vec::new();
    let mut i: usize = 0;
    while i < pairs.len()
        invariant
            i <= pairs@.len(),
            out@.len() == 2 * i,
            forall|j: int|
                0 <= j < 2 * i ==> frame_view(#[trigger] out@[j]) == flat(items_view(pairs@))[j],
        decreases pairs@.len() - i,
    {
        let ghost was = out@;
        out.push(Frame::Bulk(bytes_copy(&pairs[i].0)));
        out.push(Frame::Bulk(bytes_copy(&pairs[i].1)));
        proof {
            assert forall|j: int| 0 <= j < 2 * (i + 1) implies frame_view(#[trigger] out@[j]) == flat(
                items_view(pairs@),
            )[j] by {
                if j < 2 * i {
                    assert(out@[j] == was[j]);
                }
            }
        }
        i += 1;
    }
    assert(frames_view(out@) =~= flat(items_view(pairs@)));
    out
}

/// Fields and values as pairs.
fn mapped_frames(pairs: &[(Vec<u8>, Vec<u8>)]) -> (r: Vec<(Frame, Frame)>)
    ensures
        pairs_view(r@) == mapped(items_view(pairs@)),
{
    let mut out: Vec<(Frame, Frame)> = Vec::new();
    let mut i: usize = 0;
    while i < pairs.len()
        invariant
            i <= pairs@.len(),
            out@.len() == i,
            forall|j: int|
                0 <= j < i ==> frame_view((#[trigger] out@[j]).0) == FrameView::Bulk(pairs@[j].0@)
                    && frame_view(out@[j].1) == FrameView::Bulk(pairs@[j].1@),
        decreases pairs@.len() - i,
    {
        let field = Frame::Bulk(bytes_copy(&pairs[i].0));
        let value = Frame::Bulk(bytes_copy(&pairs[i].1));
        out.push((field, value));
        i += 1;
    }
    assert(pairs_view(out@) =~= mapped(items_view(pairs@)));
    out
}

/// `HGETALL key`: all fields and their values.
pub(crate) fn hgetall<E: GeneralEngine>(
    store: &mut Store<E>,
    version: RespVersion,
    args: &[Bytes],
) -> (r: Frame)
    requires
        args@.len() >= 2,
    ensures
        later(*old(store), *final(store)),
        served_at(
            frame_view(r),
            old(store)@,
            all_bytes_of(args@)[1],
            final(store)@,
            hgetall_command(
                version,
                all_bytes_of(args@),
                old(store)@,
                readings_since(*old(store), *final(store)),
            ),
            old(store).failures(),
            false,
        ),
{
    assert(all_bytes_of(args@)[1] == bytes_of(args@[1]));
    let done = store.hgetall(bytes_slice(&args[1]));
    proof {
        one_reading(*old(store), *store);
        let want = hgetall_command(
            version,
            all_bytes_of(args@),
            old(store)@,
            readings_since(*old(store), *store),
        );
        assert(done matches Err(e) ==> want == (store@, engine_error_view(e@)) || at_a_step(
            old(store)@,
            store.last_now(),
            all_bytes_of(args@)[1],
            store@,
            want.0,
        ));
    }
    match done {
        Ok(pairs) => match version {
            RespVersion::V3 => map_reply(mapped_frames(&pairs)),
            RespVersion::V2 => array(flat_frames(&pairs)),
        },
        Err(e) => engine_error(e),
    }
}

/// `HDEL key field [field ...]`.
pub open spec fn hdel_command(args: Seq<Seq<u8>>, s: StoreView, times: Seq<Now>) -> (
    StoreView,
    FrameView,
) {
    replied(
        remove_op(s, times[0], args[1], TYPE_HASH, args.skip(2)),
        |removed: i64| FrameView::Integer(removed),
    )
}

/// `HDEL key field [field ...]`: how many of them were there.
pub(crate) fn hdel<E: GeneralEngine>(store: &mut Store<E>, args: &[Bytes]) -> (r: Frame)
    requires
        args@.len() >= 2,
    ensures
        later(*old(store), *final(store)),
        served_at(
            frame_view(r),
            old(store)@,
            all_bytes_of(args@)[1],
            final(store)@,
            hdel_command(
                all_bytes_of(args@),
                old(store)@,
                readings_since(*old(store), *final(store)),
            ),
            old(store).failures(),
            false,
        ),
{
    assert(all_bytes_of(args@)[1] == bytes_of(args@[1]));
    let members = copy_args(args, 2);
    let done = store.hdel(bytes_slice(&args[1]), &members);
    proof {
        one_reading(*old(store), *store);
        let want = hdel_command(
            all_bytes_of(args@),
            old(store)@,
            readings_since(*old(store), *store),
        );
        assert(done matches Err(e) ==> want == (store@, engine_error_view(e@)) || at_a_step(
            old(store)@,
            store.last_now(),
            all_bytes_of(args@)[1],
            store@,
            want.0,
        ));
    }
    match done {
        Ok(removed) => Frame::Integer(removed),
        Err(e) => engine_error(e),
    }
}

/// `HLEN key`.
pub open spec fn hlen_command(args: Seq<Seq<u8>>, s: StoreView, times: Seq<Now>) -> (
    StoreView,
    FrameView,
) {
    replied(count_op(s, times[0], args[1], TYPE_HASH), |n: i64| FrameView::Integer(n))
}

/// `HLEN key`: how many fields there are.
pub(crate) fn hlen<E: GeneralEngine>(store: &mut Store<E>, args: &[Bytes]) -> (r: Frame)
    requires
        args@.len() >= 2,
    ensures
        later(*old(store), *final(store)),
        served_at(
            frame_view(r),
            old(store)@,
            all_bytes_of(args@)[1],
            final(store)@,
            hlen_command(
                all_bytes_of(args@),
                old(store)@,
                readings_since(*old(store), *final(store)),
            ),
            old(store).failures(),
            false,
        ),
{
    assert(all_bytes_of(args@)[1] == bytes_of(args@[1]));
    let done = store.hlen(bytes_slice(&args[1]));
    proof {
        one_reading(*old(store), *store);
        let want = hlen_command(
            all_bytes_of(args@),
            old(store)@,
            readings_since(*old(store), *store),
        );
        assert(done matches Err(e) ==> want == (store@, engine_error_view(e@)) || at_a_step(
            old(store)@,
            store.last_now(),
            all_bytes_of(args@)[1],
            store@,
            want.0,
        ));
    }
    match done {
        Ok(n) => Frame::Integer(n),
        Err(e) => engine_error(e),
    }
}

/// `HEXISTS key field`.
pub open spec fn hexists_command(args: Seq<Seq<u8>>, s: StoreView, times: Seq<Now>) -> (
    StoreView,
    FrameView,
) {
    replied(has_op(s, times[0], args[1], TYPE_HASH, args[2]), |found: bool|
            FrameView::Integer(
                if found {
                    1
                } else {
                    0
                },
            ))
}

/// `HEXISTS key field`: whether the field is there.
pub(crate) fn hexists<E: GeneralEngine>(store: &mut Store<E>, args: &[Bytes]) -> (r: Frame)
    requires
        args@.len() >= 3,
    ensures
        later(*old(store), *final(store)),
        served_at(
            frame_view(r),
            old(store)@,
            all_bytes_of(args@)[1],
            final(store)@,
            hexists_command(
                all_bytes_of(args@),
                old(store)@,
                readings_since(*old(store), *final(store)),
            ),
            old(store).failures(),
            false,
        ),
{
    assert(all_bytes_of(args@)[1] == bytes_of(args@[1]));
    assert(all_bytes_of(args@)[2] == bytes_of(args@[2]));
    let done = store.hexists(bytes_slice(&args[1]), bytes_slice(&args[2]));
    proof {
        one_reading(*old(store), *store);
        let want = hexists_command(
            all_bytes_of(args@),
            old(store)@,
            readings_since(*old(store), *store),
        );
        assert(done matches Err(e) ==> want == (store@, engine_error_view(e@)) || at_a_step(
            old(store)@,
            store.last_now(),
            all_bytes_of(args@)[1],
            store@,
            want.0,
        ));
    }
    match done {
        Ok(true) => Frame::Integer(1),
        Ok(false) => Frame::Integer(0),
        Err(e) => engine_error(e),
    }
}

} // verus!
