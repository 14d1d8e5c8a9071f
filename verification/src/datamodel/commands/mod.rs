//! The commands, by family.
pub mod admin;
pub mod connectivity;
pub mod hash;
pub mod list;
pub mod set;
pub mod string;
pub mod zset;

use bytes::Bytes;
use vstd::prelude::*;
use vstd::slice::slice_to_vec;
use vstd::utf8::encode_utf8;

use crate::buffer::{all_bytes_of, bytes_copy, bytes_of, bytes_slice};
use crate::datamodel::registry::{
    engine_error_view, later, readings_since, served_along, served_at,
    served_set, served_still, served_thinned, CommandArgs, CommandHandler,
    CommandRegistry, Entry, ExecCtx,
};
use crate::engine::engine::{byte_strings, items_view, Failures, GeneralEngine};
use crate::engine::model::{Answer, Now, StoreView};
use crate::engine::store::Store;
use crate::protocol::frame::{
    aggregate_views, frame_view, frames_view, pairs_view, Frame, FrameView, RespVersion,
};

verus! {

/// The reply to what a store answered, where an answer that is no error is shown as `view` says.
pub open spec fn replied<V>(done: (StoreView, Answer<V>), view: spec_fn(V) -> FrameView) -> (
    StoreView,
    FrameView,
) {
    (
        done.0,
        match done.1 {
            Ok(v) => view(v),
            Err(e) => engine_error_view(e),
        },
    )
}

/// An operation that read the clock once.
pub(crate) proof fn one_reading<E: GeneralEngine>(before: Store<E>, after: Store<E>)
    requires
        after.readings() == before.readings().push(after.last_now()),
        after.failures() == before.failures(),
    ensures
        later(before, after),
        readings_since(before, after) == seq![after.last_now()],
{
    assert(readings_since(before, after) =~= seq![after.last_now()]);
}

/// The arguments two by two; an odd one at the end is left out.
pub open spec fn two_by_two(args: Seq<Seq<u8>>) -> Seq<(Seq<u8>, Seq<u8>)> {
    Seq::new(args.len() / 2, |i: int| (args[2 * i], args[2 * i + 1]))
}

/// Byte strings as bulk replies.
pub open spec fn bulks(items: Seq<Seq<u8>>) -> Seq<FrameView> {
    items.map_values(|b: Seq<u8>| FrameView::Bulk(b))
}

/// The arguments from `from` on.
pub(crate) fn copy_args(args: &[Bytes], from: usize) -> (r: Vec<Vec<u8>>)
    requires
        from <= args@.len(),
    ensures
        byte_strings(r@) == all_bytes_of(args@).skip(from as int),
{
    let mut out: Vec<Vec<u8>> = Vec::new();
    let mut i: usize = from;
    while i < args.len()
        invariant
            from <= i <= args@.len(),
            out@.len() == i - from,
            forall|j: int| 0 <= j < out@.len() ==> (#[trigger] out@[j])@ == bytes_of(args@[j + from]),
        decreases args@.len() - i,
    {
        out.push(slice_to_vec(bytes_slice(&args[i])));
        i += 1;
    }
    assert(byte_strings(out@) =~= all_bytes_of(args@).skip(from as int));
    out
}

/// The arguments from `from` on, two by two.
pub(crate) fn copy_pairs(args: &[Bytes], from: usize) -> (r: Vec<(Vec<u8>, Vec<u8>)>)
    requires
        from <= args@.len(),
        (args@.len() - from) % 2 == 0,
    ensures
        items_view(r@) == two_by_two(all_bytes_of(args@).skip(from as int)),
{
    let mut out: Vec<(Vec<u8>, Vec<u8>)> = Vec::new();
    let mut i: usize = from;
    while i < args.len()
        invariant
            from <= i <= args@.len(),
            (args@.len() - i) % 2 == 0,
            2 * out@.len() == i - from,
            forall|j: int|
                0 <= j < out@.len() ==> (#[trigger] out@[j]).0@ == bytes_of(args@[2 * j + from])
                    && out@[j].1@ == bytes_of(args@[2 * j + 1 + from]),
        decreases args@.len() - i,
    {
        let first = slice_to_vec(bytes_slice(&args[i]));
        let second = slice_to_vec(bytes_slice(&args[i + 1]));
        out.push((first, second));
        i += 2;
    }
    assert(items_view(out@) =~= two_by_two(all_bytes_of(args@).skip(from as int)));
    out
}

/// Byte strings as bulk replies.
pub(crate) fn bulk_frames(items: &[Vec<u8>]) -> (r: Vec<Frame>)
    ensures
        frames_view(r@) == bulks(byte_strings(items@)),
{
    let mut out: Vec<Frame> = Vec::new();
    let mut i: usize = 0;
    while i < items.len()
        invariant
            i <= items@.len(),
            out@.len() == i,
            forall|j: int|
                0 <= j < i ==> frame_view(#[trigger] out@[j]) == FrameView::Bulk(items@[j]@),
        decreases items@.len() - i,
    {
        out.push(Frame::Bulk(bytes_copy(&items[i])));
        i += 1;
    }
    assert(frames_view(out@) =~= bulks(byte_strings(items@)));
    out
}

/// An array reply.
pub(crate) fn array(items: Vec<Frame>) -> (r: Frame)
    ensures
        frame_view(r) == FrameView::Array(frames_view(items@)),
{
    proof {
        aggregate_views(items, arbitrary());
    }
    Frame::Array(items)
}

/// A set reply.
pub(crate) fn set_reply(items: Vec<Frame>) -> (r: Frame)
    ensures
        frame_view(r) == FrameView::SetReply(frames_view(items@)),
{
    proof {
        aggregate_views(items, arbitrary());
    }
    Frame::SetReply(items)
}

/// A map reply.
pub(crate) fn map_reply(pairs: Vec<(Frame, Frame)>) -> (r: Frame)
    ensures
        frame_view(r) == FrameView::MapReply(pairs_view(pairs@)),
{
    proof {
        aggregate_views(arbitrary(), pairs);
    }
    Frame::MapReply(pairs)
}

/// The commands of a store.
#[derive(Debug, Clone, Copy, PartialEq, Eq, Structural)]
pub enum Command {
    /// `PING`.
    Ping,
    /// `ECHO`.
    Echo,
    /// `SET`.
    SetValue,
    /// `GET`.
    Get,
    /// `DEL`.
    Del,
    /// `EXISTS`.
    Exists,
    /// `TYPE`.
    Type,
    /// `EXPIRE`.
    Expire,
    /// `PEXPIRE`.
    Pexpire,
    /// `TTL`.
    Ttl,
    /// `PTTL`.
    Pttl,
    /// `HSET` and `HMSET`.
    Hset,
    /// `HGET`.
    Hget,
    /// `HMGET`.
    Hmget,
    /// `HGETALL`.
    Hgetall,
    /// `HDEL`.
    Hdel,
    /// `HLEN`.
    Hlen,
    /// `HEXISTS`.
    Hexists,
    /// `SADD`.
    Sadd,
    /// `SREM`.
    Srem,
    /// `SISMEMBER`.
    Sismember,
    /// `SMEMBERS`.
    Smembers,
    /// `SCARD`.
    Scard,
    /// `ZADD`.
    Zadd,
    /// `ZSCORE`.
    Zscore,
    /// `ZRANGE`.
    Zrange,
    /// `ZRANGEBYSCORE`.
    Zrangebyscore,
    /// `ZREM`.
    Zrem,
    /// `ZCARD`.
    Zcard,
    /// `LPUSH` and `RPUSH`.
    Push,
    /// `LPOP` and `RPOP`.
    Pop,
    /// `LRANGE`.
    Lrange,
    /// `LLEN`.
    Llen,
    /// `DBSIZE`.
    Dbsize,
    /// `RAWCOUNT`.
    Rawcount,
    /// `COMPACT`.
    Compact,
}

impl CommandArgs for Command {
    open spec fn least_args(&self) -> nat {
        match self {
            Command::Ping => 1,
            Command::Echo => 2,
            Command::SetValue => 3,
            Command::Get => 2,
            Command::Del => 2,
            Command::Exists => 2,
            Command::Type => 2,
            Command::Expire => 3,
            Command::Pexpire => 3,
            Command::Ttl => 2,
            Command::Pttl => 2,
            Command::Hset => 4,
            Command::Hget => 3,
            Command::Hmget => 3,
            Command::Hgetall => 2,
            Command::Hdel => 3,
            Command::Hlen => 2,
            Command::Hexists => 3,
            Command::Sadd => 3,
            Command::Srem => 3,
            Command::Sismember => 3,
            Command::Smembers => 2,
            Command::Scard => 2,
            Command::Zadd => 4,
            Command::Zscore => 3,
            Command::Zrange => 4,
            Command::Zrangebyscore => 4,
            Command::Zrem => 3,
            Command::Zcard => 2,
            Command::Push => 3,
            Command::Pop => 2,
            Command::Lrange => 4,
            Command::Llen => 2,
            Command::Dbsize => 1,
            Command::Rawcount => 1,
            Command::Compact => 1,
        }
    }
}

/// What a command does to a store and replies, where the clock reads `times`.
pub open spec fn command_op(
    command: Command,
    version: RespVersion,
    args: Seq<Seq<u8>>,
    s: StoreView,
    times: Seq<Now>,
) -> (StoreView, FrameView) {
    match command {
        Command::Ping => (s, connectivity::ping_reply(args)),
        Command::Echo => (s, FrameView::Bulk(args[1])),
        Command::SetValue => string::set_command(args, s, times),
        Command::Get => string::get_command(args, s, times),
        Command::Del => string::del_command(args, s, times),
        Command::Exists => string::exists_command(args, s, times),
        Command::Type => string::type_command(args, s, times),
        Command::Expire => string::expire_command(1000, "expire"@, args, s, times),
        Command::Pexpire => string::expire_command(1, "pexpire"@, args, s, times),
        Command::Ttl => string::ttl_command(args, s, times),
        Command::Pttl => string::pttl_command(args, s, times),
        Command::Hset => hash::hset_command(args, s, times),
        Command::Hget => hash::hget_command(args, s, times),
        Command::Hmget => hash::hmget_command(args, s, times),
        Command::Hgetall => hash::hgetall_command(version, args, s, times),
        Command::Hdel => hash::hdel_command(args, s, times),
        Command::Hlen => hash::hlen_command(args, s, times),
        Command::Hexists => hash::hexists_command(args, s, times),
        Command::Sadd => set::sadd_command(args, s, times),
        Command::Srem => set::srem_command(args, s, times),
        Command::Sismember => set::sismember_command(args, s, times),
        Command::Smembers => set::smembers_command(version, args, s, times),
        Command::Scard => set::scard_command(args, s, times),
        Command::Zadd => zset::zadd_command(args, s, times),
        Command::Zscore => zset::zscore_command(version, args, s, times),
        Command::Zrange => zset::zrange_command(version, args, s, times),
        Command::Zrangebyscore => zset::zrangebyscore_command(version, args, s, times),
        Command::Zrem => zset::zrem_command(args, s, times),
        Command::Zcard => zset::zcard_command(args, s, times),
        Command::Push => list::push_command(args, s, times),
        Command::Pop => list::pop_command(args, s, times),
        Command::Lrange => list::lrange_command(args, s, times),
        Command::Llen => list::llen_command(args, s, times),
        Command::Dbsize => admin::dbsize_command(s),
        Command::Rawcount => admin::rawcount_command(s),
        Command::Compact => admin::compact_command(s),
    }
}

/// The arguments are refused before the store is touched.
pub open spec fn refused(command: Command, args: Seq<Seq<u8>>, times: Seq<Now>) -> bool {
    match command {
        Command::SetValue => string::set_refused(args, times),
        Command::Expire => string::expire_refused(1000, args),
        Command::Pexpire => string::expire_refused(1, args),
        Command::Hset => hash::hset_refused(args),
        Command::Zadd => zset::zadd_refused(args),
        Command::Zrange => zset::zrange_refused(args),
        Command::Zrangebyscore => zset::zrangebyscore_refused(args),
        Command::Pop => list::pop_count(args) is Err,
        Command::Lrange => list::lrange_refused(args),
        _ => false,
    }
}

/// A command ended as [`command_op`] says, or the engine failed underneath it, which the reply
/// tells; what the state may be then depends on what the command does to it. A command that does
/// not touch the store, or refuses its arguments before it does, cannot end so.
pub open spec fn command_served(
    command: Command,
    version: RespVersion,
    args: Seq<Seq<u8>>,
    before: StoreView,
    times: Seq<Now>,
    after: StoreView,
    reply: FrameView,
    failures: Failures,
) -> bool {
    let want = command_op(command, version, args, before, times);
    match command {
        Command::Ping | Command::Echo => want == (after, reply),
        Command::Dbsize | Command::Rawcount => served_still(
            reply,
            before,
            after,
            want,
            failures,
        ),
        Command::Del | Command::Exists => served_along(
            reply,
            before,
            args.skip(1),
            after,
            want,
            failures,
        ),
        Command::Hmget => served_along(reply, before, seq![args[1]], after, want, failures),
        Command::SetValue => served_set(
            reply,
            before,
            after,
            want,
            failures,
            refused(command, args, times),
        ),
        Command::Compact => served_thinned(reply, before, after, want, failures),
        _ => served_at(
            reply,
            before,
            args[1],
            after,
            want,
            failures,
            refused(command, args, times),
        ),
    }
}

/// Carries out a command.
pub(crate) fn run<E: GeneralEngine>(
    command: Command,
    store: &mut Store<E>,
    version: RespVersion,
    args: &[Bytes],
) -> (r: Frame)
    requires
        args@.len() >= command.least_args(),
    ensures
        later(*old(store), *final(store)),
        command_served(
            command,
            version,
            all_bytes_of(args@),
            old(store)@,
            readings_since(*old(store), *final(store)),
            final(store)@,
            frame_view(r),
            old(store).failures(),
        ),
{
    match command {
        Command::Ping => connectivity::ping(args),
        Command::Echo => connectivity::echo(args),
        Command::SetValue => string::set(store, args),
        Command::Get => string::get(store, args),
        Command::Del => string::del(store, args),
        Command::Exists => string::key_exists(store, args),
        Command::Type => string::type_of(store, args),
        Command::Expire => string::expire_generic(store, args, 1000, "expire"),
        Command::Pexpire => string::expire_generic(store, args, 1, "pexpire"),
        Command::Ttl => string::ttl(store, args),
        Command::Pttl => string::pttl(store, args),
        Command::Hset => hash::hset(store, args),
        Command::Hget => hash::hget(store, args),
        Command::Hmget => hash::hmget(store, args),
        Command::Hgetall => hash::hgetall(store, version, args),
        Command::Hdel => hash::hdel(store, args),
        Command::Hlen => hash::hlen(store, args),
        Command::Hexists => hash::hexists(store, args),
        Command::Sadd => set::sadd(store, args),
        Command::Srem => set::srem(store, args),
        Command::Sismember => set::sismember(store, args),
        Command::Smembers => set::smembers(store, version, args),
        Command::Scard => set::scard(store, args),
        Command::Zadd => zset::zadd(store, args),
        Command::Zscore => zset::zscore(store, version, args),
        Command::Zrange => zset::zrange(store, version, args),
        Command::Zrangebyscore => zset::zrangebyscore(store, version, args),
        Command::Zrem => zset::zrem(store, args),
        Command::Zcard => zset::zcard(store, args),
        Command::Push => list::push(store, args),
        Command::Pop => list::pop(store, args),
        Command::Lrange => list::lrange(store, args),
        Command::Llen => list::llen(store, args),
        Command::Dbsize => admin::dbsize(store),
        Command::Rawcount => admin::rawcount(store),
        Command::Compact => admin::compact(store),
    }
}

impl<E: GeneralEngine> CommandHandler<E> for Command {
    open spec fn serves(
        &self,
        version: RespVersion,
        args: Seq<Seq<u8>>,
        before: StoreView,
        times: Seq<Now>,
        after: StoreView,
        reply: FrameView,
        failures: Failures,
    ) -> bool {
        command_served(*self, version, args, before, times, after, reply, failures)
    }

    fn execute(&self, ctx: &mut ExecCtx<'_, E>, args: &[Bytes]) -> (r: Frame) {
        run(*self, &mut *ctx.store, ctx.version, args)
    }
}

/// Registers the commands of all families.
pub fn register_all(reg: &mut CommandRegistry<Command>)
    ensures
        final(reg).commands() == with_all(old(reg).commands()),
{
    connectivity::register(reg);
    string::register(reg);
    hash::register(reg);
    set::register(reg);
    zset::register(reg);
    list::register(reg);
    admin::register(reg);
}

/// Commands by their names.
pub type Commands = Map<Seq<u8>, Entry<Command>>;

/// The commands together with those of all families.
pub open spec fn with_all(commands: Commands) -> Commands {
    let c = connectivity::with_connectivity(commands);
    let c = string::with_string(c);
    let c = hash::with_hash(c);
    let c = set::with_set(c);
    let c = zset::with_zset(c);
    let c = list::with_list(c);
    admin::with_admin(c)
}

/// The standard commands: those of all families.
pub open spec fn standard_commands() -> Commands {
    with_all(Map::empty())
}

impl CommandRegistry<Command> {
    /// A registry with the standard commands.
    pub fn standard() -> (r: Self)
        ensures
            r.commands() == standard_commands(),
    {
        let mut reg = CommandRegistry::new();
        register_all(&mut reg);
        reg
    }
}

/// The commands with one more.
pub open spec fn with_command(
    commands: Commands,
    name: Seq<char>,
    arity: i32,
    handler: Command,
) -> Commands {
    commands.insert(encode_utf8(name), Entry { arity, handler })
}

} // verus!
