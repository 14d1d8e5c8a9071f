//! Command dispatch: which handler serves a request, and the replies that they share.
//!
//! The registry finds a handler by the name of a command, whatever its letter case, and checks the
//! number of arguments before it calls the handler. A handler gets the whole request, the name in
//! front, so that one handler can serve several names.
use bytes::Bytes;
use vstd::prelude::*;
use vstd::slice::slice_to_vec;
use vstd::utf8::{encode_utf8, is_ascii_chars, is_ascii_chars_encode_utf8};

use crate::buffer::{all_bytes_of, bytes_from, bytes_of, bytes_slice};
use crate::engine::encoding::meta_name;
use crate::engine::engine::{thinned, Failures, GeneralEngine};
use crate::engine::error::{EngineError, EngineErrorView};
use crate::engine::model::{at_a_step, swept, with_db, without, Now, StoreView};
use crate::engine::store::Store;
use crate::protocol::frame::{frame_view, Frame, FrameView, RespVersion};
use crate::table::Table;
use crate::text::{
    all_ascii, ascii, ascii_string, join2, join3, lossy, lower_all, same_bytes, shown_text,
    to_lower, to_upper, upper_all,
};

verus! {

/// What a handler works with besides its arguments.
pub struct ExecCtx<'a, E: GeneralEngine> {
    /// The store that commands operate on.
    pub store: &'a mut Store<E>,
    /// The protocol version of the connection.
    pub version: RespVersion,
}

impl<'a, E: GeneralEngine> ExecCtx<'a, E> {
    /// A context for `store` at the given protocol version.
    pub fn new(store: &'a mut Store<E>, version: RespVersion) -> (r: Self)
        ensures
            *r.store == *old(store),
            *final(r.store) == *final(store),
            r.version == version,
    {
        ExecCtx { store, version }
    }
}

/// What the clock read between two states of a store.
pub open spec fn readings_since<E: GeneralEngine>(before: Store<E>, after: Store<E>) -> Seq<Now> {
    after.readings().skip(before.readings().len() as int)
}

/// `after` is a later state of the store `before`: nothing that the clock read is forgotten, and
/// the engine may fail as it did before.
pub open spec fn later<E: GeneralEngine>(before: Store<E>, after: Store<E>) -> bool {
    &&& before.readings().is_prefix_of(after.readings())
    &&& after.failures() == before.failures()
}

/// The reply tells of one of the failures of the engine.
pub open spec fn engine_failed(reply: FrameView, failures: Failures) -> bool {
    exists|e: EngineErrorView|
        failures.contains(e) && reply == #[trigger] engine_error_view(e)
}

/// A command that changes nothing ended as `want` says, or the engine failed underneath it, which
/// the reply tells.
pub open spec fn served_still(
    reply: FrameView,
    before: StoreView,
    after: StoreView,
    want: (StoreView, FrameView),
    failures: Failures,
) -> bool {
    want == (after, reply) || engine_failed(reply, failures) && after == before
}

/// `COMPACT` ended as `want` says, or the engine failed underneath it, which the reply tells; of
/// the records only garbage is then gone, and the versions are as before.
pub open spec fn served_thinned(
    reply: FrameView,
    before: StoreView,
    after: StoreView,
    want: (StoreView, FrameView),
    failures: Failures,
) -> bool {
    want == (after, reply) || engine_failed(reply, failures) && after == with_db(before, after.db)
        && thinned(before.db, after.db, Some(before.versions))
}

/// `SET` ended as `want` says, or, unless its options are refused, the engine failed underneath it,
/// which the reply tells; the version of what was at the key is then given up all the same, and the
/// record was written or not.
pub open spec fn served_set(
    reply: FrameView,
    before: StoreView,
    after: StoreView,
    want: (StoreView, FrameView),
    failures: Failures,
    refused: bool,
) -> bool {
    want == (after, reply) || !refused && engine_failed(reply, failures) && (after == with_db(
        want.0,
        before.db,
    ) || after == want.0)
}

/// A command on one key ended as `want` says, or, unless its arguments are refused before the store
/// is touched, the engine failed underneath it, which the reply tells; the state is then one
/// between two steps of the operation.
pub open spec fn served_at(
    reply: FrameView,
    before: StoreView,
    key: Seq<u8>,
    after: StoreView,
    want: (StoreView, FrameView),
    failures: Failures,
    refused: bool,
) -> bool {
    want == (after, reply) || !refused && engine_failed(reply, failures) && exists|now: Now| #[trigger]
        at_a_step(before, now, key, after, want.0)
}

/// The record is the metadata of one of the keys.
pub open spec fn metadata_of(raw: Seq<u8>, keys: Seq<Seq<u8>>) -> bool {
    exists|i: int| 0 <= i < keys.len() && raw == meta_name(#[trigger] keys[i])
}

/// `after` is `before` but for the metadata of some of the keys, which is gone, and for the
/// versions of some keys without metadata.
pub open spec fn some_gone(before: StoreView, after: StoreView, keys: Seq<Seq<u8>>) -> bool {
    &&& after.clock == before.clock
    &&& forall|raw: Seq<u8>| #[trigger]
        after.db.contains_key(raw) ==> before.db.contains_key(raw) && after.db[raw]
            == before.db[raw]
    &&& forall|raw: Seq<u8>| #[trigger]
        before.db.contains_key(raw) && !after.db.contains_key(raw) ==> metadata_of(raw, keys)
    &&& forall|k: Seq<u8>| #[trigger]
        after.versions.contains_key(k) ==> before.versions.contains_key(k) && after.versions[k]
            == before.versions[k]
    &&& forall|k: Seq<u8>| #[trigger]
        before.versions.contains_key(k) && !after.versions.contains_key(k) ==> keys.contains(k)
            && !after.db.contains_key(meta_name(k))
}

/// A command that goes from key to key ended as `want` says, or the engine failed underneath it,
/// which the reply tells; only metadata of some of the keys, and their versions, are then gone.
pub open spec fn served_along(
    reply: FrameView,
    before: StoreView,
    keys: Seq<Seq<u8>>,
    after: StoreView,
    want: (StoreView, FrameView),
    failures: Failures,
) -> bool {
    want == (after, reply) || engine_failed(reply, failures) && some_gone(before, after, keys)
}

/// An operation that does no more than take a key away takes its metadata and then its version, or
/// nothing.
pub(crate) proof fn goes_along(
    start: StoreView,
    s: StoreView,
    now: Now,
    key: Seq<u8>,
    t: StoreView,
    want: StoreView,
    keys: Seq<Seq<u8>>,
)
    requires
        some_gone(start, s, keys),
        keys.contains(key),
        want == s || want == swept(s, now, key) || want == without(s, key),
        t == want || t == s || t == with_db(s, want.db),
    ensures
        some_gone(start, t, keys),
{
    let i = choose|i: int| 0 <= i < keys.len() && keys[i] == key;
    assert(metadata_of(meta_name(key), keys)) by {
        assert(meta_name(key) == meta_name(keys[i]));
    }
    assert forall|raw: Seq<u8>| #[trigger] t.db.contains_key(raw) implies start.db.contains_key(raw)
        && t.db[raw] == start.db[raw] by {
        assert(s.db.contains_key(raw) && t.db[raw] == s.db[raw]);
    }
    assert forall|raw: Seq<u8>| #[trigger]
        start.db.contains_key(raw) && !t.db.contains_key(raw) implies metadata_of(raw, keys) by {
        if s.db.contains_key(raw) {
            assert(raw == meta_name(key));
        }
    }
    assert forall|k: Seq<u8>| #[trigger]
        start.versions.contains_key(k) && !t.versions.contains_key(k) implies keys.contains(k)
        && !t.db.contains_key(meta_name(k)) by {
        if s.versions.contains_key(k) {
            assert(k == key);
        } else {
            assert(!s.db.contains_key(meta_name(k)));
        }
    }
}

/// What a handler asks of its arguments.
pub trait CommandArgs: Sized {
    /// How many arguments it needs at least, the name of the command included.
    spec fn least_args(&self) -> nat;
}

/// What executes a command.
pub trait CommandHandler<E: GeneralEngine>: CommandArgs {
    /// It may leave a store at `after` with the given reply, where the store was at `before`, and
    /// the clock read `times`.
    spec fn serves(
        &self,
        version: RespVersion,
        args: Seq<Seq<u8>>,
        before: StoreView,
        times: Seq<Now>,
        after: StoreView,
        reply: FrameView,
        failures: Failures,
    ) -> bool;

    /// Executes the command; `args` is the whole request, the name of the command in front.
    fn execute(&self, ctx: &mut ExecCtx<'_, E>, args: &[Bytes]) -> (r: Frame)
        requires
            args@.len() >= self.least_args(),
        ensures
            final(ctx).version == old(ctx).version,
            *final(final(ctx).store) == *final(old(ctx).store),
            later(*old(ctx).store, *final(ctx).store),
            self.serves(
                old(ctx).version,
                all_bytes_of(args@),
                (*old(ctx).store)@,
                readings_since(*old(ctx).store, *final(ctx).store),
                (*final(ctx).store)@,
                frame_view(r),
                (*old(ctx).store).failures(),
            ),
    ;
}

// ---------------------------------------------------------------------------
// Shared replies
// ---------------------------------------------------------------------------
/// The reply to a command with the wrong number of arguments.
pub open spec fn wrong_args_view(name: Seq<char>) -> FrameView {
    FrameView::Error("ERR wrong number of arguments for '"@ + name + "' command"@)
}

/// The reply to a command with the wrong number of arguments; `name` is in lower case.
pub(crate) fn wrong_args(name: &str) -> (r: Frame)
    ensures
        frame_view(r) == wrong_args_view(name@),
{
    Frame::Error(join3("ERR wrong number of arguments for '", name, "' command"))
}

/// The reply to something that should be an integer and is not.
pub const NOT_AN_INTEGER: &'static str = "ERR value is not an integer or out of range";

/// The reply to a command whose options make no sense.
pub const SYNTAX_ERROR: &'static str = "ERR syntax error";

/// The reply to a failure of the store: one about types as it is, any other behind `ERR`.
pub open spec fn engine_error_view(e: EngineErrorView) -> FrameView {
    FrameView::Error(
        match e {
            EngineErrorView::WrongType => e.message(),
            _ => "ERR "@ + e.message(),
        },
    )
}

/// The reply to a failure of the store.
pub(crate) fn engine_error(e: EngineError) -> (r: Frame)
    ensures
        frame_view(r) == engine_error_view(e@),
{
    match e {
        EngineError::WrongType => Frame::Error(e.message()),
        _ => {
            let text = e.message();
            Frame::Error(join2("ERR ", &text))
        },
    }
}

/// A bulk reply.
pub(crate) fn bulk(v: Vec<u8>) -> (r: Frame)
    ensures
        frame_view(r) == FrameView::Bulk(v@),
{
    Frame::Bulk(bytes_from(v))
}

/// The argument is the given word, which is in upper case, in any letter case.
pub open spec fn is_word(arg: Seq<u8>, word: Seq<char>) -> bool {
    upper_all(arg) == encode_utf8(word)
}

/// Whether the argument is the given word, which is in upper case, in any letter case.
pub(crate) fn word_is(arg: &Bytes, word: &str) -> (r: bool)
    ensures
        r == is_word(bytes_of(*arg), word@),
{
    let upper = to_upper(bytes_slice(arg));
    same_bytes(&upper, word.as_bytes())
}

// ---------------------------------------------------------------------------
// The registry
// ---------------------------------------------------------------------------
/// A handler, the number of arguments it takes, and the name of the command in lower case.
#[derive(Debug)]
pub struct CommandSpec<H> {
    /// The name that error replies mention.
    pub name_lower: String,
    /// The number of arguments, the name included: exactly that many where it is positive, and at
    /// least as many as its negation where it is negative.
    pub arity: i32,
    /// What executes the command.
    pub handler: H,
}

/// What the registry holds under a name.
pub struct Entry<H> {
    pub arity: i32,
    pub handler: H,
}

/// The number of arguments is the one that the arity asks for.
pub open spec fn arity_fits(arity: i32, argc: nat) -> bool {
    if arity > 0 {
        argc == arity
    } else {
        argc >= -arity
    }
}

/// Whether the number of arguments is the one that the arity asks for.
fn arity_matches(arity: i32, argc: usize) -> (r: bool)
    requires
        arity > i32::MIN,
    ensures
        r == arity_fits(arity, argc as nat),
{
    if arity > 0 {
        argc as u64 == arity as u64
    } else {
        argc as u64 >= (-arity) as u64
    }
}

/// A name that commands are registered under: upper-case letters and underscores.
pub open spec fn is_command_name(name: Seq<char>) -> bool {
    forall|i: int| 0 <= i < name.len() ==> 'A' <= #[trigger] name[i] <= 'Z' || name[i] == '_'
}

/// The fewest arguments that an arity lets through.
pub open spec fn fewest_args(arity: i32) -> nat {
    if arity > 0 {
        arity as nat
    } else {
        (-arity) as nat
    }
}

/// Commands by their names.
#[derive(Debug)]
pub struct CommandRegistry<H: CommandArgs> {
    commands: Table<CommandSpec<H>>,
}

impl<H: CommandArgs> CommandRegistry<H> {
    /// The commands, by their names in upper case.
    pub closed spec fn commands(&self) -> Map<Seq<u8>, Entry<H>> {
        self.commands@.map_values(
            |c: CommandSpec<H>| Entry { arity: c.arity, handler: c.handler },
        )
    }

    /// Every command has its own name in lower case, and no handler is called with fewer arguments
    /// than it needs.
    #[verifier::type_invariant]
    spec fn sound(self) -> bool {
        forall|name: Seq<u8>| #[trigger]
            self.commands@.contains_key(name) ==> {
                let c = self.commands@[name];
                &&& c.name_lower@ == ascii(lower_all(name))
                &&& c.arity > i32::MIN
                &&& c.handler.least_args() <= fewest_args(c.arity)
            }
    }

    /// A registry without commands.
    pub fn new() -> (r: Self)
        ensures
            r.commands() == Map::<Seq<u8>, Entry<H>>::empty(),
    {
        let r = CommandRegistry { commands: Table::new() };
        assert(r.commands() =~= Map::<Seq<u8>, Entry<H>>::empty());
        r
    }

    /// Registers a handler, in place of the one that the name had before. The name is in upper
    /// case, and the arity is not zero and lets nothing through that the handler cannot take.
    pub fn register(&mut self, name: &str, arity: i32, handler: H)
        requires
            is_command_name(name@),
            arity != 0,
            arity > i32::MIN,
            handler.least_args() <= fewest_args(arity),
        ensures
            final(self).commands() == old(self).commands().insert(
                encode_utf8(name@),
                (Entry { arity, handler }),
            ),
    {
        proof {
            use_type_invariant(&*self);
        }
        let raw = name.as_bytes();
        let key = slice_to_vec(raw);
        let lower = to_lower(raw);
        proof {
            name_is_ascii(name@);
            lower_is_ascii(raw@);
        }
        let name_lower = ascii_string(&lower);
        let mut commands: Table<CommandSpec<H>> = Table::new();
        std::mem::swap(&mut commands, &mut self.commands);
        commands.insert(key, CommandSpec { name_lower, arity, handler });
        self.commands = commands;
        assert(self.commands() =~= old(self).commands().insert(
            encode_utf8(name@),
            (Entry { arity, handler }),
        ));
    }

    /// Whether there is a command with this name, in any letter case.
    pub fn contains(&self, name: &[u8]) -> (r: bool)
        ensures
            r == self.commands().contains_key(upper_all(name@)),
    {
        let upper = to_upper(name);
        self.commands.contains(&upper)
    }

    /// Executes one request: finds its command in any letter case, checks the number of
    /// arguments, and calls the handler. Without a command, with one that is not there and with
    /// the wrong number of arguments the reply is an error, and the store is as it was.
    pub fn dispatch<E: GeneralEngine>(&self, ctx: &mut ExecCtx<'_, E>, args: &[Bytes]) -> (r: Frame)
        where H: CommandHandler<E>
        ensures
            final(ctx).version == old(ctx).version,
            *final(final(ctx).store) == *final(old(ctx).store),
            later(*old(ctx).store, *final(ctx).store),
            dispatches(
                self.commands(),
                old(ctx).version,
                all_bytes_of(args@),
                (*old(ctx).store)@,
                readings_since(*old(ctx).store, *final(ctx).store),
                (*final(ctx).store)@,
                frame_view(r),
                (*old(ctx).store).failures(),
            ),
    {
        proof {
            use_type_invariant(self);
        }
        if args.len() == 0 {
            return Frame::error("ERR empty command");
        }
        assert(all_bytes_of(args@)[0] == bytes_of(args@[0]));
        let upper = to_upper(bytes_slice(&args[0]));
        match self.commands.get(&upper) {
            None => {
                let name = lossy(bytes_slice(&args[0]));
                Frame::Error(join3("ERR unknown command '", &name, "'"))
            },
            Some(spec) => {
                assert(self.commands().contains_key(upper@));
                if !arity_matches(spec.arity, args.len()) {
                    return wrong_args(&spec.name_lower);
                }
                spec.handler.execute(ctx, args)
            },
        }
    }
}

impl<H: CommandArgs> Default for CommandRegistry<H> {
    fn default() -> (r: Self)
        ensures
            r.commands() == Map::<Seq<u8>, Entry<H>>::empty(),
    {
        CommandRegistry::new()
    }
}

/// What a request may lead to, given the registered commands.
pub open spec fn dispatches<E: GeneralEngine, H: CommandHandler<E>>(
    commands: Map<Seq<u8>, Entry<H>>,
    version: RespVersion,
    args: Seq<Seq<u8>>,
    before: StoreView,
    times: Seq<Now>,
    after: StoreView,
    reply: FrameView,
    failures: Failures,
) -> bool {
    if args.len() == 0 {
        after == before && reply == FrameView::Error("ERR empty command"@)
    } else {
        let name = upper_all(args[0]);
        if !commands.contains_key(name) {
            after == before && reply == FrameView::Error(
                "ERR unknown command '"@ + shown_text(args[0]) + "'"@,
            )
        } else if !arity_fits(commands[name].arity, args.len()) {
            after == before && reply == wrong_args_view(ascii(lower_all(name)))
        } else {
            commands[name].handler.serves(version, args, before, times, after, reply, failures)
        }
    }
}

/// A name of a command is ASCII.
proof fn name_is_ascii(name: Seq<char>)
    requires
        is_command_name(name),
    ensures
        all_ascii(encode_utf8(name)),
{
    assert(is_ascii_chars(name)) by {
        assert forall|i: int| 0 <= i < name.len() implies 0 <= #[trigger] name[i] as u32 <= 0x7f by {
            assert('A' <= name[i] <= 'Z' || name[i] == '_');
        }
    }
    is_ascii_chars_encode_utf8(name);
    assert forall|i: int| 0 <= i < encode_utf8(name).len() implies #[trigger] encode_utf8(name)[i]
        < 128 by {
        assert(encode_utf8(name)[i] == name[i] as u8);
        assert('A' <= name[i] <= 'Z' || name[i] == '_');
    }
}

/// ASCII stays ASCII in lower case.
proof fn lower_is_ascii(s: Seq<u8>)
    requires
        all_ascii(s),
    ensures
        all_ascii(lower_all(s)),
{
    assert forall|i: int| 0 <= i < lower_all(s).len() implies #[trigger] lower_all(s)[i] < 128 by {
        assert(s[i] < 128);
    }
}

} // verus!
