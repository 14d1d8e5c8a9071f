//! What a data node does with the requests of a connection.
//!
//! Commands that concern the connection (`HELLO`, `QUIT`, and the `CLIENT`, `SELECT` and `COMMAND`
//! housekeeping that clients send) and the whole database (`FLUSHDB`, `FLUSHALL`) are served here.
//! All others go to the command registry.
use bytes::Bytes;
use vstd::prelude::*;
use vstd::utf8::{encode_utf8, valid_utf8};

use crate::buffer::{all_bytes_of, bytes_copy, bytes_of, bytes_slice};
use crate::datamodel::commands::{array, map_reply};
use crate::datamodel::registry::{
    dispatches, is_word, later, readings_since, word_is, wrong_args, wrong_args_view,
    CommandHandler, CommandRegistry, Entry, ExecCtx, NOT_AN_INTEGER, SYNTAX_ERROR,
};
use crate::engine::engine::{Failures, GeneralEngine};
use crate::engine::error::EngineErrorView;
use crate::engine::model::{flush_op, with_db, Now, StoreView};
use crate::engine::store::Store;
use crate::protocol::frame::{
    flattened, frame_view, frames_view, pairs_view, Frame, FrameView, RespVersion,
};
use crate::text::{
    int_value, join2, join3, lossy, read_int, shown_text, to_upper, upper_all, utf8_text,
};
use crate::words::{read_trimmed_int, trimmed_int};

verus! {

/// The version of the server that `HELLO` tells.
pub const SERVER_VERSION: &'static str = "0.1.0";

/// What can be set about serving.
#[derive(Debug, Clone, Copy, PartialEq, Eq, Structural)]
pub struct ServeOptions {
    /// Commands that take at least this many nanoseconds go to the slow log.
    pub slow_log_threshold: u128,
}

impl Default for ServeOptions {
    fn default() -> (r: Self)
        ensures
            r.slow_log_threshold == 10_000_000,
    {
        ServeOptions { slow_log_threshold: 10_000_000 }
    }
}

/// What a request leads to.
#[derive(Debug)]
pub struct Action {
    /// The reply.
    pub reply: Frame,
    /// Whether the connection ends behind it.
    pub close: bool,
    /// The protocol version that holds from the reply on, where it changes.
    pub set_version: Option<RespVersion>,
}

/// An [`Action`] as a mathematical value.
#[verifier::ext_equal]
pub struct ActionView {
    pub reply: FrameView,
    pub close: bool,
    pub set_version: Option<RespVersion>,
}

impl View for Action {
    type V = ActionView;

    open spec fn view(&self) -> ActionView {
        ActionView {
            reply: frame_view(self.reply),
            close: self.close,
            set_version: self.set_version,
        }
    }
}

impl ActionView {
    /// An action that is a reply and nothing more.
    pub open spec fn replies(reply: FrameView) -> ActionView {
        ActionView { reply, close: false, set_version: None }
    }
}

impl Action {
    /// An action that is a reply and nothing more.
    pub fn reply(reply: Frame) -> (r: Self)
        ensures
            r@ == ActionView::replies(frame_view(reply)),
    {
        Action { reply, close: false, set_version: None }
    }

    /// An action that ends the connection behind a reply.
    pub fn close_with(reply: Frame) -> (r: Self)
        ensures
            r@ == (ActionView { reply: frame_view(reply), close: true, set_version: None }),
    {
        Action { reply, close: true, set_version: None }
    }
}

// ---------------------------------------------------------------------------
// Commands of the connection
// ---------------------------------------------------------------------------
/// The fields of the reply to `HELLO`.
pub open spec fn hello_fields(version: RespVersion, conn_id: i64) -> Seq<(FrameView, FrameView)> {
    seq![
        (word("server"@), word("gamestore"@)),
        (word("version"@), word(SERVER_VERSION@)),
        (word("proto"@), FrameView::Integer(version.number() as i64)),
        (word("id"@), FrameView::Integer(conn_id)),
        (word("mode"@), word("standalone"@)),
        (word("role"@), word("master"@)),
        (word("modules"@), FrameView::Array(Seq::empty())),
    ]
}

/// A word as a bulk string.
pub open spec fn word(text: Seq<char>) -> FrameView {
    FrameView::Bulk(encode_utf8(text))
}

/// What `HELLO` tells about the server: a map in RESP3, and its fields and values one behind the
/// other in RESP2.
pub open spec fn hello_view(version: RespVersion, conn_id: i64) -> FrameView {
    match version {
        RespVersion::V3 => FrameView::MapReply(hello_fields(version, conn_id)),
        RespVersion::V2 => FrameView::Array(flattened(hello_fields(version, conn_id))),
    }
}

/// What `HELLO` tells about the server.
pub fn hello_reply(version: RespVersion, conn_id: i64) -> (r: Frame)
    ensures
        frame_view(r) == hello_view(version, conn_id),
{
    let mut fields: Vec<(Frame, Frame)> = Vec::new();
    let none: Vec<Frame> = Vec::new();
    assert(frames_view(none@) =~= Seq::<FrameView>::empty());
    fields.push((Frame::from("server"), Frame::from("gamestore")));
    fields.push((Frame::from("version"), Frame::from(SERVER_VERSION)));
    fields.push((Frame::from("proto"), Frame::Integer(version.as_i64())));
    fields.push((Frame::from("id"), Frame::Integer(conn_id)));
    fields.push((Frame::from("mode"), Frame::from("standalone")));
    fields.push((Frame::from("role"), Frame::from("master")));
    fields.push((Frame::from("modules"), array(none)));
    assert(pairs_view(fields@) =~= hello_fields(version, conn_id));
    match version {
        RespVersion::V3 => map_reply(fields),
        RespVersion::V2 => array(flat_frames(fields)),
    }
}

/// Pairs one behind the other.
fn flat_frames(pairs: Vec<(Frame, Frame)>) -> (r: Vec<Frame>)
    ensures
        frames_view(r@) == flattened(pairs_view(pairs@)),
{
    let mut out: Vec<Frame> = Vec::new();
    let mut i: usize = 0;
    while i < pairs.len()
        invariant
            i <= pairs@.len(),
            out@.len() == 2 * i,
            forall|j: int|
                0 <= j < 2 * i ==> frame_view(#[trigger] out@[j]) == flattened(
                    pairs_view(pairs@),
                )[j],
        decreases pairs@.len() - i,
    {
        let ghost was = out@;
        out.push(pairs[i].0.clone());
        out.push(pairs[i].1.clone());
        proof {
            assert forall|j: int| 0 <= j < 2 * (i + 1) implies frame_view(#[trigger] out@[j])
                == flattened(pairs_view(pairs@))[j] by {
                if j < 2 * i {
                    assert(out@[j] == was[j]);
                }
            }
        }
        i += 1;
    }
    assert(frames_view(out@) =~= flattened(pairs_view(pairs@)));
    out
}

/// The protocol version that an argument of `HELLO` asks for: text that is the number of one, with
/// space around it or without.
pub open spec fn asked_version(arg: Seq<u8>) -> Option<RespVersion> {
    if !valid_utf8(arg) {
        None
    } else {
        match trimmed_int(arg) {
            Some(n) => if n == 2 {
                Some(RespVersion::V2)
            } else if n == 3 {
                Some(RespVersion::V3)
            } else {
                None
            },
            None => None,
        }
    }
}

/// `HELLO [protover ...]`: the version that is asked for holds from the reply on; without one the
/// connection stays as it is. What else stands in the request is not looked at.
pub open spec fn hello_action(args: Seq<Seq<u8>>, current: RespVersion, conn_id: i64) -> ActionView {
    if args.len() < 2 {
        ActionView::replies(hello_view(current, conn_id))
    } else {
        match asked_version(args[1]) {
            Some(version) => ActionView {
                reply: hello_view(version, conn_id),
                close: false,
                set_version: Some(version),
            },
            None => ActionView::replies(
                FrameView::Error("NOPROTO unsupported protocol version"@),
            ),
        }
    }
}

/// `HELLO [protover ...]`.
pub fn hello(args: &[Bytes], current: RespVersion, conn_id: i64) -> (r: Action)
    ensures
        r@ == hello_action(all_bytes_of(args@), current, conn_id),
{
    if args.len() < 2 {
        return Action::reply(hello_reply(current, conn_id));
    }
    assert(all_bytes_of(args@)[1] == bytes_of(args@[1]));
    let arg = bytes_slice(&args[1]);
    let asked = match utf8_text(arg) {
        Some(_) => match read_trimmed_int(arg) {
            Some(n) => RespVersion::from_i64(n),
            None => None,
        },
        None => None,
    };
    match asked {
        Some(version) => Action {
            reply: hello_reply(version, conn_id),
            close: false,
            set_version: Some(version),
        },
        None => Action::reply(Frame::error("NOPROTO unsupported protocol version")),
    }
}

/// `CLIENT subcommand`: what sets something about the connection is taken note of and no more, the
/// number of the connection is told, and it has no name.
pub open spec fn client_view(args: Seq<Seq<u8>>, conn_id: i64) -> FrameView {
    if args.len() < 2 {
        wrong_args_view("client"@)
    } else if is_word(args[1], "SETINFO"@) || is_word(args[1], "SETNAME"@) || is_word(
        args[1],
        "NO-EVICT"@,
    ) || is_word(args[1], "NO-TOUCH"@) {
        FrameView::Simple("OK"@)
    } else if is_word(args[1], "ID"@) {
        FrameView::Integer(conn_id)
    } else if is_word(args[1], "GETNAME"@) {
        FrameView::Bulk(Seq::empty())
    } else {
        FrameView::Error(
            "ERR Unknown subcommand or wrong number of arguments for '"@ + shown_text(
                upper_all(args[1]),
            ) + "'. Try CLIENT HELP."@,
        )
    }
}

/// `CLIENT subcommand`.
pub fn client(args: &[Bytes], conn_id: i64) -> (r: Frame)
    ensures
        frame_view(r) == client_view(all_bytes_of(args@), conn_id),
{
    if args.len() < 2 {
        return wrong_args("client");
    }
    assert(all_bytes_of(args@)[1] == bytes_of(args@[1]));
    let sub = &args[1];
    if word_is(sub, "SETINFO") || word_is(sub, "SETNAME") || word_is(sub, "NO-EVICT") || word_is(
        sub,
        "NO-TOUCH",
    ) {
        return Frame::ok();
    }
    if word_is(sub, "ID") {
        return Frame::Integer(conn_id);
    }
    if word_is(sub, "GETNAME") {
        let none: [u8; 0] = [];
        assert(none@ =~= Seq::<u8>::empty());
        return Frame::Bulk(bytes_copy(&none));
    }
    let upper = to_upper(bytes_slice(sub));
    let name = lossy(&upper);
    Frame::Error(
        join3(
            "ERR Unknown subcommand or wrong number of arguments for '",
            &name,
            "'. Try CLIENT HELP.",
        ),
    )
}

/// `SELECT index`: there is one database, the one with the index zero.
pub open spec fn select_view(args: Seq<Seq<u8>>) -> FrameView {
    if args.len() != 2 {
        wrong_args_view("select"@)
    } else {
        match int_value(args[1]) {
            Some(n) => if n == 0 {
                FrameView::Simple("OK"@)
            } else {
                FrameView::Error("ERR DB index is out of range"@)
            },
            None => FrameView::Error(NOT_AN_INTEGER@),
        }
    }
}

/// `SELECT index`.
pub fn select(args: &[Bytes]) -> (r: Frame)
    ensures
        frame_view(r) == select_view(all_bytes_of(args@)),
{
    if args.len() != 2 {
        return wrong_args("select");
    }
    assert(all_bytes_of(args@)[1] == bytes_of(args@[1]));
    match read_int(bytes_slice(&args[1])) {
        Some(n) => if n == 0 {
            Frame::ok()
        } else {
            Frame::error("ERR DB index is out of range")
        },
        None => Frame::error(NOT_AN_INTEGER),
    }
}

/// What is wrong with the arguments of `FLUSHDB` or `FLUSHALL`, if anything is.
pub open spec fn flush_refusal(args: Seq<Seq<u8>>) -> Option<FrameView> {
    if args.len() == 1 || args.len() == 2 && (is_word(args[1], "ASYNC"@) || is_word(
        args[1],
        "SYNC"@,
    )) {
        None
    } else if args.len() == 2 {
        Some(FrameView::Error(SYNTAX_ERROR@))
    } else {
        Some(
            wrong_args_view(
                if is_word(args[0], "FLUSHALL"@) {
                    "flushall"@
                } else {
                    "flushdb"@
                },
            ),
        )
    }
}

/// `FLUSHDB` and `FLUSHALL [ASYNC|SYNC]` leave the store at `after` with the given reply: all keys
/// are gone, or the engine failed, and then all records are gone or none, and
/// the versions are as before.
pub open spec fn flushes(
    args: Seq<Seq<u8>>,
    before: StoreView,
    after: StoreView,
    reply: FrameView,
    failures: Failures,
) -> bool {
    match flush_refusal(args) {
        Some(refusal) => after == before && reply == refusal,
        None => (after, reply) == (flush_op(before).0, FrameView::Simple("OK"@)) || (after
            == before || after == with_db(before, flush_op(before).0.db)) && exists|
            e: EngineErrorView,
        |
            failures.contains(e) && reply == FrameView::Error("ERR "@ + #[trigger] e.message()),
    }
}

/// `FLUSHDB` and `FLUSHALL [ASYNC|SYNC]`.
pub fn flush<E: GeneralEngine>(args: &[Bytes], store: &mut Store<E>) -> (r: Frame)
    requires
        args@.len() > 0,
    ensures
        final(store).readings() == old(store).readings(),
        final(store).failures() == old(store).failures(),
        flushes(
            all_bytes_of(args@),
            old(store)@,
            final(store)@,
            frame_view(r),
            old(store).failures(),
        ),
{
    assert(all_bytes_of(args@)[0] == bytes_of(args@[0]));
    if args.len() == 2 {
        assert(all_bytes_of(args@)[1] == bytes_of(args@[1]));
        if !word_is(&args[1], "ASYNC") && !word_is(&args[1], "SYNC") {
            return Frame::error(SYNTAX_ERROR);
        }
    } else if args.len() > 2 {
        return wrong_args(
            if word_is(&args[0], "FLUSHALL") {
                "flushall"
            } else {
                "flushdb"
            },
        );
    }
    match store.flush_all() {
        Ok(()) => Frame::ok(),
        Err(e) => {
            let text = e.message();
            Frame::Error(join2("ERR ", &text))
        },
    }
}

// ---------------------------------------------------------------------------
// Dispatch
// ---------------------------------------------------------------------------
/// What a request may lead to on a connection.
pub open spec fn acts<E: GeneralEngine, H: CommandHandler<E>>(
    commands: Map<Seq<u8>, Entry<H>>,
    version: RespVersion,
    conn_id: i64,
    args: Seq<Seq<u8>>,
    before: StoreView,
    times: Seq<Now>,
    after: StoreView,
    action: ActionView,
    failures: Failures,
) -> bool {
    let name = args[0];
    if is_word(name, "HELLO"@) {
        after == before && action == hello_action(args, version, conn_id)
    } else if is_word(name, "QUIT"@) {
        after == before && action == (ActionView {
            reply: FrameView::Simple("OK"@),
            close: true,
            set_version: None,
        })
    } else if is_word(name, "CLIENT"@) {
        after == before && action == ActionView::replies(client_view(args, conn_id))
    } else if is_word(name, "SELECT"@) {
        after == before && action == ActionView::replies(select_view(args))
    } else if is_word(name, "COMMAND"@) {
        after == before && action == ActionView::replies(FrameView::Array(Seq::empty()))
    } else if is_word(name, "FLUSHDB"@) || is_word(name, "FLUSHALL"@) {
        action == ActionView::replies(action.reply) && flushes(
            args,
            before,
            after,
            action.reply,
            failures,
        )
    } else {
        action == ActionView::replies(action.reply) && dispatches::<E, H>(
            commands,
            version,
            args,
            before,
            times,
            after,
            action.reply,
            failures,
        )
    }
}

/// Serves one request of a connection with the given protocol version and number.
pub fn dispatch<E: GeneralEngine, H: CommandHandler<E>>(
    args: &[Bytes],
    version: RespVersion,
    conn_id: i64,
    store: &mut Store<E>,
    registry: &CommandRegistry<H>,
) -> (r: Action)
    requires
        args@.len() > 0,
    ensures
        later(*old(store), *final(store)),
        acts::<E, H>(
            registry.commands(),
            version,
            conn_id,
            all_bytes_of(args@),
            old(store)@,
            readings_since(*old(store), *final(store)),
            final(store)@,
            r@,
            old(store).failures(),
        ),
{
    assert(all_bytes_of(args@)[0] == bytes_of(args@[0]));
    let name = &args[0];
    if word_is(name, "HELLO") {
        return hello(args, version, conn_id);
    }
    if word_is(name, "QUIT") {
        return Action::close_with(Frame::ok());
    }
    if word_is(name, "CLIENT") {
        return Action::reply(client(args, conn_id));
    }
    if word_is(name, "SELECT") {
        return Action::reply(select(args));
    }
    if word_is(name, "COMMAND") {
        let none: Vec<Frame> = Vec::new();
        assert(frames_view(none@) =~= Seq::<FrameView>::empty());
        return Action::reply(array(none));
    }
    if word_is(name, "FLUSHDB") || word_is(name, "FLUSHALL") {
        return Action::reply(flush(args, store));
    }
    let mut ctx = ExecCtx::new(store, version);
    let reply = registry.dispatch(&mut ctx, args);
    Action::reply(reply)
}

/// The commands that are served here.
pub open spec fn is_connection_verb(name: Seq<u8>) -> bool {
    is_word(name, "HELLO"@) || is_word(name, "QUIT"@) || is_word(name, "CLIENT"@) || is_word(
        name,
        "SELECT"@,
    ) || is_word(name, "COMMAND"@) || is_word(name, "FLUSHDB"@) || is_word(name, "FLUSHALL"@)
}

/// The label that a command is counted under: its name in upper case, or `UNKNOWN` where there is
/// no such command.
pub open spec fn label_of<H>(raw: Seq<u8>, commands: Map<Seq<u8>, Entry<H>>) -> Seq<char> {
    if is_connection_verb(raw) || commands.contains_key(upper_all(raw)) {
        shown_text(upper_all(raw))
    } else {
        "UNKNOWN"@
    }
}

/// The label that a command is counted under: its name in upper case, or `UNKNOWN` where there is
/// no such command, so that clients cannot make up labels.
pub fn command_label<H: crate::datamodel::registry::CommandArgs>(
    raw: &Bytes,
    registry: &CommandRegistry<H>,
) -> (r: String)
    ensures
        r@ == label_of(bytes_of(*raw), registry.commands()),
        r@ == (if is_connection_verb(bytes_of(*raw)) || registry.commands().contains_key(
            upper_all(bytes_of(*raw)),
        ) {
            shown_text(upper_all(bytes_of(*raw)))
        } else {
            "UNKNOWN"@
        }),
{
    if word_is(raw, "HELLO") || word_is(raw, "QUIT") || word_is(raw, "CLIENT") || word_is(
        raw,
        "SELECT",
    ) || word_is(raw, "COMMAND") || word_is(raw, "FLUSHDB") || word_is(raw, "FLUSHALL")
        || registry.contains(bytes_slice(raw)) {
        let upper = to_upper(bytes_slice(raw));
        lossy(&upper)
    } else {
        "UNKNOWN".to_owned()
    }
}

} // verus!
