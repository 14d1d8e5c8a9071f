//! What a data node promises of the requests that are about the connection itself.
use vstd::prelude::*;
use vstd::utf8::{encode_utf8, encode_utf8_decode_utf8};

use super::connection::{connection_steps, step_of, Event, StepView};
use super::server::{acts, ActionView, SERVER_VERSION};
use crate::buffer::all_bytes_of;
use crate::datamodel::registry::{dispatches, is_word, CommandHandler, Entry};
use crate::engine::engine::{Failures, GeneralEngine};
use crate::engine::laws::whole::flush_law;
use crate::engine::model::{Now, StoreView};
use crate::engine::values::entry;
use crate::protocol::frame::{FrameView, RespVersion};
use crate::spelling::integers_are_trimmed;
use crate::text::{
    ascii_is_utf8, decimal, decimal_is_short, int_value, is_digit, shown_text, upper_all,
};

verus! {

/// The names of the requests are words of their own.
proof fn verbs_differ(arg: Seq<u8>)
    ensures
        is_word(arg, "HELLO"@) ==> !is_word(arg, "QUIT"@),
        is_word(arg, "CLIENT"@) ==> !is_word(arg, "HELLO"@) && !is_word(arg, "QUIT"@),
        is_word(arg, "SELECT"@) ==> !is_word(arg, "HELLO"@) && !is_word(arg, "QUIT"@) && !is_word(
            arg,
            "CLIENT"@,
        ),
        is_word(arg, "COMMAND"@) ==> !is_word(arg, "HELLO"@) && !is_word(arg, "QUIT"@) && !is_word(
            arg,
            "CLIENT"@,
        ) && !is_word(arg, "SELECT"@),
        is_word(arg, "QUIT"@) ==> !is_word(arg, "HELLO"@),
        is_word(arg, "FLUSHDB"@) || is_word(arg, "FLUSHALL"@) ==> !is_word(arg, "HELLO"@)
            && !is_word(arg, "QUIT"@) && !is_word(arg, "CLIENT"@) && !is_word(arg, "SELECT"@)
            && !is_word(arg, "COMMAND"@),
{
    reveal_strlit("HELLO");
    reveal_strlit("QUIT");
    reveal_strlit("CLIENT");
    reveal_strlit("SELECT");
    reveal_strlit("COMMAND");
    reveal_strlit("FLUSHDB");
    reveal_strlit("FLUSHALL");
    encode_utf8_decode_utf8("HELLO"@);
    encode_utf8_decode_utf8("QUIT"@);
    encode_utf8_decode_utf8("CLIENT"@);
    encode_utf8_decode_utf8("SELECT"@);
    encode_utf8_decode_utf8("COMMAND"@);
    encode_utf8_decode_utf8("FLUSHDB"@);
    encode_utf8_decode_utf8("FLUSHALL"@);
    assert("CLIENT"@[0] == 'C' && "SELECT"@[0] == 'S' && "COMMAND"@[0] == 'C' && "FLUSHDB"@[0]
        == 'F' && "FLUSHALL"@[0] == 'F' && "HELLO"@[0] == 'H' && "QUIT"@[0] == 'Q');
}

/// The words that `CLIENT` knows differ.
proof fn subcommands_differ(arg: Seq<u8>)
    ensures
        is_word(arg, "ID"@) ==> !is_word(arg, "SETINFO"@) && !is_word(arg, "SETNAME"@) && !is_word(
            arg,
            "NO-EVICT"@,
        ) && !is_word(arg, "NO-TOUCH"@),
        is_word(arg, "GETNAME"@) ==> !is_word(arg, "SETINFO"@) && !is_word(arg, "SETNAME"@)
            && !is_word(arg, "NO-EVICT"@) && !is_word(arg, "NO-TOUCH"@) && !is_word(arg, "ID"@),
{
    reveal_strlit("ID");
    reveal_strlit("SETINFO");
    reveal_strlit("SETNAME");
    reveal_strlit("NO-EVICT");
    reveal_strlit("NO-TOUCH");
    reveal_strlit("GETNAME");
    encode_utf8_decode_utf8("ID"@);
    encode_utf8_decode_utf8("SETINFO"@);
    encode_utf8_decode_utf8("SETNAME"@);
    encode_utf8_decode_utf8("NO-EVICT"@);
    encode_utf8_decode_utf8("NO-TOUCH"@);
    encode_utf8_decode_utf8("GETNAME"@);
    assert("GETNAME"@[0] == 'G' && "SETNAME"@[0] == 'S' && "SETINFO"@[0] == 'S');
}

/// The reply to a request with the wrong number of arguments.
pub open spec fn wrong_number(name: Seq<char>) -> FrameView {
    FrameView::Error("ERR wrong number of arguments for '"@ + name + "' command"@)
}

/// A word as a bulk string.
pub open spec fn bulk_word(text: Seq<char>) -> FrameView {
    FrameView::Bulk(encode_utf8(text))
}

/// The reply tells the protocol version and the number of the connection, among other things: as a
/// map in RESP3, and in RESP2 as an array of names and values.
pub open spec fn tells(reply: FrameView, version: RespVersion, conn_id: i64) -> bool {
    &&& version == RespVersion::V3 ==> {
        &&& reply matches FrameView::MapReply(pairs)
        &&& pairs.len() == 7
        &&& pairs[0] == (bulk_word("server"@), bulk_word("gamestore"@))
        &&& pairs[1] == (bulk_word("version"@), bulk_word(SERVER_VERSION@))
        &&& pairs[2] == (bulk_word("proto"@), FrameView::Integer(3))
        &&& pairs[3] == (bulk_word("id"@), FrameView::Integer(conn_id))
        &&& pairs[4] == (bulk_word("mode"@), bulk_word("standalone"@))
        &&& pairs[5] == (bulk_word("role"@), bulk_word("master"@))
        &&& pairs[6] == (bulk_word("modules"@), FrameView::Array(Seq::empty()))
    }
    &&& version == RespVersion::V2 ==> {
        &&& reply matches FrameView::Array(items)
        &&& items.len() == 14
        &&& items[0] == bulk_word("server"@) && items[1] == bulk_word("gamestore"@)
        &&& items[2] == bulk_word("version"@) && items[3] == bulk_word(SERVER_VERSION@)
        &&& items[4] == bulk_word("proto"@) && items[5] == FrameView::Integer(2)
        &&& items[6] == bulk_word("id"@) && items[7] == FrameView::Integer(conn_id)
        &&& items[8] == bulk_word("mode"@) && items[9] == bulk_word("standalone"@)
        &&& items[10] == bulk_word("role"@) && items[11] == bulk_word("master"@)
        &&& items[12] == bulk_word("modules"@) && items[13] == FrameView::Array(Seq::empty())
    }
}

/// What `HELLO` is answered tells the version that it is answered in.
proof fn hello_tells(version: RespVersion, conn_id: i64)
    ensures
        tells(super::server::hello_view(version, conn_id), version, conn_id),
{
}

/// `HELLO` without a version leaves the connection in the one that it is in and tells it. `HELLO 2`
/// and `HELLO 3` take the connection to that version, which the reply is in already. Any other
/// number is refused and the connection stays as it is.
pub proof fn hello_takes_the_version<E: GeneralEngine, H: CommandHandler<E>>(
    commands: Map<Seq<u8>, Entry<H>>,
    version: RespVersion,
    conn_id: i64,
    args: Seq<Seq<u8>>,
    before: StoreView,
    times: Seq<Now>,
    after: StoreView,
    action: ActionView,
    failures: Failures,
    n: i64,
)
    requires
        args.len() >= 1,
        is_word(args[0], "HELLO"@),
        args.len() >= 2 ==> args[1] == decimal(n as int),
        acts::<E, H>(
            commands,
            version,
            conn_id,
            args,
            before,
            times,
            after,
            action,
            failures,
        ),
    ensures
        after == before,
        !action.close,
        args.len() == 1 ==> action.set_version is None && tells(action.reply, version, conn_id),
        args.len() >= 2 && n == 2 ==> action.set_version == Some(RespVersion::V2) && tells(
            action.reply,
            RespVersion::V2,
            conn_id,
        ),
        args.len() >= 2 && n == 3 ==> action.set_version == Some(RespVersion::V3) && tells(
            action.reply,
            RespVersion::V3,
            conn_id,
        ),
        args.len() >= 2 && n != 2 && n != 3 ==> action.set_version is None && action.reply
            == FrameView::Error("NOPROTO unsupported protocol version"@),
{
    let d = decimal(n as int);
    integers_are_trimmed(n, 32, 32);
    decimal_is_short(n as int);
    assert forall|i: int| 0 <= i < d.len() implies #[trigger] d[i] < 128 by {
        assert(is_digit(d[i]) || d[i] == 45);
    }
    ascii_is_utf8(d);
    hello_tells(version, conn_id);
    hello_tells(RespVersion::V2, conn_id);
    hello_tells(RespVersion::V3, conn_id);
}

/// `QUIT` is answered `OK` and ends the connection; `SELECT 0` is answered `OK` and any other index
/// is refused; `CLIENT ID` is answered the number of the connection, `CLIENT GETNAME` an empty
/// string, what `CLIENT` sets `OK`; `COMMAND` is answered an empty array. None of them changes the
/// store, and only `QUIT` ends the connection.
pub proof fn verbs_are_answered<E: GeneralEngine, H: CommandHandler<E>>(
    commands: Map<Seq<u8>, Entry<H>>,
    version: RespVersion,
    conn_id: i64,
    args: Seq<Seq<u8>>,
    before: StoreView,
    times: Seq<Now>,
    after: StoreView,
    action: ActionView,
    failures: Failures,
)
    requires
        args.len() >= 1,
        is_word(args[0], "QUIT"@) || is_word(args[0], "SELECT"@) || is_word(args[0], "CLIENT"@)
            || is_word(args[0], "COMMAND"@),
        acts::<E, H>(
            commands,
            version,
            conn_id,
            args,
            before,
            times,
            after,
            action,
            failures,
        ),
    ensures
        after == before,
        action.set_version is None,
        action.close == is_word(args[0], "QUIT"@),
        is_word(args[0], "QUIT"@) ==> action.reply == FrameView::Simple("OK"@),
        is_word(args[0], "COMMAND"@) ==> action.reply == FrameView::Array(Seq::empty()),
        is_word(args[0], "SELECT"@) ==> {
            &&& args.len() != 2 ==> action.reply == wrong_number("select"@)
            &&& args.len() == 2 && int_value(args[1]) == Some(0i64) ==> action.reply
                == FrameView::Simple("OK"@)
            &&& args.len() == 2 && int_value(args[1]) is None ==> action.reply == FrameView::Error(
                "ERR value is not an integer or out of range"@,
            )
            &&& args.len() == 2 && int_value(args[1]) is Some && int_value(args[1]) != Some(0i64)
                ==> action.reply == FrameView::Error("ERR DB index is out of range"@)
        },
        is_word(args[0], "CLIENT"@) ==> {
            &&& args.len() < 2 ==> action.reply == wrong_number("client"@)
            &&& args.len() >= 2 && is_word(args[1], "ID"@) ==> action.reply == FrameView::Integer(
                conn_id,
            )
            &&& args.len() >= 2 && is_word(args[1], "GETNAME"@) ==> action.reply == FrameView::Bulk(
                Seq::empty(),
            )
            &&& args.len() >= 2 && (is_word(args[1], "SETNAME"@) || is_word(args[1], "SETINFO"@)
                || is_word(args[1], "NO-EVICT"@) || is_word(args[1], "NO-TOUCH"@)) ==> action.reply
                == FrameView::Simple("OK"@)
            &&& args.len() >= 2 && !is_word(args[1], "ID"@) && !is_word(args[1], "GETNAME"@)
                && !is_word(args[1], "SETNAME"@) && !is_word(args[1], "SETINFO"@) && !is_word(
                args[1],
                "NO-EVICT"@,
            ) && !is_word(args[1], "NO-TOUCH"@) ==> action.reply == FrameView::Error(
                "ERR Unknown subcommand or wrong number of arguments for '"@ + shown_text(
                    upper_all(args[1]),
                ) + "'. Try CLIENT HELP."@,
            )
        },
{
    verbs_differ(args[0]);
    if args.len() >= 2 {
        subcommands_differ(args[1]);
    }
}

/// `FLUSHDB` and `FLUSHALL`, as they are or with `ASYNC` or `SYNC`, empty the store where the
/// engine does not fail; with any other argument, or with more, they are refused and nothing
/// changes.
pub proof fn flushes_are_answered<E: GeneralEngine, H: CommandHandler<E>>(
    commands: Map<Seq<u8>, Entry<H>>,
    version: RespVersion,
    conn_id: i64,
    args: Seq<Seq<u8>>,
    before: StoreView,
    times: Seq<Now>,
    after: StoreView,
    action: ActionView,
    failures: Failures,
)
    requires
        args.len() >= 1,
        is_word(args[0], "FLUSHDB"@) || is_word(args[0], "FLUSHALL"@),
        acts::<E, H>(
            commands,
            version,
            conn_id,
            args,
            before,
            times,
            after,
            action,
            failures,
        ),
    ensures
        !action.close && action.set_version is None,
        args.len() == 1 || args.len() == 2 && (is_word(args[1], "ASYNC"@) || is_word(
            args[1],
            "SYNC"@,
        )) ==> {
            &&& action.reply == FrameView::Simple("OK"@) ==> forall|k: Seq<u8>| #[trigger]
                entry(after, k) is None
            &&& action.reply != FrameView::Simple("OK"@) ==> exists|
                e: crate::engine::error::EngineErrorView,
            | #[trigger] failures.contains(e)
        },
        args.len() > 2 || args.len() == 2 && !is_word(args[1], "ASYNC"@) && !is_word(
            args[1],
            "SYNC"@,
        ) ==> after == before && action.reply == if args.len() == 2 {
            FrameView::Error("ERR syntax error"@)
        } else if is_word(args[0], "FLUSHALL"@) {
            wrong_number("flushall"@)
        } else {
            wrong_number("flushdb"@)
        },
{
    verbs_differ(args[0]);
    flush_law(before);
}

/// Any other request goes to the commands of the store, and leaves the connection as it is.
pub proof fn others_go_to_the_store<E: GeneralEngine, H: CommandHandler<E>>(
    commands: Map<Seq<u8>, Entry<H>>,
    version: RespVersion,
    conn_id: i64,
    args: Seq<Seq<u8>>,
    before: StoreView,
    times: Seq<Now>,
    after: StoreView,
    action: ActionView,
    failures: Failures,
)
    requires
        args.len() >= 1,
        !is_word(args[0], "HELLO"@) && !is_word(args[0], "QUIT"@) && !is_word(args[0], "CLIENT"@)
            && !is_word(args[0], "SELECT"@) && !is_word(args[0], "COMMAND"@) && !is_word(
            args[0],
            "FLUSHDB"@,
        ) && !is_word(args[0], "FLUSHALL"@),
        acts::<E, H>(
            commands,
            version,
            conn_id,
            args,
            before,
            times,
            after,
            action,
            failures,
        ),
    ensures
        !action.close,
        action.set_version is None,
        dispatches::<E, H>(
            commands,
            version,
            args,
            before,
            times,
            after,
            action.reply,
            failures,
        ),
{
}

/// A connection ends where the client ends it or the server stops, behind `QUIT` and behind what is
/// no request, which is answered with an error first; an empty request is waited over, and any
/// other request is answered and the connection goes on. Its protocol version changes with `HELLO`
/// alone.
pub proof fn connections_go_on<E: GeneralEngine, H: CommandHandler<E>>(
    commands: Map<Seq<u8>, Entry<H>>,
    id: i64,
    version: RespVersion,
    event: Event,
    before: StoreView,
    times: Seq<Now>,
    next: RespVersion,
    after: StoreView,
    step: StepView,
    failures: Failures,
)
    requires
        connection_steps::<E, H>(
            commands,
            id,
            version,
            event,
            before,
            times,
            next,
            after,
            step,
            failures,
        ),
    ensures
        event is Shutdown || event is Closed ==> step == StepView::Close,
        event is Malformed || event is Broken ==> (step matches StepView::SendAndClose(
            FrameView::Error(_),
        )),
        !(event is Request) ==> next == version && after == before,
        event matches Event::Request(args) ==> if args@.len() == 0 {
            step == StepView::Wait && next == version && after == before
        } else {
            let name = all_bytes_of(args@)[0];
            &&& is_word(name, "QUIT"@) ==> step == StepView::SendAndClose(FrameView::Simple("OK"@))
            &&& !is_word(name, "QUIT"@) ==> step is Send
            &&& !is_word(name, "HELLO"@) ==> next == version
        },
{
    if let Event::Request(args) = event {
        if args@.len() > 0 {
            verbs_differ(all_bytes_of(args@)[0]);
            let action = choose|action: ActionView|
                #![trigger step_of(action)]
                acts::<E, H>(
                    commands,
                    version,
                    id,
                    all_bytes_of(args@),
                    before,
                    times,
                    after,
                    action,
                    failures,
                ) && step == step_of(action) && next == (match action.set_version {
                    Some(v) => v,
                    None => version,
                });
            assert(step == step_of(action));
        }
    }
}

/// `HELLO 2` and `HELLO 3` take a connection to that version, and their reply tells it; `HELLO`
/// with another number leaves it where it is. What any other request is answered is sent as it is.
pub proof fn replies_are_sent<E: GeneralEngine, H: CommandHandler<E>>(
    commands: Map<Seq<u8>, Entry<H>>,
    id: i64,
    version: RespVersion,
    event: Event,
    before: StoreView,
    times: Seq<Now>,
    next: RespVersion,
    after: StoreView,
    step: StepView,
    failures: Failures,
    n: i64,
)
    requires
        event is Request,
        event->Request_0@.len() > 0,
        connection_steps::<E, H>(
            commands,
            id,
            version,
            event,
            before,
            times,
            next,
            after,
            step,
            failures,
        ),
    ensures
        ({
            let args = all_bytes_of(event->Request_0@);
            let hello = is_word(args[0], "HELLO"@);
            let verb = hello || is_word(args[0], "QUIT"@) || is_word(args[0], "CLIENT"@) || is_word(
                args[0],
                "SELECT"@,
            ) || is_word(args[0], "COMMAND"@) || is_word(args[0], "FLUSHDB"@) || is_word(
                args[0],
                "FLUSHALL"@,
            );
            &&& hello && args.len() >= 2 && args[1] == decimal(n as int) ==> {
                &&& n == 2 ==> next == RespVersion::V2 && (step matches StepView::Send(reply)
                    && tells(reply, RespVersion::V2, id))
                &&& n == 3 ==> next == RespVersion::V3 && (step matches StepView::Send(reply)
                    && tells(reply, RespVersion::V3, id))
                &&& n != 2 && n != 3 ==> next == version
            }
            &&& hello && args.len() == 1 ==> next == version && (step matches StepView::Send(reply)
                && tells(reply, version, id))
            &&& !verb ==> (step matches StepView::Send(reply) && dispatches::<E, H>(
                commands,
                version,
                args,
                before,
                times,
                after,
                reply,
                failures,
            ))
        }),
{
    let args = all_bytes_of(event->Request_0@);
    let action = choose|action: ActionView|
        #![trigger step_of(action)]
        acts::<E, H>(
            commands,
            version,
            id,
            args,
            before,
            times,
            after,
            action,
            failures,
        ) && step == step_of(action) && next == (match action.set_version {
            Some(v) => v,
            None => version,
        });
    if is_word(args[0], "HELLO"@) && (args.len() == 1 || args[1] == decimal(n as int)) {
        hello_takes_the_version::<E, H>(
            commands,
            version,
            id,
            args,
            before,
            times,
            after,
            action,
            failures,
            n,
        );
    }
}

} // verus!
