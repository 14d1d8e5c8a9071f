//! What holds of a data node as a whole.
use vstd::prelude::*;
use vstd::utf8::encode_utf8_decode_utf8;

use super::server::{acts, asked_version, hello_action, hello_view, is_connection_verb, ActionView};
use crate::datamodel::registry::{is_word, CommandHandler, Entry};
use crate::engine::engine::{Failures, GeneralEngine};
use crate::engine::laws::whole::flush_law;
use crate::engine::model::{Now, StoreView};
use crate::engine::values::{entry, sound};
use crate::protocol::frame::{FrameView, RespVersion};

verus! {

/// `HELLO` with a protocol version is answered in that version already; with one that there is
/// not, it is refused and the connection stays as it is.
pub proof fn hello_answers_in_the_new_version(
    args: Seq<Seq<u8>>,
    current: RespVersion,
    conn_id: i64,
)
    requires
        args.len() >= 2,
    ensures
        match asked_version(args[1]) {
            Some(version) => hello_action(args, current, conn_id) == (ActionView {
                reply: hello_view(version, conn_id),
                close: false,
                set_version: Some(version),
            }),
            None => hello_action(args, current, conn_id).set_version is None && hello_action(
                args,
                current,
                conn_id,
            ).reply is Error,
        },
{
}

/// Only `QUIT` ends a connection, and only `HELLO` changes its protocol version.
pub proof fn only_quit_closes<E: GeneralEngine, H: CommandHandler<E>>(
    commands: Map<Seq<u8>, Entry<H>>,
    version: RespVersion,
    conn_id: i64,
    args: Seq<Seq<u8>>,
    before: StoreView,
    times: Seq<Now>,
    after: StoreView,
    action: ActionView,
    failures: Failures,
)
    requires
        args.len() > 0,
        acts::<E, H>(
            commands,
            version,
            conn_id,
            args,
            before,
            times,
            after,
            action,
            failures,
        ),
    ensures
        action.close ==> is_word(args[0], "QUIT"@),
        action.set_version is Some ==> is_word(args[0], "HELLO"@),
{
}

/// A command of the connection leaves the store as it is, unless it empties it.
pub proof fn housekeeping_changes_nothing<E: GeneralEngine, H: CommandHandler<E>>(
    commands: Map<Seq<u8>, Entry<H>>,
    version: RespVersion,
    conn_id: i64,
    args: Seq<Seq<u8>>,
    before: StoreView,
    times: Seq<Now>,
    after: StoreView,
    action: ActionView,
    failures: Failures,
)
    requires
        args.len() > 0,
        is_connection_verb(args[0]),
        !is_word(args[0], "FLUSHDB"@),
        !is_word(args[0], "FLUSHALL"@),
        acts::<E, H>(
            commands,
            version,
            conn_id,
            args,
            before,
            times,
            after,
            action,
            failures,
        ),
    ensures
        after == before,
{
}

/// After `FLUSHDB` or `FLUSHALL` that replied `OK` no key is there.
pub proof fn flushed_is_empty<E: GeneralEngine, H: CommandHandler<E>>(
    commands: Map<Seq<u8>, Entry<H>>,
    version: RespVersion,
    conn_id: i64,
    args: Seq<Seq<u8>>,
    before: StoreView,
    times: Seq<Now>,
    after: StoreView,
    action: ActionView,
    failures: Failures,
    key: Seq<u8>,
)
    requires
        args.len() > 0,
        is_word(args[0], "FLUSHDB"@) || is_word(args[0], "FLUSHALL"@),
        acts::<E, H>(
            commands,
            version,
            conn_id,
            args,
            before,
            times,
            after,
            action,
            failures,
        ),
        action.reply == FrameView::Simple("OK"@),
    ensures
        entry(after, key) is None,
        sound(after),
{
    reveal_strlit("HELLO");
    reveal_strlit("QUIT");
    reveal_strlit("CLIENT");
    reveal_strlit("SELECT");
    reveal_strlit("COMMAND");
    reveal_strlit("FLUSHDB");
    reveal_strlit("FLUSHALL");
    let flush = if is_word(args[0], "FLUSHDB"@) {
        "FLUSHDB"@
    } else {
        "FLUSHALL"@
    };
    assert(flush[0] == 'F');
    is_one_word(args[0], flush, "HELLO"@);
    is_one_word(args[0], flush, "QUIT"@);
    is_one_word(args[0], flush, "CLIENT"@);
    is_one_word(args[0], flush, "SELECT"@);
    is_one_word(args[0], flush, "COMMAND"@);
    flush_law(before);
}

/// An argument is not two different words.
proof fn is_one_word(arg: Seq<u8>, a: Seq<char>, b: Seq<char>)
    requires
        is_word(arg, a),
        a[0] != b[0],
    ensures
        !is_word(arg, b),
{
    encode_utf8_decode_utf8(a);
    encode_utf8_decode_utf8(b);
}

} // verus!
