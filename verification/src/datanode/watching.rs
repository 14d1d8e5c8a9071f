//! What a data node promises of its listener, its metrics and its slow log.
use vstd::prelude::*;
use vstd::utf8::encode_utf8;

use super::connection::{listener_step, ListenerEvent, ListenerStep};
use super::observability::{
    blank_line_at, is_read, metrics_text, slow_entry, text_asks_for_metrics,
};
use super::server::label_of;
use crate::datamodel::registry::{is_word, Entry};
use crate::spelling::{is_plain, white_space_sets_words_apart};
use crate::text::{decimal_text, shown_text, upper_all};
use crate::words::words;

verus! {

/// What several events lead to, one behind the other.
pub open spec fn listener_steps(
    accepts: bool,
    open: int,
    events: Seq<ListenerEvent>,
) -> (bool, int, Seq<ListenerStep>)
    decreases events.len(),
{
    if events.len() == 0 {
        (accepts, open, Seq::empty())
    } else {
        let (a, n, steps) = listener_steps(accepts, open, events.drop_last());
        let (b, m, step) = listener_step(a, n, events.last());
        (b, m, steps.push(step))
    }
}

/// How many of the steps serve a connection.
pub open spec fn served(steps: Seq<ListenerStep>) -> int
    decreases steps.len(),
{
    if steps.len() == 0 {
        0
    } else {
        served(steps.drop_last()) + if steps.last() == ListenerStep::Serve {
            1int
        } else {
            0
        }
    }
}

/// How many of the events are ends of connections.
pub open spec fn ended(events: Seq<ListenerEvent>) -> int
    decreases events.len(),
{
    if events.len() == 0 {
        0
    } else {
        ended(events.drop_last()) + if events.last() == ListenerEvent::Ended {
            1int
        } else {
            0
        }
    }
}

/// As many connections are open as were served and have not ended; connections are accepted until
/// the shutdown and not from then on.
pub proof fn open_connections_are_those_served(events: Seq<ListenerEvent>)
    ensures
        ({
            let (accepts, open, steps) = listener_steps(true, 0, events);
            &&& steps.len() == events.len()
            &&& open == served(steps) - ended(events)
            &&& accepts == !events.contains(ListenerEvent::Shutdown)
        }),
    decreases events.len(),
{
    if events.len() > 0 {
        let init = events.drop_last();
        open_connections_are_those_served(init);
        let (a, n, steps) = listener_steps(true, 0, init);
        let step = listener_step(a, n, events.last()).2;
        assert(steps.push(step).drop_last() =~= steps);
        if init.contains(ListenerEvent::Shutdown) {
            let i = choose|i: int| 0 <= i < init.len() && init[i] == ListenerEvent::Shutdown;
            assert(events[i] == ListenerEvent::Shutdown);
        }
        if events.contains(ListenerEvent::Shutdown) && events.last() != ListenerEvent::Shutdown {
            let i = choose|i: int| 0 <= i < events.len() && events[i] == ListenerEvent::Shutdown;
            assert(init[i] == ListenerEvent::Shutdown);
        }
        assert(events[events.len() - 1] == events.last());
    }
}

/// A connection is served just where it is accepted before the shutdown; the listener is done just
/// where it no longer accepts and no connection is open; and the connections are told to end at the
/// shutdown, if there are any.
pub proof fn listeners_drain(accepts: bool, open: int, event: ListenerEvent)
    requires
        open >= 0,
        event == ListenerEvent::Ended ==> open > 0,
    ensures
        ({
            let (then, left, step) = listener_step(accepts, open, event);
            &&& (step == ListenerStep::Serve) == (accepts && event == ListenerEvent::Accepted)
            &&& (step == ListenerStep::Finish) == (!then && left == 0)
            &&& (step == ListenerStep::Drain) == (event == ListenerEvent::Shutdown && open > 0)
            &&& event == ListenerEvent::Shutdown || event == ListenerEvent::Failed ==> left == open
            &&& !accepts ==> !then
            &&& left >= 0
        }),
{
}

/// A command is slow where it took as long as the threshold or longer. Its entry tells how long,
/// in whole milliseconds, and of the arguments only the key and how many there are.
pub proof fn slow_commands_are_told(
    args: Seq<Seq<u8>>,
    others: Seq<Seq<u8>>,
    elapsed: u128,
    threshold: u128,
)
    ensures
        slow_entry(args, elapsed, threshold) is Some == (elapsed >= threshold),
        slow_entry(args, elapsed, threshold) matches Some((key, argc, ms)) ==> argc == args.len()
            && (args.len() > 1 ==> key == shown_text(args[1])) && (elapsed < 0x1_0000_0000_0000_0000
            ==> 1_000_000 * ms <= elapsed < 1_000_000 * (ms + 1)),
        args.len() == others.len() && (args.len() > 1 ==> args[1] == others[1]) ==> slow_entry(
            args,
            elapsed,
            threshold,
        ) == slow_entry(others, elapsed, threshold),
{
}

/// The head of a request is read once the blank line behind it is there, wherever it stands, or
/// four thousand and ninety-six bytes are; before that it is not.
pub proof fn heads_end_at_a_blank_line(front: Seq<u8>, rest: Seq<u8>, head: Seq<u8>)
    ensures
        is_read(front + seq![13u8, 10, 13, 10] + rest),
        head.len() >= 4096 ==> is_read(head),
        head.len() < 4096 && (forall|i: int|
            0 <= i && i + 4 <= head.len() ==> #[trigger] head[i] != 13 || head[i + 1] != 10
                || head[i + 2] != 13 || head[i + 3] != 10) ==> !is_read(head),
{
    let s = front + seq![13u8, 10, 13, 10] + rest;
    let n = front.len() as int;
    assert(s[n] == 13 && s[n + 1] == 10 && s[n + 2] == 13 && s[n + 3] == 10);
    assert(blank_line_at(s, n));
}

/// A request line asks for the metrics where its method is `GET` and its path is `/metrics`, with
/// or without a query behind a question mark.
pub proof fn metrics_are_asked_for(text: Seq<char>, method: Seq<u8>, path: Seq<u8>, rest: Seq<u8>)
    requires
        method.len() > 0,
        path.len() > 0,
        forall|i: int| 0 <= i < method.len() ==> is_plain(#[trigger] method[i]),
        forall|i: int| 0 <= i < path.len() ==> is_plain(#[trigger] path[i]),
        encode_utf8(text) == method + seq![32u8] + (path + seq![32u8] + rest),
    ensures
        ({
            let name = encode_utf8("/metrics"@);
            text_asks_for_metrics(text) == (method == encode_utf8("GET"@) && (path == name || (
            exists|query: Seq<u8>| path == #[trigger] (name + seq![63u8] + query))))
        }),
{
    let name = encode_utf8("/metrics"@);
    white_space_sets_words_apart(method, 32, path + seq![32u8] + rest);
    white_space_sets_words_apart(path, 32, rest);
    let parts = words(encode_utf8(text));
    assert(parts =~= seq![method] + (seq![path] + words(rest)));
    assert(parts[0] == method && parts[1] == path);
    if path.len() > name.len() && path.take(name.len() as int) == name && path[name.len() as int]
        == 63 {
        let query = path.skip(name.len() as int + 1);
        assert(path =~= name + seq![63u8] + query);
    }
    assert forall|query: Seq<u8>| path == #[trigger] (name + seq![63u8] + query) implies path.take(
        name.len() as int,
    ) == name && path[name.len() as int] == 63 && path.len() > name.len() by {
        assert(path.take(name.len() as int) =~= name);
    }
}

/// The answer with the metrics is their text behind a head that tells its length in bytes.
pub proof fn metrics_tell_their_length(body: Seq<char>)
    ensures
        metrics_text(body)
            == "HTTP/1.1 200 OK\r\ncontent-type: text/plain; version=0.0.4; charset=utf-8\r\ncontent-length: "@
            + decimal_text(encode_utf8(body).len() as int) + "\r\nconnection: close\r\n\r\n"@
            + body,
{
    let head =
        "HTTP/1.1 200 OK\r\ncontent-type: text/plain; version=0.0.4; charset=utf-8\r\ncontent-length: "@
        + decimal_text(encode_utf8(body).len() as int);
    assert(metrics_text(body) =~= head + "\r\nconnection: close\r\n\r\n"@ + body);
}

/// A command is counted under its name in capital letters, whichever letters it is asked for in,
/// and under `UNKNOWN` where it is none.
pub proof fn labels_are_names<H>(a: Seq<u8>, b: Seq<u8>, commands: Map<Seq<u8>, Entry<H>>)
    requires
        upper_all(a) == upper_all(b),
    ensures
        label_of(a, commands) == label_of(b, commands),
        commands.contains_key(upper_all(a)) || is_word(a, "HELLO"@) || is_word(a, "QUIT"@)
            || is_word(a, "CLIENT"@) || is_word(a, "SELECT"@) || is_word(a, "COMMAND"@) || is_word(
            a,
            "FLUSHDB"@,
        ) || is_word(a, "FLUSHALL"@) ==> label_of(a, commands) == shown_text(
            upper_all(a),
        ),
        !commands.contains_key(upper_all(a)) && !is_word(a, "HELLO"@) && !is_word(a, "QUIT"@)
            && !is_word(a, "CLIENT"@) && !is_word(a, "SELECT"@) && !is_word(a, "COMMAND"@)
            && !is_word(a, "FLUSHDB"@) && !is_word(a, "FLUSHALL"@) ==> label_of(a, commands)
            == "UNKNOWN"@,
{
}

} // verus!
