//! What a data node promises: its own requests, its arguments and its configuration, and the
//! requests that the small reader takes.
use vstd::prelude::*;
use vstd::utf8::encode_utf8;

use super::args::{parsed, with_args, ArgsView, ParsedView};
use super::resp::{
    header_int, inline_words, line_step, one_more, reply_wire, stripped, ReaderView, Reply,
    WantView,
};
use crate::common::config::{overridden, ConfigView, Overrides};
use crate::protocol::encode::{crlf, wire};
use crate::protocol::frame::{FrameView, RespVersion};
use crate::spelling::integers_are_trimmed;
use crate::text::{ascii_is_utf8, decimal, decimal_is_short, is_digit, uint_value};

verus! {

// ---------------------------------------------------------------------------
// The small reader and writer
// ---------------------------------------------------------------------------
/// A reply of the small writer is what the encoder writes in RESP2.
pub proof fn small_replies_are_resp2(reply: Reply)
    ensures
        reply_wire(reply) == wire(
            match reply {
                Reply::Simple(s) => FrameView::Simple(s@),
                Reply::Error(s) => FrameView::Error(s@),
                Reply::Bulk(Some(data)) => FrameView::Bulk(data@),
                Reply::Bulk(None) => FrameView::Null,
            },
            RespVersion::V2,
        ),
{
    match reply {
        Reply::Bulk(None) => {
            crate::text::nat_digits_denote(1);
            assert(decimal(-1) =~= seq![45u8, 49]);
            assert(reply_wire(reply) =~= wire(FrameView::Null, RespVersion::V2));
        },
        Reply::Bulk(Some(data)) => {
            assert(reply_wire(reply) =~= wire(FrameView::Bulk(data@), RespVersion::V2));
        },
        Reply::Simple(s) => {
            assert(reply_wire(reply) =~= wire(FrameView::Simple(s@), RespVersion::V2));
        },
        Reply::Error(s) => {
            assert(reply_wire(reply) =~= wire(FrameView::Error(s@), RespVersion::V2));
        },
    }
}

/// The line with a kind of value and a number.
pub open spec fn header_line(kind: u8, n: int) -> Seq<u8> {
    seq![kind] + decimal(n) + crlf()
}

/// Line feeds and carriage returns behind a line are taken off, however many there are, and nothing
/// else is.
pub proof fn only_line_ends_come_off(line: Seq<u8>, ends: Seq<u8>)
    requires
        line.len() == 0 || line.last() != 10 && line.last() != 13,
        forall|i: int| 0 <= i < ends.len() ==> #[trigger] ends[i] == 10 || ends[i] == 13,
    ensures
        stripped(line + ends) == line,
    decreases ends.len(),
{
    let s = line + ends;
    if ends.len() == 0 {
        assert(s =~= line);
    } else {
        assert(s.last() == ends[ends.len() - 1]);
        assert(s.drop_last() =~= line + ends.drop_last());
        only_line_ends_come_off(line, ends.drop_last());
    }
}

/// Line ends behind a line are taken off, and nothing else.
proof fn line_ends_come_off(line: Seq<u8>)
    requires
        line.len() > 0,
        line.last() != 10,
        line.last() != 13,
    ensures
        stripped(line) == line,
        stripped(line + crlf()) == line,
{
    reveal_with_fuel(stripped, 3);
    let s = line + crlf();
    assert(s.drop_last() =~= line.push(13));
    assert(line.push(13).drop_last() =~= line);
}

/// The number in a header is read.
proof fn headers_are_read(kind: u8, n: i64)
    ensures
        ({
            let line = stripped(header_line(kind, n as int));
            &&& line.len() > 0
            &&& line[0] == kind
            &&& header_int(line.skip(1)) == Some(n)
        }),
{
    let d = decimal(n as int);
    decimal_is_short(n as int);
    integers_are_trimmed(n, 32, 32);
    assert forall|i: int| 0 <= i < d.len() implies #[trigger] d[i] < 128 by {
        assert(is_digit(d[i]) || d[i] == 45);
    }
    ascii_is_utf8(d);
    let line = seq![kind] + d;
    crate::text::nat_digits_denote(
        (if n < 0 {
            -n
        } else {
            n as int
        }) as nat,
    );
    assert(d.len() > 0);
    assert(line.last() == d.last());
    assert(is_digit(d[d.len() - 1]) || d[d.len() - 1] == 45);
    line_ends_come_off(line);
    assert(header_line(kind, n as int) =~= line + crlf());
    assert(line.skip(1) =~= d);
}

/// The reader is handed the arguments one by one, each as a line with its length and then its bytes
/// with a line end.
pub open spec fn handed(s: ReaderView, args: Seq<Seq<u8>>) -> (ReaderView, WantView)
    decreases args.len(),
{
    if args.len() == 0 {
        (s, WantView::Line)
    } else {
        let (t, want) = line_step(s, Some(header_line(36, args[0].len() as int)));
        if want != WantView::Exactly((args[0].len() + 2) as u64) {
            (t, want)
        } else {
            let (u, next) = one_more(t, (args[0] + crlf()).take(t.length as int));
            if args.len() == 1 || next != WantView::Line {
                (u, next)
            } else {
                handed(u, args.skip(1))
            }
        }
    }
}

/// Arguments that are handed over come out behind those that were there.
proof fn arguments_come_out(s: ReaderView, args: Seq<Seq<u8>>)
    requires
        args.len() >= 1,
        args.len() <= i64::MAX,
        s.left == Some(args.len() as u64),
        forall|i: int| 0 <= i < args.len() ==> (#[trigger] args[i]).len() <= i64::MAX - 2,
    ensures
        handed(s, args).1 == WantView::Done(s.args + args),
    decreases args.len(),
{
    let first = args[0];
    headers_are_read(36, first.len() as i64);
    let t = line_step(s, Some(header_line(36, first.len() as int))).0;
    assert(t.length == first.len());
    assert((first + crlf()).take(first.len() as int) =~= first);
    let u = one_more(t, first).0;
    if args.len() == 1 {
        assert(s.args.push(first) =~= s.args + args);
    } else {
        let rest = args.skip(1);
        assert forall|i: int| 0 <= i < rest.len() implies (#[trigger] rest[i]).len() <= i64::MAX
            - 2 by {
            assert(rest[i] == args[i + 1]);
        }
        arguments_come_out(u, rest);
        assert(s.args.push(first) + rest =~= s.args + args);
    }
}

/// A request that is sent as an array of bulk strings comes out of the reader as its arguments.
pub proof fn requests_come_out_whole(args: Seq<Seq<u8>>)
    requires
        args.len() >= 1,
        args.len() <= i64::MAX,
        forall|i: int| 0 <= i < args.len() ==> (#[trigger] args[i]).len() <= i64::MAX - 2,
    ensures
        ({
            let new = ReaderView { left: None, length: 0, args: Seq::empty() };
            let (s, want) = line_step(new, Some(header_line(42, args.len() as int)));
            &&& want == WantView::Line
            &&& handed(s, args).1 == WantView::Done(args)
        }),
{
    headers_are_read(42, args.len() as i64);
    let new = ReaderView { left: None, length: 0, args: Seq::empty() };
    let s = line_step(new, Some(header_line(42, args.len() as int))).0;
    arguments_come_out(s, args);
    assert(Seq::<Seq<u8>>::empty() + args =~= args);
}

/// A request of no or negative length and an empty line are requests without arguments; an argument
/// of negative length is empty; at the end of the input the client is gone; and where a bulk string
/// is due nothing else is taken.
pub proof fn odd_requests_are_read(s: ReaderView, m: u64, n: i64, line: Seq<u8>)
    requires
        s.left == Some(m),
        m > 0,
    ensures
        ({
            let new = ReaderView { left: None, length: 0, args: Seq::empty() };
            &&& line_step(new, None).1 == WantView::Gone
            &&& line_step(s, None).1 == WantView::Gone
            &&& line_step(new, Some(crlf())).1 == WantView::Done(Seq::empty())
            &&& n <= 0 ==> line_step(new, Some(header_line(42, n as int))).1 == WantView::Done(
                Seq::empty(),
            )
            &&& n < 0 && m == 1 ==> line_step(s, Some(header_line(36, n as int))).1
                == WantView::Done(s.args.push(Seq::empty()))
            &&& n < 0 && m > 1 ==> line_step(s, Some(header_line(36, n as int))) == (
                ReaderView {
                    left: Some((m - 1) as u64),
                    length: 0,
                    args: s.args.push(Seq::empty()),
                },
                WantView::Line,
            )
            &&& line.len() > 0 && line[0] != 36 && line.last() != 10 && line.last() != 13
                ==> line_step(s, Some(line + crlf())).1 is Bad
        }),
{
    reveal_with_fuel(stripped, 3);
    assert(crlf().drop_last() =~= seq![13u8]);
    assert(seq![13u8].drop_last() =~= Seq::empty());
    headers_are_read(42, n);
    headers_are_read(36, n);
    if line.len() > 0 && line.last() != 10 && line.last() != 13 {
        line_ends_come_off(line);
    }
}

/// What was read of a word and the bytes behind it that are no space make one word.
proof fn bytes_make_a_word(word: Seq<u8>, w: Seq<u8>, rest: Seq<u8>)
    requires
        forall|i: int| 0 <= i < w.len() ==> #[trigger] w[i] != 32 && w[i] != 9,
    ensures
        inline_words(word, w + rest) == inline_words(word + w, rest),
    decreases w.len(),
{
    if w.len() == 0 {
        assert(w + rest =~= rest);
        assert(word + w =~= word);
    } else {
        let s = w + rest;
        assert(s[0] == w[0]);
        assert(s.skip(1) =~= w.skip(1) + rest);
        assert forall|i: int| 0 <= i < w.skip(1).len() implies #[trigger] w.skip(1)[i] != 32
            && w.skip(1)[i] != 9 by {
            assert(w[i + 1] != 32 && w[i + 1] != 9);
        }
        bytes_make_a_word(word.push(w[0]), w.skip(1), rest);
        assert(word.push(w[0]) + w.skip(1) =~= word + w);
    }
}

/// The words of a line are set apart by spaces and tabs, which are no part of them.
pub proof fn small_words_are_set_apart(w: Seq<u8>, space: u8, rest: Seq<u8>)
    requires
        w.len() > 0,
        forall|i: int| 0 <= i < w.len() ==> #[trigger] w[i] != 32 && w[i] != 9,
        space == 32 || space == 9,
    ensures
        inline_words(Seq::empty(), Seq::empty()) == Seq::<Seq<u8>>::empty(),
        inline_words(Seq::empty(), w) == seq![w],
        inline_words(Seq::empty(), seq![space] + rest) == inline_words(Seq::empty(), rest),
        inline_words(Seq::empty(), w + seq![space] + rest) == seq![w] + inline_words(
            Seq::empty(),
            rest,
        ),
{
    let none = Seq::<u8>::empty();
    assert((seq![space] + rest).skip(1) =~= rest);
    assert(Seq::<Seq<u8>>::empty() + inline_words(none, rest) =~= inline_words(none, rest));
    bytes_make_a_word(none, w, none);
    assert(w + none =~= w);
    assert(none + w =~= w);
    bytes_make_a_word(none, w, seq![space] + rest);
    assert(w + seq![space] + rest =~= w + (seq![space] + rest));
}

// ---------------------------------------------------------------------------
// Arguments and configuration
// ---------------------------------------------------------------------------
/// An option of the program takes the argument behind it, and says nothing of the others; what was
/// said before of the same thing no longer holds.
pub proof fn options_take_their_arguments(value: Seq<char>, rest: Seq<Seq<char>>, args: ArgsView)
    ensures
        parsed(Seq::empty(), args) == ParsedView::Run(args),
        parsed(seq!["--config"@, value] + rest, args) == parsed(
            rest,
            (ArgsView { config: Some(value), ..args }),
        ),
        parsed(seq!["--bind"@, value] + rest, args) == parsed(
            rest,
            (ArgsView { bind: Some(value), ..args }),
        ),
        parsed(seq!["--data-dir"@, value] + rest, args) == parsed(
            rest,
            (ArgsView { data_dir: Some(value), ..args }),
        ),
        parsed(seq!["--port"@, value] + rest, args) == match uint_value(encode_utf8(value), 65535) {
            Some(n) => parsed(rest, (ArgsView { port: Some(n as u16), ..args })),
            None => ParsedView::Bad("invalid --port"@),
        },
{
    reveal_strlit("--config");
    reveal_strlit("--bind");
    reveal_strlit("--port");
    reveal_strlit("--data-dir");
    assert("--bind"@[2] == 'b' && "--port"@[2] == 'p');
    assert((seq!["--config"@, value] + rest).skip(2) =~= rest);
    assert((seq!["--bind"@, value] + rest).skip(2) =~= rest);
    let argv = seq!["--data-dir"@, value] + rest;
    assert(argv.skip(2) =~= rest);
    assert(argv[0] == "--data-dir"@ && argv[1] == value);
    assert("--data-dir"@.len() == 10 && "--config"@.len() == 8 && "--bind"@.len() == 6
        && "--port"@.len() == 6);
    assert((seq!["--port"@, value] + rest).skip(2) =~= rest);
}

/// `-h` and `--help` ask how the program is used, and what is no option, or an option without its
/// argument, is named as unknown.
pub proof fn other_arguments_are_named(name: Seq<char>, rest: Seq<Seq<char>>, args: ArgsView)
    requires
        name != "--config"@ && name != "--bind"@ && name != "--port"@ && name != "--data-dir"@
            || rest.len() == 0,
    ensures
        parsed(seq![name] + rest, args) == if name == "-h"@ || name == "--help"@ {
            ParsedView::Help
        } else {
            ParsedView::Bad("unknown argument: "@ + name)
        },
{
    let argv = seq![name] + rest;
    assert(argv[0] == name);
}

/// The arguments of the program and the environment say each their own thing in place of what the
/// configuration said. Where they say nothing it stays, and so does what the environment gives no
/// number or flag for that there can be.
pub proof fn each_says_its_own_thing(c: ConfigView, args: ArgsView, env: Overrides)
    ensures
        ({
            let a = with_args(c, args);
            &&& args.bind is Some ==> a.server_bind == args.bind->0
            &&& args.bind is None ==> a.server_bind == c.server_bind
            &&& args.port is Some ==> a.server_port == args.port->0
            &&& args.port is None ==> a.server_port == c.server_port
            &&& args.data_dir is Some ==> a.data_dir == args.data_dir->0
            &&& args.data_dir is None ==> a.data_dir == c.data_dir
            &&& a.level == c.level
            &&& a.slow_log_threshold_ms == c.slow_log_threshold_ms
            &&& a.metrics_enabled == c.metrics_enabled
            &&& a.metrics_bind == c.metrics_bind
            &&& a.metrics_port == c.metrics_port
        }),
        ({
            let o = overridden(c, env);
            &&& says_text(env.server_bind, c.server_bind, o.server_bind)
            &&& says_text(env.data_dir, c.data_dir, o.data_dir)
            &&& says_text(env.level, c.level, o.level)
            &&& says_text(env.metrics_bind, c.metrics_bind, o.metrics_bind)
            &&& says_number(env.server_port, 65535, c.server_port as u64, o.server_port as u64)
            &&& says_number(env.metrics_port, 65535, c.metrics_port as u64, o.metrics_port as u64)
            &&& says_number(
                env.slow_log_threshold_ms,
                u64::MAX,
                c.slow_log_threshold_ms,
                o.slow_log_threshold_ms,
            )
            &&& says_flag(env.metrics_enabled, c.metrics_enabled, o.metrics_enabled)
        }),
{
    reveal_strlit("true");
    reveal_strlit("false");
    assert("true"@.len() != "false"@.len());
}

/// A flag that is `true` or `false` takes the place of what was there.
pub open spec fn says_flag(said: Option<String>, was: bool, holds: bool) -> bool {
    &&& said is None ==> holds == was
    &&& said is Some && said->0@ == "true"@ ==> holds
    &&& said is Some && said->0@ == "false"@ ==> !holds
    &&& said is Some && said->0@ != "true"@ && said->0@ != "false"@ ==> holds == was
}

/// A text that says something takes the place of what was there.
pub open spec fn says_text(said: Option<String>, was: Seq<char>, holds: Seq<char>) -> bool {
    &&& said is None ==> holds == was
    &&& said is Some && said->0@.len() == 0 ==> holds == was
    &&& said is Some && said->0@.len() > 0 ==> holds == said->0@
}

/// A number that is not over the maximum takes the place of what was there.
pub open spec fn says_number(said: Option<String>, max: u64, was: u64, holds: u64) -> bool {
    &&& said is None ==> holds == was
    &&& said is Some && uint_value(encode_utf8(said->0@), max) is None ==> holds == was
    &&& said is Some && uint_value(encode_utf8(said->0@), max) is Some ==> holds == uint_value(
        encode_utf8(said->0@),
        max,
    )->0
}

} // verus!
