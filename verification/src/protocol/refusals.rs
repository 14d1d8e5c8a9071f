//! What is read off the wire and what is refused: lengths, counts, depth and inline requests.
use vstd::prelude::*;
use vstd::utf8::valid_utf8;

use super::codec::default_limits;
use super::decode::Limits;
use super::encode::{crlf, wire};
use super::error::ProtocolErrorView;
use super::frame::{FrameView, RespVersion};
use super::grammar::{
    double_quoted, inline_args, inline_word, is_space, line_len, parse_args, parse_frame,
    parse_inline, parse_items, parse_request, single_quoted, space_run, Parse,
};
use super::laws::{header_reads_back, line_reads_back, one_line};
use crate::float::text::double_value;
use crate::text::{decimal, int_value};

verus! {

/// The outcome is a refusal because something is too long or too many.
pub open spec fn over_the_limit<T>(p: Parse<T>) -> bool {
    p matches Parse::Bad(ProtocolErrorView::LimitExceeded(_))
}

/// The outcome is a refusal because the bytes make no sense.
pub open spec fn makes_no_sense<T>(p: Parse<T>) -> bool {
    p matches Parse::Bad(ProtocolErrorView::Malformed(_))
}

/// Unless it is told otherwise a codec takes byte strings of up to 512 MiB, lists of up to
/// 1,048,576 values, lines of up to 64 KiB and values up to 128 lists deep.
pub proof fn limits_unless_told(limits: Limits)
    requires
        default_limits(limits),
    ensures
        limits.max_bulk_len == 536_870_912,
        limits.max_array_len == 1_048_576,
        limits.max_inline_len == 65_536,
        limits.max_depth == 128,
{
}

/// A byte that says what kind of value follows, and a number on its line.
pub open spec fn headed(kind: u8, n: i64, rest: Seq<u8>) -> Seq<u8> {
    seq![kind] + decimal(n as int) + crlf() + rest
}

/// Behind the first byte the header reads back.
proof fn headed_reads_back(kind: u8, n: i64, rest: Seq<u8>)
    ensures
        ({
            let s = headed(kind, n, rest);
            let line = decimal(n as int) + crlf();
            &&& s.len() > 0
            &&& s[0] == kind
            &&& s.skip(1) == line + rest
            &&& super::grammar::header(s.skip(1)) == Parse::Done(n, line.len())
            &&& s.skip(1).skip(line.len() as int) == rest
            &&& line.len() + 1 + rest.len() == s.len()
        }),
{
    header_reads_back(n, rest);
    let s = headed(kind, n, rest);
    assert(s.skip(1) =~= (decimal(n as int) + crlf()) + rest);
}

/// A bulk string (`$`) or a bulk error (`!`) that is longer than the limit is refused for that, as
/// soon as its length is there; so is one of negative length, but for the bulk string of length
/// minus one, which is null.
pub proof fn long_blobs_are_refused(
    kind: u8,
    n: i64,
    rest: Seq<u8>,
    limits: Limits,
    depth: nat,
)
    requires
        kind == 36 || kind == 33,
        depth <= limits.max_depth,
    ensures
        ({
            let p = parse_frame(headed(kind, n, rest), limits, depth);
            &&& n > limits.max_bulk_len ==> over_the_limit(p)
            &&& n < -1 ==> makes_no_sense(p)
            &&& n == -1 && kind == 33 ==> makes_no_sense(p)
            &&& n == -1 && kind == 36 ==> p == Parse::Done(
                FrameView::Null,
                (headed(kind, n, rest).len() - rest.len()) as nat,
            )
            &&& 0 <= n <= limits.max_bulk_len && rest.len() < n + 2 ==> p is More
            &&& 0 <= n <= limits.max_bulk_len && rest.len() >= n + 2 && (rest[n as int] != 13
                || rest[n + 1] != 10) ==> makes_no_sense(p)
        }),
{
    headed_reads_back(kind, n, rest);
}

/// A verbatim string (`=`) that is longer than the limit is refused for that, one too short for its
/// format as making no sense, and so is one whose format is not followed by a colon.
pub proof fn wrong_verbatims_are_refused(n: i64, rest: Seq<u8>, limits: Limits, depth: nat)
    requires
        depth <= limits.max_depth,
    ensures
        ({
            let p = parse_frame(headed(61, n, rest), limits, depth);
            &&& n > limits.max_bulk_len && n >= 4 ==> over_the_limit(p)
            &&& n < 4 ==> makes_no_sense(p)
            &&& 4 <= n <= limits.max_bulk_len && rest.len() < n + 2 ==> p is More
            &&& 4 <= n <= limits.max_bulk_len && rest.len() >= n + 2 && rest[3] != 58
                ==> makes_no_sense(p)
        }),
{
    headed_reads_back(61, n, rest);
    if rest.len() >= n + 2 && n >= 4 {
        assert(rest.take(n as int)[3] == rest[3]);
    }
}

/// An array (`*`), a set (`~`), a push (`>`) or a map (`%`) of more values than the limit is
/// refused for that, a pair of a map counting as two; so is one of negative length, but for the
/// array of length minus one, which is null.
pub proof fn long_lists_are_refused(kind: u8, n: i64, rest: Seq<u8>, limits: Limits, depth: nat)
    requires
        kind == 42 || kind == 126 || kind == 62 || kind == 37,
        depth <= limits.max_depth,
    ensures
        ({
            let p = parse_frame(headed(kind, n, rest), limits, depth);
            &&& kind != 37 && n > limits.max_array_len ==> over_the_limit(p)
            &&& kind == 37 && n >= 0 && 2 * n > limits.max_array_len ==> over_the_limit(p)
            &&& n < -1 ==> makes_no_sense(p)
            &&& n == -1 && kind != 42 ==> makes_no_sense(p)
            &&& n == -1 && kind == 42 ==> p == Parse::Done(
                FrameView::Null,
                (headed(kind, n, rest).len() - rest.len()) as nat,
            )
        }),
{
    headed_reads_back(kind, n, rest);
}

/// A line that is no integer behind a colon, no double behind a comma, anything but `t` or `f`
/// behind a hash, anything behind an underscore or anything but UTF-8 where a text is due makes no
/// sense, and neither does a value of a kind that there is not.
pub proof fn wrong_lines_are_refused(
    kind: u8,
    line: Seq<u8>,
    t: Seq<u8>,
    limits: Limits,
    depth: nat,
)
    requires
        one_line(line),
        depth <= limits.max_depth,
    ensures
        ({
            let p = parse_frame(seq![kind] + line + crlf() + t, limits, depth);
            &&& kind == 58 && int_value(line) is None ==> makes_no_sense(p)
            &&& kind == 44 && double_value(line) is None ==> makes_no_sense(p)
            &&& kind == 35 && line != seq![116u8] && line != seq![102u8] ==> makes_no_sense(p)
            &&& kind == 95 && line.len() > 0 ==> makes_no_sense(p)
            &&& (kind == 43 || kind == 45 || kind == 40) && !valid_utf8(line) ==> makes_no_sense(p)
            &&& (kind == 36 || kind == 33 || kind == 61 || kind == 42 || kind == 126 || kind == 62
                || kind == 37) && int_value(line) is None ==> makes_no_sense(p)
            &&& kind != 43 && kind != 45 && kind != 40 && kind != 58 && kind != 95 && kind != 35
                && kind != 44 && kind != 36 && kind != 33 && kind != 61 && kind != 42 && kind != 126
                && kind != 62 && kind != 37 ==> makes_no_sense(p)
        }),
{
    reveal(super::grammar::header);
    let s = seq![kind] + line + crlf() + t;
    line_reads_back(line, t);
    assert(s.skip(1) =~= line + crlf() + t);
    assert(s[0] == kind);
}

/// The first byte on the wire tells the kind of value; null is a bulk string of length minus one in
/// RESP2 and an underscore in RESP3, and truth values are `t` and `f`.
pub proof fn kinds_have_their_bytes(f: FrameView, version: RespVersion)
    ensures
        wire(f, version).len() > 0,
        ({
            let first = wire(f, version)[0];
            match f {
                FrameView::Simple(_) => first == 43,
                FrameView::Error(_) => first == 45,
                FrameView::Integer(_) => first == 58,
                FrameView::Bulk(_) => first == 36,
                FrameView::Array(_) => first == 42,
                FrameView::Boolean(b) => wire(f, version) == if b {
                    seq![35u8, 116, 13, 10]
                } else {
                    seq![35u8, 102, 13, 10]
                },
                FrameView::Double(_) => first == 44,
                FrameView::BigNumber(_) => first == 40,
                FrameView::BulkError(_) => first == 33,
                FrameView::Verbatim { .. } => first == 61,
                FrameView::MapReply(_) => first == 37,
                FrameView::SetReply(_) => first == 126,
                FrameView::Push(_) => first == 62,
                FrameView::Null => wire(f, version) == if version == RespVersion::V2 {
                    seq![36u8, 45, 49, 13, 10]
                } else {
                    seq![95u8, 13, 10]
                },
            }
        }),
{
    match f {
        FrameView::Boolean(b) => {
            assert(wire(f, version) =~= if b {
                seq![35u8, 116, 13, 10]
            } else {
                seq![35u8, 102, 13, 10]
            });
        },
        FrameView::Null => {
            assert(decimal(-1) =~= seq![45u8, 49]);
            assert(wire(f, RespVersion::V2) =~= seq![36u8, 45, 49, 13, 10]);
            assert(wire(f, RespVersion::V3) =~= seq![95u8, 13, 10]);
        },
        _ => {},
    }
}

/// Nothing is read that lies deeper than the limit, and a list at the limit can hold nothing.
pub proof fn deep_values_are_refused(s: Seq<u8>, n: i64, rest: Seq<u8>, limits: Limits, depth: nat)
    ensures
        depth > limits.max_depth ==> makes_no_sense(parse_frame(s, limits, depth)),
        depth == limits.max_depth && 1 <= n <= limits.max_array_len ==> makes_no_sense(
            parse_frame(headed(42, n, rest), limits, depth),
        ),
{
    headed_reads_back(42, n, rest);
    if depth == limits.max_depth && 1 <= n <= limits.max_array_len {
        first_of_items(rest, n as nat, limits, depth + 1);
    }
}

/// Values that lie too deep are refused, however many there are.
proof fn first_of_items(s: Seq<u8>, count: nat, limits: Limits, depth: nat)
    requires
        count >= 1,
        depth > limits.max_depth,
        depth <= limits.max_depth + 1,
    ensures
        makes_no_sense(parse_items(s, count, limits, depth)),
    decreases count,
{
    if count > 1 {
        first_of_items(s, (count - 1) as nat, limits, depth);
    } else {
        reveal_with_fuel(parse_items, 2);
        assert(makes_no_sense(parse_frame(s.skip(0), limits, depth)));
    }
}

/// A request of more arguments than the limit is refused for that, and so is one with an argument
/// that is longer than the limit; a request of no or negative length has no arguments; an argument
/// that is no bulk string, or null, makes no sense.
pub proof fn long_requests_are_refused(n: i64, kind: u8, m: i64, rest: Seq<u8>, limits: Limits)
    ensures
        ({
            let s = headed(42, n, headed(kind, m, rest));
            let p = parse_request(s, limits);
            &&& n > limits.max_array_len ==> over_the_limit(p)
            &&& n <= 0 ==> p == Parse::Done(
                Seq::<Seq<u8>>::empty(),
                (s.len() - headed(kind, m, rest).len()) as nat,
            )
            &&& 1 <= n <= limits.max_array_len && kind != 36 ==> makes_no_sense(p)
            &&& 1 <= n <= limits.max_array_len && kind == 36 && m < 0 ==> makes_no_sense(p)
            &&& 1 <= n <= limits.max_array_len && kind == 36 && m > limits.max_bulk_len
                ==> over_the_limit(p)
        }),
{
    let body = headed(kind, m, rest);
    headed_reads_back(42, n, body);
    headed_reads_back(kind, m, rest);
    assert(body.skip(1).skip((decimal(m as int) + crlf()).len() as int) == rest);
    if 1 <= n <= limits.max_array_len {
        first_arg_fails(body, n as nat, limits);
    }
}

/// A request whose length is no integer makes no sense, and neither does one with an argument whose
/// length is none.
pub proof fn lengths_of_requests_are_integers(line: Seq<u8>, n: i64, t: Seq<u8>, limits: Limits)
    requires
        one_line(line),
        int_value(line) is None,
    ensures
        makes_no_sense(parse_request(seq![42u8] + line + crlf() + t, limits)),
        1 <= n <= limits.max_array_len ==> makes_no_sense(
            parse_request(headed(42, n, seq![36u8] + line + crlf() + t), limits),
        ),
{
    reveal(super::grammar::header);
    line_reads_back(line, t);
    let s = seq![42u8] + line + crlf() + t;
    assert(s.skip(1) =~= line + crlf() + t);
    let body = seq![36u8] + line + crlf() + t;
    assert(body.skip(1) =~= line + crlf() + t);
    assert(body[0] == 36);
    headed_reads_back(42, n, body);
    if 1 <= n <= limits.max_array_len {
        first_arg_fails(body, n as nat, limits);
    }
}

/// Where the first argument is refused, the request is.
proof fn first_arg_fails(s: Seq<u8>, count: nat, limits: Limits)
    requires
        count >= 1,
    ensures
        super::grammar::parse_arg(s, limits) matches Parse::Bad(e) ==> parse_args(s, count, limits)
            == Parse::<Seq<Seq<u8>>>::Bad(e),
    decreases count,
{
    if count > 1 {
        first_arg_fails(s, (count - 1) as nat, limits);
    } else {
        reveal_with_fuel(parse_args, 2);
        assert(s.skip(0) =~= s);
    }
}

/// An inline request is a line: it has the words of the line and takes the line and its terminator.
/// One that is longer than the limit is refused for that, whether or not its end is there; within
/// the limit more bytes are asked for until its end is there.
pub proof fn inline_requests_are_lines(line: Seq<u8>, t: Seq<u8>, limits: Limits)
    requires
        line.len() == 0 || line[0] != 42,
        one_line(line),
    ensures
        ({
            let p = parse_request(line + crlf() + t, limits);
            &&& line.len() > limits.max_inline_len ==> over_the_limit(p)
            &&& line.len() <= limits.max_inline_len ==> match inline_args(line) {
                Ok(args) => p == Parse::Done(args, line.len() + 2),
                Err(e) => p == Parse::<Seq<Seq<u8>>>::Bad(e),
            }
        }),
        line.len() <= limits.max_inline_len ==> parse_request(line, limits) is More,
        line.len() > limits.max_inline_len ==> over_the_limit(parse_request(line, limits)),
{
    reveal(parse_inline);
    line_reads_back(line, t);
    no_line_end(line);
    if line.len() == 0 {
        assert((line + crlf() + t)[0] == 13);
    }
}

/// A line without a terminator has no end.
proof fn no_line_end(s: Seq<u8>)
    requires
        one_line(s),
    ensures
        line_len(s) is None,
    decreases s.len(),
{
    if s.len() >= 2 {
        assert(!super::grammar::crlf_at(s, 0));
        assert forall|i: int| !super::grammar::crlf_at(s.skip(1), i) by {
            assert(!super::grammar::crlf_at(s, i + 1));
        }
        no_line_end(s.skip(1));
    }
}

// ---------------------------------------------------------------------------
// The words of an inline request
// ---------------------------------------------------------------------------
/// A byte that stands for itself outside of quotes.
pub open spec fn stands_alone(b: u8) -> bool {
    b != 32 && !(9 <= b <= 13) && b != 34 && b != 39
}

/// A word of bytes that stand for themselves is read up to the space behind it.
proof fn plain_word_is_read(w: Seq<u8>, rest: Seq<u8>)
    requires
        forall|i: int| 0 <= i < w.len() ==> stands_alone(#[trigger] w[i]),
        rest.len() == 0 || is_space(rest[0]),
    ensures
        inline_word(w + rest) == Ok::<(Seq<u8>, nat), ProtocolErrorView>((w, w.len())),
    decreases w.len(),
{
    let s = w + rest;
    if w.len() == 0 {
        assert(s =~= rest);
        assert(w =~= Seq::empty());
    } else {
        assert(stands_alone(w[0]));
        assert(s[0] == w[0]);
        assert(s.skip(1) =~= w.skip(1) + rest);
        assert forall|i: int| 0 <= i < w.skip(1).len() implies stands_alone(
            #[trigger] w.skip(1)[i],
        ) by {
            assert(stands_alone(w[i + 1]));
        }
        plain_word_is_read(w.skip(1), rest);
        assert(seq![w[0]] + w.skip(1) =~= w);
    }
}

/// Spaces before the words of a line are passed over.
proof fn spaces_are_passed_over(space: u8, rest: Seq<u8>)
    requires
        is_space(space),
    ensures
        inline_args(seq![space] + rest) == inline_args(rest),
{
    let s = seq![space] + rest;
    assert(s.skip(1) =~= rest);
    super::grammar::space_run_bounded(rest);
    assert(s.skip(space_run(s) as int) =~= rest.skip(space_run(rest) as int));
    reveal_with_fuel(inline_args, 2);
}

/// The words of an inline request are set apart by spaces: a word outside of quotes is what it is,
/// byte for byte, spaces before the words are passed over, and the words of what is behind a word
/// are its words.
pub proof fn spaces_set_words_apart(w: Seq<u8>, space: u8, rest: Seq<u8>)
    requires
        w.len() > 0,
        forall|i: int| 0 <= i < w.len() ==> stands_alone(#[trigger] w[i]),
        space == 32 || 9 <= space <= 13,
    ensures
        inline_args(Seq::empty()) == Ok::<Seq<Seq<u8>>, ProtocolErrorView>(Seq::empty()),
        inline_args(w) == Ok::<Seq<Seq<u8>>, ProtocolErrorView>(seq![w]),
        inline_args(seq![space] + rest) == inline_args(rest),
        inline_args(w + seq![space] + rest) == match inline_args(rest) {
            Ok(more) => Ok::<Seq<Seq<u8>>, ProtocolErrorView>(seq![w] + more),
            Err(e) => Err(e),
        },
{
    reveal_with_fuel(inline_args, 2);
    reveal_with_fuel(space_run, 2);
    spaces_are_passed_over(space, rest);
    let none = Seq::<u8>::empty();
    assert(none.skip(0) =~= none);
    assert(stands_alone(w[0]));
    plain_word_is_read(w, none);
    assert(w + none =~= w);
    assert(w.skip(0) =~= w);
    assert(w.skip(w.len() as int) =~= none);
    assert(inline_args(none) == Ok::<Seq<Seq<u8>>, ProtocolErrorView>(Seq::empty()));
    assert(seq![w] + Seq::<Seq<u8>>::empty() =~= seq![w]);
    let tail = seq![space] + rest;
    let line = w + tail;
    assert(line =~= w + seq![space] + rest);
    assert(line[0] == w[0]);
    assert(line.skip(0) =~= line);
    plain_word_is_read(w, tail);
    assert(line.skip(w.len() as int) =~= tail);
}

/// A quoted part ends the word that it stands in: what is before the opening quote and what is
/// between the quotes make up the word.
pub proof fn quotes_end_a_word(w: Seq<u8>, quote: u8, rest: Seq<u8>)
    requires
        forall|i: int| 0 <= i < w.len() ==> stands_alone(#[trigger] w[i]),
        quote == 34 || quote == 39,
    ensures
        inline_word(w + seq![quote] + rest) == match if quote == 34 {
            double_quoted(rest)
        } else {
            single_quoted(rest)
        } {
            Ok((part, n)) => Ok::<(Seq<u8>, nat), ProtocolErrorView>((w + part, w.len() + 1 + n)),
            Err(e) => Err(e),
        },
    decreases w.len(),
{
    let s = w + seq![quote] + rest;
    if w.len() == 0 {
        assert(s[0] == quote);
        assert(s.skip(1) =~= rest);
        if quote == 34 {
            if let Ok((part, n)) = double_quoted(rest) {
                assert(Seq::<u8>::empty() + part =~= w + part);
            }
        } else {
            if let Ok((part, n)) = single_quoted(rest) {
                assert(Seq::<u8>::empty() + part =~= w + part);
            }
        }
    } else {
        assert(stands_alone(w[0]));
        assert(s[0] == w[0]);
        assert(s.skip(1) =~= w.skip(1) + seq![quote] + rest);
        assert forall|i: int| 0 <= i < w.skip(1).len() implies stands_alone(
            #[trigger] w.skip(1)[i],
        ) by {
            assert(stands_alone(w[i + 1]));
        }
        quotes_end_a_word(w.skip(1), quote, rest);
        if let Ok((part, n)) = inline_word(s.skip(1)) {
            let inner = if quote == 34 {
                double_quoted(rest)->Ok_0.0
            } else {
                single_quoted(rest)->Ok_0.0
            };
            assert(seq![w[0]] + (w.skip(1) + inner) =~= w + inner);
        }
    }
}

/// In double quotes a byte that is neither the quote nor a backslash stands for itself; a backslash
/// and a letter stand for a line feed (n), a carriage return (r), a tab (t), a backspace (b) or a
/// bell (a), and a backslash before another byte stands for that byte.
pub proof fn double_quotes_read(b: u8, rest: Seq<u8>, w: Seq<u8>, n: nat)
    requires
        double_quoted(rest) == Ok::<(Seq<u8>, nat), ProtocolErrorView>((w, n)),
    ensures
        b != 34 && b != 92 ==> double_quoted(seq![b] + rest) == Ok::<
            (Seq<u8>, nat),
            ProtocolErrorView,
        >((seq![b] + w, 1 + n)),
        b != 120 ==> double_quoted(seq![92u8, b] + rest) == Ok::<(Seq<u8>, nat), ProtocolErrorView>(
            (
                seq![
                    if b == 110 {
                        10u8
                    } else if b == 114 {
                        13
                    } else if b == 116 {
                        9
                    } else if b == 98 {
                        8
                    } else if b == 97 {
                        7
                    } else {
                        b
                    },
                ] + w,
                2 + n,
            ),
        ),
{
    assert((seq![b] + rest).skip(1) =~= rest);
    let s = seq![92u8, b] + rest;
    assert(s.skip(1) =~= seq![b] + rest);
    assert(s.skip(2) =~= rest);
}

/// In double quotes `\x` and two hexadecimal digits, small or capital, stand for the byte that they
/// spell.
pub proof fn hexadecimal_digits_read(
    hi: u8,
    lo: u8,
    high: int,
    low: int,
    rest: Seq<u8>,
    w: Seq<u8>,
    n: nat,
)
    requires
        double_quoted(rest) == Ok::<(Seq<u8>, nat), ProtocolErrorView>((w, n)),
        spells_digit(hi, high),
        spells_digit(lo, low),
    ensures
        double_quoted(seq![92u8, 120, hi, lo] + rest) == Ok::<(Seq<u8>, nat), ProtocolErrorView>(
            (seq![(16 * high + low) as u8] + w, 4 + n),
        ),
{
    let s = seq![92u8, 120, hi, lo] + rest;
    assert(s.skip(1) =~= seq![120u8, hi, lo] + rest);
    assert(s.skip(4) =~= rest);
}

/// The byte is the hexadecimal digit of the number.
pub open spec fn spells_digit(b: u8, n: int) -> bool {
    ||| 0 <= n <= 9 && b == 48 + n
    ||| 10 <= n <= 15 && b == 97 + (n - 10)
    ||| 10 <= n <= 15 && b == 65 + (n - 10)
}

/// In single quotes each byte stands for itself but the quote; a backslash before the quote takes
/// it into the word.
pub proof fn single_quotes_read(b: u8, rest: Seq<u8>, w: Seq<u8>, n: nat)
    requires
        single_quoted(rest) == Ok::<(Seq<u8>, nat), ProtocolErrorView>((w, n)),
    ensures
        b != 39 && b != 92 ==> single_quoted(seq![b] + rest) == Ok::<
            (Seq<u8>, nat),
            ProtocolErrorView,
        >((seq![b] + w, 1 + n)),
        rest[0] != 39 ==> single_quoted(seq![92u8] + rest) == Ok::<
            (Seq<u8>, nat),
            ProtocolErrorView,
        >((seq![92u8] + w, 1 + n)),
        single_quoted(seq![92u8, 39] + rest) == Ok::<(Seq<u8>, nat), ProtocolErrorView>(
            (seq![39u8] + w, 2 + n),
        ),
{
    assert((seq![b] + rest).skip(1) =~= rest);
    assert((seq![92u8] + rest).skip(1) =~= rest);
    assert((seq![92u8, 39] + rest).skip(2) =~= rest);
}

/// A closing quote ends the word where nothing or a space is behind it; anything else behind it is
/// refused, and so is a word whose quote is never closed.
pub proof fn quotes_must_close(rest: Seq<u8>)
    ensures
        ({
            let open = rest.len() == 0 || is_space(rest[0]);
            &&& open ==> double_quoted(seq![34u8] + rest) == Ok::<
                (Seq<u8>, nat),
                ProtocolErrorView,
            >((Seq::empty(), 1)) && single_quoted(seq![39u8] + rest) == Ok::<(Seq<u8>, nat), ProtocolErrorView>(
                (Seq::empty(), 1),
            )
            &&& !open ==> (double_quoted(seq![34u8] + rest) matches Err(
                ProtocolErrorView::InlineSyntax(_),
            )) && (single_quoted(seq![39u8] + rest) matches Err(ProtocolErrorView::InlineSyntax(_)))
        }),
        double_quoted(Seq::empty()) matches Err(ProtocolErrorView::InlineSyntax(_)),
        single_quoted(Seq::empty()) matches Err(ProtocolErrorView::InlineSyntax(_)),
{
    let d = seq![34u8] + rest;
    let q = seq![39u8] + rest;
    if rest.len() > 0 {
        assert(d[1] == rest[0]);
        assert(q[1] == rest[0]);
    }
}

} // verus!
