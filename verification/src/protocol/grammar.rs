//! What the bytes on the wire mean.
//!
//! [`parse_frame`] gives the meaning of a byte string as a RESP value, [`parse_request`] as a
//! client request. Both speak of the front of the byte string: they say how many bytes the
//! value takes, that more bytes are needed, or what is wrong.
use vstd::prelude::*;
use vstd::utf8::{decode_utf8, valid_utf8};

use super::decode::Limits;
use super::error::ProtocolErrorView;
use super::frame::FrameView;
use crate::float::text::double_value;
use crate::text::{decimal_text, hex_text, int_value};

verus! {

/// The outcome of reading a value off the front of a byte string.
#[verifier::ext_equal]
pub enum Parse<T> {
    /// The value is not there in full yet.
    More,
    /// The bytes are no such value.
    Bad(ProtocolErrorView),
    /// The value, and how many bytes it takes.
    Done(T, nat),
}

/// The same outcome for a byte string with `k` more bytes in front.
pub open spec fn behind<T>(k: nat, p: Parse<T>) -> Parse<T> {
    match p {
        Parse::Done(v, n) => Parse::Done(v, k + n),
        other => other,
    }
}

// ---------------------------------------------------------------------------
// Lines
// ---------------------------------------------------------------------------
/// A line terminator, CR LF, stands at position `i`.
pub open spec fn crlf_at(s: Seq<u8>, i: int) -> bool {
    0 <= i && i + 1 < s.len() && s[i] == 13 && s[i + 1] == 10
}

/// How many bytes stand before the first line terminator.
pub open spec fn line_len(s: Seq<u8>) -> Option<nat>
    decreases s.len(),
{
    if s.len() < 2 {
        None
    } else if crlf_at(s, 0) {
        Some(0)
    } else {
        match line_len(s.skip(1)) {
            Some(n) => Some(n + 1),
            None => None,
        }
    }
}

/// The text that a line encodes in UTF-8.
pub open spec fn line_text(line: Seq<u8>) -> Result<Seq<char>, ProtocolErrorView> {
    if valid_utf8(line) {
        Ok(decode_utf8(line))
    } else {
        Err(ProtocolErrorView::Malformed("invalid UTF-8 in text line"@))
    }
}

/// The 64-bit integer that a line spells.
pub open spec fn line_int(line: Seq<u8>) -> Result<i64, ProtocolErrorView> {
    match line_text(line) {
        Ok(text) => match int_value(line) {
            Some(n) => Ok(n),
            None => Err(ProtocolErrorView::Malformed("invalid integer '"@ + text + "'"@)),
        },
        Err(e) => Err(e),
    }
}

/// A line that holds a length or a count.
#[verifier::opaque]
pub open spec fn header(s: Seq<u8>) -> Parse<i64> {
    match line_len(s) {
        Some(n) => match line_int(s.take(n as int)) {
            Ok(v) => Parse::Done(v, n + 2),
            Err(e) => Parse::Bad(e),
        },
        None => Parse::More,
    }
}

// ---------------------------------------------------------------------------
// Values
// ---------------------------------------------------------------------------
/// The kinds of value that take one line.
pub open spec fn is_line_kind(kind: u8) -> bool {
    kind == 43 || kind == 45 || kind == 40 || kind == 58 || kind == 95 || kind == 35 || kind == 44
}

/// The kinds of value that are a length and as many bytes.
pub open spec fn is_blob_kind(kind: u8) -> bool {
    kind == 36 || kind == 33 || kind == 61
}

/// The kinds of value that are a count and as many values, or pairs of values.
pub open spec fn is_list_kind(kind: u8) -> bool {
    kind == 42 || kind == 126 || kind == 62 || kind == 37
}

/// The value on a line of the given kind.
pub open spec fn line_frame(kind: u8, line: Seq<u8>) -> Result<FrameView, ProtocolErrorView> {
    if kind == 43 {
        match line_text(line) {
            Ok(text) => Ok(FrameView::Simple(text)),
            Err(e) => Err(e),
        }
    } else if kind == 45 {
        match line_text(line) {
            Ok(text) => Ok(FrameView::Error(text)),
            Err(e) => Err(e),
        }
    } else if kind == 40 {
        match line_text(line) {
            Ok(text) => Ok(FrameView::BigNumber(text)),
            Err(e) => Err(e),
        }
    } else if kind == 58 {
        match line_int(line) {
            Ok(n) => Ok(FrameView::Integer(n)),
            Err(e) => Err(e),
        }
    } else if kind == 95 {
        if line.len() == 0 {
            Ok(FrameView::Null)
        } else {
            Err(ProtocolErrorView::Malformed("null (_) must have empty body"@))
        }
    } else if kind == 35 {
        if line == seq![116u8] {
            Ok(FrameView::Boolean(true))
        } else if line == seq![102u8] {
            Ok(FrameView::Boolean(false))
        } else {
            Err(ProtocolErrorView::Malformed("boolean must be #t or #f"@))
        }
    } else {
        match line_text(line) {
            Ok(text) => match double_value(line) {
                Some(bits) => Ok(FrameView::Double(bits)),
                None => Err(ProtocolErrorView::Malformed("invalid double '"@ + text + "'"@)),
            },
            Err(e) => Err(e),
        }
    }
}

/// A payload of `len` bytes and the line terminator behind it.
pub open spec fn payload(s: Seq<u8>, len: nat, unterminated: Seq<char>) -> Parse<Seq<u8>> {
    if s.len() < len + 2 {
        Parse::More
    } else if !crlf_at(s, len as int) {
        Parse::Bad(ProtocolErrorView::Malformed(unterminated))
    } else {
        Parse::Done(s.take(len as int), len + 2)
    }
}

/// A length, of what is called `what`, over the configured limit.
pub open spec fn over_limit(what: Seq<char>, len: int, limit: usize) -> ProtocolErrorView {
    ProtocolErrorView::LimitExceeded(
        what + decimal_text(len) + " exceeds limit "@ + decimal_text(limit as int),
    )
}

/// A value of the given kind whose length is known; `s` starts behind the length.
pub open spec fn blob(kind: u8, len: i64, s: Seq<u8>, limits: Limits) -> Parse<FrameView> {
    if kind == 61 {
        if len < 4 {
            Parse::Bad(
                ProtocolErrorView::Malformed(
                    "verbatim string too short (need 3-byte format + ':')"@,
                ),
            )
        } else if len > limits.max_bulk_len {
            Parse::Bad(over_limit("verbatim length "@, len as int, limits.max_bulk_len))
        } else {
            match payload(s, len as nat, "verbatim not terminated by CRLF"@) {
                Parse::Done(body, n) => if body[3] != 58 {
                    Parse::Bad(ProtocolErrorView::Malformed("verbatim format not followed by ':'"@))
                } else {
                    Parse::Done(
                        FrameView::Verbatim { format: body.take(3), data: body.skip(4) },
                        n,
                    )
                },
                Parse::Bad(e) => Parse::Bad(e),
                Parse::More => Parse::More,
            }
        }
    } else if len == -1 && kind == 36 {
        Parse::Done(FrameView::Null, 0)
    } else if len < 0 {
        Parse::Bad(
            ProtocolErrorView::Malformed("negative bulk length "@ + decimal_text(len as int)),
        )
    } else if len > limits.max_bulk_len {
        Parse::Bad(over_limit("bulk length "@, len as int, limits.max_bulk_len))
    } else {
        match payload(s, len as nat, "bulk not terminated by CRLF"@) {
            Parse::Done(body, n) => if kind == 36 {
                Parse::Done(FrameView::Bulk(body), n)
            } else {
                match line_text(body) {
                    Ok(text) => Parse::Done(FrameView::BulkError(text), n),
                    Err(e) => Parse::Bad(e),
                }
            },
            Parse::Bad(e) => Parse::Bad(e),
            Parse::More => Parse::More,
        }
    }
}

/// How many values follow an aggregate's count, two for each pair of a map, or `None` for a null
/// array.
pub open spec fn list_count(kind: u8, count: i64, limits: Limits) -> Result<
    Option<nat>,
    ProtocolErrorView,
> {
    if count == -1 && kind == 42 {
        Ok(None)
    } else if count < 0 {
        Err(
            ProtocolErrorView::Malformed(
                if kind == 37 {
                    "negative map length"@
                } else {
                    "negative aggregate length"@
                },
            ),
        )
    } else if (if kind == 37 {
        2 * count
    } else {
        count as int
    }) > limits.max_array_len {
        Err(
            over_limit(
                if kind == 37 {
                    "map length "@
                } else {
                    "aggregate length "@
                },
                count as int,
                limits.max_array_len,
            ),
        )
    } else if kind == 37 {
        Ok(Some(2 * count as nat))
    } else {
        Ok(Some(count as nat))
    }
}

/// Neighbours in `items`, paired up.
pub open spec fn paired(items: Seq<FrameView>) -> Seq<(FrameView, FrameView)> {
    Seq::new(items.len() / 2, |i: int| (items[2 * i], items[2 * i + 1]))
}

/// The aggregate of the given kind with the given elements.
pub open spec fn list_frame(kind: u8, items: Seq<FrameView>) -> FrameView {
    if kind == 42 {
        FrameView::Array(items)
    } else if kind == 126 {
        FrameView::SetReply(items)
    } else if kind == 62 {
        FrameView::Push(items)
    } else {
        FrameView::MapReply(paired(items))
    }
}

/// The RESP value at the front of `s`, `depth` aggregates deep.
pub open spec fn parse_frame(s: Seq<u8>, limits: Limits, depth: nat) -> Parse<FrameView>
    decreases limits.max_depth + 2 - depth, 0nat,
{
    if depth > limits.max_depth {
        Parse::Bad(
            ProtocolErrorView::Malformed(
                "nesting deeper than "@ + decimal_text(limits.max_depth as int) + " levels"@,
            ),
        )
    } else if s.len() == 0 {
        Parse::More
    } else {
        let kind = s[0];
        let body = s.skip(1);
        if is_line_kind(kind) {
            match line_len(body) {
                Some(n) => match line_frame(kind, body.take(n as int)) {
                    Ok(f) => Parse::Done(f, n + 3),
                    Err(e) => Parse::Bad(e),
                },
                None => Parse::More,
            }
        } else if is_blob_kind(kind) {
            match header(body) {
                Parse::Done(len, n) => behind(1 + n, blob(kind, len, body.skip(n as int), limits)),
                Parse::Bad(e) => Parse::Bad(e),
                Parse::More => Parse::More,
            }
        } else if is_list_kind(kind) {
            match header(body) {
                Parse::Done(count, n) => match list_count(kind, count, limits) {
                    Ok(Some(k)) => match parse_items(body.skip(n as int), k, limits, depth + 1) {
                        Parse::Done(items, m) => Parse::Done(list_frame(kind, items), 1 + n + m),
                        Parse::Bad(e) => Parse::Bad(e),
                        Parse::More => Parse::More,
                    },
                    Ok(None) => Parse::Done(FrameView::Null, 1 + n),
                    Err(e) => Parse::Bad(e),
                },
                Parse::Bad(e) => Parse::Bad(e),
                Parse::More => Parse::More,
            }
        } else {
            Parse::Bad(
                ProtocolErrorView::Malformed("unknown RESP type byte 0x"@ + hex_text(kind)),
            )
        }
    }
}

/// The `count` RESP values at the front of `s`, one behind the other.
pub open spec fn parse_items(s: Seq<u8>, count: nat, limits: Limits, depth: nat) -> Parse<
    Seq<FrameView>,
>
    decreases limits.max_depth + 2 - depth, count + 1,
{
    if count == 0 {
        Parse::Done(Seq::empty(), 0)
    } else {
        match parse_items(s, (count - 1) as nat, limits, depth) {
            Parse::Done(items, n) => match parse_frame(s.skip(n as int), limits, depth) {
                Parse::Done(f, m) => Parse::Done(items.push(f), n + m),
                Parse::Bad(e) => Parse::Bad(e),
                Parse::More => Parse::More,
            },
            other => other,
        }
    }
}

// ---------------------------------------------------------------------------
// Requests
// ---------------------------------------------------------------------------
/// A bulk string as an argument of a request.
pub open spec fn parse_arg(s: Seq<u8>, limits: Limits) -> Parse<Seq<u8>> {
    if s.len() == 0 {
        Parse::More
    } else if s[0] != 36 {
        Parse::Bad(
            ProtocolErrorView::Malformed("expected '$' in multibulk, got 0x"@ + hex_text(s[0])),
        )
    } else {
        match header(s.skip(1)) {
            Parse::Done(len, n) => if len < 0 {
                Parse::Bad(
                    ProtocolErrorView::Malformed("null bulk string not allowed in a request"@),
                )
            } else if len > limits.max_bulk_len {
                Parse::Bad(over_limit("bulk length "@, len as int, limits.max_bulk_len))
            } else {
                behind(
                    1 + n,
                    payload(s.skip(1 + n as int), len as nat, "bulk not terminated by CRLF"@),
                )
            },
            Parse::Bad(e) => Parse::Bad(e),
            Parse::More => Parse::More,
        }
    }
}

/// The `count` arguments at the front of `s`.
pub open spec fn parse_args(s: Seq<u8>, count: nat, limits: Limits) -> Parse<Seq<Seq<u8>>>
    decreases count,
{
    if count == 0 {
        Parse::Done(Seq::empty(), 0)
    } else {
        match parse_args(s, (count - 1) as nat, limits) {
            Parse::Done(args, n) => match parse_arg(s.skip(n as int), limits) {
                Parse::Done(arg, m) => Parse::Done(args.push(arg), n + m),
                Parse::Bad(e) => Parse::Bad(e),
                Parse::More => Parse::More,
            },
            other => other,
        }
    }
}

/// A request as an array of bulk strings; `s` starts behind the `*`. A count of zero or less
/// is a request without arguments.
pub open spec fn parse_multibulk(s: Seq<u8>, limits: Limits) -> Parse<Seq<Seq<u8>>> {
    match header(s) {
        Parse::Done(count, n) => if count <= 0 {
            Parse::Done(Seq::empty(), n)
        } else if count > limits.max_array_len {
            Parse::Bad(over_limit("multibulk length "@, count as int, limits.max_array_len))
        } else {
            behind(n, parse_args(s.skip(n as int), count as nat, limits))
        },
        Parse::Bad(e) => Parse::Bad(e),
        Parse::More => Parse::More,
    }
}

/// The bytes that part the words of an inline command.
pub open spec fn is_space(b: u8) -> bool {
    b == 32 || 9 <= b <= 13
}

/// How many spaces `s` starts with.
pub open spec fn space_run(s: Seq<u8>) -> nat
    decreases s.len(),
{
    if s.len() > 0 && is_space(s[0]) {
        1 + space_run(s.skip(1))
    } else {
        0
    }
}

/// The value of a hexadecimal digit in either case.
pub open spec fn hex_value(b: u8) -> Option<int> {
    if 48 <= b <= 57 {
        Some(b - 48)
    } else if 97 <= b <= 102 {
        Some(b - 87)
    } else if 65 <= b <= 70 {
        Some(b - 55)
    } else {
        None
    }
}

/// What an escape sequence stands for, and how many bytes it takes; `s` starts behind the
/// backslash.
pub open spec fn escape(s: Seq<u8>) -> (u8, nat) {
    if s[0] == 120 && s.len() >= 3 && hex_value(s[1]) is Some && hex_value(s[2]) is Some {
        ((16 * hex_value(s[1])->0 + hex_value(s[2])->0) as u8, 3)
    } else if s[0] == 110 {
        (10, 1)
    } else if s[0] == 114 {
        (13, 1)
    } else if s[0] == 116 {
        (9, 1)
    } else if s[0] == 98 {
        (8, 1)
    } else if s[0] == 97 {
        (7, 1)
    } else {
        (s[0], 1)
    }
}

/// A word and how many bytes it took, or what is wrong with it.
pub type Word = Result<(Seq<u8>, nat), ProtocolErrorView>;

/// `word` with the bytes `front` before it, which took `k` bytes.
pub open spec fn word_behind(front: Seq<u8>, k: nat, word: Word) -> Word {
    match word {
        Ok((rest, n)) => Ok((front + rest, k + n)),
        Err(e) => Err(e),
    }
}

/// The end of a quoted word: its closing quote must be followed by a space or by nothing.
pub open spec fn closing_quote(s: Seq<u8>) -> Word {
    if s.len() > 1 && !is_space(s[1]) {
        Err(ProtocolErrorView::InlineSyntax("closing quote not followed by space"@))
    } else {
        Ok((Seq::empty(), 1))
    }
}

/// A word in double quotes; `s` starts behind the opening quote.
pub open spec fn double_quoted(s: Seq<u8>) -> Word
    decreases s.len(),
{
    if s.len() == 0 {
        Err(ProtocolErrorView::InlineSyntax("unbalanced double quotes"@))
    } else if s[0] == 34 {
        closing_quote(s)
    } else if s[0] == 92 && s.len() > 1 {
        let (b, n) = escape(s.skip(1));
        word_behind(seq![b], 1 + n, double_quoted(s.skip(1 + n as int)))
    } else {
        word_behind(seq![s[0]], 1, double_quoted(s.skip(1)))
    }
}

/// A word in single quotes; `s` starts behind the opening quote.
pub open spec fn single_quoted(s: Seq<u8>) -> Word
    decreases s.len(),
{
    if s.len() == 0 {
        Err(ProtocolErrorView::InlineSyntax("unbalanced single quotes"@))
    } else if s[0] == 39 {
        closing_quote(s)
    } else if s[0] == 92 && s.len() > 1 && s[1] == 39 {
        word_behind(seq![39u8], 2, single_quoted(s.skip(2)))
    } else {
        word_behind(seq![s[0]], 1, single_quoted(s.skip(1)))
    }
}

/// The word at the front of `s`, up to a space or the end. A quote opens a quoted part wherever in
/// the word it stands, and the word ends with it.
pub open spec fn inline_word(s: Seq<u8>) -> Word
    decreases s.len(),
{
    if s.len() == 0 || is_space(s[0]) {
        Ok((Seq::empty(), 0))
    } else if s[0] == 34 {
        word_behind(Seq::empty(), 1, double_quoted(s.skip(1)))
    } else if s[0] == 39 {
        word_behind(Seq::empty(), 1, single_quoted(s.skip(1)))
    } else {
        word_behind(seq![s[0]], 1, inline_word(s.skip(1)))
    }
}

/// A run of spaces is no longer than what it is a run in.
pub proof fn space_run_bounded(s: Seq<u8>)
    ensures
        space_run(s) <= s.len(),
        space_run(s) < s.len() ==> !is_space(s[space_run(s) as int]),
    decreases s.len(),
{
    if s.len() > 0 && is_space(s[0]) {
        space_run_bounded(s.skip(1));
    }
}

/// A quoted word takes at least its closing quote and at most everything.
pub proof fn quoted_bounded(s: Seq<u8>)
    ensures
        double_quoted(s) matches Ok((_, n)) ==> 1 <= n <= s.len(),
        single_quoted(s) matches Ok((_, n)) ==> 1 <= n <= s.len(),
    decreases s.len(),
{
    if s.len() > 0 {
        quoted_bounded(s.skip(1));
        if s.len() > 1 {
            quoted_bounded(s.skip(2));
            let (_, n) = escape(s.skip(1));
            quoted_bounded(s.skip(1 + n as int));
        }
    }
}

/// A word takes at most everything, and at least one byte where there is no space in front.
pub proof fn inline_word_bounded(s: Seq<u8>)
    ensures
        inline_word(s) matches Ok((_, n)) ==> n <= s.len() && (s.len() > 0 && !is_space(s[0]) ==> 1
            <= n),
    decreases s.len(),
{
    if s.len() > 0 && !is_space(s[0]) {
        quoted_bounded(s.skip(1));
        inline_word_bounded(s.skip(1));
    }
}

/// The words `front` before the words of `rest`.
pub open spec fn words_behind(
    front: Seq<Seq<u8>>,
    rest: Result<Seq<Seq<u8>>, ProtocolErrorView>,
) -> Result<Seq<Seq<u8>>, ProtocolErrorView> {
    match rest {
        Ok(words) => Ok(front + words),
        Err(e) => Err(e),
    }
}

/// The arguments on an inline command line: words parted by spaces, in quotes or not.
pub open spec fn inline_args(line: Seq<u8>) -> Result<Seq<Seq<u8>>, ProtocolErrorView>
    decreases line.len(),
{
    let s = line.skip(space_run(line) as int);
    if s.len() == 0 {
        Ok(Seq::empty())
    } else {
        match inline_word(s) {
            Ok((word, n)) => {
                proof {
                    space_run_bounded(line);
                    inline_word_bounded(s);
                }
                words_behind(seq![word], inline_args(s.skip(n as int)))
            },
            Err(e) => Err(e),
        }
    }
}

/// A request on one line. Without a line terminator the line must still be within the limit.
#[verifier::opaque]
pub open spec fn parse_inline(s: Seq<u8>, limits: Limits) -> Parse<Seq<Seq<u8>>> {
    match line_len(s) {
        Some(n) => if n > limits.max_inline_len {
            Parse::Bad(
                ProtocolErrorView::LimitExceeded(
                    "inline command of "@ + decimal_text(n as int) + " bytes exceeds limit "@
                        + decimal_text(limits.max_inline_len as int),
                ),
            )
        } else {
            match inline_args(s.take(n as int)) {
                Ok(args) => Parse::Done(args, n + 2),
                Err(e) => Parse::Bad(e),
            }
        },
        None => if s.len() > limits.max_inline_len {
            Parse::Bad(
                ProtocolErrorView::LimitExceeded(
                    "inline command exceeds limit "@ + decimal_text(limits.max_inline_len as int)
                        + " before end of line"@,
                ),
            )
        } else {
            Parse::More
        },
    }
}

/// The client request at the front of `s`: an array of bulk strings, or a line of words.
pub open spec fn parse_request(s: Seq<u8>, limits: Limits) -> Parse<Seq<Seq<u8>>> {
    if s.len() == 0 {
        Parse::More
    } else if s[0] == 42 {
        behind(1, parse_multibulk(s.skip(1), limits))
    } else {
        parse_inline(s, limits)
    }
}

} // verus!
