//! The incremental decoder.
//!
//! It works on a growing buffer: where a value is not there in full yet it takes nothing off
//! the buffer and says so, and the caller appends and calls again. [`decode`] reads any RESP
//! value; [`decode_command`] reads a client request, which is an array of bulk strings or an
//! inline command. What the bytes mean is in [`super::grammar`]. Every length is held to
//! [`Limits`].
use bytes::{Bytes, BytesMut};
use vstd::prelude::*;
use vstd::slice::slice_subrange;

use super::error::{ProtocolError, ProtocolErrorView};
use super::frame::{aggregate_views, frames_view, pairs_view, Frame, FrameView};
use super::grammar::{
    blob, closing_quote, crlf_at, double_quoted, escape, header, hex_value, inline_args,
    inline_word, inline_word_bounded, is_space, line_frame, line_int, line_len, line_text,
    list_count, list_frame, over_limit, paired, parse_arg, parse_args, parse_frame, parse_inline,
    parse_items, parse_multibulk, parse_request, payload, single_quoted, space_run, word_behind,
    words_behind, Parse, Word,
};
use super::laws::{args_stuck, items_stuck, line_ends_at_first, no_terminator_no_line};
use crate::buffer::{
    all_bytes_of, buffer_of, buffer_slice, buffer_split_to, bytes_copy, bytes_from, bytes_of,
};
use crate::float::text::read_double;
use crate::text::{hex_string, i64_text, join2, join3, join4, read_int, u64_text, utf8_text};

verus! {

/// Bounds that the decoder holds its input to.
#[derive(Debug, Clone, Copy)]
pub struct Limits {
    /// The most bytes in one bulk string, verbatim string or bulk error.
    pub max_bulk_len: usize,
    /// The most elements in an aggregate (two for each pair of a map) or in a request.
    pub max_array_len: usize,
    /// The most bytes in an inline command line.
    pub max_inline_len: usize,
    /// The deepest nesting of aggregates.
    pub max_depth: usize,
}

impl Default for Limits {
    fn default() -> (r: Self)
        ensures
            r.max_bulk_len == 512 * 1024 * 1024,
            r.max_array_len == 1024 * 1024,
            r.max_inline_len == 64 * 1024,
            r.max_depth == 128,
    {
        Limits {
            max_bulk_len: 512 * 1024 * 1024,
            max_array_len: 1024 * 1024,
            max_inline_len: 64 * 1024,
            max_depth: 128,
        }
    }
}

// ---------------------------------------------------------------------------
// Lines
// ---------------------------------------------------------------------------
/// The bytes of `s` from `from` on.
fn rest(s: &[u8], from: usize) -> (r: &[u8])
    requires
        from <= s@.len(),
    ensures
        r@ == s@.skip(from as int),
{
    slice_subrange(s, from, s.len())
}

/// The bytes of `s` before `to`.
fn front(s: &[u8], to: usize) -> (r: &[u8])
    requires
        to <= s@.len(),
    ensures
        r@ == s@.take(to as int),
{
    slice_subrange(s, 0, to)
}

/// How many bytes stand before the first line terminator.
fn read_line(input: &[u8]) -> (r: Option<usize>)
    ensures
        r is Some <==> line_len(input@) is Some,
        r matches Some(n) ==> line_len(input@) == Some(n as nat) && n + 2 <= input.len(),
{
    let mut i: usize = 0;
    while i < input.len() && i + 1 < input.len()
        invariant
            i <= input@.len(),
            forall|j: int| 0 <= j < i ==> !crlf_at(input@, j),
        decreases input@.len() - i,
    {
        if input[i] == 13 && input[i + 1] == 10 {
            proof {
                assert(crlf_at(input@, i as int));
                line_ends_at_first(input@, i as nat);
            }
            return Some(i);
        }
        i += 1;
    }
    proof {
        assert forall|j: int| !crlf_at(input@, j) by {
        }
        no_terminator_no_line(input@);
    }
    None
}

/// The text that `bytes` encode in UTF-8.
fn str_from(bytes: &[u8]) -> (r: Result<&str, ProtocolError>)
    ensures
        match r {
            Ok(text) => line_text(bytes@) == Ok::<Seq<char>, ProtocolErrorView>(text@),
            Err(e) => line_text(bytes@) == Err::<Seq<char>, ProtocolErrorView>(e@),
        },
{
    match utf8_text(bytes) {
        Some(text) => Ok(text),
        None => Err(ProtocolError::malformed("invalid UTF-8 in text line")),
    }
}

/// The 64-bit integer that `bytes` spell.
fn parse_i64(bytes: &[u8]) -> (r: Result<i64, ProtocolError>)
    ensures
        match r {
            Ok(n) => line_int(bytes@) == Ok::<i64, ProtocolErrorView>(n),
            Err(e) => line_int(bytes@) == Err::<i64, ProtocolErrorView>(e@),
        },
{
    match str_from(bytes) {
        Ok(text) => match read_int(bytes) {
            Some(n) => Ok(n),
            None => Err(ProtocolError::Malformed(join3("invalid integer '", text, "'"))),
        },
        Err(e) => Err(e),
    }
}

/// An outcome of the decoder in terms of the grammar.
pub open spec fn outcome<T, V>(
    r: Result<Option<(T, usize)>, ProtocolError>,
    view: spec_fn(T) -> V,
) -> Parse<V> {
    match r {
        Ok(Some((v, n))) => Parse::Done(view(v), n as nat),
        Ok(None) => Parse::More,
        Err(e) => Parse::Bad(e@),
    }
}

/// A line that holds a length or a count.
fn read_header(input: &[u8]) -> (r: Result<Option<(i64, usize)>, ProtocolError>)
    ensures
        outcome(r, |n: i64| n) == header(input@),
        r matches Ok(Some((_, n))) ==> n <= input@.len(),
{
    reveal(header);
    match read_line(input) {
        Some(n) => match parse_i64(front(input, n)) {
            Ok(v) => Ok(Some((v, n + 2))),
            Err(e) => Err(e),
        },
        None => Ok(None),
    }
}

// ---------------------------------------------------------------------------
// Values
// ---------------------------------------------------------------------------
/// The value on a line of the given kind.
fn parse_line(kind: u8, line: &[u8]) -> (r: Result<Frame, ProtocolError>)
    ensures
        match r {
            Ok(f) => line_frame(kind, line@) == Ok::<FrameView, ProtocolErrorView>(f@),
            Err(e) => line_frame(kind, line@) == Err::<FrameView, ProtocolErrorView>(e@),
        },
{
    if kind == 43 || kind == 45 || kind == 40 {
        match str_from(line) {
            Ok(text) => Ok(
                if kind == 43 {
                    Frame::Simple(text.to_owned())
                } else if kind == 45 {
                    Frame::Error(text.to_owned())
                } else {
                    Frame::BigNumber(text.to_owned())
                },
            ),
            Err(e) => Err(e),
        }
    } else if kind == 58 {
        match parse_i64(line) {
            Ok(n) => Ok(Frame::Integer(n)),
            Err(e) => Err(e),
        }
    } else if kind == 95 {
        if line.len() == 0 {
            Ok(Frame::Null)
        } else {
            Err(ProtocolError::malformed("null (_) must have empty body"))
        }
    } else if kind == 35 {
        if line.len() == 1 && line[0] == 116 {
            assert(line@ =~= seq![116u8]);
            Ok(Frame::Boolean(true))
        } else if line.len() == 1 && line[0] == 102 {
            assert(line@ =~= seq![102u8]);
            Ok(Frame::Boolean(false))
        } else {
            Err(ProtocolError::malformed("boolean must be #t or #f"))
        }
    } else {
        match str_from(line) {
            Ok(text) => match read_double(line) {
                Some(bits) => Ok(Frame::Double(bits)),
                None => Err(ProtocolError::Malformed(join3("invalid double '", text, "'"))),
            },
            Err(e) => Err(e),
        }
    }
}

/// A length over the configured limit.
fn limit_exceeded(what: &str, len: u64, limit: usize) -> (r: ProtocolError)
    ensures
        r@ == over_limit(what@, len as int, limit),
{
    let len = u64_text(len);
    let limit = u64_text(limit as u64);
    ProtocolError::LimitExceeded(join4(what, &len, " exceeds limit ", &limit))
}

/// A payload of `len` bytes and the line terminator behind it: how many bytes the two take.
fn read_payload(input: &[u8], len: usize, unterminated: &str) -> (r: Result<
    Option<usize>,
    ProtocolError,
>)
    ensures
        match r {
            Ok(Some(n)) => n == len + 2 && n <= input.len() && payload(
                input@,
                len as nat,
                unterminated@,
            ) == Parse::Done(input@.take(len as int), n as nat),
            Ok(None) => payload(input@, len as nat, unterminated@) is More,
            Err(e) => payload(input@, len as nat, unterminated@) == Parse::<Seq<u8>>::Bad(e@),
        },
{
    if input.len() < 2 || input.len() - 2 < len {
        return Ok(None);
    }
    if input[len] != 13 || input[len + 1] != 10 {
        return Err(ProtocolError::malformed(unterminated));
    }
    Ok(Some(len + 2))
}

/// A verbatim string whose length is known.
fn parse_verbatim(input: &[u8], len: i64, limits: &Limits) -> (r: Result<
    Option<(Frame, usize)>,
    ProtocolError,
>)
    ensures
        outcome(r, |f: Frame| f@) == blob(61, len, input@, *limits),
        r matches Ok(Some((_, n))) ==> n <= input.len(),
{
    if len < 4 {
        return Err(
            ProtocolError::malformed("verbatim string too short (need 3-byte format + ':')"),
        );
    }
    if len as u64 > limits.max_bulk_len as u64 {
        return Err(limit_exceeded("verbatim length ", len as u64, limits.max_bulk_len));
    }
    let size: usize = len as usize;
    match read_payload(input, size, "verbatim not terminated by CRLF") {
        Ok(Some(n)) => {
            let body = front(input, size);
            if body[3] != 58 {
                return Err(ProtocolError::malformed("verbatim format not followed by ':'"));
            }
            let format: [u8; 3] = [body[0], body[1], body[2]];
            let data = bytes_copy(rest(body, 4));
            assert(format@ =~= body@.take(3));
            Ok(Some((Frame::Verbatim { format, data }, n)))
        },
        Ok(None) => Ok(None),
        Err(e) => Err(e),
    }
}

/// A bulk string, or a bulk error, whose length is known.
fn parse_bulk(input: &[u8], len: i64, limits: &Limits, is_error: bool) -> (r: Result<
    Option<(Frame, usize)>,
    ProtocolError,
>)
    ensures
        outcome(r, |f: Frame| f@) == blob(
            if is_error {
                33
            } else {
                36
            },
            len,
            input@,
            *limits,
        ),
        r matches Ok(Some((_, n))) ==> n <= input.len(),
{
    // A length of -1 is the null of RESP2, and no error has it.
    if len == -1 && !is_error {
        return Ok(Some((Frame::Null, 0)));
    }
    if len < 0 {
        let len = i64_text(len);
        return Err(ProtocolError::Malformed(join2("negative bulk length ", &len)));
    }
    if len as u64 > limits.max_bulk_len as u64 {
        return Err(limit_exceeded("bulk length ", len as u64, limits.max_bulk_len));
    }
    let size: usize = len as usize;
    match read_payload(input, size, "bulk not terminated by CRLF") {
        Ok(Some(n)) => {
            let body = front(input, size);
            if is_error {
                match str_from(body) {
                    Ok(text) => Ok(Some((Frame::BulkError(text.to_owned()), n))),
                    Err(e) => Err(e),
                }
            } else {
                Ok(Some((Frame::Bulk(bytes_copy(body)), n)))
            }
        },
        Ok(None) => Ok(None),
        Err(e) => Err(e),
    }
}

/// How many elements an aggregate of the given kind has (pairs, for a map), or `None` for a
/// null array.
fn read_count(kind: u8, count: i64, limits: &Limits) -> (r: Result<Option<usize>, ProtocolError>)
    ensures
        match r {
            Ok(Some(n)) => list_count(kind, count, *limits) == Ok::<
                Option<nat>,
                ProtocolErrorView,
            >(
                Some(
                    if kind == 37 {
                        2 * n as nat
                    } else {
                        n as nat
                    },
                ),
            ),
            Ok(None) => list_count(kind, count, *limits) == Ok::<Option<nat>, ProtocolErrorView>(
                None,
            ),
            Err(e) => list_count(kind, count, *limits) == Err::<Option<nat>, ProtocolErrorView>(e@),
        },
{
    if count == -1 && kind == 42 {
        return Ok(None);
    }
    if count < 0 {
        return Err(
            ProtocolError::malformed(
                if kind == 37 {
                    "negative map length"
                } else {
                    "negative aggregate length"
                },
            ),
        );
    }
    let values: u128 = if kind == 37 {
        2 * (count as u128)
    } else {
        count as u128
    };
    if values > limits.max_array_len as u128 {
        return Err(
            limit_exceeded(
                if kind == 37 {
                    "map length "
                } else {
                    "aggregate length "
                },
                count as u64,
                limits.max_array_len,
            ),
        );
    }
    Ok(Some(count as usize))
}

/// The RESP value at the front of `input`, `depth` aggregates deep.
fn parse_value(input: &[u8], limits: &Limits, depth: u128) -> (r: Result<
    Option<(Frame, usize)>,
    ProtocolError,
>)
    ensures
        outcome(r, |f: Frame| f@) == parse_frame(input@, *limits, depth as nat),
        r matches Ok(Some((_, n))) ==> 1 <= n <= input.len(),
    decreases limits.max_depth + 2 - depth, 0nat,
{
    if depth > limits.max_depth as u128 {
        let levels = u64_text(limits.max_depth as u64);
        return Err(ProtocolError::Malformed(join3("nesting deeper than ", &levels, " levels")));
    }
    if input.len() == 0 {
        return Ok(None);
    }
    let kind = input[0];
    let body = rest(input, 1);
    match kind {
        43 | 45 | 40 | 58 | 95 | 35 | 44 => match read_line(body) {
            Some(n) => match parse_line(kind, front(body, n)) {
                Ok(f) => Ok(Some((f, n + 3))),
                Err(e) => Err(e),
            },
            None => Ok(None),
        },
        36 | 33 | 61 => match read_header(body) {
            Ok(Some((len, n))) => {
                let after = rest(body, n);
                let parsed = if kind == 61 {
                    parse_verbatim(after, len, limits)
                } else {
                    parse_bulk(after, len, limits, kind == 33)
                };
                match parsed {
                    Ok(Some((f, m))) => Ok(Some((f, 1 + n + m))),
                    Ok(None) => Ok(None),
                    Err(e) => Err(e),
                }
            },
            Ok(None) => Ok(None),
            Err(e) => Err(e),
        },
        42 | 126 | 62 | 37 => match read_header(body) {
            Ok(Some((count, n))) => match read_count(kind, count, limits) {
                Ok(Some(k)) => {
                    let after = rest(body, n);
                    let parsed = if kind == 37 {
                        parse_map(after, k, limits, depth + 1)
                    } else {
                        parse_aggregate(after, kind, k, limits, depth + 1)
                    };
                    match parsed {
                        Ok(Some((f, m))) => Ok(Some((f, 1 + n + m))),
                        Ok(None) => Ok(None),
                        Err(e) => Err(e),
                    }
                },
                Ok(None) => Ok(Some((Frame::Null, 1 + n))),
                Err(e) => Err(e),
            },
            Ok(None) => Ok(None),
            Err(e) => Err(e),
        },
        other => {
            let byte = hex_string(other);
            Err(ProtocolError::Malformed(join2("unknown RESP type byte 0x", &byte)))
        },
    }
}

/// An aggregate made of the values that the grammar finds.
pub open spec fn aggregate(kind: u8, items: Parse<Seq<FrameView>>) -> Parse<FrameView> {
    match items {
        Parse::Done(items, n) => Parse::Done(list_frame(kind, items), n),
        Parse::Bad(e) => Parse::Bad(e),
        Parse::More => Parse::More,
    }
}

/// An array, a set or a push message of `count` values.
fn parse_aggregate(input: &[u8], kind: u8, count: usize, limits: &Limits, depth: u128) -> (r:
    Result<Option<(Frame, usize)>, ProtocolError>)
    requires
        kind == 42 || kind == 126 || kind == 62,
    ensures
        outcome(r, |f: Frame| f@) == aggregate(
            kind,
            parse_items(input@, count as nat, *limits, depth as nat),
        ),
        r matches Ok(Some((_, n))) ==> n <= input.len(),
    decreases limits.max_depth + 2 - depth, 1nat,
{
    let mut items: Vec<Frame> = Vec::new();
    let mut pos: usize = 0;
    let mut i: usize = 0;
    assert(frames_view(items@) =~= Seq::empty());
    while i < count
        invariant
            i <= count,
            pos <= input.len(),
            parse_items(input@, i as nat, *limits, depth as nat) == Parse::Done(
                frames_view(items@),
                pos as nat,
            ),
        decreases count - i,
    {
        let parsed = parse_value(rest(input, pos), limits, depth);
        match parsed {
            Ok(Some((frame, n))) => {
                let ghost before = frames_view(items@);
                items.push(frame);
                assert(frames_view(items@) =~= before.push(frame@));
                pos += n;
            },
            Ok(None) => {
                proof {
                    items_stuck(input@, (i + 1) as nat, count as nat, *limits, depth as nat);
                }
                return Ok(None);
            },
            Err(e) => {
                proof {
                    items_stuck(input@, (i + 1) as nat, count as nat, *limits, depth as nat);
                }
                return Err(e);
            },
        }
        i += 1;
    }
    proof {
        aggregate_views(items, arbitrary());
    }
    let frame = if kind == 42 {
        Frame::Array(items)
    } else if kind == 126 {
        Frame::SetReply(items)
    } else {
        Frame::Push(items)
    };
    Ok(Some((frame, pos)))
}

/// A map of `count` pairs of values.
fn parse_map(input: &[u8], count: usize, limits: &Limits, depth: u128) -> (r: Result<
    Option<(Frame, usize)>,
    ProtocolError,
>)
    ensures
        outcome(r, |f: Frame| f@) == aggregate(
            37,
            parse_items(input@, 2 * count as nat, *limits, depth as nat),
        ),
        r matches Ok(Some((_, n))) ==> n <= input.len(),
    decreases limits.max_depth + 2 - depth, 1nat,
{
    let mut pairs: Vec<(Frame, Frame)> = Vec::new();
    let mut pos: usize = 0;
    let mut i: usize = 0;
    let ghost mut items: Seq<FrameView> = Seq::empty();
    assert(pairs_view(pairs@) =~= paired(items));
    while i < count
        invariant
            i <= count,
            pos <= input.len(),
            items.len() == 2 * i,
            pairs@.len() == i,
            pairs_view(pairs@) == paired(items),
            parse_items(input@, (2 * i) as nat, *limits, depth as nat) == Parse::Done(
                items,
                pos as nat,
            ),
        decreases count - i,
    {
        let key = match parse_value(rest(input, pos), limits, depth) {
            Ok(Some((frame, n))) => {
                pos += n;
                frame
            },
            Ok(None) => {
                proof {
                    items_stuck(input@, (2 * i + 1) as nat, 2 * count as nat, *limits, depth as nat);
                }
                return Ok(None);
            },
            Err(e) => {
                proof {
                    items_stuck(input@, (2 * i + 1) as nat, 2 * count as nat, *limits, depth as nat);
                }
                return Err(e);
            },
        };
        assert(parse_items(input@, (2 * i + 1) as nat, *limits, depth as nat) == Parse::Done(
            items.push(key@),
            pos as nat,
        ));
        let value = match parse_value(rest(input, pos), limits, depth) {
            Ok(Some((frame, n))) => {
                pos += n;
                frame
            },
            Ok(None) => {
                proof {
                    items_stuck(input@, (2 * i + 2) as nat, 2 * count as nat, *limits, depth as nat);
                }
                return Ok(None);
            },
            Err(e) => {
                proof {
                    items_stuck(input@, (2 * i + 2) as nat, 2 * count as nat, *limits, depth as nat);
                }
                return Err(e);
            },
        };
        let ghost old_items = items;
        proof {
            items = items.push(key@).push(value@);
            assert(parse_items(input@, (2 * (i + 1)) as nat, *limits, depth as nat)
                == Parse::Done(items, pos as nat));
        }
        let ghost old_pairs = pairs@;
        pairs.push((key, value));
        i += 1;
        assert(pairs_view(pairs@) =~= paired(items)) by {
            assert forall|j: int| 0 <= j < i implies pairs_view(pairs@)[j] == paired(items)[j] by {
                if j < i - 1 {
                    assert(pairs_view(old_pairs)[j] == pairs_view(pairs@)[j]);
                    assert(paired(old_items)[j] == paired(items)[j]);
                }
            }
        }
    }
    proof {
        aggregate_views(arbitrary(), pairs);
    }
    Ok(Some((Frame::MapReply(pairs), pos)))
}

/// Takes one RESP value off the front of `buf`.
///
/// Returns `Ok(None)`, and takes nothing, where the value is not there in full yet.
pub fn decode(buf: &mut BytesMut, limits: &Limits) -> (r: Result<Option<Frame>, ProtocolError>)
    ensures
        match parse_frame(buffer_of(*old(buf)), *limits, 0) {
            Parse::Done(f, n) => r matches Ok(Some(frame)) && frame@ == f && buffer_of(*final(buf))
                == buffer_of(*old(buf)).skip(n as int),
            Parse::More => r matches Ok(None) && *final(buf) == *old(buf),
            Parse::Bad(e) => r matches Err(error) && error@ == e && *final(buf) == *old(buf),
        },
{
    match parse_value(buffer_slice(buf), limits, 0) {
        Ok(Some((frame, consumed))) => {
            let _ = buffer_split_to(buf, consumed);
            Ok(Some(frame))
        },
        Ok(None) => Ok(None),
        Err(e) => Err(e),
    }
}

// ---------------------------------------------------------------------------
// Requests
// ---------------------------------------------------------------------------
/// One argument of a request.
fn parse_argument(input: &[u8], limits: &Limits) -> (r: Result<
    Option<(Bytes, usize)>,
    ProtocolError,
>)
    ensures
        outcome(r, |b: Bytes| bytes_of(b)) == parse_arg(input@, *limits),
        r matches Ok(Some((_, n))) ==> n <= input.len(),
{
    if input.len() == 0 {
        return Ok(None);
    }
    if input[0] != 36 {
        let byte = hex_string(input[0]);
        return Err(ProtocolError::Malformed(join2("expected '$' in multibulk, got 0x", &byte)));
    }
    let body = rest(input, 1);
    match read_header(body) {
        Ok(Some((len, n))) => {
            if len < 0 {
                return Err(ProtocolError::malformed("null bulk string not allowed in a request"));
            }
            if len as u64 > limits.max_bulk_len as u64 {
                return Err(limit_exceeded("bulk length ", len as u64, limits.max_bulk_len));
            }
            let size: usize = len as usize;
            let after = rest(input, 1 + n);
            match read_payload(after, size, "bulk not terminated by CRLF") {
                Ok(Some(m)) => Ok(Some((bytes_copy(front(after, size)), 1 + n + m))),
                Ok(None) => Ok(None),
                Err(e) => Err(e),
            }
        },
        Ok(None) => Ok(None),
        Err(e) => Err(e),
    }
}

/// A request as an array of bulk strings; `input` starts behind the `*`.
fn read_multibulk(input: &[u8], limits: &Limits) -> (r: Result<
    Option<(Vec<Bytes>, usize)>,
    ProtocolError,
>)
    ensures
        outcome(r, |v: Vec<Bytes>| all_bytes_of(v@)) == parse_multibulk(input@, *limits),
        r matches Ok(Some((_, n))) ==> n <= input.len(),
{
    let (count, start): (i64, usize) = match read_header(input) {
        Ok(Some((count, n))) => (count, n),
        Ok(None) => return Ok(None),
        Err(e) => return Err(e),
    };
    let mut args: Vec<Bytes> = Vec::new();
    assert(all_bytes_of(args@) =~= Seq::empty());
    if count <= 0 {
        // A request without arguments; the caller skips it.
        return Ok(Some((args, start)));
    }
    if count as u64 > limits.max_array_len as u64 {
        return Err(limit_exceeded("multibulk length ", count as u64, limits.max_array_len));
    }
    let total: usize = count as usize;
    let list = rest(input, start);
    let mut pos: usize = 0;
    let mut i: usize = 0;
    while i < total
        invariant
            i <= total,
            pos <= list.len(),
            list@ == input@.skip(start as int),
            start <= input.len(),
            header(input@) == Parse::Done(count, start as nat),
            0 < count <= limits.max_array_len,
            total == count,
            parse_args(list@, i as nat, *limits) == Parse::Done(all_bytes_of(args@), pos as nat),
        decreases total - i,
    {
        match parse_argument(rest(list, pos), limits) {
            Ok(Some((arg, n))) => {
                let ghost before = all_bytes_of(args@);
                args.push(arg);
                assert(all_bytes_of(args@) =~= before.push(bytes_of(arg)));
                pos += n;
            },
            Ok(None) => {
                proof {
                    args_stuck(list@, (i + 1) as nat, total as nat, *limits);
                }
                return Ok(None);
            },
            Err(e) => {
                proof {
                    args_stuck(list@, (i + 1) as nat, total as nat, *limits);
                }
                return Err(e);
            },
        }
        i += 1;
    }
    Ok(Some((args, start + pos)))
}

/// Whether `b` parts the words of an inline command.
fn check_space(b: u8) -> (r: bool)
    ensures
        r == is_space(b),
{
    b == 32 || (9 <= b && b <= 13)
}

/// The value of a hexadecimal digit in either case.
fn read_hex(b: u8) -> (r: Option<u8>)
    ensures
        r is Some <==> hex_value(b) is Some,
        r matches Some(v) ==> hex_value(b) == Some(v as int) && v < 16,
{
    if 48 <= b && b <= 57 {
        Some(b - 48)
    } else if 97 <= b && b <= 102 {
        Some(b - 87)
    } else if 65 <= b && b <= 70 {
        Some(b - 55)
    } else {
        None
    }
}

/// What an escape sequence stands for, and how many bytes it takes; `s` starts behind the
/// backslash.
fn unescape_double(s: &[u8]) -> (r: (u8, usize))
    requires
        s@.len() > 0,
    ensures
        r.0 == escape(s@).0,
        r.1 == escape(s@).1,
        1 <= r.1 <= s.len(),
{
    if s[0] == 120 && s.len() >= 3 {
        if let Some(hi) = read_hex(s[1]) {
            if let Some(lo) = read_hex(s[2]) {
                return (16 * hi + lo, 3);
            }
        }
    }
    let byte: u8 = match s[0] {
        110 => 10,
        114 => 13,
        116 => 9,
        98 => 8,
        97 => 7,
        other => other,
    };
    (byte, 1)
}

/// What a quoted word is, in terms of the grammar.
pub open spec fn word_outcome(r: Result<(Vec<u8>, usize), ProtocolError>) -> Word {
    match r {
        Ok((word, n)) => Ok((word@, n as nat)),
        Err(e) => Err(e@),
    }
}

/// The end of a quoted word, at whose closing quote `s` starts.
fn check_closing(s: &[u8]) -> (r: Result<(), ProtocolError>)
    requires
        s@.len() > 0,
    ensures
        match r {
            Ok(()) => closing_quote(s@) == Ok::<(Seq<u8>, nat), ProtocolErrorView>(
                (Seq::empty(), 1),
            ),
            Err(e) => closing_quote(s@) == Err::<(Seq<u8>, nat), ProtocolErrorView>(e@),
        },
{
    if s.len() > 1 && !check_space(s[1]) {
        Err(ProtocolError::InlineSyntax("closing quote not followed by space".to_owned()))
    } else {
        Ok(())
    }
}

/// A word in double quotes; `s` starts behind the opening quote.
fn read_double_quoted(s: &[u8]) -> (r: Result<(Vec<u8>, usize), ProtocolError>)
    ensures
        word_outcome(r) == double_quoted(s@),
        r matches Ok((_, n)) ==> n <= s.len(),
{
    let mut cur: Vec<u8> = Vec::new();
    let mut i: usize = 0;
    assert(word_behind(cur@, 0, double_quoted(s@.skip(0))) == double_quoted(s@)) by {
        assert(s@.skip(0) =~= s@);
        if let Ok((w, n)) = double_quoted(s@) {
            assert(cur@ + w =~= w);
        }
    }
    while i < s.len()
        invariant
            i <= s@.len(),
            word_behind(cur@, i as nat, double_quoted(s@.skip(i as int))) == double_quoted(s@),
        decreases s@.len() - i,
    {
        let here = rest(s, i);
        let ghost before = cur@;
        if here[0] == 34 {
            match check_closing(here) {
                Ok(()) => {
                    assert(cur@ + Seq::<u8>::empty() =~= cur@);
                    return Ok((cur, i + 1));
                },
                Err(e) => {
                    return Err(e);
                },
            }
        } else if here[0] == 92 && here.len() > 1 {
            let (byte, n) = unescape_double(rest(here, 1));
            cur.push(byte);
            i += 1 + n;
            assert(s@.skip(i as int) =~= here@.skip(1 + n as int));
            proof {
                if let Ok((w, m)) = double_quoted(s@.skip(i as int)) {
                    assert(before + (seq![byte] + w) =~= cur@ + w);
                }
            }
        } else {
            cur.push(here[0]);
            i += 1;
            assert(s@.skip(i as int) =~= here@.skip(1));
            proof {
                if let Ok((w, m)) = double_quoted(s@.skip(i as int)) {
                    assert(before + (seq![here@[0]] + w) =~= cur@ + w);
                }
            }
        }
    }
    Err(ProtocolError::InlineSyntax("unbalanced double quotes".to_owned()))
}

/// A word in single quotes; `s` starts behind the opening quote.
fn read_single_quoted(s: &[u8]) -> (r: Result<(Vec<u8>, usize), ProtocolError>)
    ensures
        word_outcome(r) == single_quoted(s@),
        r matches Ok((_, n)) ==> n <= s.len(),
{
    let mut cur: Vec<u8> = Vec::new();
    let mut i: usize = 0;
    assert(word_behind(cur@, 0, single_quoted(s@.skip(0))) == single_quoted(s@)) by {
        assert(s@.skip(0) =~= s@);
        if let Ok((w, n)) = single_quoted(s@) {
            assert(cur@ + w =~= w);
        }
    }
    while i < s.len()
        invariant
            i <= s@.len(),
            word_behind(cur@, i as nat, single_quoted(s@.skip(i as int))) == single_quoted(s@),
        decreases s@.len() - i,
    {
        let here = rest(s, i);
        let ghost before = cur@;
        if here[0] == 39 {
            match check_closing(here) {
                Ok(()) => {
                    assert(cur@ + Seq::<u8>::empty() =~= cur@);
                    return Ok((cur, i + 1));
                },
                Err(e) => {
                    return Err(e);
                },
            }
        } else if here[0] == 92 && here.len() > 1 && here[1] == 39 {
            cur.push(39);
            i += 2;
            assert(s@.skip(i as int) =~= here@.skip(2));
            proof {
                if let Ok((w, m)) = single_quoted(s@.skip(i as int)) {
                    assert(before + (seq![39u8] + w) =~= cur@ + w);
                }
            }
        } else {
            cur.push(here[0]);
            i += 1;
            assert(s@.skip(i as int) =~= here@.skip(1));
            proof {
                if let Ok((w, m)) = single_quoted(s@.skip(i as int)) {
                    assert(before + (seq![here@[0]] + w) =~= cur@ + w);
                }
            }
        }
    }
    Err(ProtocolError::InlineSyntax("unbalanced single quotes".to_owned()))
}

/// How many spaces `s` starts with.
fn count_spaces(s: &[u8]) -> (r: usize)
    ensures
        r == space_run(s@),
        r <= s.len(),
        r < s@.len() ==> !is_space(s@[r as int]),
{
    let mut i: usize = 0;
    assert(s@.skip(0) =~= s@);
    while i < s.len() && check_space(s[i])
        invariant
            i <= s@.len(),
            space_run(s@) == i + space_run(s@.skip(i as int)),
        decreases s@.len() - i,
    {
        assert(s@.skip(i as int).skip(1) =~= s@.skip(i + 1));
        i += 1;
    }
    i
}

/// The word at the front of `s`, which starts with no space.
fn read_word(s: &[u8]) -> (r: Result<(Vec<u8>, usize), ProtocolError>)
    requires
        s@.len() > 0,
        !is_space(s@[0]),
    ensures
        word_outcome(r) == inline_word(s@),
        r matches Ok((_, n)) ==> 1 <= n <= s.len(),
{
    let mut cur: Vec<u8> = Vec::new();
    let mut i: usize = 0;
    proof {
        inline_word_bounded(s@);
        assert(s@.skip(0) =~= s@);
        if let Ok((w, n)) = inline_word(s@) {
            assert(cur@ + w =~= w);
        }
    }
    while i < s.len() && !check_space(s[i])
        invariant
            i <= s@.len(),
            word_behind(cur@, i as nat, inline_word(s@.skip(i as int))) == inline_word(s@),
            inline_word(s@) matches Ok((_, n)) ==> 1 <= n <= s@.len(),
        decreases s@.len() - i,
    {
        let here = rest(s, i);
        let ghost before = cur@;
        if here[0] == 34 || here[0] == 39 {
            let quoted = if here[0] == 34 {
                read_double_quoted(rest(here, 1))
            } else {
                read_single_quoted(rest(here, 1))
            };
            return match quoted {
                Ok((mut word, n)) => {
                    let ghost part = word@;
                    cur.append(&mut word);
                    assert(cur@ =~= before + (Seq::<u8>::empty() + part));
                    Ok((cur, i + 1 + n))
                },
                Err(e) => Err(e),
            };
        }
        cur.push(here[0]);
        i += 1;
        assert(s@.skip(i as int) =~= here@.skip(1));
        proof {
            if let Ok((w, m)) = inline_word(s@.skip(i as int)) {
                assert(before + (seq![here@[0]] + w) =~= cur@ + w);
            }
        }
    }
    assert(cur@ + Seq::<u8>::empty() =~= cur@);
    Ok((cur, i))
}

/// The arguments on an inline command line.
fn split_inline(line: &[u8]) -> (r: Result<Vec<Bytes>, ProtocolError>)
    ensures
        match r {
            Ok(args) => inline_args(line@) == Ok::<Seq<Seq<u8>>, ProtocolErrorView>(
                all_bytes_of(args@),
            ),
            Err(e) => inline_args(line@) == Err::<Seq<Seq<u8>>, ProtocolErrorView>(e@),
        },
{
    let mut args: Vec<Bytes> = Vec::new();
    let mut i: usize = 0;
    assert(words_behind(all_bytes_of(args@), inline_args(line@.skip(0))) == inline_args(line@))
        by {
        assert(line@.skip(0) =~= line@);
        if let Ok(words) = inline_args(line@) {
            assert(all_bytes_of(args@) + words =~= words);
        }
    }
    loop
        invariant
            i <= line.len(),
            words_behind(all_bytes_of(args@), inline_args(line@.skip(i as int))) == inline_args(
                line@,
            ),
        decreases line@.len() - i,
    {
        let here = rest(line, i);
        let spaces = count_spaces(here);
        let word = rest(here, spaces);
        if word.len() == 0 {
            assert(all_bytes_of(args@) + Seq::<Seq<u8>>::empty() =~= all_bytes_of(args@));
            return Ok(args);
        }
        match read_word(word) {
            Ok((bytes, n)) => {
                let ghost before = all_bytes_of(args@);
                let ghost content = bytes@;
                let arg = bytes_from(bytes);
                args.push(arg);
                assert(all_bytes_of(args@) =~= before.push(content));
                i = i + spaces + n;
                assert(line@.skip(i as int) =~= word@.skip(n as int));
                proof {
                    if let Ok(words) = inline_args(line@.skip(i as int)) {
                        assert(before + (seq![content] + words) =~= all_bytes_of(args@) + words);
                    }
                }
            },
            Err(e) => {
                return Err(e);
            },
        }
    }
}

/// A request on one line.
fn read_inline(input: &[u8], limits: &Limits) -> (r: Result<
    Option<(Vec<Bytes>, usize)>,
    ProtocolError,
>)
    ensures
        outcome(r, |v: Vec<Bytes>| all_bytes_of(v@)) == parse_inline(input@, *limits),
        r matches Ok(Some((_, n))) ==> n <= input.len(),
{
    reveal(parse_inline);
    match read_line(input) {
        Some(n) => {
            if n > limits.max_inline_len {
                let len = u64_text(n as u64);
                let limit = u64_text(limits.max_inline_len as u64);
                return Err(
                    ProtocolError::LimitExceeded(
                        join4("inline command of ", &len, " bytes exceeds limit ", &limit),
                    ),
                );
            }
            match split_inline(front(input, n)) {
                Ok(args) => Ok(Some((args, n + 2))),
                Err(e) => Err(e),
            }
        },
        None => {
            // Refuse a line that is too long already, rather than buffer it without bound.
            if input.len() > limits.max_inline_len {
                let limit = u64_text(limits.max_inline_len as u64);
                return Err(
                    ProtocolError::LimitExceeded(
                        join3("inline command exceeds limit ", &limit, " before end of line"),
                    ),
                );
            }
            Ok(None)
        },
    }
}

/// Takes one client request off the front of `buf`.
///
/// Returns its arguments. A blank line and an empty array are requests without arguments,
/// which callers skip. Returns `Ok(None)`, and takes nothing, where the request is not there
/// in full yet.
pub fn decode_command(buf: &mut BytesMut, limits: &Limits) -> (r: Result<
    Option<Vec<Bytes>>,
    ProtocolError,
>)
    ensures
        match parse_request(buffer_of(*old(buf)), *limits) {
            Parse::Done(args, n) => r matches Ok(Some(v)) && all_bytes_of(v@) == args && buffer_of(
                *final(buf),
            ) == buffer_of(*old(buf)).skip(n as int),
            Parse::More => r matches Ok(None) && *final(buf) == *old(buf),
            Parse::Bad(e) => r matches Err(error) && error@ == e && *final(buf) == *old(buf),
        },
{
    let input = buffer_slice(buf);
    if input.len() == 0 {
        return Ok(None);
    }
    let parsed = if input[0] == 42 {
        match read_multibulk(rest(input, 1), limits) {
            Ok(Some((args, n))) => Ok(Some((args, 1 + n))),
            Ok(None) => Ok(None),
            Err(e) => Err(e),
        }
    } else {
        read_inline(input, limits)
    };
    match parsed {
        Ok(Some((args, consumed))) => {
            let _ = buffer_split_to(buf, consumed);
            Ok(Some(args))
        },
        Ok(None) => Ok(None),
        Err(e) => Err(e),
    }
}

} // verus!
