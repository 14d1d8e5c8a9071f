//! What holds of the wire protocol as a whole.
use vstd::prelude::*;
use vstd::utf8::{encode_utf8, encode_utf8_decode_utf8, encode_utf8_valid_utf8};

use super::decode::Limits;
use super::encode::{crlf, wire, wire_blob, wire_items, wire_line, wire_pairs};
use super::error::ProtocolErrorView;
use super::frame::{flattened, FrameView, RespVersion};
use super::grammar::{
    behind, blob, crlf_at, header, is_blob_kind, is_line_kind, is_list_kind, line_frame, line_int,
    line_len, list_count, list_frame, paired, parse_arg, parse_args, parse_frame, parse_inline,
    parse_items, parse_request, payload, Parse,
};
use crate::float::round::INFINITE;
use crate::float::text::{
    double_reads_back, double_text, double_text_is_plain, magnitude, NOT_A_NUMBER,
};
use crate::text::{
    all_ascii, ascii_is_utf8, decimal, decimal_is_short, decimal_reads_back, is_digit,
};

verus! {

// ---------------------------------------------------------------------------
// Lines
// ---------------------------------------------------------------------------
/// A line ends at the first line terminator.
pub proof fn line_ends_at_first(s: Seq<u8>, n: nat)
    requires
        crlf_at(s, n as int),
        forall|j: int| 0 <= j < n ==> !crlf_at(s, j),
    ensures
        line_len(s) == Some(n),
    decreases n,
{
    if n > 0 {
        let t = s.skip(1);
        assert(crlf_at(t, n - 1));
        assert forall|j: int| 0 <= j < n - 1 implies !crlf_at(t, j) by {
            assert(!crlf_at(s, j + 1));
        }
        assert(!crlf_at(s, 0));
        line_ends_at_first(t, (n - 1) as nat);
    }
}

/// Without a line terminator there is no line.
pub proof fn no_terminator_no_line(s: Seq<u8>)
    requires
        forall|j: int| !crlf_at(s, j),
    ensures
        line_len(s) is None,
    decreases s.len(),
{
    if s.len() >= 2 {
        let t = s.skip(1);
        assert forall|j: int| !crlf_at(t, j) by {
            assert(!crlf_at(s, j + 1));
        }
        assert(!crlf_at(s, 0));
        no_terminator_no_line(t);
    }
}

/// Where there is a line, it ends at the first line terminator.
pub proof fn line_end(s: Seq<u8>)
    ensures
        line_len(s) matches Some(n) ==> crlf_at(s, n as int) && n + 2 <= s.len() && forall|j: int|
            0 <= j < n ==> !crlf_at(s, j),
    decreases s.len(),
{
    if s.len() >= 2 && !crlf_at(s, 0) {
        let t = s.skip(1);
        line_end(t);
        if line_len(t) is Some {
            let n = line_len(t)->0;
            assert(crlf_at(s, n as int + 1));
            assert forall|j: int| 0 <= j < n + 1 implies !crlf_at(s, j) by {
                if j > 0 {
                    assert(!crlf_at(t, j - 1));
                }
            }
        }
    }
}

// ---------------------------------------------------------------------------
// A value takes no more bytes than there are
// ---------------------------------------------------------------------------
/// A header takes at least its line terminator and at most everything.
pub proof fn header_bounded(s: Seq<u8>)
    ensures
        header(s) matches Parse::Done(_, n) ==> 2 <= n <= s.len(),
{
    reveal(header);
    line_end(s);
}

/// A value that is there takes at least one byte, and no more than there are.
pub proof fn frame_bounded(s: Seq<u8>, limits: Limits, depth: nat)
    ensures
        parse_frame(s, limits, depth) matches Parse::Done(_, n) ==> 1 <= n <= s.len(),
    decreases limits.max_depth + 2 - depth, 0nat,
{
    if depth <= limits.max_depth && s.len() > 0 {
        let body = s.skip(1);
        line_end(body);
        header_bounded(body);
        if is_list_kind(s[0]) {
            if let Parse::Done(count, n) = header(body) {
                if let Ok(Some(k)) = list_count(s[0], count, limits) {
                    items_bounded(body.skip(n as int), k, limits, depth + 1);
                }
            }
        }
    }
}

/// Values that are there take no more bytes than there are, and as many come out as were
/// asked for.
pub proof fn items_bounded(s: Seq<u8>, count: nat, limits: Limits, depth: nat)
    ensures
        parse_items(s, count, limits, depth) matches Parse::Done(items, n) ==> n <= s.len()
            && items.len() == count,
    decreases limits.max_depth + 2 - depth, count + 1,
{
    if count > 0 {
        items_bounded(s, (count - 1) as nat, limits, depth);
        if let Parse::Done(_, n) = parse_items(s, (count - 1) as nat, limits, depth) {
            frame_bounded(s.skip(n as int), limits, depth);
        }
    }
}

/// Where fewer values already do not come out, no greater number does, for the same reason.
pub proof fn items_stuck(s: Seq<u8>, k: nat, count: nat, limits: Limits, depth: nat)
    requires
        k <= count,
        !(parse_items(s, k, limits, depth) is Done),
    ensures
        parse_items(s, count, limits, depth) == parse_items(s, k, limits, depth),
    decreases count,
{
    if k < count {
        items_stuck(s, k, (count - 1) as nat, limits, depth);
    }
}

/// An argument takes at least one byte, and no more than there are.
pub proof fn arg_bounded(s: Seq<u8>, limits: Limits)
    ensures
        parse_arg(s, limits) matches Parse::Done(_, n) ==> 1 <= n <= s.len(),
{
    if s.len() > 0 {
        header_bounded(s.skip(1));
    }
}

/// Arguments take no more bytes than there are, and as many come out as were asked for.
pub proof fn args_bounded(s: Seq<u8>, count: nat, limits: Limits)
    ensures
        parse_args(s, count, limits) matches Parse::Done(args, n) ==> n <= s.len() && args.len()
            == count,
    decreases count,
{
    if count > 0 {
        args_bounded(s, (count - 1) as nat, limits);
        if let Parse::Done(_, n) = parse_args(s, (count - 1) as nat, limits) {
            arg_bounded(s.skip(n as int), limits);
        }
    }
}

/// Where fewer arguments already do not come out, no greater number does.
pub proof fn args_stuck(s: Seq<u8>, k: nat, count: nat, limits: Limits)
    requires
        k <= count,
        !(parse_args(s, k, limits) is Done),
    ensures
        parse_args(s, count, limits) == parse_args(s, k, limits),
    decreases count,
{
    if k < count {
        args_stuck(s, k, (count - 1) as nat, limits);
    }
}

/// A request that is there takes at least one byte, and no more than there are.
pub proof fn request_bounded(s: Seq<u8>, limits: Limits)
    ensures
        parse_request(s, limits) matches Parse::Done(_, n) ==> 1 <= n <= s.len(),
{
    reveal(parse_inline);
    if s.len() > 0 {
        let body = s.skip(1);
        line_end(s);
        header_bounded(body);
        if let Parse::Done(count, n) = header(body) {
            if count > 0 {
                args_bounded(body.skip(n as int), count as nat, limits);
            }
        }
    }
}

// ---------------------------------------------------------------------------
// More bytes behind a value change nothing
// ---------------------------------------------------------------------------
/// Where bytes are appended, a cut inside the old part leaves the new part behind.
proof fn skip_append(s: Seq<u8>, t: Seq<u8>, n: nat)
    requires
        n <= s.len(),
    ensures
        (s + t).skip(n as int) == s.skip(n as int) + t,
        (s + t).take(n as int) == s.take(n as int),
{
    assert((s + t).skip(n as int) =~= s.skip(n as int) + t);
    assert((s + t).take(n as int) =~= s.take(n as int));
}

/// A line that is there stays the same when bytes are appended.
pub proof fn line_extends(s: Seq<u8>, t: Seq<u8>)
    requires
        line_len(s) is Some,
    ensures
        line_len(s + t) == line_len(s),
        (s + t).take(line_len(s)->0 as int) == s.take(line_len(s)->0 as int),
{
    line_end(s);
    let n = line_len(s)->0;
    let u = s + t;
    assert(crlf_at(u, n as int));
    assert forall|j: int| 0 <= j < n implies !crlf_at(u, j) by {
        assert(!crlf_at(s, j));
    }
    line_ends_at_first(u, n);
    skip_append(s, t, n);
}

/// A header that is there, or is bad, stays so when bytes are appended.
pub proof fn header_extends(s: Seq<u8>, t: Seq<u8>)
    requires
        !(header(s) is More),
    ensures
        header(s + t) == header(s),
{
    reveal(header);
    line_extends(s, t);
}

/// A payload that is there, or is bad, stays so when bytes are appended.
proof fn payload_extends(s: Seq<u8>, t: Seq<u8>, len: nat, unterminated: Seq<char>)
    requires
        !(payload(s, len, unterminated) is More),
    ensures
        payload(s + t, len, unterminated) == payload(s, len, unterminated),
{
    skip_append(s, t, len);
    assert(crlf_at(s, len as int) == crlf_at(s + t, len as int));
}

/// A blob that is there, or is bad, stays so when bytes are appended.
proof fn blob_extends(kind: u8, len: i64, s: Seq<u8>, t: Seq<u8>, limits: Limits)
    requires
        !(blob(kind, len, s, limits) is More),
    ensures
        blob(kind, len, s + t, limits) == blob(kind, len, s, limits),
{
    if kind == 61 {
        if 4 <= len <= limits.max_bulk_len {
            payload_extends(s, t, len as nat, "verbatim not terminated by CRLF"@);
        }
    } else if 0 <= len <= limits.max_bulk_len {
        payload_extends(s, t, len as nat, "bulk not terminated by CRLF"@);
    }
}

/// A value that is there in full, or that is bad, reads the same whatever follows it.
pub proof fn frame_extends(s: Seq<u8>, t: Seq<u8>, limits: Limits, depth: nat)
    requires
        !(parse_frame(s, limits, depth) is More),
    ensures
        parse_frame(s + t, limits, depth) == parse_frame(s, limits, depth),
    decreases limits.max_depth + 2 - depth, 0nat,
{
    if depth <= limits.max_depth {
        let kind = s[0];
        let body = s.skip(1);
        skip_append(s, t, 1);
        assert((s + t)[0] == kind);
        if is_line_kind(kind) {
            line_extends(body, t);
        } else if is_blob_kind(kind) || is_list_kind(kind) {
            header_extends(body, t);
            header_bounded(body);
            if let Parse::Done(count, n) = header(body) {
                skip_append(body, t, n);
                let rest = body.skip(n as int);
                if is_blob_kind(kind) {
                    blob_extends(kind, count, rest, t, limits);
                } else if let Ok(Some(k)) = list_count(kind, count, limits) {
                    items_extends(rest, t, k, limits, depth + 1);
                }
            }
        }
    }
}

/// Values that are there in full, or of which one is bad, read the same whatever follows.
pub proof fn items_extends(s: Seq<u8>, t: Seq<u8>, count: nat, limits: Limits, depth: nat)
    requires
        !(parse_items(s, count, limits, depth) is More),
    ensures
        parse_items(s + t, count, limits, depth) == parse_items(s, count, limits, depth),
    decreases limits.max_depth + 2 - depth, count + 1,
{
    if count > 0 {
        let k = (count - 1) as nat;
        items_extends(s, t, k, limits, depth);
        items_bounded(s, k, limits, depth);
        if let Parse::Done(_, n) = parse_items(s, k, limits, depth) {
            skip_append(s, t, n);
            frame_extends(s.skip(n as int), t, limits, depth);
        }
    }
}

/// An argument that is there in full, or that is bad, reads the same whatever follows it.
proof fn arg_extends(s: Seq<u8>, t: Seq<u8>, limits: Limits)
    requires
        !(parse_arg(s, limits) is More),
    ensures
        parse_arg(s + t, limits) == parse_arg(s, limits),
{
    skip_append(s, t, 1);
    assert((s + t)[0] == s[0]);
    if s[0] == 36 {
        let body = s.skip(1);
        header_extends(body, t);
        header_bounded(body);
        if let Parse::Done(len, n) = header(body) {
            skip_append(s, t, 1 + n);
            if 0 <= len <= limits.max_bulk_len {
                payload_extends(
                    s.skip(1 + n as int),
                    t,
                    len as nat,
                    "bulk not terminated by CRLF"@,
                );
            }
        }
    }
}

/// Arguments that are there in full, or of which one is bad, read the same whatever follows.
proof fn args_extends(s: Seq<u8>, t: Seq<u8>, count: nat, limits: Limits)
    requires
        !(parse_args(s, count, limits) is More),
    ensures
        parse_args(s + t, count, limits) == parse_args(s, count, limits),
    decreases count,
{
    if count > 0 {
        let k = (count - 1) as nat;
        args_extends(s, t, k, limits);
        args_bounded(s, k, limits);
        if let Parse::Done(_, n) = parse_args(s, k, limits) {
            skip_append(s, t, n);
            arg_extends(s.skip(n as int), t, limits);
        }
    }
}

/// A request that is there in full reads the same whatever follows it, and so does a bad one,
/// save for a line that is refused because it has grown too long without an end.
pub proof fn request_extends(s: Seq<u8>, t: Seq<u8>, limits: Limits)
    requires
        !(parse_request(s, limits) is More),
        s[0] == 42 || line_len(s) is Some,
    ensures
        parse_request(s + t, limits) == parse_request(s, limits),
{
    reveal(parse_inline);
    assert((s + t)[0] == s[0]);
    if s[0] == 42 {
        let body = s.skip(1);
        skip_append(s, t, 1);
        header_extends(body, t);
        header_bounded(body);
        if let Parse::Done(count, n) = header(body) {
            skip_append(body, t, n);
            if 0 < count <= limits.max_array_len {
                args_extends(body.skip(n as int), t, count as nat, limits);
            }
        }
    } else {
        line_extends(s, t);
    }
}

// ---------------------------------------------------------------------------
// What is written reads back
// ---------------------------------------------------------------------------
/// No line terminator stands inside `line`.
pub open spec fn one_line(line: Seq<u8>) -> bool {
    forall|i: int| !crlf_at(line, i)
}

/// A length or a count that a header can hold, within the given limit.
pub open spec fn countable(n: nat, limit: usize) -> bool {
    n <= limit && n <= i64::MAX
}

/// A value that a peer with the given limits accepts: its lines hold no line terminator, its
/// doubles are numbers, infinite or the one value that is not a number, and its lengths, counts
/// and depth are within the limits.
pub open spec fn sendable(f: FrameView, limits: Limits, depth: nat) -> bool
    decreases f,
{
    depth <= limits.max_depth && match f {
        FrameView::Simple(s) => one_line(encode_utf8(s)),
        FrameView::Error(s) => one_line(encode_utf8(s)),
        FrameView::Integer(_) => true,
        FrameView::Bulk(b) => countable(b.len(), limits.max_bulk_len),
        FrameView::Array(items) => countable(items.len(), limits.max_array_len) && forall|i: int|
            0 <= i < items.len() ==> sendable(#[trigger] items[i], limits, depth + 1),
        FrameView::Null => true,
        FrameView::Boolean(_) => true,
        FrameView::Double(bits) => magnitude(bits) <= INFINITE || bits == NOT_A_NUMBER,
        FrameView::BigNumber(s) => one_line(encode_utf8(s)),
        FrameView::BulkError(s) => countable(encode_utf8(s).len(), limits.max_bulk_len),
        FrameView::Verbatim { format, data } => format.len() == 3 && countable(
            4 + data.len(),
            limits.max_bulk_len,
        ),
        FrameView::MapReply(pairs) => 2 * pairs.len() <= limits.max_array_len && forall|
            i: int,
        |
            0 <= i < pairs.len() ==> sendable((#[trigger] pairs[i]).0, limits, depth + 1)
                && sendable(pairs[i].1, limits, depth + 1),
        FrameView::SetReply(items) => countable(items.len(), limits.max_array_len) && forall|
            i: int,
        |
            0 <= i < items.len() ==> sendable(#[trigger] items[i], limits, depth + 1),
        FrameView::Push(items) => countable(items.len(), limits.max_array_len) && forall|i: int|
            0 <= i < items.len() ==> sendable(#[trigger] items[i], limits, depth + 1),
    }
}

/// A line that was written reads back as that line.
pub proof fn line_reads_back(line: Seq<u8>, t: Seq<u8>)
    requires
        one_line(line),
    ensures
        line_len(line + crlf() + t) == Some(line.len()),
        (line + crlf() + t).take(line.len() as int) == line,
        (line + crlf() + t).skip(line.len() as int + 2) == t,
{
    let s = line + crlf() + t;
    let n = line.len();
    assert(crlf_at(s, n as int));
    assert forall|j: int| 0 <= j < n implies !crlf_at(s, j) by {
        assert(!crlf_at(line, j));
    }
    line_ends_at_first(s, n);
    assert(s.take(n as int) =~= line);
    assert(s.skip(n as int + 2) =~= t);
}

/// The decimal form of a number is one line of ASCII text.
proof fn decimal_is_a_line(n: i64)
    ensures
        one_line(decimal(n as int)),
        all_ascii(decimal(n as int)),
        line_int(decimal(n as int)) == Ok::<i64, ProtocolErrorView>(n),
{
    let d = decimal(n as int);
    decimal_is_short(n as int);
    decimal_reads_back(n);
    assert forall|i: int| !crlf_at(d, i) by {
        if 0 <= i < d.len() {
            assert(is_digit(d[i]) || d[i] == 45);
        }
    }
    assert forall|i: int| 0 <= i < d.len() implies #[trigger] d[i] < 128 by {
        assert(is_digit(d[i]) || d[i] == 45);
    }
    ascii_is_utf8(d);
}

/// The text of a double is one line of ASCII text, and reads back.
proof fn double_is_a_line(bits: u64)
    requires
        magnitude(bits) <= INFINITE || bits == NOT_A_NUMBER,
    ensures
        one_line(double_text(bits)),
        line_frame(44, double_text(bits)) == Ok::<FrameView, ProtocolErrorView>(
            FrameView::Double(bits),
        ),
{
    let d = double_text(bits);
    double_text_is_plain(bits);
    double_reads_back(bits);
    assert forall|i: int| !crlf_at(d, i) by {
        if 0 <= i < d.len() {
            assert(d[i] >= 45);
        }
    }
    ascii_is_utf8(d);
}

/// A header that was written reads back as its number.
pub proof fn header_reads_back(n: i64, t: Seq<u8>)
    ensures
        ({
            let line = decimal(n as int) + crlf();
            &&& header(line + t) == Parse::Done(n, line.len())
            &&& (line + t).skip(line.len() as int) == t
        }),
{
    reveal(header);
    decimal_is_a_line(n);
    line_reads_back(decimal(n as int), t);
    assert(decimal(n as int) + crlf() + t =~= (decimal(n as int) + crlf()) + t);
}

/// A payload that was written reads back.
proof fn payload_reads_back(data: Seq<u8>, t: Seq<u8>, unterminated: Seq<char>)
    ensures
        payload(data + crlf() + t, data.len(), unterminated) == Parse::Done(data, data.len() + 2),
{
    let s = data + crlf() + t;
    assert(s.take(data.len() as int) =~= data);
    assert(crlf_at(s, data.len() as int));
}

/// What [`wire_line`] writes reads back as the value on that line.
proof fn wire_line_reads_back(kind: u8, line: Seq<u8>, t: Seq<u8>, limits: Limits, depth: nat)
    requires
        is_line_kind(kind),
        one_line(line),
        depth <= limits.max_depth,
    ensures
        line_frame(kind, line) matches Ok(f) ==> parse_frame(
            wire_line(kind, line) + t,
            limits,
            depth,
        ) == Parse::Done(f, wire_line(kind, line).len()),
{
    let s = wire_line(kind, line) + t;
    line_reads_back(line, t);
    assert(s.skip(1) =~= line + crlf() + t);
}

/// What [`wire_blob`] writes reads back as a length and a payload.
proof fn wire_blob_reads_back(kind: u8, data: Seq<u8>, t: Seq<u8>, limits: Limits, depth: nat)
    requires
        is_blob_kind(kind),
        countable(data.len(), limits.max_bulk_len),
        depth <= limits.max_depth,
    ensures
        parse_frame(wire_blob(kind, data) + t, limits, depth) == behind(
            (wire_blob(kind, data).len() - data.len() - 2) as nat,
            blob(kind, data.len() as i64, data + crlf() + t, limits),
        ),
{
    let s = wire_blob(kind, data) + t;
    let n = data.len() as i64;
    header_reads_back(n, data + crlf() + t);
    assert(s.skip(1) =~= (decimal(n as int) + crlf()) + (data + crlf() + t));
}

/// What an aggregate's header and its values are written as reads back as that aggregate.
proof fn wire_list_reads_back(
    kind: u8,
    count: nat,
    body: Seq<u8>,
    items: Seq<FrameView>,
    t: Seq<u8>,
    limits: Limits,
    depth: nat,
)
    requires
        is_list_kind(kind),
        count <= i64::MAX,
        items.len() <= limits.max_array_len,
        depth <= limits.max_depth,
        items.len() == if kind == 37 {
            2 * count
        } else {
            count
        },
        parse_items(body + t, items.len(), limits, depth + 1) == Parse::Done(items, body.len()),
    ensures
        parse_frame(wire_line(kind, decimal(count as int)) + body + t, limits, depth)
            == Parse::Done(
            list_frame(kind, items),
            (wire_line(kind, decimal(count as int)) + body).len(),
        ),
{
    let n = count as i64;
    let s = wire_line(kind, decimal(count as int)) + body + t;
    header_reads_back(n, body + t);
    assert(s.skip(1) =~= (decimal(n as int) + crlf()) + (body + t));
}

/// Encoding a value and decoding the bytes gives that value back, takes exactly those bytes,
/// and does so whatever follows them.
#[verifier::spinoff_prover]
#[verifier::rlimit(40)]
pub proof fn encode_then_decode(
    f: FrameView,
    version: RespVersion,
    t: Seq<u8>,
    limits: Limits,
    depth: nat,
)
    requires
        sendable(f, limits, depth),
    ensures
        parse_frame(wire(f, version) + t, limits, depth) == Parse::Done(
            f,
            wire(f, version).len(),
        ),
    decreases f,
{
    match f {
        FrameView::Simple(s) => {
            encode_utf8_valid_utf8(s);
            encode_utf8_decode_utf8(s);
            wire_line_reads_back(43, encode_utf8(s), t, limits, depth);
        },
        FrameView::Error(s) => {
            encode_utf8_valid_utf8(s);
            encode_utf8_decode_utf8(s);
            wire_line_reads_back(45, encode_utf8(s), t, limits, depth);
        },
        FrameView::Integer(n) => {
            decimal_is_a_line(n);
            wire_line_reads_back(58, decimal(n as int), t, limits, depth);
        },
        FrameView::Bulk(b) => {
            wire_blob_reads_back(36, b, t, limits, depth);
            payload_reads_back(b, t, "bulk not terminated by CRLF"@);
        },
        FrameView::Array(items) => {
            items_read_back(items, version, t, limits, depth + 1);
            wire_list_reads_back(
                42,
                items.len(),
                wire_items(items, version),
                items,
                t,
                limits,
                depth,
            );
        },
        FrameView::Null => match version {
            RespVersion::V2 => {
                header_reads_back((-1) as i64, t);
                assert((wire(f, version) + t).skip(1) =~= (decimal(-1) + crlf()) + t);
            },
            RespVersion::V3 => {
                wire_line_reads_back(95, Seq::empty(), t, limits, depth);
            },
        },
        FrameView::Boolean(b) => {
            wire_line_reads_back(
                35,
                seq![
                    if b {
                        116u8
                    } else {
                        102u8
                    },
                ],
                t,
                limits,
                depth,
            );
        },
        FrameView::Double(bits) => {
            double_is_a_line(bits);
            wire_line_reads_back(44, double_text(bits), t, limits, depth);
        },
        FrameView::BigNumber(s) => {
            encode_utf8_valid_utf8(s);
            encode_utf8_decode_utf8(s);
            wire_line_reads_back(40, encode_utf8(s), t, limits, depth);
        },
        FrameView::BulkError(s) => {
            encode_utf8_valid_utf8(s);
            encode_utf8_decode_utf8(s);
            wire_blob_reads_back(33, encode_utf8(s), t, limits, depth);
            payload_reads_back(encode_utf8(s), t, "bulk not terminated by CRLF"@);
        },
        FrameView::Verbatim { format, data } => {
            let body = format + seq![58u8] + data;
            wire_blob_reads_back(61, body, t, limits, depth);
            payload_reads_back(body, t, "verbatim not terminated by CRLF"@);
            assert(body.take(3) =~= format);
            assert(body.skip(4) =~= data);
        },
        FrameView::MapReply(pairs) => {
            pairs_read_back(pairs, version, t, limits, depth + 1);
            wire_list_reads_back(
                37,
                pairs.len(),
                wire_pairs(pairs, version),
                flattened(pairs),
                t,
                limits,
                depth,
            );
            assert(paired(flattened(pairs)) =~= pairs);
        },
        FrameView::SetReply(items) => {
            items_read_back(items, version, t, limits, depth + 1);
            wire_list_reads_back(
                126,
                items.len(),
                wire_items(items, version),
                items,
                t,
                limits,
                depth,
            );
        },
        FrameView::Push(items) => {
            items_read_back(items, version, t, limits, depth + 1);
            wire_list_reads_back(
                62,
                items.len(),
                wire_items(items, version),
                items,
                t,
                limits,
                depth,
            );
        },
    }
}

/// Cuts in a row of byte strings.
proof fn cuts(a: Seq<u8>, b: Seq<u8>, c: Seq<u8>, t: Seq<u8>)
    ensures
        a + b + c + t == a + (b + (c + t)),
        (a + b + c + t).skip(a.len() as int) == b + (c + t),
        (a + b + c + t).skip((a.len() + b.len()) as int) == c + t,
{
    assert(a + b + c + t =~= a + (b + (c + t)));
    assert((a + b + c + t).skip(a.len() as int) =~= b + (c + t));
    assert((a + b + c + t).skip((a.len() + b.len()) as int) =~= c + t);
}

/// One more value behind those that were read.
proof fn items_step(
    s: Seq<u8>,
    items: Seq<FrameView>,
    n: nat,
    f: FrameView,
    m: nat,
    limits: Limits,
    depth: nat,
)
    requires
        parse_items(s, items.len(), limits, depth) == Parse::Done(items, n),
        parse_frame(s.skip(n as int), limits, depth) == Parse::Done(f, m),
    ensures
        parse_items(s, items.len() + 1, limits, depth) == Parse::Done(items.push(f), n + m),
{
}

/// Values that were written one behind the other read back.
#[verifier::spinoff_prover]
pub proof fn items_read_back(
    items: Seq<FrameView>,
    version: RespVersion,
    t: Seq<u8>,
    limits: Limits,
    depth: nat,
)
    requires
        forall|i: int| 0 <= i < items.len() ==> sendable(#[trigger] items[i], limits, depth),
    ensures
        parse_items(wire_items(items, version) + t, items.len(), limits, depth) == Parse::Done(
            items,
            wire_items(items, version).len(),
        ),
    decreases items,
{
    if items.len() > 0 {
        let init = items.drop_last();
        let last = items.last();
        let u = wire(last, version) + t;
        assert forall|i: int| 0 <= i < init.len() implies sendable(
            #[trigger] init[i],
            limits,
            depth,
        ) by {
            assert(init[i] == items[i]);
        }
        items_read_back(init, version, u, limits, depth);
        assert(sendable(items[items.len() - 1], limits, depth));
        encode_then_decode(last, version, t, limits, depth);
        let s = wire_items(items, version) + t;
        assert(s =~= wire_items(init, version) + u);
        assert(s.skip(wire_items(init, version).len() as int) =~= u);
        assert(init.push(last) =~= items);
    } else {
        assert(items =~= Seq::empty());
    }
}

/// Pairs of values that were written one behind the other read back, one value after another.
#[verifier::spinoff_prover]
pub proof fn pairs_read_back(
    pairs: Seq<(FrameView, FrameView)>,
    version: RespVersion,
    t: Seq<u8>,
    limits: Limits,
    depth: nat,
)
    requires
        forall|i: int|
            0 <= i < pairs.len() ==> sendable((#[trigger] pairs[i]).0, limits, depth) && sendable(
                pairs[i].1,
                limits,
                depth,
            ),
    ensures
        parse_items(wire_pairs(pairs, version) + t, 2 * pairs.len(), limits, depth) == Parse::Done(
            flattened(pairs),
            wire_pairs(pairs, version).len(),
        ),
    decreases pairs,
{
    if pairs.len() > 0 {
        let init = pairs.drop_last();
        let (key, value) = pairs.last();
        let v = wire(value, version) + t;
        let u = wire(key, version) + v;
        assert forall|i: int| 0 <= i < init.len() implies sendable(
            (#[trigger] init[i]).0,
            limits,
            depth,
        ) && sendable(init[i].1, limits, depth) by {
            assert(init[i] == pairs[i]);
        }
        pairs_read_back(init, version, u, limits, depth);
        assert(sendable(pairs[pairs.len() - 1].0, limits, depth));
        encode_then_decode(key, version, v, limits, depth);
        encode_then_decode(value, version, t, limits, depth);
        let s = wire_pairs(pairs, version) + t;
        let n = wire_pairs(init, version).len();
        let m = wire(key, version).len();
        cuts(wire_pairs(init, version), wire(key, version), wire(value, version), t);
        items_step(s, flattened(init), n, key, m, limits, depth);
        items_step(
            s,
            flattened(init).push(key),
            n + m,
            value,
            wire(value, version).len(),
            limits,
            depth,
        );
        assert(flattened(init).push(key).push(value) =~= flattened(pairs));
    } else {
        assert(flattened(pairs) =~= Seq::empty());
    }
}

/// Until the last byte of an encoded value has arrived the decoder asks for more, however the
/// bytes are cut up.
pub proof fn fragments_ask_for_more(
    f: FrameView,
    version: RespVersion,
    n: nat,
    limits: Limits,
    depth: nat,
)
    requires
        sendable(f, limits, depth),
        n < wire(f, version).len(),
    ensures
        parse_frame(wire(f, version).take(n as int), limits, depth) is More,
{
    let whole = wire(f, version);
    let part = whole.take(n as int);
    let tail = whole.skip(n as int);
    encode_then_decode(f, version, Seq::empty(), limits, depth);
    assert(whole + Seq::<u8>::empty() =~= whole);
    assert(part + tail =~= whole);
    if !(parse_frame(part, limits, depth) is More) {
        frame_extends(part, tail, limits, depth);
        frame_bounded(part, limits, depth);
    }
}

// ---------------------------------------------------------------------------
// Requests
// ---------------------------------------------------------------------------
/// A request as a client sends it: an array of bulk strings.
pub open spec fn wire_args(args: Seq<Seq<u8>>) -> Seq<u8>
    decreases args.len(),
{
    if args.len() == 0 {
        Seq::empty()
    } else {
        wire_args(args.drop_last()) + wire_blob(36, args.last())
    }
}

/// A request as a client sends it: an array of bulk strings.
pub open spec fn wire_request(args: Seq<Seq<u8>>) -> Seq<u8> {
    wire_line(42, decimal(args.len() as int)) + wire_args(args)
}

/// An argument that was written reads back.
#[verifier::spinoff_prover]
proof fn arg_reads_back(arg: Seq<u8>, t: Seq<u8>, limits: Limits)
    requires
        countable(arg.len(), limits.max_bulk_len),
    ensures
        parse_arg(wire_blob(36, arg) + t, limits) == Parse::Done(arg, wire_blob(36, arg).len()),
{
    let n = arg.len() as i64;
    let body = arg + crlf() + t;
    let head = decimal(n as int) + crlf();
    let s = wire_blob(36, arg) + t;
    header_reads_back(n, body);
    payload_reads_back(arg, t, "bulk not terminated by CRLF"@);
    assert(s.skip(1) =~= head + body);
    assert(s.skip(1 + head.len() as int) =~= body);
}

/// Arguments that were written one behind the other read back.
#[verifier::spinoff_prover]
proof fn args_read_back(args: Seq<Seq<u8>>, t: Seq<u8>, limits: Limits)
    requires
        forall|i: int|
            0 <= i < args.len() ==> countable((#[trigger] args[i]).len(), limits.max_bulk_len),
    ensures
        parse_args(wire_args(args) + t, args.len(), limits) == Parse::Done(
            args,
            wire_args(args).len(),
        ),
    decreases args.len(),
{
    if args.len() > 0 {
        let init = args.drop_last();
        let last = args.last();
        let u = wire_blob(36, last) + t;
        assert forall|i: int| 0 <= i < init.len() implies countable(
            (#[trigger] init[i]).len(),
            limits.max_bulk_len,
        ) by {
            assert(init[i] == args[i]);
        }
        args_read_back(init, u, limits);
        assert(countable(args[args.len() - 1].len(), limits.max_bulk_len));
        arg_reads_back(last, t, limits);
        let s = wire_args(args) + t;
        assert(s =~= wire_args(init) + u);
        assert(s.skip(wire_args(init).len() as int) =~= u);
        assert(init.push(last) =~= args);
    } else {
        assert(args =~= Seq::empty());
    }
}

/// A request sent as an array of bulk strings reads back as its arguments, takes exactly its
/// bytes, and does so whatever follows them.
#[verifier::spinoff_prover]
pub proof fn request_reads_back(args: Seq<Seq<u8>>, t: Seq<u8>, limits: Limits)
    requires
        countable(args.len(), limits.max_array_len),
        forall|i: int|
            0 <= i < args.len() ==> countable((#[trigger] args[i]).len(), limits.max_bulk_len),
    ensures
        parse_request(wire_request(args) + t, limits) == Parse::Done(
            args,
            wire_request(args).len(),
        ),
{
    let s = wire_request(args) + t;
    let n = args.len() as i64;
    let head = decimal(n as int) + crlf();
    let body = wire_args(args) + t;
    header_reads_back(n, body);
    args_read_back(args, t, limits);
    assert(s.skip(1) =~= head + body);
    assert(s[0] == 42);
    if args.len() == 0 {
        assert(args =~= Seq::empty());
    }
}

/// Until the last byte of a request has arrived the decoder asks for more, however the bytes
/// are cut up.
pub proof fn request_fragments_ask_for_more(args: Seq<Seq<u8>>, n: nat, limits: Limits)
    requires
        countable(args.len(), limits.max_array_len),
        forall|i: int|
            0 <= i < args.len() ==> countable((#[trigger] args[i]).len(), limits.max_bulk_len),
        n < wire_request(args).len(),
    ensures
        parse_request(wire_request(args).take(n as int), limits) is More,
{
    let whole = wire_request(args);
    let part = whole.take(n as int);
    let tail = whole.skip(n as int);
    request_reads_back(args, Seq::empty(), limits);
    assert(whole + Seq::<u8>::empty() =~= whole);
    assert(part + tail =~= whole);
    if !(parse_request(part, limits) is More) {
        assert(part[0] == 42);
        request_extends(part, tail, limits);
        request_bounded(part, limits);
    }
}

} // verus!
