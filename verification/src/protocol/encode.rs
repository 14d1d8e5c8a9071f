//! The encoder: what each value looks like on the wire, and the function that writes it.
use bytes::BytesMut;
use vstd::prelude::*;
use vstd::utf8::encode_utf8;

use super::frame::{aggregate_views, frames_view, pairs_view, Frame, FrameView, RespVersion};
use crate::buffer::{buffer_new, buffer_of, buffer_put, buffer_put_u8, bytes_slice};
use crate::float::text::{double_text, write_double};
use crate::text::{decimal, decimal_i64, decimal_u64};

verus! {

/// The line terminator.
pub open spec fn crlf() -> Seq<u8> {
    seq![13u8, 10u8]
}

/// A value of the given kind on one line.
pub open spec fn wire_line(kind: u8, line: Seq<u8>) -> Seq<u8> {
    seq![kind] + line + crlf()
}

/// A value of the given kind with its length in front.
pub open spec fn wire_blob(kind: u8, data: Seq<u8>) -> Seq<u8> {
    wire_line(kind, decimal(data.len() as int)) + data + crlf()
}

/// The wire form of a value.
pub open spec fn wire(f: FrameView, version: RespVersion) -> Seq<u8>
    decreases f,
{
    match f {
        FrameView::Simple(s) => wire_line(43, encode_utf8(s)),
        FrameView::Error(s) => wire_line(45, encode_utf8(s)),
        FrameView::Integer(n) => wire_line(58, decimal(n as int)),
        FrameView::Bulk(b) => wire_blob(36, b),
        FrameView::Array(items) => wire_line(42, decimal(items.len() as int)) + wire_items(
            items,
            version,
        ),
        FrameView::Null => match version {
            RespVersion::V2 => wire_line(36, decimal(-1)),
            RespVersion::V3 => wire_line(95, Seq::empty()),
        },
        FrameView::Boolean(b) => wire_line(
            35,
            seq![
                if b {
                    116u8
                } else {
                    102u8
                },
            ],
        ),
        FrameView::Double(bits) => wire_line(44, double_text(bits)),
        FrameView::BigNumber(s) => wire_line(40, encode_utf8(s)),
        FrameView::BulkError(s) => wire_blob(33, encode_utf8(s)),
        FrameView::Verbatim { format, data } => wire_blob(61, format + seq![58u8] + data),
        FrameView::MapReply(pairs) => wire_line(37, decimal(pairs.len() as int)) + wire_pairs(
            pairs,
            version,
        ),
        FrameView::SetReply(items) => wire_line(126, decimal(items.len() as int)) + wire_items(
            items,
            version,
        ),
        FrameView::Push(items) => wire_line(62, decimal(items.len() as int)) + wire_items(
            items,
            version,
        ),
    }
}

/// The wire forms of several values, one behind the other.
pub open spec fn wire_items(items: Seq<FrameView>, version: RespVersion) -> Seq<u8>
    decreases items,
{
    if items.len() == 0 {
        Seq::empty()
    } else {
        wire_items(items.drop_last(), version) + wire(items.last(), version)
    }
}

/// The wire forms of several pairs of values, one behind the other.
pub open spec fn wire_pairs(pairs: Seq<(FrameView, FrameView)>, version: RespVersion) -> Seq<u8>
    decreases pairs,
{
    if pairs.len() == 0 {
        Seq::empty()
    } else {
        wire_pairs(pairs.drop_last(), version) + wire(pairs.last().0, version) + wire(
            pairs.last().1,
            version,
        )
    }
}

/// The first few of several values take no more bytes than all of them.
proof fn wire_items_grow(items: Seq<FrameView>, k: nat, version: RespVersion)
    requires
        k <= items.len(),
    ensures
        wire_items(items.take(k as int), version).len() <= wire_items(items, version).len(),
    decreases items.len(),
{
    if k == items.len() {
        assert(items.take(k as int) =~= items);
    } else {
        wire_items_grow(items.drop_last(), k, version);
        assert(items.drop_last().take(k as int) =~= items.take(k as int));
    }
}

/// The first few of several pairs take no more bytes than all of them.
proof fn wire_pairs_grow(pairs: Seq<(FrameView, FrameView)>, k: nat, version: RespVersion)
    requires
        k <= pairs.len(),
    ensures
        wire_pairs(pairs.take(k as int), version).len() <= wire_pairs(pairs, version).len(),
    decreases pairs.len(),
{
    if k == pairs.len() {
        assert(pairs.take(k as int) =~= pairs);
    } else {
        wire_pairs_grow(pairs.drop_last(), k, version);
        assert(pairs.drop_last().take(k as int) =~= pairs.take(k as int));
    }
}

/// Appends the line terminator.
fn put_crlf(out: &mut BytesMut)
    requires
        buffer_of(*old(out)).len() + 2 <= isize::MAX,
    ensures
        buffer_of(*final(out)) == buffer_of(*old(out)) + crlf(),
{
    let end: [u8; 2] = [13, 10];
    assert(end@ =~= crlf());
    buffer_put(out, &end);
}

/// Appends a value of the given kind on one line.
fn put_line(out: &mut BytesMut, kind: u8, line: &[u8])
    requires
        buffer_of(*old(out)).len() + wire_line(kind, line@).len() <= isize::MAX,
    ensures
        buffer_of(*final(out)) == buffer_of(*old(out)) + wire_line(kind, line@),
{
    buffer_put_u8(out, kind);
    buffer_put(out, line);
    put_crlf(out);
    assert(buffer_of(*out) =~= buffer_of(*old(out)) + wire_line(kind, line@));
}

/// Appends the line that a value of the given kind and length, or count, starts with.
fn put_header(out: &mut BytesMut, kind: u8, n: usize)
    requires
        buffer_of(*old(out)).len() + wire_line(kind, decimal(n as int)).len() <= isize::MAX,
    ensures
        buffer_of(*final(out)) == buffer_of(*old(out)) + wire_line(kind, decimal(n as int)),
{
    let digits = decimal_u64(n as u64);
    put_line(out, kind, &digits);
}

/// Appends a value of the given kind with its length in front.
fn put_blob(out: &mut BytesMut, kind: u8, data: &[u8])
    requires
        buffer_of(*old(out)).len() + wire_blob(kind, data@).len() <= isize::MAX,
    ensures
        buffer_of(*final(out)) == buffer_of(*old(out)) + wire_blob(kind, data@),
{
    put_header(out, kind, data.len());
    buffer_put(out, data);
    put_crlf(out);
    assert(buffer_of(*out) =~= buffer_of(*old(out)) + wire_blob(kind, data@));
}

/// Appends the wire forms of several values.
fn put_items(items: &Vec<Frame>, version: RespVersion, out: &mut BytesMut)
    requires
        buffer_of(*old(out)).len() + wire_items(frames_view(items@), version).len() <= isize::MAX,
    ensures
        buffer_of(*final(out)) == buffer_of(*old(out)) + wire_items(frames_view(items@), version),
    decreases items, 0nat,
{
    let ghost all = frames_view(items@);
    let ghost start = buffer_of(*out);
    let mut i: usize = 0;
    assert(start + wire_items(all.take(0), version) =~= start);
    while i < items.len()
        invariant
            i <= items@.len(),
            all == frames_view(items@),
            start.len() + wire_items(all, version).len() <= isize::MAX,
            buffer_of(*out) == start + wire_items(all.take(i as int), version),
        decreases items@.len() - i,
    {
        proof {
            wire_items_grow(all, (i + 1) as nat, version);
            assert(all.take(i + 1).drop_last() =~= all.take(i as int));
            assert(all.take(i + 1).last() == items@[i as int]@);
        }
        encode(&items[i], version, out);
        i += 1;
        assert(buffer_of(*out) =~= start + wire_items(all.take(i as int), version));
    }
    assert(all.take(i as int) =~= all);
}

/// Appends the wire forms of several pairs of values.
fn put_pairs(pairs: &Vec<(Frame, Frame)>, version: RespVersion, out: &mut BytesMut)
    requires
        buffer_of(*old(out)).len() + wire_pairs(pairs_view(pairs@), version).len() <= isize::MAX,
    ensures
        buffer_of(*final(out)) == buffer_of(*old(out)) + wire_pairs(pairs_view(pairs@), version),
    decreases pairs, 0nat,
{
    let ghost all = pairs_view(pairs@);
    let ghost start = buffer_of(*out);
    let mut i: usize = 0;
    assert(start + wire_pairs(all.take(0), version) =~= start);
    while i < pairs.len()
        invariant
            i <= pairs@.len(),
            all == pairs_view(pairs@),
            start.len() + wire_pairs(all, version).len() <= isize::MAX,
            buffer_of(*out) == start + wire_pairs(all.take(i as int), version),
        decreases pairs@.len() - i,
    {
        proof {
            wire_pairs_grow(all, (i + 1) as nat, version);
            assert(all.take(i + 1).drop_last() =~= all.take(i as int));
            assert(all.take(i + 1).last() == (pairs@[i as int].0@, pairs@[i as int].1@));
        }
        encode(&pairs[i].0, version, out);
        encode(&pairs[i].1, version, out);
        i += 1;
        assert(buffer_of(*out) =~= start + wire_pairs(all.take(i as int), version));
    }
    assert(all.take(i as int) =~= all);
}

/// Appends the wire form of `frame` to `out`, in the conventions of `version` where the two
/// protocols differ.
pub fn encode(frame: &Frame, version: RespVersion, out: &mut BytesMut)
    requires
        buffer_of(*old(out)).len() + wire(frame@, version).len() <= isize::MAX,
    ensures
        buffer_of(*final(out)) == buffer_of(*old(out)) + wire(frame@, version),
    decreases frame, 1nat,
{
    let ghost start = buffer_of(*out);
    match frame {
        Frame::Simple(s) => put_line(out, 43, s.as_str().as_bytes()),
        Frame::Error(s) => put_line(out, 45, s.as_str().as_bytes()),
        Frame::Integer(n) => {
            let digits = decimal_i64(*n);
            put_line(out, 58, &digits);
        },
        Frame::Bulk(b) => put_blob(out, 36, bytes_slice(b)),
        Frame::Array(items) => {
            proof {
                aggregate_views(*items, arbitrary());
            }
            put_header(out, 42, items.len());
            put_items(items, version, out);
            assert(buffer_of(*out) =~= start + wire(frame@, version));
        },
        Frame::Null => match version {
            // RESP2 has no null of its own: the null bulk string stands for it.
            RespVersion::V2 => {
                let digits = decimal_i64(-1);
                put_line(out, 36, &digits);
            },
            RespVersion::V3 => {
                let empty: [u8; 0] = [];
                assert(empty@ =~= Seq::empty());
                put_line(out, 95, &empty);
            },
        },
        Frame::Boolean(b) => {
            let letter: [u8; 1] = [
                if *b {
                    116
                } else {
                    102
                },
            ];
            assert(letter@ =~= seq![
                if *b {
                    116u8
                } else {
                    102u8
                },
            ]);
            put_line(out, 35, &letter);
        },
        Frame::Double(bits) => {
            let text = write_double(*bits);
            put_line(out, 44, &text);
        },
        Frame::BigNumber(s) => put_line(out, 40, s.as_str().as_bytes()),
        Frame::BulkError(s) => put_blob(out, 33, s.as_str().as_bytes()),
        Frame::Verbatim { format, data } => {
            // The length covers the format, the colon and the data.
            let data = bytes_slice(data);
            let ghost body = format@ + seq![58u8] + data@;
            put_header(out, 61, 4 + data.len());
            buffer_put(out, format);
            buffer_put_u8(out, 58);
            buffer_put(out, data);
            put_crlf(out);
            assert(buffer_of(*out) =~= start + wire_blob(61, body));
        },
        Frame::MapReply(pairs) => {
            proof {
                aggregate_views(arbitrary(), *pairs);
            }
            put_header(out, 37, pairs.len());
            put_pairs(pairs, version, out);
            assert(buffer_of(*out) =~= start + wire(frame@, version));
        },
        Frame::SetReply(items) => {
            proof {
                aggregate_views(*items, arbitrary());
            }
            put_header(out, 126, items.len());
            put_items(items, version, out);
            assert(buffer_of(*out) =~= start + wire(frame@, version));
        },
        Frame::Push(items) => {
            proof {
                aggregate_views(*items, arbitrary());
            }
            put_header(out, 62, items.len());
            put_items(items, version, out);
            assert(buffer_of(*out) =~= start + wire(frame@, version));
        },
    }
}

/// The wire form of a single value, in a buffer of its own.
pub fn encode_to_vec(frame: &Frame, version: RespVersion) -> (r: BytesMut)
    requires
        wire(frame@, version).len() <= isize::MAX,
    ensures
        buffer_of(r) == wire(frame@, version),
{
    let mut out = buffer_new();
    encode(frame, version, &mut out);
    assert(buffer_of(out) =~= wire(frame@, version));
    out
}

// ---------------------------------------------------------------------------
// Room
// ---------------------------------------------------------------------------
/// The room that is left of `room` once `n` bytes are taken.
fn take_room(room: Option<usize>, n: usize) -> (r: Option<usize>)
    ensures
        left_of(room, n as nat, r),
{
    match room {
        Some(have) => if n <= have {
            Some(have - n)
        } else {
            None
        },
        None => None,
    }
}

/// `left` is the room that is left of `room` once `n` bytes are taken, `None` where there was not
/// enough.
spec fn left_of(room: Option<usize>, n: nat, left: Option<usize>) -> bool {
    match room {
        Some(have) => if n <= have {
            left == Some((have - n) as usize)
        } else {
            left is None
        },
        None => left is None,
    }
}

/// The room that is left behind a value on one line.
fn room_behind_line(room: Option<usize>, line: &[u8], Ghost(kind): Ghost<u8>) -> (r: Option<usize>)
    ensures
        left_of(room, wire_line(kind, line@).len(), r),
{
    take_room(take_room(room, line.len()), 3)
}

/// The room that is left behind a header.
fn room_behind_header(room: Option<usize>, n: usize, Ghost(kind): Ghost<u8>) -> (r: Option<usize>)
    ensures
        left_of(room, wire_line(kind, decimal(n as int)).len(), r),
{
    let digits = decimal_u64(n as u64);
    room_behind_line(room, &digits, Ghost(kind))
}

/// The room that is left behind a value with its length in front.
fn room_behind_blob(room: Option<usize>, data: &[u8], Ghost(kind): Ghost<u8>) -> (r: Option<usize>)
    ensures
        left_of(room, wire_blob(kind, data@).len(), r),
{
    let left = room_behind_header(room, data.len(), Ghost(kind));
    take_room(take_room(left, data.len()), 2)
}

/// The room that is left behind several values.
fn room_behind_items(room: Option<usize>, items: &Vec<Frame>, version: RespVersion) -> (r: Option<
    usize,
>)
    ensures
        left_of(room, wire_items(frames_view(items@), version).len(), r),
    decreases items, 0nat,
{
    let ghost all = frames_view(items@);
    let mut left = room;
    let mut i: usize = 0;
    while i < items.len()
        invariant
            i <= items@.len(),
            all == frames_view(items@),
            left_of(room, wire_items(all.take(i as int), version).len(), left),
        decreases items@.len() - i,
    {
        proof {
            assert(all.take(i + 1).drop_last() =~= all.take(i as int));
            assert(all.take(i + 1).last() == items@[i as int]@);
        }
        left = room_behind(left, &items[i], version);
        i += 1;
    }
    assert(all.take(i as int) =~= all);
    left
}

/// The room that is left behind several pairs of values.
fn room_behind_pairs(
    room: Option<usize>,
    pairs: &Vec<(Frame, Frame)>,
    version: RespVersion,
) -> (r: Option<usize>)
    ensures
        left_of(room, wire_pairs(pairs_view(pairs@), version).len(), r),
    decreases pairs, 0nat,
{
    let ghost all = pairs_view(pairs@);
    let mut left = room;
    let mut i: usize = 0;
    while i < pairs.len()
        invariant
            i <= pairs@.len(),
            all == pairs_view(pairs@),
            left_of(room, wire_pairs(all.take(i as int), version).len(), left),
        decreases pairs@.len() - i,
    {
        proof {
            assert(all.take(i + 1).drop_last() =~= all.take(i as int));
            assert(all.take(i + 1).last() == (pairs@[i as int].0@, pairs@[i as int].1@));
        }
        left = room_behind(left, &pairs[i].0, version);
        left = room_behind(left, &pairs[i].1, version);
        i += 1;
    }
    assert(all.take(i as int) =~= all);
    left
}

/// The room that is left behind a value.
fn room_behind(room: Option<usize>, frame: &Frame, version: RespVersion) -> (r: Option<usize>)
    ensures
        left_of(room, wire(frame@, version).len(), r),
    decreases frame, 1nat,
{
    match frame {
        Frame::Simple(s) => room_behind_line(room, s.as_str().as_bytes(), Ghost(43)),
        Frame::Error(s) => room_behind_line(room, s.as_str().as_bytes(), Ghost(45)),
        Frame::Integer(n) => {
            let digits = decimal_i64(*n);
            room_behind_line(room, &digits, Ghost(58))
        },
        Frame::Bulk(b) => room_behind_blob(room, bytes_slice(b), Ghost(36)),
        Frame::Array(items) => {
            proof {
                aggregate_views(*items, arbitrary());
            }
            let left = room_behind_header(room, items.len(), Ghost(42));
            room_behind_items(left, items, version)
        },
        Frame::Null => match version {
            RespVersion::V2 => {
                let digits = decimal_i64(-1);
                room_behind_line(room, &digits, Ghost(36))
            },
            RespVersion::V3 => take_room(room, 3),
        },
        Frame::Boolean(_) => take_room(room, 4),
        Frame::Double(bits) => {
            let text = write_double(*bits);
            room_behind_line(room, &text, Ghost(44))
        },
        Frame::BigNumber(s) => room_behind_line(room, s.as_str().as_bytes(), Ghost(40)),
        Frame::BulkError(s) => room_behind_blob(room, s.as_str().as_bytes(), Ghost(33)),
        Frame::Verbatim { format: _, data } => {
            let data = bytes_slice(data);
            let left = take_room(take_room(room, data.len()), 9);
            match left {
                // What is left shows that the length fits.
                Some(_) => room_behind_length(left, data.len()),
                None => None,
            }
        },
        Frame::MapReply(pairs) => {
            proof {
                aggregate_views(arbitrary(), *pairs);
            }
            let left = room_behind_header(room, pairs.len(), Ghost(37));
            room_behind_pairs(left, pairs, version)
        },
        Frame::SetReply(items) => {
            proof {
                aggregate_views(*items, arbitrary());
            }
            let left = room_behind_header(room, items.len(), Ghost(126));
            room_behind_items(left, items, version)
        },
        Frame::Push(items) => {
            proof {
                aggregate_views(*items, arbitrary());
            }
            let left = room_behind_header(room, items.len(), Ghost(62));
            room_behind_items(left, items, version)
        },
    }
}

/// The room that is left behind the digits of the length of a verbatim string.
fn room_behind_length(room: Option<usize>, n: usize) -> (r: Option<usize>)
    requires
        n + 9 <= usize::MAX,
    ensures
        left_of(room, decimal(n + 4).len(), r),
{
    let digits = decimal_u64(n as u64 + 4);
    take_room(room, digits.len())
}

/// Whether a buffer that holds `buffered` bytes can take the wire form of `frame`.
pub fn has_room(frame: &Frame, version: RespVersion, buffered: usize) -> (r: bool)
    ensures
        r == (buffered + wire(frame@, version).len() <= isize::MAX),
{
    let limit: usize = isize::MAX as usize;
    if buffered > limit {
        return false;
    }
    room_behind(Some(limit - buffered), frame, version).is_some()
}

} // verus!
