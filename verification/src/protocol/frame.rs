//! The RESP value model.
//!
//! [`Frame`] is the one value type for both RESP2 and RESP3. Where the two protocols differ
//! only on the wire (most of all in how null is written) the variant is canonical, and the
//! encoder picks the bytes for the target [`RespVersion`].
use bytes::Bytes;
use vstd::prelude::*;
use vstd::std_specs::convert::FromSpecImpl;
use vstd::utf8::{encode_utf8, encode_utf8_decode_utf8};

use crate::buffer::{bytes_copy, bytes_of, bytes_slice};
use crate::engine::encoding::{same, score_same};
use crate::text::same_bytes;

verus! {

/// The wire protocol version of a connection.
///
/// A connection starts in [`RespVersion::V2`] and moves to [`RespVersion::V3`] when the client
/// sends `HELLO 3`.
#[derive(Debug, Clone, Copy, PartialEq, Eq, Structural)]
pub enum RespVersion {
    /// RESP2, which every client speaks.
    V2,
    /// RESP3: adds typed replies (maps, sets, doubles, booleans, push messages).
    V3,
}

impl Default for RespVersion {
    fn default() -> (r: Self)
        ensures
            r == RespVersion::V2,
    {
        RespVersion::V2
    }
}

impl RespVersion {
    /// The number of the version in `HELLO <proto>` and in its reply.
    pub open spec fn number(self) -> i64 {
        match self {
            RespVersion::V2 => 2,
            RespVersion::V3 => 3,
        }
    }

    /// The number of the version in `HELLO <proto>` and in its reply.
    pub fn as_i64(self) -> (r: i64)
        ensures
            r == self.number(),
    {
        match self {
            RespVersion::V2 => 2,
            RespVersion::V3 => 3,
        }
    }

    /// The version with the given number, where there is one.
    pub fn from_i64(v: i64) -> (r: Option<Self>)
        ensures
            r is Some <==> v == 2 || v == 3,
            r matches Some(version) ==> version.number() == v,
    {
        match v {
            2 => Some(RespVersion::V2),
            3 => Some(RespVersion::V3),
            _ => None,
        }
    }
}

/// A single RESP value.
///
/// This is the union of RESP2 and RESP3. To send a value that RESP3 alone has over a RESP2
/// connection is the caller's mistake to avoid: the encoder only picks the form of null.
#[derive(Debug)]
pub enum Frame {
    /// Simple string: `+OK\r\n`. Must not hold CR or LF.
    Simple(String),
    /// Error: `-ERR message\r\n`. Must not hold CR or LF.
    Error(String),
    /// Integer: `:1000\r\n`.
    Integer(i64),
    /// Bulk string: `$5\r\nhello\r\n`. Any bytes.
    Bulk(Bytes),
    /// Array: `*2\r\n...`.
    Array(Vec<Frame>),
    /// Null: `$-1\r\n` in RESP2, `_\r\n` in RESP3. A decoded `*-1\r\n` comes out as this too.
    Null,
    /// Boolean: `#t\r\n` or `#f\r\n`. RESP3 only, as are the following.
    Boolean(bool),
    /// Double: `,3.14\r\n`, or `,inf\r\n`, `,-inf\r\n`, `,nan\r\n`. The number is held as the
    /// bits of an IEEE 754 double.
    Double(u64),
    /// Big number: `(3492890328409238509324850943850943825024385\r\n`.
    BigNumber(String),
    /// Bulk error: `!21\r\nSYNTAX invalid syntax\r\n`.
    BulkError(String),
    /// Verbatim string: `=15\r\ntxt:Some string\r\n`.
    Verbatim {
        /// The three bytes that hint at the format (`txt`, `mkd`).
        format: [u8; 3],
        /// The bytes behind the format prefix.
        data: Bytes,
    },
    /// Map: `%2\r\n<k1><v1><k2><v2>`.
    MapReply(Vec<(Frame, Frame)>),
    /// Set: `~3\r\n...`.
    SetReply(Vec<Frame>),
    /// Out-of-band push message: `>3\r\n...`.
    Push(Vec<Frame>),
}

/// A [`Frame`] as a mathematical value.
#[verifier::ext_equal]
pub enum FrameView {
    Simple(Seq<char>),
    Error(Seq<char>),
    Integer(i64),
    Bulk(Seq<u8>),
    Array(Seq<FrameView>),
    Null,
    Boolean(bool),
    Double(u64),
    BigNumber(Seq<char>),
    BulkError(Seq<char>),
    Verbatim { format: Seq<u8>, data: Seq<u8> },
    MapReply(Seq<(FrameView, FrameView)>),
    SetReply(Seq<FrameView>),
    Push(Seq<FrameView>),
}

/// The value of a frame.
pub open spec fn frame_view(f: Frame) -> FrameView
    decreases f,
{
    match f {
        Frame::Simple(s) => FrameView::Simple(s@),
        Frame::Error(s) => FrameView::Error(s@),
        Frame::Integer(n) => FrameView::Integer(n),
        Frame::Bulk(b) => FrameView::Bulk(bytes_of(b)),
        Frame::Array(v) => FrameView::Array(
            Seq::new(
                v@.len(),
                |i: int|
                    if 0 <= i < v@.len() {
                        frame_view(v@[i])
                    } else {
                        FrameView::Null
                    },
            ),
        ),
        Frame::Null => FrameView::Null,
        Frame::Boolean(b) => FrameView::Boolean(b),
        Frame::Double(bits) => FrameView::Double(bits),
        Frame::BigNumber(s) => FrameView::BigNumber(s@),
        Frame::BulkError(s) => FrameView::BulkError(s@),
        Frame::Verbatim { format, data } => FrameView::Verbatim {
            format: format@,
            data: bytes_of(data),
        },
        Frame::MapReply(v) => FrameView::MapReply(
            Seq::new(
                v@.len(),
                |i: int|
                    if 0 <= i < v@.len() {
                        (frame_view(v@[i].0), frame_view(v@[i].1))
                    } else {
                        (FrameView::Null, FrameView::Null)
                    },
            ),
        ),
        Frame::SetReply(v) => FrameView::SetReply(
            Seq::new(
                v@.len(),
                |i: int|
                    if 0 <= i < v@.len() {
                        frame_view(v@[i])
                    } else {
                        FrameView::Null
                    },
            ),
        ),
        Frame::Push(v) => FrameView::Push(
            Seq::new(
                v@.len(),
                |i: int|
                    if 0 <= i < v@.len() {
                        frame_view(v@[i])
                    } else {
                        FrameView::Null
                    },
            ),
        ),
    }
}

/// The values of a sequence of frames.
pub open spec fn frames_view(v: Seq<Frame>) -> Seq<FrameView> {
    Seq::new(v.len(), |i: int| frame_view(v[i]))
}

/// The values of a sequence of pairs of frames.
pub open spec fn pairs_view(v: Seq<(Frame, Frame)>) -> Seq<(FrameView, FrameView)> {
    Seq::new(v.len(), |i: int| (frame_view(v[i].0), frame_view(v[i].1)))
}

/// Pairs, one element behind the other.
pub open spec fn flattened(pairs: Seq<(FrameView, FrameView)>) -> Seq<FrameView> {
    Seq::new(
        2 * pairs.len(),
        |i: int|
            if i % 2 == 0 {
                pairs[i / 2].0
            } else {
                pairs[i / 2].1
            },
    )
}

impl View for Frame {
    type V = FrameView;

    open spec fn view(&self) -> FrameView {
        frame_view(*self)
    }
}

/// The value of an array, a set or a push message is made of the values of its elements, and
/// that of a map of the values of its pairs.
pub proof fn aggregate_views(v: Vec<Frame>, p: Vec<(Frame, Frame)>)
    ensures
        frame_view(Frame::Array(v)) == FrameView::Array(frames_view(v@)),
        frame_view(Frame::SetReply(v)) == FrameView::SetReply(frames_view(v@)),
        frame_view(Frame::Push(v)) == FrameView::Push(frames_view(v@)),
        frame_view(Frame::MapReply(p)) == FrameView::MapReply(pairs_view(p@)),
{
    assert(frame_view(Frame::Array(v))->Array_0 =~= frames_view(v@));
    assert(frame_view(Frame::SetReply(v))->SetReply_0 =~= frames_view(v@));
    assert(frame_view(Frame::Push(v))->Push_0 =~= frames_view(v@));
    assert(frame_view(Frame::MapReply(p))->MapReply_0 =~= pairs_view(p@));
}

/// A copy of a frame.
fn copy_frame(f: &Frame) -> (r: Frame)
    ensures
        frame_view(r) == frame_view(*f),
    decreases f,
{
    match f {
        Frame::Simple(s) => Frame::Simple(s.clone()),
        Frame::Error(s) => Frame::Error(s.clone()),
        Frame::Integer(n) => Frame::Integer(*n),
        Frame::Bulk(b) => Frame::Bulk(b.clone()),
        Frame::Array(v) => {
            let out = copy_frames(v);
            proof {
                aggregate_views(*v, arbitrary());
                aggregate_views(out, arbitrary());
            }
            Frame::Array(out)
        },
        Frame::Null => Frame::Null,
        Frame::Boolean(b) => Frame::Boolean(*b),
        Frame::Double(bits) => Frame::Double(*bits),
        Frame::BigNumber(s) => Frame::BigNumber(s.clone()),
        Frame::BulkError(s) => Frame::BulkError(s.clone()),
        Frame::Verbatim { format, data } => Frame::Verbatim { format: *format, data: data.clone() },
        Frame::MapReply(v) => {
            let out = copy_pairs_of(v);
            proof {
                aggregate_views(arbitrary(), *v);
                aggregate_views(arbitrary(), out);
            }
            Frame::MapReply(out)
        },
        Frame::SetReply(v) => {
            let out = copy_frames(v);
            proof {
                aggregate_views(*v, arbitrary());
                aggregate_views(out, arbitrary());
            }
            Frame::SetReply(out)
        },
        Frame::Push(v) => {
            let out = copy_frames(v);
            proof {
                aggregate_views(*v, arbitrary());
                aggregate_views(out, arbitrary());
            }
            Frame::Push(out)
        },
    }
}

/// Copies of frames.
fn copy_frames(v: &Vec<Frame>) -> (r: Vec<Frame>)
    ensures
        frames_view(r@) == frames_view(v@),
    decreases v,
{
    let mut out: Vec<Frame> = Vec::new();
    let mut i: usize = 0;
    while i < v.len()
        invariant
            i <= v@.len(),
            out@.len() == i,
            forall|j: int| 0 <= j < i ==> frame_view(#[trigger] out@[j]) == frame_view(v@[j]),
        decreases v@.len() - i,
    {
        let f = copy_frame(&v[i]);
        out.push(f);
        i += 1;
    }
    assert(frames_view(out@) =~= frames_view(v@));
    out
}

/// Copies of pairs of frames.
fn copy_pairs_of(v: &Vec<(Frame, Frame)>) -> (r: Vec<(Frame, Frame)>)
    ensures
        pairs_view(r@) == pairs_view(v@),
    decreases v,
{
    let mut out: Vec<(Frame, Frame)> = Vec::new();
    let mut i: usize = 0;
    while i < v.len()
        invariant
            i <= v@.len(),
            out@.len() == i,
            forall|j: int|
                0 <= j < i ==> frame_view((#[trigger] out@[j]).0) == frame_view(v@[j].0)
                    && frame_view(out@[j].1) == frame_view(v@[j].1),
        decreases v@.len() - i,
    {
        let key = copy_frame(&v[i].0);
        let value = copy_frame(&v[i].1);
        out.push((key, value));
        i += 1;
    }
    assert(pairs_view(out@) =~= pairs_view(v@));
    out
}

impl Clone for Frame {
    fn clone(&self) -> (r: Self)
        ensures
            r@ == self@,
    {
        copy_frame(self)
    }
}

/// The values are equal. Doubles are compared as numbers: the two zeros are equal, and what is no
/// number equals nothing.
pub open spec fn same_value(a: FrameView, b: FrameView) -> bool
    decreases a,
{
    match (a, b) {
        (FrameView::Double(x), FrameView::Double(y)) => score_same(x, y),
        (FrameView::Array(x), FrameView::Array(y)) => x.len() == y.len() && forall|i: int|
            0 <= i < x.len() ==> same_value(#[trigger] x[i], y[i]),
        (FrameView::SetReply(x), FrameView::SetReply(y)) => x.len() == y.len() && forall|i: int|
            0 <= i < x.len() ==> same_value(#[trigger] x[i], y[i]),
        (FrameView::Push(x), FrameView::Push(y)) => x.len() == y.len() && forall|i: int|
            0 <= i < x.len() ==> same_value(#[trigger] x[i], y[i]),
        (FrameView::MapReply(x), FrameView::MapReply(y)) => x.len() == y.len() && forall|i: int|
            0 <= i < x.len() ==> same_value((#[trigger] x[i]).0, y[i].0) && same_value(
                x[i].1,
                y[i].1,
            ),
        _ => a == b,
    }
}

/// The values are equal, one by one.
pub open spec fn same_values(a: Seq<FrameView>, b: Seq<FrameView>) -> bool {
    a.len() == b.len() && forall|i: int| 0 <= i < a.len() ==> same_value(#[trigger] a[i], b[i])
}

/// The pairs are equal, one by one.
pub open spec fn same_pairs(
    a: Seq<(FrameView, FrameView)>,
    b: Seq<(FrameView, FrameView)>,
) -> bool {
    a.len() == b.len() && forall|i: int|
        0 <= i < a.len() ==> same_value((#[trigger] a[i]).0, b[i].0) && same_value(a[i].1, b[i].1)
}

/// Whether two texts are the same.
fn same_text(a: &String, b: &String) -> (r: bool)
    ensures
        r == (a@ == b@),
{
    proof {
        encode_utf8_decode_utf8(a@);
        encode_utf8_decode_utf8(b@);
    }
    same_bytes(a.as_str().as_bytes(), b.as_str().as_bytes())
}

/// Whether two byte strings are the same.
fn same_contents(a: &Bytes, b: &Bytes) -> (r: bool)
    ensures
        r == (bytes_of(*a) == bytes_of(*b)),
{
    same_bytes(bytes_slice(a), bytes_slice(b))
}

/// Whether two frames have equal values.
fn frames_equal(a: &Frame, b: &Frame) -> (r: bool)
    ensures
        r == same_value(frame_view(*a), frame_view(*b)),
    decreases a,
{
    match (a, b) {
        (Frame::Simple(x), Frame::Simple(y)) => same_text(x, y),
        (Frame::Error(x), Frame::Error(y)) => same_text(x, y),
        (Frame::Integer(x), Frame::Integer(y)) => *x == *y,
        (Frame::Bulk(x), Frame::Bulk(y)) => same_contents(x, y),
        (Frame::Array(x), Frame::Array(y)) => {
            proof {
                aggregate_views(*x, arbitrary());
                aggregate_views(*y, arbitrary());
            }
            lists_equal(x, y)
        },
        (Frame::Null, Frame::Null) => true,
        (Frame::Boolean(x), Frame::Boolean(y)) => *x == *y,
        (Frame::Double(x), Frame::Double(y)) => same(*x, *y),
        (Frame::BigNumber(x), Frame::BigNumber(y)) => same_text(x, y),
        (Frame::BulkError(x), Frame::BulkError(y)) => same_text(x, y),
        (
            Frame::Verbatim { format: f, data: x },
            Frame::Verbatim { format: g, data: y },
        ) => same_bytes(f, g) && same_contents(x, y),
        (Frame::MapReply(x), Frame::MapReply(y)) => {
            proof {
                aggregate_views(arbitrary(), *x);
                aggregate_views(arbitrary(), *y);
            }
            pairs_equal(x, y)
        },
        (Frame::SetReply(x), Frame::SetReply(y)) => {
            proof {
                aggregate_views(*x, arbitrary());
                aggregate_views(*y, arbitrary());
            }
            lists_equal(x, y)
        },
        (Frame::Push(x), Frame::Push(y)) => {
            proof {
                aggregate_views(*x, arbitrary());
                aggregate_views(*y, arbitrary());
            }
            lists_equal(x, y)
        },
        _ => false,
    }
}

/// Whether frames have equal values, one by one.
fn lists_equal(a: &Vec<Frame>, b: &Vec<Frame>) -> (r: bool)
    ensures
        r == same_values(frames_view(a@), frames_view(b@)),
    decreases a,
{
    if a.len() != b.len() {
        return false;
    }
    let mut i: usize = 0;
    while i < a.len()
        invariant
            i <= a@.len(),
            a@.len() == b@.len(),
            forall|j: int|
                0 <= j < i ==> same_value(#[trigger] frames_view(a@)[j], frames_view(b@)[j]),
        decreases a@.len() - i,
    {
        if !frames_equal(&a[i], &b[i]) {
            assert(!same_value(frames_view(a@)[i as int], frames_view(b@)[i as int]));
            return false;
        }
        i += 1;
    }
    true
}

/// Whether pairs of frames have equal values, one by one.
fn pairs_equal(a: &Vec<(Frame, Frame)>, b: &Vec<(Frame, Frame)>) -> (r: bool)
    ensures
        r == same_pairs(pairs_view(a@), pairs_view(b@)),
    decreases a,
{
    if a.len() != b.len() {
        return false;
    }
    let mut i: usize = 0;
    while i < a.len()
        invariant
            i <= a@.len(),
            a@.len() == b@.len(),
            forall|j: int|
                0 <= j < i ==> same_value((#[trigger] pairs_view(a@)[j]).0, pairs_view(b@)[j].0)
                    && same_value(pairs_view(a@)[j].1, pairs_view(b@)[j].1),
        decreases a@.len() - i,
    {
        let keys = frames_equal(&a[i].0, &b[i].0);
        if !(keys && frames_equal(&a[i].1, &b[i].1)) {
            assert(!(same_value(pairs_view(a@)[i as int].0, pairs_view(b@)[i as int].0)
                && same_value(pairs_view(a@)[i as int].1, pairs_view(b@)[i as int].1)));
            return false;
        }
        i += 1;
    }
    true
}

impl PartialEq for Frame {
    fn eq(&self, other: &Self) -> (r: bool) {
        frames_equal(self, other)
    }
}

impl vstd::std_specs::cmp::PartialEqSpecImpl for Frame {
    open spec fn obeys_eq_spec() -> bool {
        true
    }

    open spec fn eq_spec(&self, other: &Self) -> bool {
        same_value(frame_view(*self), frame_view(*other))
    }
}

impl Frame {
    /// The simple string `OK`.
    pub fn ok() -> (r: Frame)
        ensures
            r@ == FrameView::Simple("OK"@),
    {
        Frame::Simple("OK".to_owned())
    }

    /// A simple string.
    pub fn simple(s: &str) -> (r: Frame)
        ensures
            r@ == FrameView::Simple(s@),
    {
        Frame::Simple(s.to_owned())
    }

    /// An error.
    pub fn error(s: &str) -> (r: Frame)
        ensures
            r@ == FrameView::Error(s@),
    {
        Frame::Error(s.to_owned())
    }

    /// A bulk string.
    pub fn bulk(b: Bytes) -> (r: Frame)
        ensures
            r@ == FrameView::Bulk(bytes_of(b)),
    {
        Frame::Bulk(b)
    }

    /// The canonical null.
    pub fn null() -> (r: Frame)
        ensures
            r@ == FrameView::Null,
    {
        Frame::Null
    }

    /// The bytes of a bulk string.
    pub fn as_bulk(&self) -> (r: Option<&Bytes>)
        ensures
            r is Some <==> self@ is Bulk,
            r matches Some(b) ==> self@ == FrameView::Bulk(bytes_of(*b)),
    {
        match self {
            Frame::Bulk(b) => Some(b),
            _ => None,
        }
    }
}

impl From<&str> for Frame {
    fn from(s: &str) -> (r: Self)
        ensures
            r@ == FrameView::Bulk(encode_utf8(s@)),
    {
        Frame::Bulk(bytes_copy(s.as_bytes()))
    }
}

impl FromSpecImpl<&str> for Frame {
    open spec fn obeys_from_spec() -> bool {
        false
    }

    open spec fn from_spec(s: &str) -> Self {
        arbitrary()
    }
}

impl From<i64> for Frame {
    fn from(n: i64) -> (r: Self)
        ensures
            r@ == FrameView::Integer(n),
    {
        Frame::Integer(n)
    }
}

impl FromSpecImpl<i64> for Frame {
    open spec fn obeys_from_spec() -> bool {
        true
    }

    open spec fn from_spec(n: i64) -> Self {
        Frame::Integer(n)
    }
}

} // verus!
