//! The byte containers of the `bytes` crate, as the library sees them.
//!
//! [`bytes::Bytes`] is an immutable byte string and [`bytes::BytesMut`] a growing buffer.
//! Verus sees neither from the inside: [`bytes_of`] and [`buffer_of`] name what they hold, and
//! the functions below say what each call of the crate does to it.
use bytes::{BufMut, Bytes, BytesMut};
use vstd::prelude::*;

verus! {

/// An immutable byte string.
#[verifier::external_type_specification]
#[verifier::external_body]
pub struct ExBytes(bytes::Bytes);

/// A growing byte buffer.
#[verifier::external_type_specification]
#[verifier::external_body]
pub struct ExBytesMut(bytes::BytesMut);

/// The bytes that a [`Bytes`] holds.
pub uninterp spec fn bytes_of(b: Bytes) -> Seq<u8>;

/// The bytes that a [`BytesMut`] holds, from its front on.
pub uninterp spec fn buffer_of(b: BytesMut) -> Seq<u8>;

/// The bytes that each of several [`Bytes`] holds.
pub open spec fn all_bytes_of(v: Seq<Bytes>) -> Seq<Seq<u8>> {
    Seq::new(v.len(), |i: int| bytes_of(v[i]))
}

/// `<Bytes as Clone>::clone`: another handle on the same bytes.
pub assume_specification[ <bytes::Bytes as std::clone::Clone>::clone ](b: &bytes::Bytes) -> (r:
    bytes::Bytes)
    ensures
        bytes_of(r) == bytes_of(*b),
;

/// `Bytes::copy_from_slice`: a byte string that holds a copy of `data`.
#[verifier::external_body]
pub(crate) fn bytes_copy(data: &[u8]) -> (r: Bytes)
    ensures
        bytes_of(r) == data@,
{
    Bytes::copy_from_slice(data)
}

/// `Bytes::from(Vec<u8>)`: a byte string that holds what the vector held.
#[verifier::external_body]
pub(crate) fn bytes_from(data: Vec<u8>) -> (r: Bytes)
    ensures
        bytes_of(r) == data@,
{
    Bytes::from(data)
}

/// `<Bytes as AsRef<[u8]>>::as_ref`: the bytes as a slice.
#[verifier::external_body]
pub(crate) fn bytes_slice(b: &Bytes) -> (r: &[u8])
    ensures
        r@ == bytes_of(*b),
{
    b.as_ref()
}

/// `BytesMut::new`: an empty buffer.
#[verifier::external_body]
pub(crate) fn buffer_new() -> (r: BytesMut)
    ensures
        buffer_of(r) == Seq::<u8>::empty(),
{
    BytesMut::new()
}

/// `<BytesMut as AsRef<[u8]>>::as_ref`: the buffered bytes as a slice.
#[verifier::external_body]
pub(crate) fn buffer_slice(b: &BytesMut) -> (r: &[u8])
    ensures
        r@ == buffer_of(*b),
{
    b.as_ref()
}

/// `BytesMut::split_to`: takes the first `at` bytes off the front of the buffer. The call
/// panics where the buffer is shorter than that.
#[verifier::external_body]
pub(crate) fn buffer_split_to(b: &mut BytesMut, at: usize) -> (r: BytesMut)
    requires
        at <= buffer_of(*old(b)).len(),
    ensures
        buffer_of(r) == buffer_of(*old(b)).take(at as int),
        buffer_of(*final(b)) == buffer_of(*old(b)).skip(at as int),
{
    b.split_to(at)
}

/// `BufMut::put_slice` on a [`BytesMut`]: appends `data`. The buffer grows as needed; no
/// allocation can pass `isize::MAX` bytes.
#[verifier::external_body]
pub(crate) fn buffer_put(b: &mut BytesMut, data: &[u8])
    requires
        buffer_of(*old(b)).len() + data@.len() <= isize::MAX,
    ensures
        buffer_of(*final(b)) == buffer_of(*old(b)) + data@,
{
    b.put_slice(data)
}

/// `BufMut::put_u8` on a [`BytesMut`]: appends one byte, under the same bound.
#[verifier::external_body]
pub(crate) fn buffer_put_u8(b: &mut BytesMut, byte: u8)
    requires
        buffer_of(*old(b)).len() + 1 <= isize::MAX,
    ensures
        buffer_of(*final(b)) == buffer_of(*old(b)).push(byte),
{
    b.put_u8(byte)
}

} // verus!
