//! A decoder and an encoder with the state of one connection: the protocol version that
//! replies are written in, and the limits that input is held to.
use bytes::{Bytes, BytesMut};
use vstd::prelude::*;

use super::decode::{decode, decode_command, Limits};
use super::encode::{encode, wire};
use super::error::ProtocolError;
use super::frame::{Frame, RespVersion};
use super::grammar::{parse_frame, parse_request, Parse};
use crate::buffer::{all_bytes_of, buffer_of};

verus! {

/// The limits that a codec has unless others are set.
pub open spec fn default_limits(limits: Limits) -> bool {
    &&& limits.max_bulk_len == 512 * 1024 * 1024
    &&& limits.max_array_len == 1024 * 1024
    &&& limits.max_inline_len == 64 * 1024
    &&& limits.max_depth == 128
}

/// Decodes RESP values and encodes replies.
///
/// Set the version that was agreed on (after a `HELLO 3`, say) with
/// [`RespCodec::set_version`], so that null is written in its form.
#[derive(Debug, Clone)]
pub struct RespCodec {
    version: RespVersion,
    limits: Limits,
}

impl RespCodec {
    /// The protocol version that replies are written in.
    pub closed spec fn reply_version(&self) -> RespVersion {
        self.version
    }

    /// The limits that input is held to.
    pub closed spec fn input_limits(&self) -> Limits {
        self.limits
    }

    /// A RESP2 codec with the default limits.
    pub fn new() -> (r: Self)
        ensures
            r.reply_version() == RespVersion::V2,
            default_limits(r.input_limits()),
    {
        RespCodec { version: RespVersion::V2, limits: Limits::default() }
    }

    /// The same codec with other limits.
    pub fn with_limits(self, limits: Limits) -> (r: Self)
        ensures
            r.reply_version() == self.reply_version(),
            r.input_limits() == limits,
    {
        RespCodec { version: self.version, limits }
    }

    /// The protocol version that replies are written in.
    pub fn version(&self) -> (r: RespVersion)
        ensures
            r == self.reply_version(),
    {
        self.version
    }

    /// Sets the protocol version that replies are written in.
    pub fn set_version(&mut self, version: RespVersion)
        ensures
            final(self).reply_version() == version,
            final(self).input_limits() == old(self).input_limits(),
    {
        self.version = version;
    }

    /// Takes one RESP value off the front of `src`, where it is there in full.
    pub fn decode(&self, src: &mut BytesMut) -> (r: Result<Option<Frame>, ProtocolError>)
        ensures
            match parse_frame(buffer_of(*old(src)), self.input_limits(), 0) {
                Parse::Done(f, n) => r matches Ok(Some(frame)) && frame@ == f && buffer_of(
                    *final(src),
                ) == buffer_of(*old(src)).skip(n as int),
                Parse::More => r matches Ok(None) && *final(src) == *old(src),
                Parse::Bad(e) => r matches Err(error) && error@ == e && *final(src) == *old(src),
            },
    {
        decode(src, &self.limits)
    }

    /// Appends the wire form of `item` to `dst`.
    pub fn encode(&self, item: &Frame, dst: &mut BytesMut)
        requires
            buffer_of(*old(dst)).len() + wire(item@, self.reply_version()).len() <= isize::MAX,
        ensures
            buffer_of(*final(dst)) == buffer_of(*old(dst)) + wire(item@, self.reply_version()),
    {
        encode(item, self.version, dst)
    }
}

impl Default for RespCodec {
    fn default() -> (r: Self)
        ensures
            r.reply_version() == RespVersion::V2,
            default_limits(r.input_limits()),
    {
        RespCodec::new()
    }
}

/// The server's side: decodes client requests, as arrays of bulk strings or inline, into their
/// arguments, and encodes replies.
#[derive(Debug, Clone)]
pub struct CommandCodec {
    version: RespVersion,
    limits: Limits,
}

impl CommandCodec {
    /// The protocol version that replies are written in.
    pub closed spec fn reply_version(&self) -> RespVersion {
        self.version
    }

    /// The limits that input is held to.
    pub closed spec fn input_limits(&self) -> Limits {
        self.limits
    }

    /// A RESP2 codec with the default limits.
    pub fn new() -> (r: Self)
        ensures
            r.reply_version() == RespVersion::V2,
            default_limits(r.input_limits()),
    {
        CommandCodec { version: RespVersion::V2, limits: Limits::default() }
    }

    /// The same codec with other limits.
    pub fn with_limits(self, limits: Limits) -> (r: Self)
        ensures
            r.reply_version() == self.reply_version(),
            r.input_limits() == limits,
    {
        CommandCodec { version: self.version, limits }
    }

    /// The protocol version that replies are written in.
    pub fn version(&self) -> (r: RespVersion)
        ensures
            r == self.reply_version(),
    {
        self.version
    }

    /// Sets the protocol version that replies are written in.
    pub fn set_version(&mut self, version: RespVersion)
        ensures
            final(self).reply_version() == version,
            final(self).input_limits() == old(self).input_limits(),
    {
        self.version = version;
    }

    /// Takes one client request off the front of `src`, where it is there in full.
    pub fn decode(&self, src: &mut BytesMut) -> (r: Result<Option<Vec<Bytes>>, ProtocolError>)
        ensures
            match parse_request(buffer_of(*old(src)), self.input_limits()) {
                Parse::Done(args, n) => r matches Ok(Some(v)) && all_bytes_of(v@) == args
                    && buffer_of(*final(src)) == buffer_of(*old(src)).skip(n as int),
                Parse::More => r matches Ok(None) && *final(src) == *old(src),
                Parse::Bad(e) => r matches Err(error) && error@ == e && *final(src) == *old(src),
            },
    {
        decode_command(src, &self.limits)
    }

    /// Appends the wire form of `item` to `dst`.
    pub fn encode(&self, item: &Frame, dst: &mut BytesMut)
        requires
            buffer_of(*old(dst)).len() + wire(item@, self.reply_version()).len() <= isize::MAX,
        ensures
            buffer_of(*final(dst)) == buffer_of(*old(dst)) + wire(item@, self.reply_version()),
    {
        encode(item, self.version, dst)
    }
}

impl Default for CommandCodec {
    fn default() -> (r: Self)
        ensures
            r.reply_version() == RespVersion::V2,
            default_limits(r.input_limits()),
    {
        CommandCodec::new()
    }
}

} // verus!
