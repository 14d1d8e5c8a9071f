//! The RESP2/RESP3 wire protocol.
//!
//! - [`frame`]: the value model ([`Frame`], [`RespVersion`]).
//! - [`grammar`]: what the bytes on the wire mean.
//! - [`decode`](mod@decode): the incremental decoder ([`decode()`], [`decode_command`],
//!   [`Limits`]).
//! - [`encode`](mod@encode): the version-aware encoder and the wire form of each value.
//! - [`codec`]: a decoder and an encoder with the state of one connection.
//! - [`error`]: [`ProtocolError`].
//! - [`laws`]: what holds of the protocol as a whole.
//! - [`refusals`]: what is read and what is refused.
pub mod codec;
pub mod decode;
pub mod encode;
pub mod equality;
pub mod error;
pub mod frame;
pub mod grammar;
pub mod laws;
pub mod refusals;

pub use codec::{CommandCodec, RespCodec};
pub use decode::{decode, decode_command, Limits};
pub use encode::{encode, encode_to_vec};
pub use error::ProtocolError;
pub use frame::{Frame, RespVersion};
