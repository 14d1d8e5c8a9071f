//! A key-value store that speaks the Redis protocol.
//!
//! - [`protocol`]: RESP2 and RESP3, decoding and encoding.
//! - [`engine`]: strings, hashes, sets, sorted sets and lists on an ordered map of bytes to bytes.
//! - [`datamodel`]: the commands, from a request to its reply.
//! - [`datanode`]: what a node does with connections, requests and metrics.
//! - [`common`]: configuration and errors.
//! - [`float`]: doubles and the text that denotes them.
//!
//! What each of them promises as a whole is stated and proved in their `laws`. What the commands
//! promise a client stands in [`datamodel::promises`], what a node promises in
//! [`datanode::promises`], [`datanode::verbs`] and [`datanode::watching`], and how numbers and words
//! are spelled in [`spelling`].
pub mod buffer;
pub mod common;
pub mod datamodel;
pub mod datanode;
pub mod engine;
pub mod float;
pub mod order;
pub mod protocol;
pub mod spelling;
pub mod table;
pub mod text;
pub mod words;
