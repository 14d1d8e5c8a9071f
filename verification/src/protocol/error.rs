//! What can go wrong on the wire.
use vstd::prelude::*;

use crate::text::join2;

verus! {

/// Anything that can go wrong while decoding RESP.
#[derive(Debug, Clone, PartialEq, Eq)]
#[non_exhaustive]
pub enum ProtocolError {
    /// The bytes are not valid RESP: a bad type byte, a malformed header, a missing CRLF, a
    /// length that is no number. The peer is out of step and should be disconnected.
    Malformed(String),
    /// A declared length exceeded the configured limit.
    LimitExceeded(String),
    /// An inline command could not be split into arguments.
    InlineSyntax(String),
}

/// A [`ProtocolError`] with its message as characters.
#[verifier::ext_equal]
pub enum ProtocolErrorView {
    Malformed(Seq<char>),
    LimitExceeded(Seq<char>),
    InlineSyntax(Seq<char>),
}

impl View for ProtocolError {
    type V = ProtocolErrorView;

    open spec fn view(&self) -> ProtocolErrorView {
        match self {
            ProtocolError::Malformed(m) => ProtocolErrorView::Malformed(m@),
            ProtocolError::LimitExceeded(m) => ProtocolErrorView::LimitExceeded(m@),
            ProtocolError::InlineSyntax(m) => ProtocolErrorView::InlineSyntax(m@),
        }
    }
}

impl ProtocolErrorView {
    /// The line that is logged for the error.
    pub open spec fn message(self) -> Seq<char> {
        match self {
            ProtocolErrorView::Malformed(m) => "protocol error: "@ + m,
            ProtocolErrorView::LimitExceeded(m) => "value exceeds configured limit: "@ + m,
            ProtocolErrorView::InlineSyntax(m) => "invalid inline command: "@ + m,
        }
    }
}

impl ProtocolError {
    /// A [`ProtocolError::Malformed`] with the given message.
    pub(crate) fn malformed(msg: &str) -> (r: Self)
        ensures
            r@ == ProtocolErrorView::Malformed(msg@),
    {
        ProtocolError::Malformed(msg.to_owned())
    }

    /// The line that is logged for the error.
    pub fn message(&self) -> (r: String)
        ensures
            r@ == self@.message(),
    {
        match self {
            ProtocolError::Malformed(m) => join2("protocol error: ", m),
            ProtocolError::LimitExceeded(m) => join2("value exceeds configured limit: ", m),
            ProtocolError::InlineSyntax(m) => join2("invalid inline command: ", m),
        }
    }
}

} // verus!
