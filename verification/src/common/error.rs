//! The errors of the node's surroundings.
use vstd::prelude::*;
use vstd::std_specs::convert::FromSpecImpl;

use crate::engine::error::EngineError;
use crate::protocol::error::ProtocolError;
use crate::text::join2;

verus! {

/// What can go wrong around the store.
#[derive(Debug, Clone, PartialEq, Eq)]
#[non_exhaustive]
pub enum Error {
    /// The configuration is wrong or cannot be read.
    Config(String),
    /// Input or output failed.
    Io(String),
    /// A peer broke the wire protocol.
    Protocol(String),
    /// The storage engine failed.
    Engine(String),
    /// Logging or metrics could not be set up.
    Observability(String),
    /// Anything else.
    Other(String),
}

/// An [`Error`] with its message as characters.
#[verifier::ext_equal]
pub enum ErrorView {
    Config(Seq<char>),
    Io(Seq<char>),
    Protocol(Seq<char>),
    Engine(Seq<char>),
    Observability(Seq<char>),
    Other(Seq<char>),
}

impl View for Error {
    type V = ErrorView;

    open spec fn view(&self) -> ErrorView {
        match self {
            Error::Config(m) => ErrorView::Config(m@),
            Error::Io(m) => ErrorView::Io(m@),
            Error::Protocol(m) => ErrorView::Protocol(m@),
            Error::Engine(m) => ErrorView::Engine(m@),
            Error::Observability(m) => ErrorView::Observability(m@),
            Error::Other(m) => ErrorView::Other(m@),
        }
    }
}

impl ErrorView {
    /// The text of the error.
    pub open spec fn message(self) -> Seq<char> {
        match self {
            ErrorView::Config(m) => "configuration error: "@ + m,
            ErrorView::Io(m) => "i/o error: "@ + m,
            ErrorView::Protocol(m) => "protocol error: "@ + m,
            ErrorView::Engine(m) => "engine error: "@ + m,
            ErrorView::Observability(m) => "observability error: "@ + m,
            ErrorView::Other(m) => m,
        }
    }
}

impl Error {
    /// An [`Error::Config`] with the given message.
    pub fn config(msg: &str) -> (r: Self)
        ensures
            r@ == ErrorView::Config(msg@),
    {
        Error::Config(msg.to_owned())
    }

    /// An [`Error::Other`] with the given message.
    pub fn other(msg: &str) -> (r: Self)
        ensures
            r@ == ErrorView::Other(msg@),
    {
        Error::Other(msg.to_owned())
    }

    /// The text of the error.
    pub fn message(&self) -> (r: String)
        ensures
            r@ == self@.message(),
    {
        match self {
            Error::Config(m) => join2("configuration error: ", m),
            Error::Io(m) => join2("i/o error: ", m),
            Error::Protocol(m) => join2("protocol error: ", m),
            Error::Engine(m) => join2("engine error: ", m),
            Error::Observability(m) => join2("observability error: ", m),
            Error::Other(m) => m.clone(),
        }
    }
}

impl From<ProtocolError> for Error {
    fn from(e: ProtocolError) -> (r: Self)
        ensures
            r@ == ErrorView::Protocol(e@.message()),
    {
        Error::Protocol(e.message())
    }
}

impl FromSpecImpl<ProtocolError> for Error {
    open spec fn obeys_from_spec() -> bool {
        false
    }

    open spec fn from_spec(e: ProtocolError) -> Self {
        arbitrary()
    }
}

impl From<EngineError> for Error {
    fn from(e: EngineError) -> (r: Self)
        ensures
            r@ == ErrorView::Engine(e@.message()),
    {
        Error::Engine(e.message())
    }
}

impl FromSpecImpl<EngineError> for Error {
    open spec fn obeys_from_spec() -> bool {
        false
    }

    open spec fn from_spec(e: EngineError) -> Self {
        arbitrary()
    }
}

} // verus!
