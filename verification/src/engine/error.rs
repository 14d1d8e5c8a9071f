//! What can go wrong in the storage engine.
use vstd::prelude::*;

use crate::text::join2;

verus! {

/// Anything that can go wrong in the storage engine.
#[derive(Debug, Clone, PartialEq, Eq)]
#[non_exhaustive]
pub enum EngineError {
    /// The storage backend failed.
    Backend(String),
    /// A stored record could not be decoded.
    Corruption(String),
    /// The operation does not go with the type of the value at the key.
    WrongType,
}

/// An [`EngineError`] with its message as characters.
#[verifier::ext_equal]
pub enum EngineErrorView {
    Backend(Seq<char>),
    Corruption(Seq<char>),
    WrongType,
}

impl View for EngineError {
    type V = EngineErrorView;

    open spec fn view(&self) -> EngineErrorView {
        match self {
            EngineError::Backend(m) => EngineErrorView::Backend(m@),
            EngineError::Corruption(m) => EngineErrorView::Corruption(m@),
            EngineError::WrongType => EngineErrorView::WrongType,
        }
    }
}

impl EngineErrorView {
    /// The text of the error.
    pub open spec fn message(self) -> Seq<char> {
        match self {
            EngineErrorView::Backend(m) => "engine backend error: "@ + m,
            EngineErrorView::Corruption(m) => "engine corruption: "@ + m,
            EngineErrorView::WrongType =>
                "WRONGTYPE Operation against a key holding the wrong kind of value"@,
        }
    }
}

impl EngineError {
    /// An [`EngineError::Backend`] with the given message.
    pub fn backend(msg: &str) -> (r: Self)
        ensures
            r@ == EngineErrorView::Backend(msg@),
    {
        EngineError::Backend(msg.to_owned())
    }

    /// An [`EngineError::Corruption`] with the given message.
    pub fn corruption(msg: &str) -> (r: Self)
        ensures
            r@ == EngineErrorView::Corruption(msg@),
    {
        EngineError::Corruption(msg.to_owned())
    }

    /// The text of the error.
    pub fn message(&self) -> (r: String)
        ensures
            r@ == self@.message(),
    {
        match self {
            EngineError::Backend(m) => join2("engine backend error: ", m),
            EngineError::Corruption(m) => join2("engine corruption: ", m),
            EngineError::WrongType =>
                "WRONGTYPE Operation against a key holding the wrong kind of value".to_owned(),
        }
    }
}

} // verus!
