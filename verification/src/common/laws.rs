//! What holds of errors and of the configuration.
use vstd::prelude::*;

use super::config::{address, default_config};
use super::error::ErrorView;
use crate::datamodel::registry::engine_error_view;
use crate::engine::error::EngineErrorView;
use crate::protocol::error::ProtocolErrorView;
use crate::protocol::frame::FrameView;
use crate::text::decimal_text;

verus! {

/// The text is a word for the kind of error, and behind it the detail.
pub open spec fn names_and_tells(text: Seq<char>, kind: Seq<char>, detail: Seq<char>) -> bool {
    &&& text.len() == kind.len() + detail.len()
    &&& forall|i: int| 0 <= i < kind.len() ==> #[trigger] text[i] == kind[i]
    &&& forall|i: int| kind.len() <= i < text.len() ==> #[trigger] text[i] == detail[i - kind.len()]
}

/// The text of an error names its kind and tells its detail in full.
pub proof fn errors_are_told(m: Seq<char>)
    ensures
        names_and_tells(ErrorView::Config(m).message(), "configuration error: "@, m),
        names_and_tells(ErrorView::Io(m).message(), "i/o error: "@, m),
        names_and_tells(ErrorView::Protocol(m).message(), "protocol error: "@, m),
        names_and_tells(ErrorView::Engine(m).message(), "engine error: "@, m),
        names_and_tells(ErrorView::Observability(m).message(), "observability error: "@, m),
        ErrorView::Other(m).message() == m,
        names_and_tells(EngineErrorView::Backend(m).message(), "engine backend error: "@, m),
        names_and_tells(EngineErrorView::Corruption(m).message(), "engine corruption: "@, m),
        names_and_tells(ProtocolErrorView::Malformed(m).message(), "protocol error: "@, m),
        names_and_tells(
            ProtocolErrorView::LimitExceeded(m).message(),
            "value exceeds configured limit: "@,
            m,
        ),
        names_and_tells(
            ProtocolErrorView::InlineSyntax(m).message(),
            "invalid inline command: "@,
            m,
        ),
{
}

/// A client is told of a wrong type in words of its own, and of any other failure of the engine
/// behind `ERR`.
pub proof fn failures_are_replied(e: EngineErrorView)
    ensures
        engine_error_view(e) matches FrameView::Error(text) && if e is WrongType {
            text == "WRONGTYPE Operation against a key holding the wrong kind of value"@
        } else {
            names_and_tells(text, "ERR "@, e.message())
        },
{
}

/// Where nothing is said the server listens at port 6380 and shows its metrics at port 9600, both
/// on this machine alone, keeps its data below the directory that it runs in, and logs what took
/// ten milliseconds or more.
pub proof fn nothing_need_be_said()
    ensures
        ({
            let c = default_config();
            &&& c.server_bind == "127.0.0.1"@ && c.server_port == 6380
            &&& c.data_dir == "./data"@
            &&& c.level == "info"@ && c.slow_log_threshold_ms == 10
            &&& c.metrics_enabled && c.metrics_bind == "127.0.0.1"@ && c.metrics_port == 9600
        }),
{
}

/// An address is the name of a machine, a colon and the number of a port.
pub proof fn addresses_are_told(bind: Seq<char>, port: u16)
    ensures
        names_and_tells(address(bind, port), bind + ":"@, decimal_text(port as int)),
{
}

} // verus!
