//! The course of a connection and of the listener, as steps from event to action.
//!
//! Reading and writing are left to the caller: it hands over what happened, and does what the step
//! says.
use bytes::Bytes;
use vstd::prelude::*;

use super::server::{acts, dispatch, ActionView};
use crate::buffer::all_bytes_of;
use crate::datamodel::registry::{
    later, readings_since, CommandHandler, CommandRegistry, Entry,
};
use crate::engine::engine::{Failures, GeneralEngine};
use crate::engine::model::{Now, StoreView};
use crate::engine::store::Store;
use crate::protocol::error::ProtocolError;
use crate::protocol::frame::{frame_view, Frame, FrameView, RespVersion};
use crate::text::join2;

verus! {

/// What to do on a connection.
#[derive(Debug)]
pub enum Step {
    /// Wait for the next request.
    Wait,
    /// Send the frame, and wait for the next request.
    Send(Frame),
    /// Send the frame, and end the connection.
    SendAndClose(Frame),
    /// End the connection.
    Close,
}

/// A [`Step`] as a mathematical value.
#[verifier::ext_equal]
pub enum StepView {
    Wait,
    Send(FrameView),
    SendAndClose(FrameView),
    Close,
}

impl View for Step {
    type V = StepView;

    open spec fn view(&self) -> StepView {
        match self {
            Step::Wait => StepView::Wait,
            Step::Send(f) => StepView::Send(frame_view(*f)),
            Step::SendAndClose(f) => StepView::SendAndClose(frame_view(*f)),
            Step::Close => StepView::Close,
        }
    }
}

/// What happened on a connection.
#[derive(Debug)]
pub enum Event {
    /// A request came in, the name of the command in front.
    Request(Vec<Bytes>),
    /// What came in is no request.
    Malformed(ProtocolError),
    /// Reading failed, for the given reason.
    Broken(String),
    /// The client closed the connection.
    Closed,
    /// The server is going to stop.
    Shutdown,
}

/// A connection: its number, and the protocol version that its replies are written in.
#[derive(Debug)]
pub struct Connection {
    id: i64,
    version: RespVersion,
}

/// The step that an action on a request leads to.
pub open spec fn step_of(action: ActionView) -> StepView {
    if action.close {
        StepView::SendAndClose(action.reply)
    } else {
        StepView::Send(action.reply)
    }
}

/// What an event may lead to on a connection with the number `id`: the protocol version from then
/// on, the state of the store, and the step to take.
pub open spec fn connection_steps<E: GeneralEngine, H: CommandHandler<E>>(
    commands: Map<Seq<u8>, Entry<H>>,
    id: i64,
    version: RespVersion,
    event: Event,
    before: StoreView,
    times: Seq<Now>,
    next: RespVersion,
    after: StoreView,
    step: StepView,
    failures: Failures,
) -> bool {
    match event {
        Event::Shutdown | Event::Closed => next == version && after == before && step
            == StepView::Close,
        Event::Malformed(e) => next == version && after == before && step
            == StepView::SendAndClose(
            FrameView::Error("ERR Protocol error: "@ + e@.message()),
        ),
        Event::Broken(reason) => next == version && after == before && step
            == StepView::SendAndClose(
            FrameView::Error("ERR Protocol error: i/o error: "@ + reason@),
        ),
        Event::Request(args) => if args@.len() == 0 {
            next == version && after == before && step == StepView::Wait
        } else {
            exists|action: ActionView|
                #![trigger step_of(action)]
                {
                    &&& acts::<E, H>(
                        commands,
                        version,
                        id,
                        all_bytes_of(args@),
                        before,
                        times,
                        after,
                        action,
                        failures,
                    )
                    &&& step == step_of(action)
                    &&& next == (match action.set_version {
                        Some(v) => v,
                        None => version,
                    })
                }
        },
    }
}

impl Connection {
    /// The number of the connection.
    pub closed spec fn number(&self) -> i64 {
        self.id
    }

    /// The protocol version that replies are written in.
    pub closed spec fn reply_version(&self) -> RespVersion {
        self.version
    }

    /// A new connection, which starts in RESP2.
    pub fn new(id: i64) -> (r: Self)
        ensures
            r.number() == id,
            r.reply_version() == RespVersion::V2,
    {
        Connection { id, version: RespVersion::V2 }
    }

    /// The protocol version that replies are written in.
    pub fn version(&self) -> (r: RespVersion)
        ensures
            r == self.reply_version(),
    {
        self.version
    }

    /// Takes note of an event and says what to do. A request for another protocol version holds
    /// for its own reply already.
    pub fn on_event<E: GeneralEngine, H: CommandHandler<E>>(
        &mut self,
        event: Event,
        store: &mut Store<E>,
        registry: &CommandRegistry<H>,
    ) -> (r: Step)
        ensures
            final(self).number() == old(self).number(),
            later(*old(store), *final(store)),
            connection_steps::<E, H>(
                registry.commands(),
                old(self).number(),
                old(self).reply_version(),
                event,
                old(store)@,
                readings_since(*old(store), *final(store)),
                final(self).reply_version(),
                final(store)@,
                r@,
                old(store).failures(),
            ),
    {
        match event {
            Event::Shutdown => Step::Close,
            Event::Closed => Step::Close,
            Event::Malformed(e) => {
                let text = e.message();
                Step::SendAndClose(Frame::Error(join2("ERR Protocol error: ", &text)))
            },
            Event::Broken(reason) => Step::SendAndClose(
                Frame::Error(join2("ERR Protocol error: i/o error: ", &reason)),
            ),
            Event::Request(args) => {
                if args.len() == 0 {
                    return Step::Wait;
                }
                let action = dispatch(&args, self.version, self.id, store, registry);
                let ghost view = action@;
                if let Some(version) = action.set_version {
                    self.version = version;
                }
                let step = if action.close {
                    Step::SendAndClose(action.reply)
                } else {
                    Step::Send(action.reply)
                };
                assert(step@ == step_of(view));
                step
            },
        }
    }
}

// ---------------------------------------------------------------------------
// The listener
// ---------------------------------------------------------------------------
/// What happened at the listener.
#[derive(Debug, Clone, Copy, PartialEq, Eq, Structural)]
pub enum ListenerEvent {
    /// A connection was accepted.
    Accepted,
    /// Accepting a connection failed.
    Failed,
    /// A connection ended.
    Ended,
    /// The server is to stop.
    Shutdown,
}

/// What to do at the listener.
#[derive(Debug, Clone, Copy, PartialEq, Eq, Structural)]
pub enum ListenerStep {
    /// Serve the connection that was accepted, and go on.
    Serve,
    /// Go on.
    GoOn,
    /// Accept no more, and tell every connection to end behind the request it is at.
    Drain,
    /// All is done.
    Finish,
}

/// A listener: whether it still accepts connections, and how many are open.
#[derive(Debug)]
pub struct Listener {
    accepting: bool,
    open: u64,
}

/// What an event leads to at a listener: whether it still accepts connections then, how many are
/// open, and what to do.
pub open spec fn listener_step(accepts: bool, open: int, event: ListenerEvent) -> (
    bool,
    int,
    ListenerStep,
) {
    let accepts_then = accepts && event != ListenerEvent::Shutdown;
    let open_then = if event == ListenerEvent::Accepted && accepts {
        open + 1
    } else if event == ListenerEvent::Ended {
        open - 1
    } else {
        open
    };
    (
        accepts_then,
        open_then,
        if event == ListenerEvent::Accepted && accepts {
            ListenerStep::Serve
        } else if !accepts_then && open_then == 0 {
            ListenerStep::Finish
        } else if event == ListenerEvent::Shutdown {
            ListenerStep::Drain
        } else {
            ListenerStep::GoOn
        },
    )
}

impl Listener {
    /// Connections are accepted.
    pub closed spec fn accepts(&self) -> bool {
        self.accepting
    }

    /// How many connections are open.
    pub closed spec fn open_count(&self) -> u64 {
        self.open
    }

    /// A listener without connections.
    pub fn new() -> (r: Self)
        ensures
            r.accepts(),
            r.open_count() == 0,
    {
        Listener { accepting: true, open: 0 }
    }

    /// How many connections are open.
    pub fn connections(&self) -> (r: u64)
        ensures
            r == self.open_count(),
    {
        self.open
    }

    /// Takes note of an event and says what to do. From the shutdown on nothing is accepted, and
    /// the listener is done when the last connection has ended.
    pub fn on_event(&mut self, event: ListenerEvent) -> (r: ListenerStep)
        requires
            old(self).open_count() < u64::MAX,
            event == ListenerEvent::Ended ==> old(self).open_count() > 0,
        ensures
            listener_step(old(self).accepts(), old(self).open_count() as int, event) == (
                final(self).accepts(),
                final(self).open_count() as int,
                r,
            ),
            final(self).accepts() == (old(self).accepts() && event != ListenerEvent::Shutdown),
            final(self).open_count() == old(self).open_count() + (if r == ListenerStep::Serve {
                1int
            } else if event == ListenerEvent::Ended {
                -1int
            } else {
                0int
            }),
            (r == ListenerStep::Serve) == (event == ListenerEvent::Accepted
                && old(self).accepts()),
            (r == ListenerStep::Finish) == (!final(self).accepts() && final(self).open_count()
                == 0),
            (r == ListenerStep::Drain) == (event == ListenerEvent::Shutdown
                && final(self).open_count() > 0),
    {
        match event {
            ListenerEvent::Accepted => {
                if self.accepting {
                    self.open = self.open + 1;
                    return ListenerStep::Serve;
                }
            },
            ListenerEvent::Failed => {},
            ListenerEvent::Ended => {
                self.open = self.open - 1;
            },
            ListenerEvent::Shutdown => {
                self.accepting = false;
            },
        }
        if !self.accepting && self.open == 0 {
            ListenerStep::Finish
        } else if let ListenerEvent::Shutdown = event {
            ListenerStep::Drain
        } else {
            ListenerStep::GoOn
        }
    }
}

} // verus!
