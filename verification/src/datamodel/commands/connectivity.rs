//! The connection: `PING` and `ECHO`.
use bytes::Bytes;
use vstd::prelude::*;

use crate::buffer::{all_bytes_of, bytes_of};
use crate::datamodel::commands::{with_command, Command, Commands};
use crate::datamodel::registry::{wrong_args, wrong_args_view, CommandRegistry};
use crate::protocol::frame::{frame_view, Frame, FrameView};

verus! {

/// The commands together with those of the connection.
pub open spec fn with_connectivity(commands: Commands) -> Commands {
    let c = commands;
    let c = with_command(c, "PING"@, (-1) as i32, Command::Ping);
    let c = with_command(c, "ECHO"@, 2, Command::Echo);
    c
}

/// Registers the commands of the connection.
pub fn register(reg: &mut CommandRegistry<Command>)
    ensures
        final(reg).commands() == with_connectivity(old(reg).commands()),
{
    proof {
        reveal_strlit("PING");
    }
    reg.register("PING", -1, Command::Ping);
    proof {
        reveal_strlit("ECHO");
    }
    reg.register("ECHO", 2, Command::Echo);
}

/// `PING [message]`.
pub open spec fn ping_reply(args: Seq<Seq<u8>>) -> FrameView {
    if args.len() == 1 {
        FrameView::Simple("PONG"@)
    } else if args.len() == 2 {
        FrameView::Bulk(args[1])
    } else {
        wrong_args_view("ping"@)
    }
}

/// `PING [message]`: `PONG`, or the message.
pub(crate) fn ping(args: &[Bytes]) -> (r: Frame)
    ensures
        frame_view(r) == ping_reply(all_bytes_of(args@)),
{
    if args.len() == 1 {
        Frame::simple("PONG")
    } else if args.len() == 2 {
        assert(all_bytes_of(args@)[1] == bytes_of(args@[1]));
        Frame::Bulk(args[1].clone())
    } else {
        wrong_args("ping")
    }
}

/// `ECHO message`: the message.
pub(crate) fn echo(args: &[Bytes]) -> (r: Frame)
    requires
        args@.len() >= 2,
    ensures
        frame_view(r) == FrameView::Bulk(all_bytes_of(args@)[1]),
{
    Frame::Bulk(args[1].clone())
}

} // verus!
