//! The database as a whole: `DBSIZE`, `RAWCOUNT`, which counts the records of members, garbage
//! included, and `COMPACT`, which drops the garbage.
use vstd::prelude::*;

use crate::datamodel::commands::{replied, with_command, Command, Commands};
use crate::datamodel::registry::{
    engine_error, later, served_still, served_thinned, CommandRegistry,
};
use crate::engine::engine::GeneralEngine;
use crate::engine::model::{compact_op, dbsize_op, rawcount_op, StoreView};
use crate::engine::store::Store;
use crate::protocol::frame::{frame_view, Frame, FrameView};

verus! {

/// The commands together with those of the database as a whole.
pub open spec fn with_admin(commands: Commands) -> Commands {
    let c = commands;
    let c = with_command(c, "DBSIZE"@, 1, Command::Dbsize);
    let c = with_command(c, "RAWCOUNT"@, 1, Command::Rawcount);
    let c = with_command(c, "COMPACT"@, 1, Command::Compact);
    c
}

/// Registers the commands of the database as a whole.
pub fn register(reg: &mut CommandRegistry<Command>)
    ensures
        final(reg).commands() == with_admin(old(reg).commands()),
{
    proof {
        reveal_strlit("DBSIZE");
    }
    reg.register("DBSIZE", 1, Command::Dbsize);
    proof {
        reveal_strlit("RAWCOUNT");
    }
    reg.register("RAWCOUNT", 1, Command::Rawcount);
    proof {
        reveal_strlit("COMPACT");
    }
    reg.register("COMPACT", 1, Command::Compact);
}

/// `DBSIZE`.
pub open spec fn dbsize_command(s: StoreView) -> (StoreView, FrameView) {
    replied(dbsize_op(s), |n: i64| FrameView::Integer(n))
}

/// `DBSIZE`: how many keys there are.
pub(crate) fn dbsize<E: GeneralEngine>(store: &Store<E>) -> (r: Frame)
    ensures
        served_still(frame_view(r), store@, store@, dbsize_command(store@), store.failures()),
{
    match store.dbsize() {
        Ok(n) => Frame::Integer(n),
        Err(e) => engine_error(e),
    }
}

/// `RAWCOUNT`.
pub open spec fn rawcount_command(s: StoreView) -> (StoreView, FrameView) {
    replied(rawcount_op(s), |n: i64| FrameView::Integer(n))
}

/// `RAWCOUNT`: how many records of members there are.
pub(crate) fn rawcount<E: GeneralEngine>(store: &Store<E>) -> (r: Frame)
    ensures
        served_still(frame_view(r), store@, store@, rawcount_command(store@), store.failures()),
{
    match store.raw_subkey_count() {
        Ok(n) => Frame::Integer(n),
        Err(e) => engine_error(e),
    }
}

/// `COMPACT`.
pub open spec fn compact_command(s: StoreView) -> (StoreView, FrameView) {
    replied(compact_op(s), |v: ()| FrameView::Simple("OK"@))
}

/// `COMPACT`: drops the garbage.
pub(crate) fn compact<E: GeneralEngine>(store: &mut Store<E>) -> (r: Frame)
    ensures
        later(*old(store), *final(store)),
        served_thinned(
            frame_view(r),
            old(store)@,
            final(store)@,
            compact_command(old(store)@),
            old(store).failures(),
        ),
{
    match store.compact() {
        Ok(()) => Frame::ok(),
        Err(e) => engine_error(e),
    }
}

} // verus!
