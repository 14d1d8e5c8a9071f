//! What the commands of sets promise.
use vstd::prelude::*;

use super::{
    is_named, lists_once, named_of, parts_add_up, rest_as_set, sweep_hides_nothing,
};
use crate::datamodel::commands::{command_op, Command};
use crate::engine::laws::members::{
    end_seen, members_seen, sadd_law, set_or_nothing, set_reads_law, srem_law, stays,
};
use crate::engine::laws::reads::{fields_seen_finite, new_ones};
use crate::engine::model::{smembers_op, Now, StoreView};
use crate::engine::values::{entry, fresh, sound, visible};
use crate::order::before_irreflexive;
use crate::protocol::frame::{FrameView, RespVersion};

verus! {

/// The members that are named behind the key, each of them once.
pub open spec fn members_named(args: Seq<Seq<u8>>) -> Set<Seq<u8>> {
    Set::new(|m: Seq<u8>| is_named(args, 2, m))
}

/// After `SADD key member ...` the members are those that were there and those that are named. The
/// reply is the number of distinct named members that were not there. The end of the set's time and
/// all other keys are as before.
pub proof fn sadd_adds_the_named(
    version: RespVersion,
    args: Seq<Seq<u8>>,
    s: StoreView,
    times: Seq<Now>,
    later: Now,
)
    requires
        args.len() >= 3,
        sound(s),
        set_or_nothing(s, times[0], args[1]),
        visible(s, times[0], args[1]) is Some || fresh(s, times[0]),
        args[1].len() <= u32::MAX,
        members_seen(s, times[0], args[1]).union(members_named(args)).len() <= u32::MAX,
        stays(s, times[0], args[1], later),
    ensures
        ({
            let (t, reply) = command_op(Command::Sadd, version, args, s, times);
            let was = members_seen(s, times[0], args[1]);
            let members = members_seen(t, later, args[1]);
            &&& sound(t)
            &&& set_or_nothing(t, later, args[1])
            &&& forall|m: Seq<u8>| #[trigger]
                members.contains(m) == (was.contains(m) || is_named(args, 2, m))
            &&& reply == FrameView::Integer(members_named(args).difference(was).len() as i64)
            &&& end_seen(t, later, args[1]) == end_seen(s, times[0], args[1])
            &&& forall|k: Seq<u8>| k != args[1] ==> #[trigger] entry(t, k) == entry(s, k)
        }),
{
    let key = args[1];
    let now = times[0];
    let names = args.skip(2);
    rest_as_set(args, 2);
    assert(names.to_set() =~= members_named(args));
    fields_seen_finite(s, now, key);
    sadd_law(s, now, key, names);
    new_ones(members_seen(s, now, key), members_named(args));
    let t = command_op(Command::Sadd, version, args, s, times).0;
    assert(visible(t, later, key) == entry(t, key));
}

/// After `SREM key member ...` the members are those that were there and are not named. The reply
/// is the number of distinct named members that were there. A set without members is gone; the end
/// of its time and all other keys are as before.
pub proof fn srem_removes_the_named(
    version: RespVersion,
    args: Seq<Seq<u8>>,
    s: StoreView,
    times: Seq<Now>,
    later: Now,
)
    requires
        args.len() >= 3,
        sound(s),
        set_or_nothing(s, times[0], args[1]),
        stays(s, times[0], args[1], later),
    ensures
        ({
            let (t, reply) = command_op(Command::Srem, version, args, s, times);
            let was = members_seen(s, times[0], args[1]);
            let left = members_seen(t, later, args[1]);
            &&& sound(t)
            &&& set_or_nothing(t, later, args[1])
            &&& forall|m: Seq<u8>| #[trigger]
                left.contains(m) == (was.contains(m) && !is_named(args, 2, m))
            &&& reply == FrameView::Integer(named_of(was, args, 2).len() as i64)
            &&& visible(t, later, args[1]) is Some == (left.len() > 0)
            &&& visible(t, later, args[1]) is Some ==> end_seen(t, later, args[1]) == end_seen(
                s,
                times[0],
                args[1],
            )
            &&& forall|k: Seq<u8>| k != args[1] ==> #[trigger] entry(t, k) == entry(s, k)
        }),
{
    let key = args[1];
    let now = times[0];
    let names = args.skip(2);
    let was = members_seen(s, now, key);
    srem_law(s, now, key, names);
    rest_as_set(args, 2);
    fields_seen_finite(s, now, key);
    parts_add_up(was, named_of(was, args, 2));
    let left = was.difference(names.to_set());
    assert(was.difference(named_of(was, args, 2)) =~= left);
    assert(left.finite());
    if left.len() == 0 {
        assert(left =~= Set::empty());
    }
    let t = command_op(Command::Srem, version, args, s, times).0;
    assert(visible(t, later, key) == entry(t, key));
    assert(members_seen(t, later, key) =~= left);
}

/// `SISMEMBER key member` answers one where the member is there and zero where it is not; `SCARD
/// key` answers how many members there are.
pub proof fn sismember_and_scard_answer(
    version: RespVersion,
    args: Seq<Seq<u8>>,
    s: StoreView,
    times: Seq<Now>,
)
    requires
        sound(s),
        s.db.dom().finite(),
        set_or_nothing(s, times[0], args[1]),
    ensures
        ({
            let members = members_seen(s, times[0], args[1]);
            let (t, there) = command_op(Command::Sismember, version, args, s, times);
            let (u, card) = command_op(Command::Scard, version, args, s, times);
            &&& members.contains(args[2]) ==> there == FrameView::Integer(1)
            &&& !members.contains(args[2]) ==> there == FrameView::Integer(0)
            &&& card == FrameView::Integer(members.len() as i64)
            &&& forall|k: Seq<u8>| #[trigger]
                visible(t, times[0], k) == visible(s, times[0], k)
            &&& forall|k: Seq<u8>| #[trigger]
                visible(u, times[0], k) == visible(s, times[0], k)
        }),
{
    set_reads_law(s, times[0], args[1], args[2]);
    sweep_hides_nothing(s, times[0], args[1]);
}

/// `SMEMBERS key` answers each member once, as a set in RESP3 and as an array in RESP2.
pub proof fn smembers_answers_each_member(
    version: RespVersion,
    args: Seq<Seq<u8>>,
    s: StoreView,
    times: Seq<Now>,
)
    requires
        sound(s),
        s.db.dom().finite(),
        set_or_nothing(s, times[0], args[1]),
    ensures
        ({
            let (t, reply) = command_op(Command::Smembers, version, args, s, times);
            let members = members_seen(s, times[0], args[1]);
            &&& version == RespVersion::V3 ==> reply is SetReply
            &&& version == RespVersion::V2 ==> reply is Array
            &&& exists|names: Seq<Seq<u8>>|
                #![trigger lists_once(names, members)]
                {
                    &&& lists_once(names, members)
                    &&& names.len() == members.len()
                    &&& ({
                        let items = if version == RespVersion::V3 {
                            reply->SetReply_0
                        } else {
                            reply->Array_0
                        };
                        items.len() == names.len() && forall|i: int|
                            0 <= i < names.len() ==> #[trigger] items[i] == FrameView::Bulk(
                                names[i],
                            )
                    })
                }
            &&& forall|k: Seq<u8>| #[trigger]
                visible(t, times[0], k) == visible(s, times[0], k)
        }),
{
    let key = args[1];
    let now = times[0];
    set_reads_law(s, now, key, args[2]);
    sweep_hides_nothing(s, now, key);
    let names = smembers_op(s, now, key).1->Ok_0;
    let members = members_seen(s, now, key);
    assert forall|i: int, j: int| 0 <= i < j < names.len() implies names[i] != names[j] by {
        before_irreflexive(names[i]);
    }
    names.unique_seq_to_set();
    assert forall|m: Seq<u8>| #[trigger] members.contains(m) == names.contains(m) by {
        assert(names.to_set().contains(m) == names.contains(m));
    }
    assert(lists_once(names, members));
}

} // verus!
