//! What the commands of hashes promise.
use vstd::prelude::*;

use super::{
    first_given, goes_on, is_named, lists_once, named_of, pairs_given, parts_add_up, rest_as_set,
    second_given, sweep_hides_nothing, sweep_hides_nothing_later,
};
use crate::datamodel::commands::hash::get_fields;
use crate::datamodel::commands::{command_op, two_by_two, Command};
use crate::datamodel::registry::is_word;
use crate::engine::laws::members::{
    drop_all, drop_all_dom, drop_all_values, end_seen, fields_seen, hash_or_nothing, hash_reads_law,
    hdel_law, hgetall_law, hset_law, last_value_stays, lists_fields, put_all, put_all_dom, stays,
};
use crate::engine::laws::reads::{fields_seen_finite, new_ones};
use crate::engine::laws::swept_is_sound;
use crate::engine::model::{firsts, hgetall_op, swept, Now, StoreView};
use crate::engine::values::{entry, fresh, sound, visible};
use crate::order::before_irreflexive;
use crate::protocol::frame::{FrameView, RespVersion};

verus! {

/// No later pair gives the field of the pair at `i` again.
pub open spec fn gives_last(args: Seq<Seq<u8>>, i: int) -> bool {
    forall|j: int|
        i < j < pairs_given(args) ==> #[trigger] first_given(args, j) != first_given(args, i)
}

/// The field is given a value.
pub open spec fn is_given(args: Seq<Seq<u8>>, f: Seq<u8>) -> bool {
    exists|i: int| 0 <= i < pairs_given(args) && #[trigger] first_given(args, i) == f
}

/// The fields that are given a value, each of them once.
pub open spec fn fields_given(args: Seq<Seq<u8>>) -> Set<Seq<u8>> {
    Set::new(|f: Seq<u8>| is_given(args, f))
}

/// A field that no pair has keeps its value.
proof fn others_keep_values(
    fields: Map<Seq<u8>, Seq<u8>>,
    pairs: Seq<(Seq<u8>, Seq<u8>)>,
    f: Seq<u8>,
)
    requires
        fields.contains_key(f),
        !firsts(pairs).contains(f),
    ensures
        put_all(fields, pairs).contains_pair(f, fields[f]),
    decreases pairs.len(),
{
    if pairs.len() > 0 {
        let init = pairs.drop_last();
        assert(firsts(pairs)[pairs.len() - 1] == pairs.last().0);
        if firsts(init).contains(f) {
            let i = choose|i: int| 0 <= i < firsts(init).len() && firsts(init)[i] == f;
            assert(firsts(pairs)[i] == f);
        }
        others_keep_values(fields, init, f);
    }
}

/// After `HSET key field value ...` each of the given fields has the value that was given last for
/// it, and every other field has the value that it had. The reply is the number of distinct given
/// fields that were not there; `HMSET` does the same and replies `OK`. The end of the hash's time
/// and all other keys are as before.
pub proof fn hset_gives_the_values(
    version: RespVersion,
    args: Seq<Seq<u8>>,
    s: StoreView,
    times: Seq<Now>,
    later: Now,
)
    requires
        args.len() >= 4,
        args.len() % 2 == 0,
        sound(s),
        hash_or_nothing(s, times[0], args[1]),
        visible(s, times[0], args[1]) is Some || fresh(s, times[0]),
        args[1].len() <= u32::MAX,
        fields_seen(s, times[0], args[1]).dom().union(fields_given(args)).len() <= u32::MAX,
        stays(s, times[0], args[1], later),
    ensures
        ({
            let (t, reply) = command_op(Command::Hset, version, args, s, times);
            let was = fields_seen(s, times[0], args[1]);
            let fields = fields_seen(t, later, args[1]);
            &&& sound(t)
            &&& hash_or_nothing(t, later, args[1])
            &&& forall|i: int|
                0 <= i < pairs_given(args) && gives_last(args, i) ==> fields.contains_pair(
                    #[trigger] first_given(args, i),
                    second_given(args, i),
                )
            &&& forall|f: Seq<u8>| #[trigger]
                fields.contains_key(f) == (was.contains_key(f) || is_given(args, f))
            &&& forall|f: Seq<u8>| #[trigger]
                was.contains_key(f) && !is_given(args, f) ==> fields[f] == was[f]
            &&& reply == if is_word(args[0], "HMSET"@) {
                FrameView::Simple("OK"@)
            } else {
                FrameView::Integer(fields_given(args).difference(was.dom()).len() as i64)
            }
            &&& end_seen(t, later, args[1]) == end_seen(s, times[0], args[1])
            &&& forall|k: Seq<u8>| k != args[1] ==> #[trigger] entry(t, k) == entry(s, k)
        }),
{
    let key = args[1];
    let now = times[0];
    let pairs = two_by_two(args.skip(2));
    let was = fields_seen(s, now, key);
    let fields = put_all(was, pairs);
    let names = firsts(pairs);
    assert(pairs.len() == pairs_given(args));
    put_all_dom(was, pairs);
    fields_seen_finite(s, now, key);
    vstd::seq_lib::seq_to_set_is_finite(names);
    assert forall|f: Seq<u8>| is_given(args, f) == #[trigger] names.contains(f) by {
        if is_given(args, f) {
            let i = choose|i: int| 0 <= i < pairs_given(args) && #[trigger] first_given(args, i)
                == f;
            assert(names[i] == f);
        }
        if names.contains(f) {
            let i = choose|i: int| 0 <= i < names.len() && names[i] == f;
            assert(first_given(args, i) == f);
        }
    }
    assert(fields_given(args) =~= names.to_set());
    assert(fields.dom() =~= was.dom().union(fields_given(args))) by {
        assert forall|f: Seq<u8>| #[trigger] fields.dom().contains(f) == was.dom().union(
            fields_given(args),
        ).contains(f) by {
            assert(fields.contains_key(f) == (was.contains_key(f) || names.contains(f)));
        }
    }
    new_ones(was.dom(), fields_given(args));
    hset_law(s, now, key, pairs);
    let t = command_op(Command::Hset, version, args, s, times).0;
    assert(visible(t, later, key) == entry(t, key));
    assert(fields_seen(t, later, key) == fields);
    assert forall|i: int| 0 <= i < pairs_given(args) && gives_last(
        args,
        i,
    ) implies fields.contains_pair(#[trigger] first_given(args, i), second_given(args, i)) by {
        assert forall|j: int| i < j < pairs.len() implies (#[trigger] pairs[j]).0 != pairs[i].0 by {
            assert(first_given(args, j) != first_given(args, i));
        }
        last_value_stays(was, pairs, i);
    }
    assert forall|f: Seq<u8>| #[trigger] was.contains_key(f) && !is_given(args, f) implies fields[f]
        == was[f] by {
        assert(!names.contains(f));
        others_keep_values(was, pairs, f);
    }
}

/// `HSET` and `HMSET` with a field and no value for it are answered with an error and change
/// nothing.
pub proof fn odd_hset_changes_nothing(
    version: RespVersion,
    args: Seq<Seq<u8>>,
    s: StoreView,
    times: Seq<Now>,
)
    requires
        args.len() % 2 == 1,
    ensures
        ({
            let (t, reply) = command_op(Command::Hset, version, args, s, times);
            t == s && reply == FrameView::Error(
                "ERR wrong number of arguments for '"@ + if is_word(args[0], "HMSET"@) {
                    "hmset"@
                } else {
                    "hset"@
                } + "' command"@,
            )
        }),
{
}

/// What `HGET` answers for a field of the key that `args` names.
pub open spec fn hget_reply(
    version: RespVersion,
    args: Seq<Seq<u8>>,
    s: StoreView,
    times: Seq<Now>,
    field: Seq<u8>,
) -> FrameView {
    command_op(Command::Hget, version, seq![args[0], args[1], field], s, times).1
}

/// `HGET key field` answers the value that a reader sees, or null where there is no such field;
/// `HLEN key` answers how many fields there are, and `HEXISTS key field` one where the field is
/// there and zero where it is not.
pub proof fn hget_hlen_and_hexists_answer(
    version: RespVersion,
    args: Seq<Seq<u8>>,
    s: StoreView,
    times: Seq<Now>,
)
    requires
        sound(s),
        hash_or_nothing(s, times[0], args[1]),
    ensures
        ({
            let fields = fields_seen(s, times[0], args[1]);
            let (t, value) = command_op(Command::Hget, version, args, s, times);
            let (u, len) = command_op(Command::Hlen, version, args, s, times);
            let (v, there) = command_op(Command::Hexists, version, args, s, times);
            &&& fields.contains_key(args[2]) ==> value == FrameView::Bulk(fields[args[2]]) && there
                == FrameView::Integer(1)
            &&& !fields.contains_key(args[2]) ==> value == FrameView::Null && there
                == FrameView::Integer(0)
            &&& len == FrameView::Integer(fields.dom().len() as i64)
            &&& forall|k: Seq<u8>| #[trigger]
                visible(t, times[0], k) == visible(s, times[0], k)
            &&& forall|k: Seq<u8>| #[trigger]
                visible(u, times[0], k) == visible(s, times[0], k)
            &&& forall|k: Seq<u8>| #[trigger]
                visible(v, times[0], k) == visible(s, times[0], k)
        }),
{
    hash_reads_law(s, times[0], args[1], args[2]);
    sweep_hides_nothing(s, times[0], args[1]);
}

/// A value, or null where there is none.
pub open spec fn value_or_null(fields: Map<Seq<u8>, Seq<u8>>, field: Seq<u8>) -> FrameView {
    if fields.contains_key(field) {
        FrameView::Bulk(fields[field])
    } else {
        FrameView::Null
    }
}

/// The values that fields have are answered one by one, each as its reading of the clock sees it.
proof fn fields_are_got(
    s: StoreView,
    times: Seq<Now>,
    key: Seq<u8>,
    fields: Seq<Seq<u8>>,
    got: Seq<FrameView>,
)
    requires
        sound(s),
        goes_on(times),
        times.len() >= fields.len(),
        fields.len() > 0 ==> hash_or_nothing(s, times[0], key),
    ensures
        ({
            let (t, reply) = get_fields(s, times, key, fields, got);
            &&& reply == FrameView::Array(
                got + Seq::new(
                    fields.len(),
                    |i: int| value_or_null(fields_seen(s, times[i], key), fields[i]),
                ),
            )
            &&& forall|k: Seq<u8>| k != key ==> #[trigger] entry(t, k) == entry(s, k)
        }),
    decreases fields.len(),
{
    let all = Seq::new(
        fields.len(),
        |i: int| value_or_null(fields_seen(s, times[i], key), fields[i]),
    );
    if fields.len() == 0 {
        assert(got + all =~= got);
    } else {
        let now = times[0];
        let after = swept(s, now, key);
        let left = times.skip(1);
        hash_reads_law(s, now, key, fields[0]);
        swept_is_sound(s, now, key);
        assert forall|i: int, j: int| 0 <= i <= j < left.len() implies (#[trigger] left[i]).ms <= (
        #[trigger] left[j]).ms by {
            assert(left[i] == times[i + 1] && left[j] == times[j + 1]);
        }
        if fields.len() > 1 {
            assert(left[0] == times[1]);
            sweep_hides_nothing_later(s, now, key, times[1]);
            assert(visible(after, times[1], key) == visible(s, times[1], key));
        }
        fields_are_got(after, left, key, fields.skip(1), got.push(all[0]));
        let rest = Seq::new(
            fields.skip(1).len(),
            |i: int| value_or_null(fields_seen(after, left[i], key), fields.skip(1)[i]),
        );
        assert forall|i: int| 0 <= i < rest.len() implies #[trigger] rest[i] == all[i + 1] by {
            assert(left[i] == times[i + 1]);
            sweep_hides_nothing_later(s, now, key, times[i + 1]);
            assert(visible(after, times[i + 1], key) == visible(s, times[i + 1], key));
        }
        assert(got.push(all[0]) + rest =~= got + all);
    }
}

/// `HMGET key field ...` answers as many elements as fields are named, each the value of its field
/// or null where there is no such field: what `HGET` answers for the field at the reading of the
/// clock that goes with it. (The clock must not go back meanwhile.)
pub proof fn hmget_answers_each_field(
    version: RespVersion,
    args: Seq<Seq<u8>>,
    s: StoreView,
    times: Seq<Now>,
)
    requires
        args.len() >= 3,
        times.len() >= args.len() - 2,
        goes_on(times),
        sound(s),
        hash_or_nothing(s, times[0], args[1]),
    ensures
        ({
            let (t, reply) = command_op(Command::Hmget, version, args, s, times);
            &&& reply matches FrameView::Array(items) && items.len() == args.len() - 2 && forall|
                i: int,
            |
                2 <= i < args.len() ==> #[trigger] items[i - 2] == hget_reply(
                    version,
                    args,
                    s,
                    seq![times[i - 2]],
                    args[i],
                )
            &&& forall|k: Seq<u8>| k != args[1] ==> #[trigger] entry(t, k) == entry(s, k)
        }),
{
    let key = args[1];
    let fields = args.skip(2);
    fields_are_got(s, times, key, fields, Seq::empty());
    assert forall|i: int| 2 <= i < args.len() implies #[trigger] fields[i - 2] == args[i]
        && hget_reply(version, args, s, seq![times[i - 2]], args[i]) == value_or_null(
        fields_seen(s, times[i - 2], key),
        args[i],
    ) by {
        let at = times[i - 2];
        assert(times[0].ms <= at.ms);
        hash_reads_law(s, at, key, args[i]);
    }
}

/// A list of all fields names each of them once.
proof fn names_of_fields(list: Seq<(Seq<u8>, Seq<u8>)>, fields: Map<Seq<u8>, Seq<u8>>)
    requires
        lists_fields(list, fields),
    ensures
        lists_once(firsts(list), fields.dom()),
        list.len() == fields.dom().len(),
{
    let names = firsts(list);
    assert forall|i: int, j: int| 0 <= i < j < names.len() implies names[i] != names[j] by {
        before_irreflexive(list[i].0);
    }
    names.unique_seq_to_set();
    assert forall|f: Seq<u8>| #[trigger] names.to_set().contains(f) == fields.dom().contains(f) by {
        if names.contains(f) {
            let i = choose|i: int| 0 <= i < names.len() && names[i] == f;
            assert(fields.contains_pair(list[i].0, list[i].1));
        }
        if fields.contains_key(f) {
            let i = choose|i: int| 0 <= i < list.len() && (#[trigger] list[i]).0 == f;
            assert(names[i] == f);
        }
    }
    assert(names.to_set() =~= fields.dom());
}

/// `HGETALL key` answers each field that a reader sees once, with the value that `HGET` answers for
/// it: in RESP3 a map with one pair for each field, in RESP2 an array with each field and behind it
/// its value.
pub proof fn hgetall_answers_each_field(
    version: RespVersion,
    args: Seq<Seq<u8>>,
    s: StoreView,
    times: Seq<Now>,
)
    requires
        sound(s),
        s.db.dom().finite(),
        hash_or_nothing(s, times[0], args[1]),
    ensures
        ({
            let (t, reply) = command_op(Command::Hgetall, version, args, s, times);
            let fields = fields_seen(s, times[0], args[1]);
            &&& exists|names: Seq<Seq<u8>>|
                #![trigger lists_once(names, fields.dom())]
                {
                    &&& lists_once(names, fields.dom())
                    &&& names.len() == fields.dom().len()
                    &&& version == RespVersion::V3 ==> (reply matches FrameView::MapReply(pairs)
                        && pairs.len() == names.len() && forall|i: int|
                        0 <= i < names.len() ==> #[trigger] pairs[i] == (
                            FrameView::Bulk(names[i]),
                            hget_reply(version, args, s, times, names[i]),
                        ) && pairs[i].1 == FrameView::Bulk(fields[names[i]]))
                    &&& version == RespVersion::V2 ==> (reply matches FrameView::Array(items)
                        && items.len() == 2 * names.len() && forall|i: int|
                        0 <= i < names.len() ==> items[2 * i] == FrameView::Bulk(
                            #[trigger] names[i],
                        ) && items[2 * i + 1] == hget_reply(version, args, s, times, names[i])
                            && items[2 * i + 1] == FrameView::Bulk(fields[names[i]]))
                }
            &&& forall|k: Seq<u8>| #[trigger]
                visible(t, times[0], k) == visible(s, times[0], k)
        }),
{
    let key = args[1];
    let now = times[0];
    let fields = fields_seen(s, now, key);
    hgetall_law(s, now, key);
    sweep_hides_nothing(s, now, key);
    let list = hgetall_op(s, now, key).1->Ok_0;
    let names = firsts(list);
    names_of_fields(list, fields);
    assert forall|i: int| 0 <= i < names.len() implies hget_reply(
        version,
        args,
        s,
        times,
        #[trigger] names[i],
    ) == FrameView::Bulk(list[i].1) && fields[names[i]] == list[i].1 by {
        assert(fields.contains_pair(list[i].0, list[i].1));
        hash_reads_law(s, now, key, names[i]);
    }
    assert(lists_once(names, fields.dom()));
}

/// After `HDEL key field ...` none of the named fields is there, and every other field has the
/// value that it had. The reply is the number of distinct named fields that were there. A hash
/// without fields is gone; the end of its time and all other keys are as before.
pub proof fn hdel_removes_the_named(
    version: RespVersion,
    args: Seq<Seq<u8>>,
    s: StoreView,
    times: Seq<Now>,
    later: Now,
)
    requires
        args.len() >= 3,
        sound(s),
        hash_or_nothing(s, times[0], args[1]),
        stays(s, times[0], args[1], later),
    ensures
        ({
            let (t, reply) = command_op(Command::Hdel, version, args, s, times);
            let was = fields_seen(s, times[0], args[1]);
            let left = fields_seen(t, later, args[1]);
            &&& sound(t)
            &&& hash_or_nothing(t, later, args[1])
            &&& forall|i: int| 2 <= i < args.len() ==> !left.contains_key(#[trigger] args[i])
            &&& forall|f: Seq<u8>| #[trigger]
                was.contains_key(f) && !is_named(args, 2, f) ==> left.contains_key(f) && left[f]
                    == was[f]
            &&& forall|f: Seq<u8>| #[trigger] left.contains_key(f) ==> was.contains_key(f)
            &&& reply == FrameView::Integer(named_of(was.dom(), args, 2).len() as i64)
            &&& visible(t, later, args[1]) is Some == (exists|f: Seq<u8>| #[trigger]
                was.contains_key(f) && !is_named(args, 2, f))
            &&& visible(t, later, args[1]) is Some ==> end_seen(t, later, args[1]) == end_seen(
                s,
                times[0],
                args[1],
            )
            &&& forall|k: Seq<u8>| k != args[1] ==> #[trigger] entry(t, k) == entry(s, k)
        }),
{
    let key = args[1];
    let now = times[0];
    let names = args.skip(2);
    hdel_law(s, now, key, names);
    rest_as_set(args, 2);
    fields_seen_finite(s, now, key);
    let t = command_op(Command::Hdel, version, args, s, times).0;
    let was = fields_seen(s, now, key);
    let left = drop_all(was, names);
    drop_all_dom(was, names);
    drop_all_values(was, names);
    assert(visible(t, later, key) == entry(t, key));
    parts_add_up(was.dom(), named_of(was.dom(), args, 2));
    assert forall|f: Seq<u8>| names.contains(f) == #[trigger] is_named(args, 2, f) by {
        assert(names.to_set().contains(f) == is_named(args, 2, f));
    }
    assert(was.dom().difference(named_of(was.dom(), args, 2)) =~= left.dom()) by {
        assert forall|f: Seq<u8>| #[trigger] left.dom().contains(f) == was.dom().difference(
            named_of(was.dom(), args, 2),
        ).contains(f) by {
            assert(left.contains_key(f) == (was.contains_key(f) && !names.contains(f)));
            assert(is_named(args, 2, f) == names.contains(f));
        }
    }
    assert(left.dom().finite());
    assert forall|f: Seq<u8>| #[trigger] was.contains_key(f) && !is_named(
        args,
        2,
        f,
    ) implies left.contains_key(f) && left[f] == was[f] by {
        assert(left.contains_key(f) == (was.contains_key(f) && !names.contains(f)));
    }
    if left.dom().len() == 0 {
        assert(left.dom() =~= Set::empty());
        assert(left =~= Map::empty());
        assert forall|f: Seq<u8>| #[trigger] was.contains_key(f) && !is_named(
            args,
            2,
            f,
        ) implies false by {
            assert(left.dom().contains(f));
        }
    } else {
        let f = left.dom().choose();
        assert(left.dom().contains(f));
        assert(was.contains_key(f) && !is_named(args, 2, f));
    }
    assert forall|i: int| 2 <= i < args.len() implies is_named(args, 2, #[trigger] args[i]) by {
    }
    assert forall|i: int| 2 <= i < args.len() implies !left.contains_key(#[trigger] args[i]) by {
        assert(left.dom().contains(args[i]) == was.dom().difference(
            named_of(was.dom(), args, 2),
        ).contains(args[i]));
    }
}

} // verus!
