//! What the commands promise a client, in terms of requests, replies and the values that a reader
//! sees.
use vstd::prelude::*;

use crate::engine::encoding::TYPE_ZSET;
use crate::engine::laws::members::{fields_seen, members_seen, type_seen};
use crate::engine::laws::scores::scores_seen;
use crate::engine::laws::swept_is_sound;
use crate::engine::model::{live, rank_range, swept, Now, StoreView};
use crate::engine::values::{entry, fields_of, scores_of, sound, visible};

pub mod hashes;
pub mod keys;
pub mod lists;
pub mod scores;
pub mod sets;
pub mod table;
pub mod whole;
pub mod zsets;

verus! {

/// The argument occurs among the arguments from `from` on.
pub open spec fn is_named(args: Seq<Seq<u8>>, from: int, name: Seq<u8>) -> bool {
    exists|i: int| from <= i < args.len() && #[trigger] args[i] == name
}

/// Those of the given names that occur among the arguments from `from` on, each of them once.
pub open spec fn named_of(names: Set<Seq<u8>>, args: Seq<Seq<u8>>, from: int) -> Set<Seq<u8>> {
    names.filter(|name: Seq<u8>| is_named(args, from, name))
}

/// How many pairs of arguments stand behind the key.
pub open spec fn pairs_given(args: Seq<Seq<u8>>) -> int {
    (args.len() - 2) / 2
}

/// The first argument of a pair behind the key.
pub open spec fn first_given(args: Seq<Seq<u8>>, i: int) -> Seq<u8> {
    args[2 + 2 * i]
}

/// The second argument of a pair behind the key.
pub open spec fn second_given(args: Seq<Seq<u8>>, i: int) -> Seq<u8> {
    args[3 + 2 * i]
}

/// The element at `i` of `n` elements is not before `start` and not behind `stop`, where a negative
/// bound counts from the end: minus one is the last element.
pub open spec fn picks(start: i64, stop: i64, n: nat, i: int) -> bool {
    &&& 0 <= i < n
    &&& start >= 0 ==> start <= i
    &&& start < 0 ==> n + start <= i
    &&& stop >= 0 ==> i <= stop
    &&& stop < 0 ==> i <= n + stop
}

/// `part` are the elements of `list` from `first` on, as many as it has.
pub open spec fn runs_from<T>(list: Seq<T>, first: int, part: Seq<T>) -> bool {
    &&& 0 <= first <= first + part.len() <= list.len()
    &&& forall|k: int| 0 <= k < part.len() ==> #[trigger] part[k] == list[first + k]
}

/// `part` are the elements of `list` that the bounds pick, one behind the other.
pub open spec fn is_range_of<T>(list: Seq<T>, start: i64, stop: i64, part: Seq<T>) -> bool {
    exists|first: int|
        #![trigger runs_from(list, first, part)]
        runs_from(list, first, part) && forall|i: int| #[trigger]
            picks(start, stop, list.len(), i) == (first <= i < first + part.len())
}

/// The list holds each of the names once, and nothing else.
pub open spec fn lists_once(list: Seq<Seq<u8>>, names: Set<Seq<u8>>) -> bool {
    &&& list.no_duplicates()
    &&& forall|name: Seq<u8>| #[trigger] names.contains(name) == list.contains(name)
}

/// Out of the selection by ranks comes what the bounds pick.
pub proof fn ranks_pick<T>(list: Seq<T>, start: i64, stop: i64)
    requires
        list.len() <= i64::MAX,
    ensures
        ({
            let part = match rank_range(start, stop, list.len() as i64) {
                Some((lo, hi)) => list.subrange(lo, hi + 1),
                None => Seq::empty(),
            };
            &&& is_range_of(list, start, stop, part)
            &&& part.len() > 0 && -list.len() <= stop < 0 ==> part.last() == list[list.len() + stop]
            &&& part.len() > 0 && 0 <= stop < list.len() ==> part.last() == list[stop as int]
            &&& part.len() > 0 && start >= 0 ==> part[0] == list[start as int]
            &&& part.len() > 0 && -list.len() <= start < 0 ==> part[0] == list[list.len() + start]
        }),
{
    let n = list.len();
    match rank_range(start, stop, n as i64) {
        Some((lo, hi)) => {
            let part = list.subrange(lo, hi + 1);
            assert(runs_from(list, lo, part));
            assert forall|i: int| #[trigger] picks(start, stop, n, i) == (lo <= i < lo
                + part.len()) by {}
        },
        None => {
            let part = Seq::<T>::empty();
            assert(runs_from(list, 0, part));
            assert forall|i: int| #[trigger] picks(start, stop, n, i) == (0 <= i < 0
                + part.len()) by {}
        },
    }
}

/// What is taken out of a set and what is left make up the set.
pub proof fn parts_add_up(all: Set<Seq<u8>>, part: Set<Seq<u8>>)
    requires
        all.finite(),
        part.subset_of(all),
    ensures
        part.finite(),
        all.len() == part.len() + all.difference(part).len(),
{
    vstd::set_lib::lemma_set_subset_finite(all, part);
    let rest = all.difference(part);
    vstd::set_lib::lemma_set_disjoint_lens(part, rest);
    assert(part + rest =~= all);
}

/// The arguments from `from` on as a set.
pub proof fn rest_as_set(args: Seq<Seq<u8>>, from: int)
    requires
        0 <= from <= args.len(),
    ensures
        forall|name: Seq<u8>| #[trigger]
            args.skip(from).to_set().contains(name) == is_named(args, from, name),
        args.skip(from).to_set().finite(),
{
    let rest = args.skip(from);
    vstd::seq_lib::seq_to_set_is_finite(rest);
    assert forall|name: Seq<u8>| #[trigger] rest.to_set().contains(name) == is_named(
        args,
        from,
        name,
    ) by {
        if is_named(args, from, name) {
            let i = choose|i: int| from <= i < args.len() && #[trigger] args[i] == name;
            assert(rest[i - from] == name);
        }
        if rest.to_set().contains(name) {
            let j = choose|j: int| 0 <= j < rest.len() && rest[j] == name;
            assert(args[from + j] == name);
        }
    }
}

/// The clock does not go back from one reading to the next.
pub open spec fn goes_on(times: Seq<Now>) -> bool {
    forall|i: int, j: int|
        0 <= i <= j < times.len() ==> (#[trigger] times[i]).ms <= (#[trigger] times[j]).ms
}

/// Dropping what has expired changes nothing that a reader sees then or later.
pub proof fn sweep_hides_nothing_later(s: StoreView, now: Now, key: Seq<u8>, later: Now)
    requires
        sound(s),
        now.ms <= later.ms,
    ensures
        sound(swept(s, now, key)),
        forall|k: Seq<u8>| #[trigger] visible(swept(s, now, key), later, k) == visible(s, later, k),
{
    swept_is_sound(s, now, key);
    let t = swept(s, now, key);
    assert forall|k: Seq<u8>| #[trigger] visible(t, later, k) == visible(s, later, k) by {
        if k != key {
            assert(entry(t, k) == entry(s, k));
        }
    }
}

/// Dropping what has expired changes nothing that a reader sees.
pub proof fn sweep_hides_nothing(s: StoreView, now: Now, key: Seq<u8>)
    requires
        sound(s),
    ensures
        sound(swept(s, now, key)),
        forall|k: Seq<u8>| #[trigger] visible(swept(s, now, key), now, k) == visible(s, now, k),
{
    sweep_hides_nothing_later(s, now, key, now);
}

/// The number of fields or members fits its counter.
pub proof fn sizes_fit(s: StoreView, now: Now, key: Seq<u8>)
    requires
        sound(s),
    ensures
        fields_seen(s, now, key).dom().len() <= u32::MAX,
        members_seen(s, now, key).len() <= u32::MAX,
        scores_seen(s, now, key).dom().len() <= u32::MAX,
{
    type_seen(s, now, key, TYPE_ZSET);
    if let Ok(Some(meta)) = live(s, now, key) {
        assert(scores_of(s.db, key, meta.version).dom() =~= fields_of(
            s.db,
            key,
            meta.version,
        ).dom());
    }
}

} // verus!
