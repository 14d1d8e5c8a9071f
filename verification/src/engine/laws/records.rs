//! What records look like, and what changes to them come to.
use vstd::prelude::*;

use crate::engine::bigend::{be, be_len};
use crate::engine::encoding::{
    index_name, meta_name, score_bytes, score_is_nan, score_less, score_same, sub_name, MetaView,
};
use crate::engine::engine::{applied_all, compacted, Range, Records, Versions, WriteOpView};
use crate::engine::gc::is_current;
use crate::engine::model::{next_version, reading};
use crate::engine::properties::reported;
use crate::float::round::{middle_grows, units};
use crate::order::before;

verus! {

/// The key that a change is about.
pub open spec fn key_of(op: WriteOpView) -> Seq<u8> {
    match op {
        WriteOpView::Put(k, _) => k,
        WriteOpView::Delete(k) => k,
    }
}

/// Of several changes to a key the last one counts: a value that is put is there, what is deleted
/// is not, and a key that no change is about is as it was.
pub proof fn the_last_change_counts(db: Records, ops: Seq<WriteOpView>, key: Seq<u8>, i: int)
    requires
        -1 <= i < ops.len(),
        i >= 0 ==> key_of(ops[i]) == key,
        forall|j: int| i < j < ops.len() ==> key_of(#[trigger] ops[j]) != key,
    ensures
        ({
            let after = applied_all(db, ops);
            &&& i >= 0 && ops[i] is Put ==> after.contains_pair(key, ops[i]->Put_1)
            &&& i >= 0 && ops[i] is Delete ==> !after.contains_key(key)
            &&& i == -1 ==> after.contains_key(key) == db.contains_key(key) && (db.contains_key(key)
                ==> after[key] == db[key])
        }),
    decreases ops.len(),
{
    if ops.len() > 0 {
        let init = ops.drop_last();
        if i < ops.len() - 1 {
            assert forall|j: int| i < j < init.len() implies key_of(#[trigger] init[j]) != key by {
                assert(init[j] == ops[j]);
            }
            the_last_change_counts(db, init, key, i);
            assert(key_of(ops[ops.len() - 1]) != key);
        }
    }
}

/// A compaction of a range drops a record just where its version is not its owner's current one and
/// its key is inside: not before the start, and before the end. No value changes.
pub proof fn compaction_drops_the_garbage(
    old_db: Records,
    new_db: Records,
    range: Range,
    versions: Versions,
    key: Seq<u8>,
)
    requires
        compacted(old_db, new_db, Some(range), Some(versions)),
        old_db.contains_key(key),
    ensures
        is_current(versions, key) ==> new_db.contains_key(key),
        new_db.contains_key(key) ==> new_db[key] == old_db[key],
        !is_current(versions, key) && (range.start is None || range.start->0@ == key || before(
            range.start->0@,
            key,
        )) && (range.end is None || before(key, range.end->0@)) ==> !new_db.contains_key(key),
{
    if new_db.contains_key(key) {
        if range.start is Some {
            crate::order::before_irreflexive(key);
            if before(range.start->0@, key) && before(key, range.start->0@) {
                crate::order::before_transitive(key, range.start->0@, key);
            }
        }
    }
}

/// One byte string comes before another where they are the same up to some place and there the
/// first has the smaller byte or has ended.
pub proof fn order_is_byte_by_byte(a: Seq<u8>, b: Seq<u8>, i: int)
    requires
        0 <= i <= a.len(),
        i <= b.len(),
        forall|j: int| 0 <= j < i ==> #[trigger] a[j] == b[j],
    ensures
        i < a.len() && i < b.len() && a[i] < b[i] ==> before(a, b) && !before(b, a),
        i == a.len() && i < b.len() ==> before(a, b) && !before(b, a),
        i == a.len() && i == b.len() ==> !before(a, b) && !before(b, a),
    decreases i,
{
    if i > 0 {
        assert(a[0] == b[0]);
        assert forall|j: int| 0 <= j < i - 1 implies #[trigger] a.skip(1)[j] == b.skip(1)[j] by {
            assert(a[j + 1] == b[j + 1]);
        }
        order_is_byte_by_byte(a.skip(1), b.skip(1), i - 1);
    }
}

/// A number in bytes has its lowest eight bits in the last byte, and before it the rest.
pub proof fn the_highest_byte_comes_first(v: nat, width: nat)
    requires
        width > 0,
    ensures
        be(v, width).len() == width,
        be(v, width).last() == (v % 256) as u8,
        be(v, width).drop_last() == be(v / 256, (width - 1) as nat),
{
    be_len(v, width);
    assert(be(v, width).drop_last() =~= be(v / 256, (width - 1) as nat));
}

/// The keys of records: a byte for the family (one for metadata, two for fields, members and
/// elements, three for the index of scores), and behind it the key itself for metadata; for the
/// others the length of the key in four bytes, the key, the version in eight, and then the field,
/// or the score in eight bytes that stand in the order of scores and the member.
pub proof fn keys_of_records(
    key: Seq<u8>,
    version: u64,
    field: Seq<u8>,
    score: u64,
    member: Seq<u8>,
)
    requires
        key.len() <= u32::MAX,
    ensures
        meta_name(key) == seq![1u8] + key,
        sub_name(key, version, field) == seq![2u8] + be(key.len(), 4) + key + be(version as nat, 8)
            + field,
        index_name(key, version, score, member) == seq![3u8] + be(key.len(), 4) + key + be(
            version as nat,
            8,
        ) + score_bytes(score) + member,
        score < 0x8000_0000_0000_0000 ==> score_bytes(score) == be(
            (score + 0x8000_0000_0000_0000) as nat,
            8,
        ),
        score >= 0x8000_0000_0000_0000 ==> score_bytes(score) == be(
            (0xffff_ffff_ffff_ffff - score) as nat,
            8,
        ),
{
}

/// Metadata: a byte for the type, the version and the end in eight bytes each, and then what the
/// type keeps: the number of members in four bytes, or the first index of a list and the one behind
/// its last in eight each.
pub proof fn metadata_of_records(m: MetaView, n: u32, head: u64, tail: u64)
    ensures
        m.encoded() == seq![m.type_id] + be(m.version as nat, 8) + be(m.expire_ms as nat, 8)
            + m.payload,
        m.with_count(n).payload == be(n as nat, 4),
        m.with_bounds(head, tail).payload == be(head as nat, 8) + be(tail as nat, 8),
        m.with_count(n).version == m.version,
        m.with_count(n).type_id == m.type_id,
        m.with_count(n).expire_ms == m.expire_ms,
        m.with_bounds(head, tail).version == m.version && m.with_bounds(head, tail).type_id
            == m.type_id && m.with_bounds(head, tail).expire_ms == m.expire_ms,
{
}

/// Each version is greater than the last one and no less than the clock, and no greater than that
/// asks for. Milliseconds are microseconds, rounded down.
pub proof fn versions_follow_the_clock(last: u64, micros: u64)
    ensures
        last < u64::MAX ==> last < next_version(last, micros),
        last < u64::MAX ==> micros <= next_version(last, micros),
        last < u64::MAX ==> next_version(last, micros) == last + 1 || next_version(last, micros)
            == micros,
        next_version(last, micros) >= last,
        reading(micros).micros == micros,
        1000 * reading(micros).ms <= micros < 1000 * (reading(micros).ms + 1),
{
}

/// Scores compare as the numbers that they stand for: of two that are not negative, the one with
/// more units of the last place is the greater, of two negative ones the one with fewer, and a
/// negative one is less than one that is not, unless both are zero.
pub proof fn scores_compare_as_numbers(a: u64, b: u64)
    requires
        !score_is_nan(a),
        !score_is_nan(b),
    ensures
        ({
            let x = units((a % 0x8000_0000_0000_0000) as nat);
            let y = units((b % 0x8000_0000_0000_0000) as nat);
            let down = a >= 0x8000_0000_0000_0000;
            let below = b >= 0x8000_0000_0000_0000;
            &&& !down && !below ==> score_less(a, b) == (x < y) && score_same(a, b) == (x == y)
            &&& down && below ==> score_less(a, b) == (x > y) && score_same(a, b) == (x == y)
            &&& down && !below ==> score_less(a, b) == (x > 0 || y > 0) && score_same(a, b) == (x
                == 0 && y == 0)
        }),
{
    let p = (a % 0x8000_0000_0000_0000) as nat;
    let q = (b % 0x8000_0000_0000_0000) as nat;
    if p < q {
        middle_grows(p, q);
    }
    if q < p {
        middle_grows(q, p);
    }
    if p > 0 {
        middle_grows(0, p);
    }
    if q > 0 {
        middle_grows(0, q);
    }
    assert(units(0) == 0) by {
        assert(0 * crate::float::big::two_to(0) == 0) by (nonlinear_arith);
    }
}

/// Each figure that is there is reported under its name, once and in its order, and nothing else.
pub proof fn figures_are_reported(names: Seq<&'static str>, values: Seq<Option<u64>>) -> (at: Seq<
    int,
>)
    requires
        names.len() == values.len(),
    ensures
        at.len() == reported(names, values).len(),
        forall|k: int|
            0 <= k < at.len() ==> 0 <= #[trigger] at[k] < names.len() && values[at[k]] == Some(
                reported(names, values)[k].1,
            ) && names[at[k]] == reported(names, values)[k].0,
        forall|k: int, l: int| 0 <= k < l < at.len() ==> #[trigger] at[k] < #[trigger] at[l],
        forall|i: int|
            0 <= i < names.len() && (#[trigger] values[i]) is Some ==> exists|k: int|
                0 <= k < at.len() && #[trigger] at[k] == i,
    decreases names.len(),
{
    if names.len() == 0 {
        Seq::empty()
    } else {
        let before = figures_are_reported(names.drop_last(), values.drop_last());
        let n = names.len() - 1;
        let at = if values.last() is Some {
            before.push(n)
        } else {
            before
        };
        assert forall|i: int| 0 <= i < names.len() && (#[trigger] values[i]) is Some implies exists|
            k: int,
        |
            0 <= k < at.len() && #[trigger] at[k] == i by {
            if i < n {
                assert(values.drop_last()[i] == values[i]);
                let k = choose|k: int| 0 <= k < before.len() && #[trigger] before[k] == i;
                assert(at[k] == i);
            } else {
                assert(at[at.len() - 1] == i);
            }
        }
        at
    }
}

} // verus!
