//! What equality of values means.
use vstd::prelude::*;

use super::frame::{same_value, FrameView};
use crate::engine::encoding::{score_is_nan, score_same};

verus! {

/// The doubles inside the value, if there may be any, are numbers.
pub open spec fn numbers_only(f: FrameView, doubles: bool) -> bool
    decreases f,
{
    match f {
        FrameView::Double(bits) => doubles && !score_is_nan(bits),
        FrameView::Array(items) => forall|i: int|
            0 <= i < items.len() ==> numbers_only(#[trigger] items[i], doubles),
        FrameView::SetReply(items) => forall|i: int|
            0 <= i < items.len() ==> numbers_only(#[trigger] items[i], doubles),
        FrameView::Push(items) => forall|i: int|
            0 <= i < items.len() ==> numbers_only(#[trigger] items[i], doubles),
        FrameView::MapReply(pairs) => forall|i: int|
            0 <= i < pairs.len() ==> numbers_only((#[trigger] pairs[i]).0, doubles) && numbers_only(
                pairs[i].1,
                doubles,
            ),
        _ => true,
    }
}

/// Equality goes both ways.
pub proof fn equality_goes_both_ways(a: FrameView, b: FrameView)
    ensures
        same_value(a, b) == same_value(b, a),
    decreases a,
{
    match (a, b) {
        (FrameView::Array(x), FrameView::Array(y)) => {
            items_both_ways(x, y);
        },
        (FrameView::SetReply(x), FrameView::SetReply(y)) => {
            items_both_ways(x, y);
        },
        (FrameView::Push(x), FrameView::Push(y)) => {
            items_both_ways(x, y);
        },
        (FrameView::MapReply(x), FrameView::MapReply(y)) => {
            if x.len() == y.len() {
                assert forall|i: int| 0 <= i < x.len() implies same_value(
                    (#[trigger] x[i]).0,
                    y[i].0,
                ) == same_value(y[i].0, x[i].0) && same_value(x[i].1, y[i].1) == same_value(
                    y[i].1,
                    x[i].1,
                ) by {
                    equality_goes_both_ways(x[i].0, y[i].0);
                    equality_goes_both_ways(x[i].1, y[i].1);
                }
                if same_value(a, b) {
                    assert forall|i: int| 0 <= i < y.len() implies same_value(
                        (#[trigger] y[i]).0,
                        x[i].0,
                    ) && same_value(y[i].1, x[i].1) by {
                        assert(same_value(x[i].0, y[i].0));
                    }
                }
                if same_value(b, a) {
                    assert forall|i: int| 0 <= i < x.len() implies same_value(
                        (#[trigger] x[i]).0,
                        y[i].0,
                    ) && same_value(x[i].1, y[i].1) by {
                        assert(same_value(y[i].0, x[i].0));
                    }
                }
            }
        },
        _ => {},
    }
}

/// Equality of lists goes both ways.
proof fn items_both_ways(x: Seq<FrameView>, y: Seq<FrameView>)
    ensures
        (x.len() == y.len() && forall|i: int|
            0 <= i < x.len() ==> same_value(#[trigger] x[i], y[i])) == (x.len() == y.len()
            && forall|i: int| 0 <= i < y.len() ==> same_value(#[trigger] y[i], x[i])),
    decreases x,
{
    if x.len() == y.len() {
        assert forall|i: int| 0 <= i < x.len() implies same_value(#[trigger] x[i], y[i])
            == same_value(y[i], x[i]) by {
            equality_goes_both_ways(x[i], y[i]);
        }
        if forall|i: int| 0 <= i < x.len() ==> same_value(#[trigger] x[i], y[i]) {
            assert forall|i: int| 0 <= i < y.len() implies same_value(#[trigger] y[i], x[i]) by {
                assert(same_value(x[i], y[i]));
            }
        }
        if forall|i: int| 0 <= i < y.len() ==> same_value(#[trigger] y[i], x[i]) {
            assert forall|i: int| 0 <= i < x.len() implies same_value(#[trigger] x[i], y[i]) by {
                assert(same_value(y[i], x[i]));
            }
        }
    }
}

/// A value equals itself, unless there is a double in it that is no number.
pub proof fn values_equal_themselves(f: FrameView)
    requires
        numbers_only(f, true),
    ensures
        same_value(f, f),
    decreases f,
{
    match f {
        FrameView::Array(items) => {
            items_equal_themselves(items);
        },
        FrameView::SetReply(items) => {
            items_equal_themselves(items);
        },
        FrameView::Push(items) => {
            items_equal_themselves(items);
        },
        FrameView::MapReply(pairs) => {
            assert forall|i: int| 0 <= i < pairs.len() implies same_value(
                (#[trigger] pairs[i]).0,
                pairs[i].0,
            ) && same_value(pairs[i].1, pairs[i].1) by {
                values_equal_themselves(pairs[i].0);
                values_equal_themselves(pairs[i].1);
            }
        },
        _ => {},
    }
}

/// Each value of a list equals itself.
proof fn items_equal_themselves(items: Seq<FrameView>)
    requires
        forall|i: int| 0 <= i < items.len() ==> numbers_only(#[trigger] items[i], true),
    ensures
        forall|i: int| 0 <= i < items.len() ==> same_value(#[trigger] items[i], items[i]),
    decreases items,
{
    assert forall|i: int| 0 <= i < items.len() implies same_value(
        #[trigger] items[i],
        items[i],
    ) by {
        values_equal_themselves(items[i]);
    }
}

/// Values that are equal are the same where there is no double in them; two doubles are equal where
/// they are the same number, and what is no number equals nothing.
pub proof fn equal_values_are_the_same(a: FrameView, b: FrameView, x: u64, y: u64)
    ensures
        numbers_only(a, false) && same_value(a, b) ==> a == b,
        same_value(FrameView::Double(x), FrameView::Double(y)) == score_same(x, y),
        score_is_nan(x) ==> !same_value(FrameView::Double(x), FrameView::Double(y)),
    decreases a,
{
    if numbers_only(a, false) && same_value(a, b) {
        match (a, b) {
            (FrameView::Array(p), FrameView::Array(q)) => {
                items_are_the_same(p, q);
            },
            (FrameView::SetReply(p), FrameView::SetReply(q)) => {
                items_are_the_same(p, q);
            },
            (FrameView::Push(p), FrameView::Push(q)) => {
                items_are_the_same(p, q);
            },
            (FrameView::MapReply(p), FrameView::MapReply(q)) => {
                assert forall|i: int| 0 <= i < p.len() implies #[trigger] p[i] == q[i] by {
                    equal_values_are_the_same(p[i].0, q[i].0, x, y);
                    equal_values_are_the_same(p[i].1, q[i].1, x, y);
                }
                assert(p =~= q);
            },
            _ => {},
        }
    }
}

/// Lists of equal values are the same where there is no double in them.
proof fn items_are_the_same(p: Seq<FrameView>, q: Seq<FrameView>)
    requires
        p.len() == q.len(),
        forall|i: int| 0 <= i < p.len() ==> numbers_only(#[trigger] p[i], false),
        forall|i: int| 0 <= i < p.len() ==> same_value(#[trigger] p[i], q[i]),
    ensures
        p == q,
    decreases p,
{
    assert forall|i: int| 0 <= i < p.len() implies #[trigger] p[i] == q[i] by {
        equal_values_are_the_same(p[i], q[i], 0, 0);
    }
    assert(p =~= q);
}

} // verus!
