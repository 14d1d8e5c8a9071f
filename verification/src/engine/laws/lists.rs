//! Lists.
use vstd::prelude::*;

use super::members::{end_seen, touches_further, type_seen};
use super::{fresh_payload, opened, removed_value, stored_value, swept_is_sound, touches};
use crate::engine::bigend::be;
use crate::engine::encoding::{bounds_read_back, MetaView, LIST_INITIAL_INDEX, TYPE_LIST};
use crate::engine::engine::{value_at, Records};
use crate::engine::error::EngineErrorView;
use crate::engine::model::{
    drop_elements, element_name, elements, end_elements, end_index, found_or_fresh, llen_op,
    lrange_op, pop_op, push_op, put_left, put_right, rank_range, sound_bounds, swept, typed,
    with_db, Now, StoreView,
};
use crate::engine::values::{
    adds_only, element_names_differ, entry, fresh, items_of, owner_of_field, sound, sound_items,
    sound_meta, visible, Entry, Value,
};

verus! {

/// A reader sees a list at the key, or nothing.
pub open spec fn list_or_nothing(s: StoreView, now: Now, key: Seq<u8>) -> bool {
    visible(s, now, key) matches Some(e) ==> e.value is Items
}

/// What a reader sees at the key, taken as elements: none where there is nothing.
pub open spec fn items_seen(s: StoreView, now: Now, key: Seq<u8>) -> Seq<Seq<u8>> {
    match visible(s, now, key) {
        Some(e) => match e.value {
            Value::Items(items) => items,
            _ => Seq::empty(),
        },
        None => Seq::empty(),
    }
}

/// Putting elements on the right puts them there, and touches nothing else.
proof fn right_put(db: Records, key: Seq<u8>, version: u64, tail: int, values: Seq<Seq<u8>>)
    requires
        key.len() <= u32::MAX,
        0 <= tail,
        tail + values.len() <= u64::MAX,
    ensures
        ({
            let after = put_right(db, key, version, tail, values);
            &&& touches(db, after, key, version)
            &&& forall|j: int|
                0 <= j <= u64::MAX ==> (#[trigger] value_at(after, element_name(key, version, j)))
                    == (if tail <= j < tail + values.len() {
                    Some(values[j - tail])
                } else {
                    value_at(db, element_name(key, version, j))
                })
        }),
    decreases values.len(),
{
    if values.len() > 0 {
        let init = values.drop_last();
        let last = tail + values.len() - 1;
        let mid = put_right(db, key, version, tail, init);
        let after = put_right(db, key, version, tail, values);
        right_put(db, key, version, tail, init);
        owner_of_field(key, version, be(last as nat, 8));
        assert(touches(mid, after, key, version));
        touches_further(db, mid, after, key, version);
        assert forall|j: int| 0 <= j <= u64::MAX implies (#[trigger] value_at(
            after,
            element_name(key, version, j),
        )) == (if tail <= j < tail + values.len() {
            Some(values[j - tail])
        } else {
            value_at(db, element_name(key, version, j))
        }) by {
            assert(value_at(mid, element_name(key, version, j)) == (if tail <= j < tail
                + init.len() {
                Some(init[j - tail])
            } else {
                value_at(db, element_name(key, version, j))
            }));
            if j != last && element_name(key, version, j) == element_name(key, version, last) {
                element_names_differ(key, version, j, last);
            }
        }
    }
}

/// Putting elements on the left puts them there, the last one outermost, and touches nothing else.
proof fn left_put(db: Records, key: Seq<u8>, version: u64, head: int, values: Seq<Seq<u8>>)
    requires
        key.len() <= u32::MAX,
        values.len() <= head <= u64::MAX,
    ensures
        ({
            let after = put_left(db, key, version, head, values);
            &&& touches(db, after, key, version)
            &&& forall|j: int|
                0 <= j <= u64::MAX ==> (#[trigger] value_at(after, element_name(key, version, j)))
                    == (if head - values.len() <= j < head {
                    Some(values[head - 1 - j])
                } else {
                    value_at(db, element_name(key, version, j))
                })
        }),
    decreases values.len(),
{
    if values.len() > 0 {
        let init = values.drop_last();
        let last = head - values.len();
        let mid = put_left(db, key, version, head, init);
        let after = put_left(db, key, version, head, values);
        left_put(db, key, version, head, init);
        owner_of_field(key, version, be(last as nat, 8));
        assert(touches(mid, after, key, version));
        touches_further(db, mid, after, key, version);
        assert forall|j: int| 0 <= j <= u64::MAX implies (#[trigger] value_at(
            after,
            element_name(key, version, j),
        )) == (if head - values.len() <= j < head {
            Some(values[head - 1 - j])
        } else {
            value_at(db, element_name(key, version, j))
        }) by {
            assert(value_at(mid, element_name(key, version, j)) == (if head - init.len() <= j
                < head {
                Some(init[head - 1 - j])
            } else {
                value_at(db, element_name(key, version, j))
            }));
            if j != last && element_name(key, version, j) == element_name(key, version, last) {
                element_names_differ(key, version, j, last);
            }
        }
    }
}

/// There is room for `n` more elements at that end of the list.
pub open spec fn has_room(s: StoreView, now: Now, key: Seq<u8>, n: nat, left: bool) -> bool {
    match typed(s, now, key, TYPE_LIST) {
        Ok(Some(meta)) => match sound_bounds(meta) {
            Some((head, tail)) => if left {
                n <= head
            } else {
                tail + n <= u64::MAX
            },
            None => false,
        },
        _ => n <= 0x7fff_ffff_ffff_ffff,
    }
}

/// `LPUSH` and `RPUSH` put the values at that end of the list, one after another, or make a new
/// list of them; they answer how many elements there are then, keep the end of its time, and touch
/// no other key.
#[verifier::spinoff_prover]
pub proof fn push_law(s: StoreView, now: Now, key: Seq<u8>, values: Seq<Seq<u8>>, left: bool)
    requires
        sound(s),
        key.len() <= u32::MAX,
        visible(s, now, key) is Some || fresh(s, now),
        values.len() > 0,
        list_or_nothing(s, now, key),
        has_room(s, now, key, values.len(), left),
    ensures
        ({
            let (t, r) = push_op(s, now, key, values, left);
            let was = items_seen(s, now, key);
            let items = if left {
                values.reverse() + was
            } else {
                was + values
            };
            &&& r == Ok::<i64, EngineErrorView>(items.len() as i64)
            &&& sound(t)
            &&& adds_only(s, t)
            &&& entry(t, key) == Some(
                Entry { value: Value::Items(items), expire_ms: end_seen(s, now, key) },
            )
            &&& forall|k: Seq<u8>| k != key ==> #[trigger] entry(t, k) == entry(s, k)
        }),
{
    type_seen(s, now, key, TYPE_LIST);
    opened(s, now, key, TYPE_LIST);
    let found = typed(s, now, key, TYPE_LIST)->Ok_0;
    let s0 = swept(s, now, key);
    let start = be(LIST_INITIAL_INDEX as nat, 8) + be(LIST_INITIAL_INDEX as nat, 8);
    assert(start == fresh_payload(TYPE_LIST));
    let (s1, meta) = found_or_fresh(s0, now, key, found, TYPE_LIST, start);
    let v = meta.version;
    let (head, tail) = sound_bounds(meta)->0;
    if found is None {
        let m = MetaView { payload: Seq::empty(), ..meta };
        assert(m.with_bounds(LIST_INITIAL_INDEX, LIST_INITIAL_INDEX) =~= meta);
        bounds_read_back(m, LIST_INITIAL_INDEX, LIST_INITIAL_INDEX);
    }
    let was = items_of(s1.db, key, v, head, tail);
    assert(was =~= items_seen(s, now, key));
    let n = values.len();
    let (h2, t2): (u64, u64) = if left {
        ((head - n) as u64, tail)
    } else {
        (head, (tail + n) as u64)
    };
    let db = if left {
        put_left(s1.db, key, v, head as int, values)
    } else {
        put_right(s1.db, key, v, tail as int, values)
    };
    if left {
        left_put(s1.db, key, v, head as int, values);
    } else {
        right_put(s1.db, key, v, tail as int, values);
    }
    let items = if left {
        values.reverse() + was
    } else {
        was + values
    };
    let changed = meta.with_bounds(h2, t2);
    bounds_read_back(meta, h2, t2);
    assert forall|i: int| 0 <= i < items.len() implies value_at(
        db,
        #[trigger] element_name(key, v, h2 + i),
    ) == Some(items[i]) by {
        let j = h2 + i;
        if head <= j < tail {
            assert(s1.db.contains_key(element_name(key, v, j)));
            assert(was[j - head] == s1.db[element_name(key, v, j)]);
        }
    }
    assert(sound_items(db, key, v, h2, t2)) by {
        assert forall|j: int| h2 <= j < t2 implies db.contains_key(
            #[trigger] element_name(key, v, j),
        ) by {
            assert(value_at(db, element_name(key, v, h2 + (j - h2))) == Some(items[j - h2]));
        }
    }
    let got = items_of(db, key, v, h2, t2);
    assert forall|i: int| 0 <= i < got.len() implies got[i] == items[i] by {
        assert(value_at(db, element_name(key, v, h2 + i)) == Some(items[i]));
    }
    assert(got =~= items);
    assert(sound_meta(with_db(s1, db), key, changed));
    stored_value(s, s1, db, key, changed);
}

/// The outermost elements at that end of the list.
pub open spec fn taken(items: Seq<Seq<u8>>, n: nat, left: bool) -> Seq<Seq<u8>> {
    if left {
        items.take(n as int)
    } else {
        items.skip(items.len() - n).reverse()
    }
}

/// The list without the outermost elements at that end.
pub open spec fn left_over(items: Seq<Seq<u8>>, n: nat, left: bool) -> Seq<Seq<u8>> {
    if left {
        items.skip(n as int)
    } else {
        items.take(items.len() - n)
    }
}

/// The elements at one end of a list whose records fit come out.
proof fn end_comes_out(
    db: Records,
    key: Seq<u8>,
    version: u64,
    head: u64,
    tail: u64,
    left: bool,
    n: nat,
)
    requires
        head <= tail,
        n <= tail - head,
        sound_items(db, key, version, head, tail),
    ensures
        end_elements(db, key, version, head, tail, left, n) == Ok::<
            Seq<Seq<u8>>,
            EngineErrorView,
        >(taken(items_of(db, key, version, head, tail), n, left)),
    decreases n,
{
    let items = items_of(db, key, version, head, tail);
    if n > 0 {
        let k = (n - 1) as nat;
        end_comes_out(db, key, version, head, tail, left, k);
        let index = end_index(head, tail, left, k as int);
        assert(db.contains_key(element_name(key, version, index)));
        assert(items[index - head] == db[element_name(key, version, index)]) by {
            assert(head + (index - head) == index);
        }
        assert(taken(items, n, left) =~= taken(items, k, left).push(items[index - head]));
    } else {
        assert(taken(items, n, left) =~= Seq::empty());
    }
}

/// Dropping elements drops them, and touches nothing else.
proof fn end_dropped(
    db: Records,
    key: Seq<u8>,
    version: u64,
    head: u64,
    tail: u64,
    left: bool,
    n: nat,
)
    requires
        key.len() <= u32::MAX,
        head <= tail,
        n <= tail - head,
    ensures
        ({
            let after = drop_elements(db, key, version, head, tail, left, n);
            &&& touches(db, after, key, version)
            &&& forall|j: int|
                (if left {
                    head + n <= j < tail
                } else {
                    head <= j < tail - n
                }) ==> (#[trigger] value_at(after, element_name(key, version, j))) == value_at(
                    db,
                    element_name(key, version, j),
                )
        }),
    decreases n,
{
    if n > 0 {
        let k = (n - 1) as nat;
        let index = end_index(head, tail, left, k as int);
        let mid = drop_elements(db, key, version, head, tail, left, k);
        let after = drop_elements(db, key, version, head, tail, left, n);
        end_dropped(db, key, version, head, tail, left, k);
        owner_of_field(key, version, be(index as nat, 8));
        assert(touches(mid, after, key, version));
        touches_further(db, mid, after, key, version);
        assert forall|j: int|
            (if left {
                head + n <= j < tail
            } else {
                head <= j < tail - n
            }) implies (#[trigger] value_at(after, element_name(key, version, j))) == value_at(
            db,
            element_name(key, version, j),
        ) by {
            assert(value_at(mid, element_name(key, version, j)) == value_at(
                db,
                element_name(key, version, j),
            ));
            if element_name(key, version, j) == element_name(key, version, index) {
                element_names_differ(key, version, j, index);
            }
        }
    }
}

/// `LPOP` and `RPOP` take up to `count` elements off that end of the list and answer them, the
/// outermost first; without its last element the list is gone. The end of its time stays, and no
/// other key is touched.
#[verifier::spinoff_prover]
pub proof fn pop_law(s: StoreView, now: Now, key: Seq<u8>, count: usize, left: bool)
    requires
        sound(s),
        list_or_nothing(s, now, key),
    ensures
        ({
            let (t, r) = pop_op(s, now, key, count, left);
            let was = items_seen(s, now, key);
            let n = if count < was.len() {
                count as nat
            } else {
                was.len()
            };
            let rest = left_over(was, n, left);
            &&& r == Ok::<Seq<Seq<u8>>, EngineErrorView>(taken(was, n, left))
            &&& sound(t)
            &&& adds_only(s, t)
            &&& entry(t, key) == (if rest.len() == 0 {
                None
            } else {
                Some(Entry { value: Value::Items(rest), expire_ms: end_seen(s, now, key) })
            })
            &&& forall|k: Seq<u8>| k != key ==> #[trigger] entry(t, k) == entry(s, k)
        }),
{
    type_seen(s, now, key, TYPE_LIST);
    swept_is_sound(s, now, key);
    let s0 = swept(s, now, key);
    let was = items_seen(s, now, key);
    if let Ok(Some(meta)) = typed(s, now, key, TYPE_LIST) {
        let v = meta.version;
        let (head, tail) = sound_bounds(meta)->0;
        assert(was == items_of(s0.db, key, v, head, tail));
        let n = if count < was.len() {
            count as nat
        } else {
            was.len()
        };
        let rest = left_over(was, n, left);
        let db = drop_elements(s0.db, key, v, head, tail, left, n);
        end_comes_out(s0.db, key, v, head, tail, left, n);
        end_dropped(s0.db, key, v, head, tail, left, n);
        if n == 0 {
            assert(rest =~= was);
        } else if n == tail - head {
            removed_value(s, s0, db, key, v);
        } else {
            let (h2, t2): (u64, u64) = if left {
                ((head + n) as u64, tail)
            } else {
                (head, (tail - n) as u64)
            };
            let changed = meta.with_bounds(h2, t2);
            bounds_read_back(meta, h2, t2);
            assert forall|j: int| h2 <= j < t2 implies db.contains_key(
                #[trigger] element_name(key, v, j),
            ) && db[element_name(key, v, j)] == was[j - head] by {
                assert(s0.db.contains_key(element_name(key, v, j)));
                assert(head + (j - head) == j);
                assert(value_at(db, element_name(key, v, j)) == value_at(
                    s0.db,
                    element_name(key, v, j),
                ));
            }
            let got = items_of(db, key, v, h2, t2);
            assert forall|i: int| 0 <= i < got.len() implies got[i] == rest[i] by {
                assert(db.contains_key(element_name(key, v, h2 + i)));
            }
            assert(got =~= rest);
            assert(sound_meta(with_db(s0, db), key, changed));
            stored_value(s, s0, db, key, changed);
        }
    } else {
        assert(taken(was, 0, left) =~= Seq::empty());
        assert(left_over(was, 0, left) =~= Seq::empty());
    }
}

/// Elements within the bounds of a list whose records fit come out.
proof fn elements_come_out(
    db: Records,
    key: Seq<u8>,
    version: u64,
    head: u64,
    tail: u64,
    from: int,
    to: int,
)
    requires
        head <= from <= to <= tail,
        sound_items(db, key, version, head, tail),
    ensures
        elements(db, key, version, from, to) == Ok::<Seq<Seq<u8>>, EngineErrorView>(
            items_of(db, key, version, head, tail).subrange(from - head, to - head),
        ),
    decreases to - from,
{
    let items = items_of(db, key, version, head, tail);
    if from < to {
        elements_come_out(db, key, version, head, tail, from, to - 1);
        assert(db.contains_key(element_name(key, version, to - 1)));
        assert(head + (to - 1 - head) == to - 1);
        assert(items.subrange(from - head, to - head) =~= items.subrange(
            from - head,
            to - 1 - head,
        ).push(items[to - 1 - head]));
    } else {
        assert(items.subrange(from - head, to - head) =~= Seq::empty());
    }
}

/// `LRANGE` and `LLEN` answer from the elements that a reader sees, and change nothing that a
/// reader sees.
pub proof fn list_reads_law(s: StoreView, now: Now, key: Seq<u8>, start: i64, stop: i64)
    requires
        sound(s),
        list_or_nothing(s, now, key),
        items_seen(s, now, key).len() <= i64::MAX,
    ensures
        ({
            let items = items_seen(s, now, key);
            &&& lrange_op(s, now, key, start, stop) == (
                swept(s, now, key),
                Ok::<Seq<Seq<u8>>, EngineErrorView>(
                    match rank_range(start, stop, items.len() as i64) {
                        Some((lo, hi)) => items.subrange(lo, hi + 1),
                        None => Seq::empty(),
                    },
                ),
            )
            &&& llen_op(s, now, key) == (
                swept(s, now, key),
                Ok::<i64, EngineErrorView>(items.len() as i64),
            )
        }),
{
    type_seen(s, now, key, TYPE_LIST);
    if let Ok(Some(meta)) = typed(s, now, key, TYPE_LIST) {
        let (head, tail) = sound_bounds(meta)->0;
        if let Some((lo, hi)) = rank_range(start, stop, (tail - head) as i64) {
            elements_come_out(
                s.db,
                key,
                meta.version,
                head,
                tail,
                head + lo,
                head + hi + 1,
            );
        }
    } else {
        assert(rank_range(start, stop, 0) is None);
    }
}

/// What is pushed at one end is popped off it in the reverse order, and the list is then as it was.
pub proof fn push_then_pop(items: Seq<Seq<u8>>, values: Seq<Seq<u8>>, left: bool)
    ensures
        ({
            let pushed = if left {
                values.reverse() + items
            } else {
                items + values
            };
            &&& taken(pushed, values.len(), left) == values.reverse()
            &&& left_over(pushed, values.len(), left) == items
        }),
{
    let pushed = if left {
        values.reverse() + items
    } else {
        items + values
    };
    assert(taken(pushed, values.len(), left) =~= values.reverse());
    assert(left_over(pushed, values.len(), left) =~= items);
}

} // verus!
