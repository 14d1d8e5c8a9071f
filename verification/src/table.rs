//! An ordered table with byte strings as keys.
use vstd::prelude::*;

use crate::order::{before, before_irreflexive, before_transitive, order_of, Order};

verus! {

/// Entries whose keys stand in strictly ascending order.
pub open spec fn ascending<V>(entries: Seq<(Vec<u8>, V)>) -> bool {
    forall|i: int, j: int|
        0 <= i < j < entries.len() ==> before((#[trigger] entries[i]).0@, (#[trigger] entries[j]).0@)
}

/// Some entry has the given key.
pub open spec fn has_key<V>(entries: Seq<(Vec<u8>, V)>, key: Seq<u8>) -> bool {
    exists|i: int| 0 <= i < entries.len() && (#[trigger] entries[i]).0@ == key
}

/// The entry with the given key.
pub open spec fn key_index<V>(entries: Seq<(Vec<u8>, V)>, key: Seq<u8>) -> int {
    choose|i: int| 0 <= i < entries.len() && (#[trigger] entries[i]).0@ == key
}

/// The map that the entries make up.
pub open spec fn entries_map<V>(entries: Seq<(Vec<u8>, V)>) -> Map<Seq<u8>, V> {
    Map::new(
        |k: Seq<u8>| has_key(entries, k),
        |k: Seq<u8>| entries[key_index(entries, k)].1,
    )
}

/// In ascending entries each key stands once.
proof fn keys_unique<V>(entries: Seq<(Vec<u8>, V)>, i: int, j: int)
    requires
        ascending(entries),
        0 <= i < entries.len(),
        0 <= j < entries.len(),
        entries[i].0@ == entries[j].0@,
    ensures
        i == j,
{
    before_irreflexive(entries[i].0@);
    if i < j {
        assert(before(entries[i].0@, entries[j].0@));
    } else if j < i {
        assert(before(entries[j].0@, entries[i].0@));
    }
}

/// The map holds each entry.
pub proof fn entry_in_map<V>(entries: Seq<(Vec<u8>, V)>, i: int)
    requires
        ascending(entries),
        0 <= i < entries.len(),
    ensures
        entries_map(entries).contains_key(entries[i].0@),
        entries_map(entries)[entries[i].0@] == entries[i].1,
{
    let key = entries[i].0@;
    assert(has_key(entries, key));
    keys_unique(entries, i, key_index(entries, key));
}

/// The keys of the entries, as a set, are finite and as many as the entries.
pub proof fn entries_count<V>(entries: Seq<(Vec<u8>, V)>)
    requires
        ascending(entries),
    ensures
        entries_map(entries).dom().finite(),
        entries_map(entries).dom().len() == entries.len(),
    decreases entries.len(),
{
    let dom = entries_map(entries).dom();
    if entries.len() == 0 {
        assert(dom =~= Set::empty());
    } else {
        let init = entries.drop_last();
        let last = entries.last().0@;
        assert forall|i: int, j: int| 0 <= i < j < init.len() implies before(
            (#[trigger] init[i]).0@,
            (#[trigger] init[j]).0@,
        ) by {
            assert(before(entries[i].0@, entries[j].0@));
        }
        entries_count(init);
        assert forall|k: Seq<u8>| dom.contains(k) == (entries_map(init).dom().contains(k) || k
            == last) by {
            if has_key(entries, k) {
                let i = key_index(entries, k);
                if i < init.len() {
                    assert(init[i].0@ == k);
                }
            }
            if has_key(init, k) {
                let i = key_index(init, k);
                assert(entries[i].0@ == k);
            }
            if k == last {
                assert(entries[entries.len() - 1].0@ == k);
            }
        }
        assert(dom =~= entries_map(init).dom().insert(last));
        if has_key(init, last) {
            let i = key_index(init, last);
            keys_unique(entries, i, entries.len() - 1);
        }
    }
}

/// There are finitely many keys, in whatever order the entries are.
pub proof fn entries_finite<V>(entries: Seq<(Vec<u8>, V)>)
    ensures
        entries_map(entries).dom().finite(),
{
    let keys = entries.map_values(|e: (Vec<u8>, V)| e.0@).to_set();
    assert forall|k: Seq<u8>| entries_map(entries).dom().contains(k) implies keys.contains(k) by {
        let i = key_index(entries, k);
        assert(has_key(entries, k));
        assert(entries.map_values(|e: (Vec<u8>, V)| e.0@)[i] == k);
    }
    vstd::set_lib::lemma_len_subset(entries_map(entries).dom(), keys);
}

/// An ordered table with byte strings as keys.
#[derive(Debug)]
pub struct Table<V> {
    entries: Vec<(Vec<u8>, V)>,
}

impl<V> View for Table<V> {
    type V = Map<Seq<u8>, V>;

    closed spec fn view(&self) -> Map<Seq<u8>, V> {
        entries_map(self.entries@)
    }
}

impl<V> Table<V> {
    /// A table has finitely many keys.
    pub proof fn finite(self)
        ensures
            self@.dom().finite(),
    {
        entries_finite(self.entries@);
    }

    #[verifier::type_invariant]
    spec fn sorted(self) -> bool {
        ascending(self.entries@)
    }

    /// An empty table.
    pub fn new() -> (r: Self)
        ensures
            r@ == Map::<Seq<u8>, V>::empty(),
    {
        let r = Table { entries: Vec::new() };
        assert(r@ =~= Map::<Seq<u8>, V>::empty());
        r
    }

    /// The entries, in ascending order of their keys.
    pub fn entries(&self) -> (r: &Vec<(Vec<u8>, V)>)
        ensures
            ascending(r@),
            self@ == entries_map(r@),
    {
        proof {
            use_type_invariant(self);
        }
        &self.entries
    }

    /// Where the entry with the given key stands (`Ok`), or where it would (`Err`).
    fn find(&self, key: &[u8]) -> (r: Result<usize, usize>)
        ensures
            match r {
                Ok(i) => i < self.entries@.len() && self.entries@[i as int].0@ == key@,
                Err(i) => i <= self.entries@.len() && (forall|j: int|
                    0 <= j < i ==> before((#[trigger] self.entries@[j]).0@, key@)) && (forall|j: int|
                    i <= j < self.entries@.len() ==> before(key@, (#[trigger] self.entries@[j]).0@)),
            },
    {
        proof {
            use_type_invariant(self);
        }
        let mut lo: usize = 0;
        let mut hi: usize = self.entries.len();
        while lo < hi
            invariant
                ascending(self.entries@),
                lo <= hi <= self.entries@.len(),
                forall|j: int| 0 <= j < lo ==> before((#[trigger] self.entries@[j]).0@, key@),
                forall|j: int|
                    hi <= j < self.entries@.len() ==> before(
                        key@,
                        (#[trigger] self.entries@[j]).0@,
                    ),
            decreases hi - lo,
        {
            let mid: usize = lo + (hi - lo) / 2;
            match order_of(&self.entries[mid].0, key) {
                Order::Same => {
                    return Ok(mid);
                },
                Order::Before => {
                    proof {
                        assert forall|j: int| 0 <= j <= mid implies before(
                            (#[trigger] self.entries@[j]).0@,
                            key@,
                        ) by {
                            if j < mid {
                                before_transitive(
                                    self.entries@[j].0@,
                                    self.entries@[mid as int].0@,
                                    key@,
                                );
                            }
                        }
                    }
                    lo = mid + 1;
                },
                Order::Behind => {
                    proof {
                        assert forall|j: int| mid <= j < self.entries@.len() implies before(
                            key@,
                            (#[trigger] self.entries@[j]).0@,
                        ) by {
                            if mid < j {
                                before_transitive(
                                    key@,
                                    self.entries@[mid as int].0@,
                                    self.entries@[j].0@,
                                );
                            }
                        }
                    }
                    hi = mid;
                },
            }
        }
        Err(lo)
    }

    /// Where [`Table::find`] finds no entry, there is none.
    proof fn absent(entries: Seq<(Vec<u8>, V)>, key: Seq<u8>, i: int)
        requires
            0 <= i <= entries.len(),
            forall|j: int| 0 <= j < i ==> before((#[trigger] entries[j]).0@, key),
            forall|j: int| i <= j < entries.len() ==> before(key, (#[trigger] entries[j]).0@),
        ensures
            !entries_map(entries).contains_key(key),
    {
        before_irreflexive(key);
        if has_key(entries, key) {
            let j = key_index(entries, key);
            assert(entries[j].0@ == key);
        }
    }

    /// The value with the given key.
    pub fn get(&self, key: &[u8]) -> (r: Option<&V>)
        ensures
            match r {
                Some(v) => self@.contains_key(key@) && self@[key@] == *v,
                None => !self@.contains_key(key@),
            },
    {
        proof {
            use_type_invariant(self);
        }
        match self.find(key) {
            Ok(i) => {
                proof {
                    entry_in_map(self.entries@, i as int);
                }
                Some(&self.entries[i].1)
            },
            Err(i) => {
                proof {
                    Self::absent(self.entries@, key@, i as int);
                }
                None
            },
        }
    }

    /// Whether there is a value with the given key.
    pub fn contains(&self, key: &[u8]) -> (r: bool)
        ensures
            r == self@.contains_key(key@),
    {
        self.get(key).is_some()
    }

    /// Stores `value` under `key`, in place of what was there.
    pub fn insert(&mut self, key: Vec<u8>, value: V)
        ensures
            final(self)@ == old(self)@.insert(key@, value),
    {
        proof {
            use_type_invariant(&*self);
        }
        let ghost was = self.entries@;
        let ghost k = key@;
        let found = self.find(&key);
        let mut entries: Vec<(Vec<u8>, V)> = Vec::new();
        std::mem::swap(&mut entries, &mut self.entries);
        match found {
            Ok(i) => {
                entries[i] = (key, value);
                proof {
                    let now = entries@;
                    assert forall|a: int, b: int| 0 <= a < b < now.len() implies before(
                        (#[trigger] now[a]).0@,
                        (#[trigger] now[b]).0@,
                    ) by {
                        assert(before(was[a].0@, was[b].0@));
                    }
                    assert forall|q: Seq<u8>| has_key(now, q) == (has_key(was, q) || q == k) by {
                        if has_key(now, q) {
                            let a = key_index(now, q);
                            assert(was[a].0@ == q);
                        }
                        if has_key(was, q) {
                            let a = key_index(was, q);
                            assert(now[a].0@ == q);
                        }
                        if q == k {
                            assert(now[i as int].0@ == q);
                        }
                    }
                    assert forall|q: Seq<u8>| has_key(now, q) implies entries_map(now)[q]
                        == entries_map(was).insert(k, value)[q] by {
                        let a = key_index(now, q);
                        entry_in_map(now, a);
                        entry_in_map(now, i as int);
                        if q == k {
                            keys_unique(now, a, i as int);
                        } else {
                            entry_in_map(was, a);
                        }
                    }
                    assert(entries_map(now) =~= entries_map(was).insert(k, value));
                }
            },
            Err(i) => {
                entries.insert(i, (key, value));
                proof {
                    let now = entries@;
                    assert forall|a: int, b: int| 0 <= a < b < now.len() implies before(
                        (#[trigger] now[a]).0@,
                        (#[trigger] now[b]).0@,
                    ) by {
                        let x = if a < i { a } else { a - 1 };
                        let y = if b < i { b } else { b - 1 };
                        if a != i && b != i {
                            assert(before(was[x].0@, was[y].0@));
                        } else if a == i {
                            assert(before(k, was[y].0@));
                        } else {
                            assert(before(was[x].0@, k));
                        }
                    }
                    assert forall|q: Seq<u8>| has_key(now, q) == (has_key(was, q) || q == k) by {
                        if has_key(now, q) {
                            let a = key_index(now, q);
                            if a < i {
                                assert(was[a].0@ == q);
                            } else if a > i {
                                assert(was[a - 1].0@ == q);
                            }
                        }
                        if has_key(was, q) {
                            let a = key_index(was, q);
                            if a < i {
                                assert(now[a].0@ == q);
                            } else {
                                assert(now[a + 1].0@ == q);
                            }
                        }
                        if q == k {
                            assert(now[i as int].0@ == q);
                        }
                    }
                    assert forall|q: Seq<u8>| has_key(now, q) implies entries_map(now)[q]
                        == entries_map(was).insert(k, value)[q] by {
                        let a = key_index(now, q);
                        entry_in_map(now, a);
                        entry_in_map(now, i as int);
                        if q == k {
                            keys_unique(now, a, i as int);
                        } else if a < i {
                            entry_in_map(was, a);
                        } else {
                            entry_in_map(was, a - 1);
                        }
                    }
                    assert(entries_map(now) =~= entries_map(was).insert(k, value));
                }
            },
        }
        self.entries = entries;
    }

    /// Drops the value with the given key, if there is one.
    pub fn remove(&mut self, key: &[u8])
        ensures
            final(self)@ == old(self)@.remove(key@),
    {
        proof {
            use_type_invariant(&*self);
        }
        let ghost was = self.entries@;
        let ghost k = key@;
        match self.find(key) {
            Ok(i) => {
                let mut entries: Vec<(Vec<u8>, V)> = Vec::new();
                std::mem::swap(&mut entries, &mut self.entries);
                let _ = entries.remove(i);
                proof {
                    let now = entries@;
                    assert forall|a: int, b: int| 0 <= a < b < now.len() implies before(
                        (#[trigger] now[a]).0@,
                        (#[trigger] now[b]).0@,
                    ) by {
                        let x = if a < i { a } else { a + 1 };
                        let y = if b < i { b } else { b + 1 };
                        assert(before(was[x].0@, was[y].0@));
                    }
                    assert forall|q: Seq<u8>| has_key(now, q) == (has_key(was, q) && q != k) by {
                        if has_key(now, q) {
                            let a = key_index(now, q);
                            let x = if a < i { a } else { a + 1 };
                            assert(was[x].0@ == q);
                            if q == k {
                                keys_unique(was, x, i as int);
                            }
                        }
                        if has_key(was, q) && q != k {
                            let a = key_index(was, q);
                            let x = if a < i { a } else { a - 1 };
                            assert(now[x].0@ == q);
                        }
                    }
                    assert forall|q: Seq<u8>| has_key(now, q) implies entries_map(now)[q]
                        == entries_map(was).remove(k)[q] by {
                        let a = key_index(now, q);
                        let x = if a < i { a } else { a + 1 };
                        entry_in_map(now, a);
                        entry_in_map(was, x);
                    }
                    assert(entries_map(now) =~= entries_map(was).remove(k));
                }
                self.entries = entries;
            },
            Err(i) => {
                proof {
                    Self::absent(was, k, i as int);
                    assert(entries_map(was).remove(k) =~= entries_map(was));
                }
            },
        }
    }

    /// How many values there are.
    pub fn len(&self) -> (r: usize)
        ensures
            self@.dom().finite(),
            r == self@.dom().len(),
    {
        proof {
            use_type_invariant(self);
            entries_count(self.entries@);
        }
        self.entries.len()
    }
}

} // verus!
