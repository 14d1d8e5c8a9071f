//! How many records there are.
use vstd::prelude::*;

use crate::engine::encoding::{meta_name, META_PREFIX, SUBKEY_PREFIX, ZSCORE_PREFIX};
use crate::engine::engine::{scan, scan_exists, Records};
use crate::engine::error::EngineErrorView;
use crate::engine::model::{dbsize_op, flush_op, is_record, rawcount_op, StoreView};

verus! {

/// The keys of the records that start with the given byte.
pub open spec fn family(db: Records, first: u8) -> Set<Seq<u8>> {
    db.dom().filter(|k: Seq<u8>| k.len() > 0 && k[0] == first)
}

/// A scan lists each record of a family once.
pub proof fn scan_counts(db: Records, first: u8)
    requires
        db.dom().finite(),
    ensures
        family(db, first).finite(),
        scan(db, seq![first]).len() == family(db, first).len(),
{
    let prefix = seq![first];
    let items = scan(db, prefix);
    let all = family(db, first);
    scan_exists(db, prefix);
    db.dom().lemma_len_filter(|k: Seq<u8>| k.len() > 0 && k[0] == first);
    let names = items.map_values(|item: (Seq<u8>, Seq<u8>)| item.0);
    assert(names.no_duplicates()) by {
        assert forall|i: int, j: int| 0 <= i < j < names.len() implies names[i] != names[j] by {
            assert(crate::order::before(items[i].0, items[j].0));
            crate::order::before_irreflexive(items[i].0);
        }
    }
    names.unique_seq_to_set();
    assert forall|k: Seq<u8>| #[trigger] names.to_set().contains(k) == all.contains(k) by {
        if names.contains(k) {
            let i = choose|i: int| 0 <= i < names.len() && names[i] == k;
            assert(db.contains_pair(items[i].0, items[i].1));
            assert(prefix.is_prefix_of(items[i].0));
            assert(items[i].0.subrange(0, 1)[0] == items[i].0[0]);
        }
        if all.contains(k) {
            assert(prefix.is_prefix_of(k)) by {
                assert(prefix =~= k.subrange(0, 1));
            }
            assert(db.contains_key(k));
            let i = choose|i: int| 0 <= i < items.len() && (#[trigger] items[i]).0 == k;
            assert(names[i] == k);
        }
    }
    assert(names.to_set() =~= all);
}

/// Metadata does not count among the records of members.
pub proof fn metadata_does_not_count(db: Records, key: Seq<u8>, value: Seq<u8>, first: u8)
    requires
        first != META_PREFIX,
    ensures
        family(db.remove(meta_name(key)), first) == family(db, first),
        family(db.insert(meta_name(key), value), first) == family(db, first),
{
    assert(meta_name(key)[0] == META_PREFIX);
    assert(family(db.remove(meta_name(key)), first) =~= family(db, first));
    assert(family(db.insert(meta_name(key), value), first) =~= family(db, first));
}

/// How many records of members there are, garbage included.
pub open spec fn member_records(db: Records) -> nat {
    family(db, SUBKEY_PREFIX).len() + family(db, ZSCORE_PREFIX).len()
}

/// `RAWCOUNT` counts the records of members, garbage included: those of fields, members and
/// elements, and those of the score index.
pub proof fn rawcount_law(s: StoreView)
    requires
        s.db.dom().finite(),
    ensures
        rawcount_op(s) == (
            s,
            Ok::<i64, EngineErrorView>(
                member_records(s.db) as i64,
            ),
        ),
{
    scan_counts(s.db, SUBKEY_PREFIX);
    scan_counts(s.db, ZSCORE_PREFIX);
}

/// After `FLUSHALL` there is no key and no record of a member.
pub proof fn flushed_counts(s: StoreView)
    requires
        s.db.dom().finite(),
    ensures
        dbsize_op(flush_op(s).0).1 == Ok::<i64, EngineErrorView>(0),
        rawcount_op(flush_op(s).0).1 == Ok::<i64, EngineErrorView>(0),
{
    let t = flush_op(s).0;
    assert(t.db.dom().subset_of(s.db.dom()));
    vstd::set_lib::lemma_len_subset(t.db.dom(), s.db.dom());
    scan_counts(t.db, META_PREFIX);
    rawcount_law(t);
    assert forall|first: u8, k: Seq<u8>|
        (first == META_PREFIX || first == SUBKEY_PREFIX || first == ZSCORE_PREFIX)
            implies !(#[trigger] family(t.db, first).contains(k)) by {
        if family(t.db, first).contains(k) {
            assert(is_record(k));
        }
    }
    assert(family(t.db, META_PREFIX) =~= Set::empty());
    assert(family(t.db, SUBKEY_PREFIX) =~= Set::empty());
    assert(family(t.db, ZSCORE_PREFIX) =~= Set::empty());
}

} // verus!
