//! Which figures a RocksDB engine reports.
use vstd::prelude::*;

verus! {

/// The names that figures are reported under, and the properties of the database that hold them.
pub open spec fn properties() -> Seq<(Seq<char>, Seq<char>)> {
    seq![
        ("rocksdb_estimate_num_keys"@, "rocksdb.estimate-num-keys"@),
        ("rocksdb_block_cache_usage_bytes"@, "rocksdb.block-cache-usage"@),
        ("rocksdb_cur_size_all_mem_tables_bytes"@, "rocksdb.cur-size-all-mem-tables"@),
        ("rocksdb_total_sst_files_size_bytes"@, "rocksdb.total-sst-files-size"@),
        (
            "rocksdb_estimate_pending_compaction_bytes"@,
            "rocksdb.estimate-pending-compaction-bytes"@,
        ),
        ("rocksdb_num_running_compactions"@, "rocksdb.num-running-compactions"@),
        ("rocksdb_num_running_flushes"@, "rocksdb.num-running-flushes"@),
        ("rocksdb_actual_delayed_write_rate"@, "rocksdb.actual-delayed-write-rate"@),
        ("rocksdb_is_write_stopped"@, "rocksdb.is-write-stopped"@),
    ]
}

/// The names that figures are reported under, and the properties of the database that hold them.
pub fn rocksdb_properties() -> (r: Vec<(&'static str, &'static str)>)
    ensures
        r@.map_values(|p: (&'static str, &'static str)| (p.0@, p.1@)) == properties(),
{
    let mut out: Vec<(&'static str, &'static str)> = Vec::new();
    out.push(("rocksdb_estimate_num_keys", "rocksdb.estimate-num-keys"));
    out.push(("rocksdb_block_cache_usage_bytes", "rocksdb.block-cache-usage"));
    out.push(("rocksdb_cur_size_all_mem_tables_bytes", "rocksdb.cur-size-all-mem-tables"));
    out.push(("rocksdb_total_sst_files_size_bytes", "rocksdb.total-sst-files-size"));
    out.push(
        (
            "rocksdb_estimate_pending_compaction_bytes",
            "rocksdb.estimate-pending-compaction-bytes",
        ),
    );
    out.push(("rocksdb_num_running_compactions", "rocksdb.num-running-compactions"));
    out.push(("rocksdb_num_running_flushes", "rocksdb.num-running-flushes"));
    out.push(("rocksdb_actual_delayed_write_rate", "rocksdb.actual-delayed-write-rate"));
    out.push(("rocksdb_is_write_stopped", "rocksdb.is-write-stopped"));
    assert(out@.map_values(|p: (&'static str, &'static str)| (p.0@, p.1@)) =~= properties());
    out
}

/// The figures that are there, of those that `values` gives for each name, in their order.
pub open spec fn reported(names: Seq<&'static str>, values: Seq<Option<u64>>) -> Seq<
    (&'static str, u64),
>
    decreases names.len(),
{
    if names.len() == 0 || values.len() == 0 {
        Seq::empty()
    } else {
        let front = reported(names.drop_last(), values.drop_last());
        match values.last() {
            Some(v) => front.push((names.last(), v)),
            None => front,
        }
    }
}

/// The figures that are there.
pub fn report(names: &[&'static str], values: &[Option<u64>]) -> (r: Vec<(&'static str, u64)>)
    requires
        names@.len() == values@.len(),
    ensures
        r@ == reported(names@, values@),
{
    let mut out: Vec<(&'static str, u64)> = Vec::new();
    let mut i: usize = 0;
    while i < names.len()
        invariant
            i <= names@.len(),
            names@.len() == values@.len(),
            out@ == reported(names@.take(i as int), values@.take(i as int)),
        decreases names@.len() - i,
    {
        proof {
            assert(names@.take(i + 1).drop_last() =~= names@.take(i as int));
            assert(values@.take(i + 1).drop_last() =~= values@.take(i as int));
        }
        if let Some(v) = values[i] {
            out.push((names[i], v));
        }
        i += 1;
    }
    assert(names@.take(i as int) =~= names@);
    assert(values@.take(i as int) =~= values@);
    out
}

} // verus!
