//! What a store leaves where its engine fails, and what its engine has to know of garbage.
use std::sync::atomic::{AtomicUsize, Ordering};

use bytes::Bytes;
use gamestore::datamodel::{CommandRegistry, ExecCtx};
use gamestore::datanode::server::flush;
use gamestore::engine::encoding::meta_key;
use gamestore::engine::engine::{Failures, Records, Versions};
use gamestore::engine::{
    EngineError, GeneralEngine, MemEngine, Range, Scan, ScanItem, Store, VersionMap, WriteBatch,
};
use gamestore::protocol::{Frame, RespVersion};

/// An engine in memory that runs out of reads or writes.
struct Fragile {
    inner: MemEngine,
    reads: AtomicUsize,
    writes: AtomicUsize,
}

impl Fragile {
    /// One that fails only once it is told to.
    fn new(inner: MemEngine) -> Self {
        Fragile {
            inner,
            reads: AtomicUsize::new(usize::MAX),
            writes: AtomicUsize::new(usize::MAX),
        }
    }

    /// How many reads and writes are left from here on.
    fn allow(&self, reads: usize, writes: usize) {
        self.reads.store(reads, Ordering::Relaxed);
        self.writes.store(writes, Ordering::Relaxed);
    }

    /// Nothing fails from here on.
    fn heal(&self) {
        self.allow(usize::MAX, usize::MAX);
    }

    fn take(left: &AtomicUsize) -> Result<(), EngineError> {
        let n = left.load(Ordering::Relaxed);
        if n == 0 {
            return Err(EngineError::backend("disk"));
        }
        left.store(n - 1, Ordering::Relaxed);
        Ok(())
    }

    fn read(&self) -> Result<(), EngineError> {
        Fragile::take(&self.reads)
    }
}

impl GeneralEngine for Fragile {
    fn records(&self) -> Records {
        unreachable!("never called")
    }

    fn failures(&self) -> Failures {
        unreachable!("never called")
    }

    fn predicate(&self) -> Option<Versions> {
        unreachable!("never called")
    }

    fn finite_records(&self) {}

    fn get(&self, key: &[u8]) -> Result<Option<Vec<u8>>, EngineError> {
        self.read()?;
        self.inner.get(key)
    }

    fn write(&mut self, batch: WriteBatch) -> Result<(), EngineError> {
        Fragile::take(&self.writes)?;
        self.inner.write(batch)
    }

    /// Each record takes one read, and so does finding that there is none left.
    fn scan_prefix(&self, prefix: &[u8]) -> Scan {
        let mut items = Vec::new();
        for item in self.inner.scan_prefix(prefix).items {
            if let Err(e) = self.read() {
                return Scan {
                    items,
                    failure: Some(e),
                };
            }
            items.push(item);
        }
        Scan {
            items,
            failure: self.read().err(),
        }
    }

    fn install_gc(&mut self, predicate: VersionMap) {
        self.inner.install_gc(predicate)
    }

    fn has_gc(&self) -> bool {
        self.inner.has_gc()
    }

    fn set_version(&mut self, user_key: &[u8], version: Option<u64>) {
        self.inner.set_version(user_key, version)
    }

    fn compact_range(&mut self, range: Option<Range>) -> Result<(), EngineError> {
        self.read()?;
        self.inner.compact_range(range)
    }

    fn flush(&mut self) -> Result<(), EngineError> {
        self.inner.flush()
    }

    fn stats(&self) -> Vec<(&'static str, u64)> {
        self.inner.stats()
    }
}

/// Records of a string, a hash of one field and a list.
fn filled() -> MemEngine {
    let mut s = Store::with_engine(MemEngine::new()).unwrap();
    s.set(b"k", b"v", 0).unwrap();
    s.hset(b"h", &[(b"f".to_vec(), b"1".to_vec())]).unwrap();
    s.push(b"l", &[b"a".to_vec(), b"b".to_vec()], false).unwrap();
    s.engine().clone()
}

/// A store on those records whose engine has that many reads and writes left.
fn opened(reads: usize, writes: usize) -> Store<Fragile> {
    let s = Store::with_engine(Fragile::new(filled())).unwrap();
    s.engine().allow(reads, writes);
    s
}

fn disk<T>() -> Result<T, EngineError> {
    Err(EngineError::Backend("disk".into()))
}

/// The records of an engine.
fn dump(engine: &MemEngine) -> Vec<ScanItem> {
    engine.scan_prefix(b"").whole().unwrap()
}

#[test]
fn flush_that_fails_drops_nothing() {
    let mut s = opened(100, 0);
    let before = dump(&s.engine().inner);
    assert_eq!(s.flush_all(), disk());
    assert_eq!(dump(&s.engine().inner), before);
    assert_eq!(s.dbsize().unwrap(), 3);
    assert_eq!(s.hget(b"h", b"f").unwrap(), Some(b"1".to_vec()));
}

#[test]
fn flush_that_cannot_read_drops_nothing() {
    // Enough for the metadata, and not for the records of members.
    let mut s = opened(5, 100);
    let before = dump(&s.engine().inner);
    assert_eq!(s.flush_all(), disk());
    assert_eq!(dump(&s.engine().inner), before);
}

#[test]
fn error_of_the_engine_is_handed_on() {
    let mut s = opened(0, 100);
    assert_eq!(s.get(b"k"), disk());
    assert_eq!(s.hset(b"h", &[(b"g".to_vec(), b"2".to_vec())]), disk());
    assert_eq!(s.zscore(b"none", b"m"), disk());
    assert_eq!(s.dbsize(), disk());
    assert_eq!(s.compact(), disk());
}

#[test]
fn opening_hands_the_error_on() {
    let engine = Fragile::new(filled());
    engine.allow(2, 0);
    assert!(matches!(
        Store::with_engine(engine),
        Err(EngineError::Backend(m)) if m == "disk"
    ));
}

#[test]
fn write_that_fails_changes_no_record() {
    let mut s = opened(1000, 0);
    let before = dump(&s.engine().inner);
    assert_eq!(s.set(b"k", b"w", 0), disk());
    assert_eq!(s.hset(b"h", &[(b"g".to_vec(), b"2".to_vec())]), disk());
    assert_eq!(s.sadd(b"s", &[b"m".to_vec()]), disk());
    assert_eq!(s.push(b"l", &[b"c".to_vec()], true), disk());
    assert_eq!(s.pop(b"l", 1, true), disk());
    assert_eq!(s.del(b"h"), disk());
    assert_eq!(dump(&s.engine().inner), before);
}

/// A flush or a delete that fails leaves the versions, so that a compaction keeps the members.
#[test]
fn failure_gives_up_no_version() {
    let mut s = opened(1000, 0);
    assert_eq!(s.flush_all(), disk());
    assert_eq!(s.del(b"h"), disk());
    assert_eq!(s.hdel(b"h", &[b"f".to_vec()]), disk());
    s.engine().heal();
    s.compact().unwrap();
    assert_eq!(s.hget(b"h", b"f").unwrap(), Some(b"1".to_vec()));
    assert_eq!(s.lrange(b"l", 0, -1).unwrap(), vec![b"a".to_vec(), b"b".to_vec()]);
}

/// A range read stops one record behind the last one that it wants, and so does not mind what
/// cannot be read further on.
#[test]
fn range_reads_go_no_further_than_they_need() {
    let score = |x: f64| x.to_bits();
    let mut s = opened(1000, 1000);
    s.zadd(
        b"z",
        &[
            (score(1.0), b"a".to_vec()),
            (score(2.0), b"b".to_vec()),
            (score(3.0), b"c".to_vec()),
        ],
    )
    .unwrap();
    // The metadata, the member of rank zero and the one behind it.
    s.engine().allow(3, 0);
    assert_eq!(s.zrange(b"z", 0, 0).unwrap(), vec![(b"a".to_vec(), score(1.0))]);
    s.engine().allow(2, 0);
    assert_eq!(s.zrange(b"z", 0, 0), disk());
    s.engine().allow(3, 0);
    assert_eq!(
        s.zrange_by_score(b"z", score(0.0), false, score(1.5), false)
            .unwrap(),
        vec![(b"a".to_vec(), score(1.0))]
    );
    s.engine().allow(3, 0);
    assert_eq!(
        s.zrange_by_score(b"z", score(0.0), false, score(9.0), false),
        disk()
    );
}

/// The last field goes in one step, and the metadata in the next.
#[test]
fn last_member_goes_before_the_metadata() {
    let mut s = opened(1000, 1);
    let records = dump(&s.engine().inner).len();
    assert_eq!(s.hdel(b"h", &[b"f".to_vec()]), disk());
    assert_eq!(dump(&s.engine().inner).len(), records - 1);
    assert_eq!(s.hget(b"h", b"f").unwrap(), None);
    assert!(s.key_exists(b"h").unwrap());
}

fn words(args: &[&str]) -> Vec<Bytes> {
    args.iter()
        .map(|s| Bytes::copy_from_slice(s.as_bytes()))
        .collect()
}

/// The reply tells of the engine's error, and the records are as the failed step leaves them.
#[test]
fn reply_tells_of_the_failure() {
    let registry = CommandRegistry::standard();
    let mut s = opened(1000, 1);
    let failed = Frame::Error("ERR engine backend error: disk".into());
    // The first key goes, the second stays.
    let mut ctx = ExecCtx::new(&mut s, RespVersion::V2);
    assert_eq!(
        registry.dispatch(&mut ctx, &words(&["DEL", "k", "h", "l"])),
        failed
    );
    assert!(!s.key_exists(b"k").unwrap());
    assert!(s.key_exists(b"h").unwrap());
    let before = dump(&s.engine().inner);
    let mut ctx = ExecCtx::new(&mut s, RespVersion::V2);
    assert_eq!(
        registry.dispatch(&mut ctx, &words(&["HSET", "h", "g", "2"])),
        failed
    );
    assert_eq!(flush(&words(&["FLUSHALL"]), &mut s), failed);
    assert_eq!(dump(&s.engine().inner), before);
}

/// Without a predicate a compaction keeps everything; a store installs the one that its metadata
/// gives, and writes nothing.
#[test]
fn opening_installs_the_predicate() {
    let mut engine = filled();
    assert!(!engine.has_gc());
    let before = dump(&engine);
    engine.compact_range(None).unwrap();
    assert_eq!(dump(&engine), before);

    let mut s = Store::with_engine(engine).unwrap();
    assert!(s.engine().has_gc());
    assert_eq!(dump(s.engine()), before);
    s.compact().unwrap();
    assert_eq!(dump(s.engine()), before);
    s.del(b"h").unwrap();
    s.compact().unwrap();
    // The metadata of the hash and its one field are gone.
    assert_eq!(dump(s.engine()).len(), before.len() - 2);
}

/// A predicate that knows of no version keeps metadata only.
#[test]
fn predicate_decides_what_a_compaction_keeps() {
    let mut engine = filled();
    engine.install_gc(VersionMap::new());
    engine.compact_range(None).unwrap();
    let left = dump(&engine);
    let keys: Vec<Vec<u8>> = left.into_iter().map(|(key, _)| key).collect();
    assert_eq!(keys, vec![meta_key(b"h"), meta_key(b"k"), meta_key(b"l")]);
}
