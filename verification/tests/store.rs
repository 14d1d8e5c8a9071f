//! Strings, hashes, sets, sorted sets and lists: what operations answer, what is left of deleted
//! values, and what is there after a restart.
use std::cell::RefCell;
use std::ops::{Deref, DerefMut};

use gamestore::engine::encoding::{meta_key, Meta, TYPE_STRING};
use gamestore::engine::{now_ms, EngineError, GeneralEngine, MemEngine, Store, WriteBatch};

/// What outlives a store: the records of its engine.
struct Disk {
    engine: RefCell<MemEngine>,
}

impl Disk {
    fn new() -> Self {
        Disk {
            engine: RefCell::new(MemEngine::new()),
        }
    }

    /// Keeps the records that the store leaves behind.
    fn keep(&self, s: &TestStore) {
        self.engine.replace(s.store.engine().clone());
    }
}

/// A store with scores as floating-point numbers.
struct TestStore {
    store: Store<MemEngine>,
}

impl Deref for TestStore {
    type Target = Store<MemEngine>;

    fn deref(&self) -> &Self::Target {
        &self.store
    }
}

impl DerefMut for TestStore {
    fn deref_mut(&mut self) -> &mut Self::Target {
        &mut self.store
    }
}

fn numbers(pairs: Vec<(Vec<u8>, u64)>) -> Vec<(Vec<u8>, f64)> {
    pairs
        .into_iter()
        .map(|(m, bits)| (m, f64::from_bits(bits)))
        .collect()
}

impl TestStore {
    fn zadd(&mut self, key: &[u8], pairs: &[(f64, Vec<u8>)]) -> Result<i64, EngineError> {
        let pairs: Vec<(u64, Vec<u8>)> = pairs
            .iter()
            .map(|(score, m)| (score.to_bits(), m.clone()))
            .collect();
        self.store.zadd(key, &pairs)
    }

    fn zscore(&mut self, key: &[u8], member: &[u8]) -> Result<Option<f64>, EngineError> {
        Ok(self.store.zscore(key, member)?.map(f64::from_bits))
    }

    fn zrange(
        &mut self,
        key: &[u8],
        start: i64,
        stop: i64,
    ) -> Result<Vec<(Vec<u8>, f64)>, EngineError> {
        Ok(numbers(self.store.zrange(key, start, stop)?))
    }

    fn zrange_by_score(
        &mut self,
        key: &[u8],
        min: f64,
        min_exclusive: bool,
        max: f64,
        max_exclusive: bool,
    ) -> Result<Vec<(Vec<u8>, f64)>, EngineError> {
        let pairs = self.store.zrange_by_score(
            key,
            min.to_bits(),
            min_exclusive,
            max.to_bits(),
            max_exclusive,
        )?;
        Ok(numbers(pairs))
    }
}

fn open(disk: &Disk) -> TestStore {
    TestStore {
        store: Store::with_engine(disk.engine.borrow().clone()).expect("open store"),
    }
}

#[test]
fn string_set_get_del_ttl() {
    let dir = Disk::new();
    let mut s = open(&dir);

    assert_eq!(s.get(b"k").unwrap(), None);
    s.set(b"k", b"v", 0).unwrap();
    assert_eq!(s.get(b"k").unwrap(), Some(b"v".to_vec()));
    assert!(s.key_exists(b"k").unwrap());
    assert_eq!(s.type_of(b"k").unwrap(), "string");
    assert_eq!(s.pttl(b"k").unwrap(), -1); // exists, no expiry

    assert!(s.del(b"k").unwrap());
    assert!(!s.del(b"k").unwrap());
    assert_eq!(s.get(b"k").unwrap(), None);
    assert_eq!(s.pttl(b"k").unwrap(), -2); // missing
    assert_eq!(s.type_of(b"k").unwrap(), "none");
}

#[test]
fn lazy_expiration() {
    let dir = Disk::new();
    let mut s = open(&dir);

    // Already-expired absolute timestamp -> treated as missing on access.
    s.set(b"k", b"v", 1).unwrap();
    assert_eq!(s.get(b"k").unwrap(), None);
    assert!(!s.key_exists(b"k").unwrap());

    // Future expiry is live and reports a positive TTL.
    let future = now_ms() + 100_000;
    s.set(b"k2", b"v", future).unwrap();
    assert!(s.key_exists(b"k2").unwrap());
    let ttl = s.pttl(b"k2").unwrap();
    assert!(ttl > 0 && ttl <= 100_000, "ttl={ttl}");

    // expire_at on a missing key returns false.
    assert!(!s.expire_at(b"missing", future).unwrap());
    assert!(s.expire_at(b"k2", future).unwrap());
}

#[test]
fn hash_ops() {
    let dir = Disk::new();
    let mut s = open(&dir);

    let created = s
        .hset(
            b"h",
            &[
                (b"a".to_vec(), b"1".to_vec()),
                (b"b".to_vec(), b"2".to_vec()),
            ],
        )
        .unwrap();
    assert_eq!(created, 2);
    assert_eq!(s.type_of(b"h").unwrap(), "hash");
    assert_eq!(s.hlen(b"h").unwrap(), 2);
    assert_eq!(s.hget(b"h", b"a").unwrap(), Some(b"1".to_vec()));
    assert!(s.hexists(b"h", b"b").unwrap());
    assert!(!s.hexists(b"h", b"c").unwrap());

    // Overwriting an existing field creates 0 new fields.
    let created = s.hset(b"h", &[(b"a".to_vec(), b"9".to_vec())]).unwrap();
    assert_eq!(created, 0);
    assert_eq!(s.hget(b"h", b"a").unwrap(), Some(b"9".to_vec()));

    let mut all = s.hgetall(b"h").unwrap();
    all.sort();
    assert_eq!(
        all,
        vec![
            (b"a".to_vec(), b"9".to_vec()),
            (b"b".to_vec(), b"2".to_vec())
        ]
    );

    assert_eq!(
        s.hdel(b"h", &[b"a".to_vec(), b"missing".to_vec()]).unwrap(),
        1
    );
    assert_eq!(s.hlen(b"h").unwrap(), 1);

    // Deleting the last field removes the whole key.
    assert_eq!(s.hdel(b"h", &[b"b".to_vec()]).unwrap(), 1);
    assert_eq!(s.type_of(b"h").unwrap(), "none");
    assert!(!s.key_exists(b"h").unwrap());
}

#[test]
fn wrong_type_errors() {
    let dir = Disk::new();
    let mut s = open(&dir);

    s.set(b"str", b"v", 0).unwrap();
    assert!(matches!(
        s.hget(b"str", b"f"),
        Err(EngineError::WrongType)
    ));
    assert!(matches!(
        s.hset(b"str", &[(b"f".to_vec(), b"v".to_vec())]),
        Err(EngineError::WrongType)
    ));

    s.hset(b"hash", &[(b"f".to_vec(), b"v".to_vec())]).unwrap();
    assert!(matches!(
        s.get(b"hash"),
        Err(EngineError::WrongType)
    ));

    // SET always overwrites, regardless of prior type.
    s.set(b"hash", b"now-a-string", 0).unwrap();
    assert_eq!(s.get(b"hash").unwrap(), Some(b"now-a-string".to_vec()));
}

/// Delete → O(1) version bump → orphan subkeys reclaimed to 0 by the
/// compaction; a rebuilt (new-version) hash only shows the new data.
#[test]
fn compaction_gc_reclaims_stale_subkeys() {
    let dir = Disk::new();
    let mut s = open(&dir);

    // 100 fields under version v1.
    let pairs: Vec<(Vec<u8>, Vec<u8>)> = (0..100)
        .map(|i| (format!("f{i}").into_bytes(), format!("v{i}").into_bytes()))
        .collect();
    s.hset(b"h", &pairs).unwrap();
    assert_eq!(s.raw_subkey_count().unwrap(), 100);
    assert_eq!(s.dbsize().unwrap(), 1);

    // DEL bumps the logical delete; the 100 subkeys become orphans.
    assert!(s.del(b"h").unwrap());
    assert_eq!(s.dbsize().unwrap(), 0);

    // Before compaction the orphans are still physically present...
    assert_eq!(s.raw_subkey_count().unwrap(), 100);
    // ...after a forced compaction it reclaims them to zero.
    s.compact().unwrap();
    assert_eq!(s.raw_subkey_count().unwrap(), 0);

    // Rebuild the key: fresh version, new fields only.
    s.hset(b"h", &[(b"only".to_vec(), b"new".to_vec())])
        .unwrap();
    s.compact().unwrap();
    assert_eq!(s.raw_subkey_count().unwrap(), 1);
    assert_eq!(s.hget(b"h", b"only").unwrap(), Some(b"new".to_vec()));
    assert_eq!(s.hget(b"h", b"f0").unwrap(), None);
}

/// Overwriting a hash with more `HSET`s at a *new* version (via delete+recreate)
/// leaves stale-version subkeys that GC must drop while keeping current ones.
#[test]
fn gc_keeps_current_version_after_rebuild() {
    let dir = Disk::new();
    let mut s = open(&dir);

    s.hset(b"h", &[(b"a".to_vec(), b"1".to_vec())]).unwrap();
    s.del(b"h").unwrap(); // orphan the v1 subkey
    s.hset(
        b"h",
        &[
            (b"a".to_vec(), b"2".to_vec()),
            (b"b".to_vec(), b"3".to_vec()),
        ],
    )
    .unwrap(); // v2 subkeys

    // Two live subkeys + one orphan physically present pre-compaction.
    assert_eq!(s.raw_subkey_count().unwrap(), 3);
    s.compact().unwrap();
    assert_eq!(s.raw_subkey_count().unwrap(), 2);
    assert_eq!(s.hget(b"h", b"a").unwrap(), Some(b"2".to_vec()));
    assert_eq!(s.hget(b"h", b"b").unwrap(), Some(b"3".to_vec()));
}

/// After reopening, the version map is rebuilt from metadata so hash
/// reads resolve to the correct (current) version.
#[test]
fn version_map_rebuilt_on_restart() {
    let dir = Disk::new();

    {
        let mut s = open(&dir);
        s.set(b"str", b"v", 0).unwrap();
        s.hset(
            b"h",
            &[
                (b"a".to_vec(), b"1".to_vec()),
                (b"b".to_vec(), b"2".to_vec()),
            ],
        )
        .unwrap();
        dir.keep(&s);
    }

    {
        let mut s = open(&dir);
        // String survives.
        assert_eq!(s.get(b"str").unwrap(), Some(b"v".to_vec()));
        // Hash resolves via the rebuilt version map.
        assert_eq!(s.hlen(b"h").unwrap(), 2);
        assert_eq!(s.hget(b"h", b"a").unwrap(), Some(b"1".to_vec()));
        let mut all = s.hgetall(b"h").unwrap();
        all.sort();
        assert_eq!(
            all,
            vec![
                (b"a".to_vec(), b"1".to_vec()),
                (b"b".to_vec(), b"2".to_vec())
            ]
        );

        // GC still works after restart: delete + compact reclaims subkeys.
        s.del(b"h").unwrap();
        s.compact().unwrap();
        assert_eq!(s.raw_subkey_count().unwrap(), 0);
    }
}

/// `FLUSHDB`/`FLUSHALL`: every metadata + subkey record is removed and
/// the version map is cleared, so the store behaves like a fresh database.
#[test]
fn flush_all_clears_everything() {
    let dir = Disk::new();
    let mut s = open(&dir);

    s.set(b"str", b"v", 0).unwrap();
    s.hset(
        b"h",
        &[
            (b"a".to_vec(), b"1".to_vec()),
            (b"b".to_vec(), b"2".to_vec()),
        ],
    )
    .unwrap();
    assert_eq!(s.dbsize().unwrap(), 2);
    assert_eq!(s.raw_subkey_count().unwrap(), 2);

    s.flush_all().unwrap();
    assert_eq!(s.dbsize().unwrap(), 0);
    assert_eq!(s.raw_subkey_count().unwrap(), 0);
    assert_eq!(s.get(b"str").unwrap(), None);
    assert_eq!(s.hlen(b"h").unwrap(), 0);
    assert_eq!(s.type_of(b"h").unwrap(), "none");

    // The version table was cleared too: a recreated hash starts fresh and a
    // compaction right after flush has nothing stale to reclaim.
    s.hset(b"h", &[(b"new".to_vec(), b"1".to_vec())]).unwrap();
    assert_eq!(
        s.hgetall(b"h").unwrap(),
        vec![(b"new".to_vec(), b"1".to_vec())]
    );
    s.compact().unwrap();
    assert_eq!(s.raw_subkey_count().unwrap(), 1);
}

/// Flush must also survive a restart: nothing reappears after reopening.
#[test]
fn flush_all_survives_restart() {
    let dir = Disk::new();

    {
        let mut s = open(&dir);
        s.hset(b"h", &[(b"a".to_vec(), b"1".to_vec())]).unwrap();
        s.set(b"k", b"v", 0).unwrap();
        s.flush_all().unwrap();
        dir.keep(&s);
    }

    {
        let mut s = open(&dir);
        assert_eq!(s.dbsize().unwrap(), 0);
        assert_eq!(s.raw_subkey_count().unwrap(), 0);
        assert_eq!(s.get(b"k").unwrap(), None);
        assert_eq!(s.hlen(b"h").unwrap(), 0);
    }
}

// ---- Set --------------------------------------------------------------

#[test]
fn set_add_rem_members() {
    let dir = Disk::new();
    let mut s = open(&dir);

    assert_eq!(
        s.sadd(b"s", &[b"a".to_vec(), b"b".to_vec(), b"a".to_vec()])
            .unwrap(),
        2,
        "duplicate within one call counts once"
    );
    assert_eq!(s.type_of(b"s").unwrap(), "set");
    assert_eq!(s.scard(b"s").unwrap(), 2);
    assert!(s.sismember(b"s", b"a").unwrap());
    assert!(!s.sismember(b"s", b"missing").unwrap());
    // Re-adding an existing member adds nothing.
    assert_eq!(s.sadd(b"s", &[b"a".to_vec()]).unwrap(), 0);

    let mut members = s.smembers(b"s").unwrap();
    members.sort();
    assert_eq!(members, vec![b"a".to_vec(), b"b".to_vec()]);

    assert_eq!(
        s.srem(b"s", &[b"a".to_vec(), b"missing".to_vec()]).unwrap(),
        1
    );
    assert_eq!(s.scard(b"s").unwrap(), 1);
    // Removing the last member deletes the key.
    assert_eq!(s.srem(b"s", &[b"b".to_vec()]).unwrap(), 1);
    assert!(!s.key_exists(b"s").unwrap());
    assert_eq!(s.type_of(b"s").unwrap(), "none");
    // Missing-key reads are well-defined.
    assert_eq!(s.smembers(b"s").unwrap(), Vec::<Vec<u8>>::new());
    assert_eq!(s.scard(b"s").unwrap(), 0);
    assert_eq!(s.srem(b"s", &[b"a".to_vec()]).unwrap(), 0);
}

// ---- ZSet -------------------------------------------------------------

#[test]
fn zset_add_score_rem() {
    let dir = Disk::new();
    let mut s = open(&dir);

    assert_eq!(
        s.zadd(b"z", &[(1.0, b"a".to_vec()), (2.0, b"b".to_vec())])
            .unwrap(),
        2
    );
    assert_eq!(s.type_of(b"z").unwrap(), "zset");
    assert_eq!(s.zcard(b"z").unwrap(), 2);
    assert_eq!(s.zscore(b"z", b"a").unwrap(), Some(1.0));
    assert_eq!(s.zscore(b"z", b"missing").unwrap(), None);

    // Updating an existing member's score adds nothing but moves its rank.
    assert_eq!(s.zadd(b"z", &[(3.0, b"a".to_vec())]).unwrap(), 0);
    assert_eq!(s.zscore(b"z", b"a").unwrap(), Some(3.0));
    assert_eq!(
        s.zrange(b"z", 0, -1).unwrap(),
        vec![(b"b".to_vec(), 2.0), (b"a".to_vec(), 3.0)]
    );

    // Duplicate member within one call: last score wins, counted once.
    assert_eq!(
        s.zadd(b"z2", &[(1.0, b"m".to_vec()), (9.0, b"m".to_vec())])
            .unwrap(),
        1
    );
    assert_eq!(s.zscore(b"z2", b"m").unwrap(), Some(9.0));

    assert_eq!(s.zrem(b"z", &[b"a".to_vec(), b"nope".to_vec()]).unwrap(), 1);
    assert_eq!(s.zcard(b"z").unwrap(), 1);
    // Removing the last member deletes the key.
    assert_eq!(s.zrem(b"z", &[b"b".to_vec()]).unwrap(), 1);
    assert!(!s.key_exists(b"z").unwrap());
    assert_eq!(s.zcard(b"z").unwrap(), 0);
}

#[test]
fn zset_range_orders_by_score_then_member() {
    let dir = Disk::new();
    let mut s = open(&dir);

    s.zadd(
        b"lb",
        &[
            (10.0, b"carol".to_vec()),
            (-5.0, b"alice".to_vec()),
            (10.0, b"bob".to_vec()),
            (0.0, b"dave".to_vec()),
        ],
    )
    .unwrap();

    // Ascending (score, member) order; ties broken lexicographically.
    assert_eq!(
        s.zrange(b"lb", 0, -1).unwrap(),
        vec![
            (b"alice".to_vec(), -5.0),
            (b"dave".to_vec(), 0.0),
            (b"bob".to_vec(), 10.0),
            (b"carol".to_vec(), 10.0),
        ]
    );
    // Rank sub-ranges and negative indexes.
    assert_eq!(
        s.zrange(b"lb", 1, 2).unwrap(),
        vec![(b"dave".to_vec(), 0.0), (b"bob".to_vec(), 10.0)]
    );
    assert_eq!(
        s.zrange(b"lb", -2, -1).unwrap(),
        vec![(b"bob".to_vec(), 10.0), (b"carol".to_vec(), 10.0)]
    );
    // Out-of-range / inverted ranges are empty.
    assert_eq!(s.zrange(b"lb", 5, 9).unwrap(), vec![]);
    assert_eq!(s.zrange(b"lb", 2, 1).unwrap(), vec![]);

    // Score ranges: inclusive, exclusive and infinite bounds.
    assert_eq!(
        s.zrange_by_score(b"lb", 0.0, false, 10.0, false).unwrap(),
        vec![
            (b"dave".to_vec(), 0.0),
            (b"bob".to_vec(), 10.0),
            (b"carol".to_vec(), 10.0),
        ]
    );
    assert_eq!(
        s.zrange_by_score(b"lb", 0.0, true, 10.0, true).unwrap(),
        vec![]
    );
    assert_eq!(
        s.zrange_by_score(b"lb", f64::NEG_INFINITY, false, 0.0, true)
            .unwrap(),
        vec![(b"alice".to_vec(), -5.0)]
    );
    assert_eq!(
        s.zrange_by_score(b"lb", f64::NEG_INFINITY, false, f64::INFINITY, false)
            .unwrap()
            .len(),
        4
    );
}

// ---- List -------------------------------------------------------------

#[test]
fn list_push_pop_range() {
    let dir = Disk::new();
    let mut s = open(&dir);

    // RPUSH a b, LPUSH x y -> y x a b.
    assert_eq!(
        s.push(b"l", &[b"a".to_vec(), b"b".to_vec()], false)
            .unwrap(),
        2
    );
    assert_eq!(
        s.push(b"l", &[b"x".to_vec(), b"y".to_vec()], true).unwrap(),
        4
    );
    assert_eq!(s.type_of(b"l").unwrap(), "list");
    assert_eq!(s.llen(b"l").unwrap(), 4);
    assert_eq!(
        s.lrange(b"l", 0, -1).unwrap(),
        vec![b"y".to_vec(), b"x".to_vec(), b"a".to_vec(), b"b".to_vec()]
    );
    // Sub-ranges, negative indexes, clamping.
    assert_eq!(
        s.lrange(b"l", 1, 2).unwrap(),
        vec![b"x".to_vec(), b"a".to_vec()]
    );
    assert_eq!(
        s.lrange(b"l", -2, 99).unwrap(),
        vec![b"a".to_vec(), b"b".to_vec()]
    );
    assert_eq!(s.lrange(b"l", 3, 1).unwrap(), Vec::<Vec<u8>>::new());

    assert_eq!(s.pop(b"l", 1, true).unwrap(), vec![b"y".to_vec()]);
    assert_eq!(s.pop(b"l", 1, false).unwrap(), vec![b"b".to_vec()]);
    assert_eq!(s.llen(b"l").unwrap(), 2);
    // Multi-pop drains in order and deletes the emptied key.
    assert_eq!(
        s.pop(b"l", 10, true).unwrap(),
        vec![b"x".to_vec(), b"a".to_vec()]
    );
    assert!(!s.key_exists(b"l").unwrap());
    assert_eq!(s.llen(b"l").unwrap(), 0);
    assert_eq!(s.pop(b"l", 1, true).unwrap(), Vec::<Vec<u8>>::new());
    assert_eq!(s.lrange(b"l", 0, -1).unwrap(), Vec::<Vec<u8>>::new());
}

// ---- cross-type behavior ------------------------------------------------

#[test]
fn wrong_type_errors_cover_new_types() {
    let dir = Disk::new();
    let mut s = open(&dir);

    s.set(b"str", b"v", 0).unwrap();
    assert!(matches!(
        s.sadd(b"str", &[b"m".to_vec()]),
        Err(EngineError::WrongType)
    ));
    assert!(matches!(s.smembers(b"str"), Err(EngineError::WrongType)));
    assert!(matches!(
        s.zadd(b"str", &[(1.0, b"m".to_vec())]),
        Err(EngineError::WrongType)
    ));
    assert!(matches!(
        s.zrange(b"str", 0, -1),
        Err(EngineError::WrongType)
    ));
    assert!(matches!(
        s.push(b"str", &[b"v".to_vec()], true),
        Err(EngineError::WrongType)
    ));
    assert!(matches!(
        s.lrange(b"str", 0, -1),
        Err(EngineError::WrongType)
    ));

    // Every composite type rejects operations of the other composite types.
    s.sadd(b"set", &[b"m".to_vec()]).unwrap();
    s.zadd(b"zset", &[(1.0, b"m".to_vec())]).unwrap();
    s.push(b"list", &[b"v".to_vec()], false).unwrap();
    assert!(matches!(s.hget(b"set", b"f"), Err(EngineError::WrongType)));
    assert!(matches!(
        s.zscore(b"set", b"m"),
        Err(EngineError::WrongType)
    ));
    assert!(matches!(
        s.sismember(b"zset", b"m"),
        Err(EngineError::WrongType)
    ));
    assert!(matches!(s.llen(b"zset"), Err(EngineError::WrongType)));
    assert!(matches!(
        s.pop(b"set", 1, true),
        Err(EngineError::WrongType)
    ));
    assert!(matches!(s.scard(b"list"), Err(EngineError::WrongType)));
    assert!(matches!(s.get(b"list"), Err(EngineError::WrongType)));

    // SET always overwrites, regardless of prior type.
    s.set(b"zset", b"now-a-string", 0).unwrap();
    assert_eq!(s.get(b"zset").unwrap(), Some(b"now-a-string".to_vec()));
}

/// DEL is an O(1) version bump for the new types too, and the compaction
/// filter physically reclaims their per-member records (including the ZSet
/// score index, which doubles the physical record count).
#[test]
fn compaction_gc_reclaims_new_type_records() {
    let dir = Disk::new();
    let mut s = open(&dir);

    let members: Vec<Vec<u8>> = (0..50).map(|i| format!("m{i}").into_bytes()).collect();
    s.sadd(b"set", &members).unwrap();
    let scored: Vec<(f64, Vec<u8>)> = (0..50)
        .map(|i| (i as f64, format!("m{i}").into_bytes()))
        .collect();
    s.zadd(b"zset", &scored).unwrap();
    s.push(b"list", &members, false).unwrap();

    // set 50 + zset 50*2 (member + score index) + list 50.
    assert_eq!(s.raw_subkey_count().unwrap(), 200);

    assert!(s.del(b"set").unwrap());
    assert!(s.del(b"zset").unwrap());
    assert!(s.del(b"list").unwrap());
    assert_eq!(s.dbsize().unwrap(), 0);
    s.compact().unwrap();
    assert_eq!(s.raw_subkey_count().unwrap(), 0);
}

/// A ZSet score update must leave no stale score-index record behind after
/// compaction (the old (score, member) entry is deleted in the same batch).
#[test]
fn zset_score_update_leaves_no_stale_index() {
    let dir = Disk::new();
    let mut s = open(&dir);

    s.zadd(b"z", &[(1.0, b"m".to_vec())]).unwrap();
    s.zadd(b"z", &[(2.0, b"m".to_vec())]).unwrap();
    // One member subkey + one score-index record, no leftovers.
    assert_eq!(s.raw_subkey_count().unwrap(), 2);
    assert_eq!(s.zrange(b"z", 0, -1).unwrap(), vec![(b"m".to_vec(), 2.0)]);
}

/// TTL applies to the new types via the shared metadata: an expired composite
/// key reads as missing and its records become GC-able garbage.
#[test]
fn expiry_applies_to_new_types() {
    let dir = Disk::new();
    let mut s = open(&dir);

    s.sadd(b"s", &[b"m".to_vec()]).unwrap();
    s.zadd(b"z", &[(1.0, b"m".to_vec())]).unwrap();
    s.push(b"l", &[b"v".to_vec()], false).unwrap();

    // Absolute deadline of 1ms-after-epoch: long past -> lazily expired.
    for key in [b"s".as_slice(), b"z", b"l"] {
        assert!(s.expire_at(key, 1).unwrap());
        assert!(!s.key_exists(key).unwrap());
        assert_eq!(s.type_of(key).unwrap(), "none");
        assert_eq!(s.pttl(key).unwrap(), -2);
    }
    assert_eq!(s.scard(b"s").unwrap(), 0);
    assert_eq!(s.zcard(b"z").unwrap(), 0);
    assert_eq!(s.llen(b"l").unwrap(), 0);

    // The lazy delete dropped the version-map entries -> records reclaimable.
    s.compact().unwrap();
    assert_eq!(s.raw_subkey_count().unwrap(), 0);
}

/// Restart: version maps for the new types are rebuilt from metadata so reads
/// resolve correctly and GC still works after reopening.
#[test]
fn new_types_survive_restart() {
    let dir = Disk::new();

    {
        let mut s = open(&dir);
        s.sadd(b"s", &[b"a".to_vec(), b"b".to_vec()]).unwrap();
        s.zadd(b"z", &[(1.5, b"m1".to_vec()), (-2.0, b"m2".to_vec())])
            .unwrap();
        s.push(b"l", &[b"one".to_vec(), b"two".to_vec()], false)
            .unwrap();
        dir.keep(&s);
    }

    {
        let mut s = open(&dir);
        let mut members = s.smembers(b"s").unwrap();
        members.sort();
        assert_eq!(members, vec![b"a".to_vec(), b"b".to_vec()]);
        assert_eq!(s.scard(b"s").unwrap(), 2);

        assert_eq!(s.zscore(b"z", b"m1").unwrap(), Some(1.5));
        assert_eq!(
            s.zrange(b"z", 0, -1).unwrap(),
            vec![(b"m2".to_vec(), -2.0), (b"m1".to_vec(), 1.5)]
        );

        assert_eq!(
            s.lrange(b"l", 0, -1).unwrap(),
            vec![b"one".to_vec(), b"two".to_vec()]
        );
        // List bounds survive: pushes keep extending correctly.
        assert_eq!(s.push(b"l", &[b"zero".to_vec()], true).unwrap(), 3);
        assert_eq!(s.pop(b"l", 1, false).unwrap(), vec![b"two".to_vec()]);

        // GC still works after restart for the rebuilt versions.
        s.del(b"s").unwrap();
        s.del(b"z").unwrap();
        s.del(b"l").unwrap();
        s.compact().unwrap();
        assert_eq!(s.raw_subkey_count().unwrap(), 0);
    }
}

/// After a restart, a stale-version subkey left on disk must be GC'd and never
/// leak into reads of the rebuilt key.
#[test]
fn restart_then_gc_drops_stale_version() {
    let dir = Disk::new();

    {
        let mut s = open(&dir);
        s.hset(b"h", &[(b"old".to_vec(), b"1".to_vec())]).unwrap();
        s.del(b"h").unwrap(); // v1 subkey now orphaned, still on disk (no compact)
        assert_eq!(s.raw_subkey_count().unwrap(), 1);
        dir.keep(&s);
    }

    {
        let mut s = open(&dir);
        // Recreate at a new version.
        s.hset(b"h", &[(b"new".to_vec(), b"2".to_vec())]).unwrap();
        s.compact().unwrap();
        // Only the current-version subkey remains.
        assert_eq!(s.raw_subkey_count().unwrap(), 1);
        assert_eq!(s.hget(b"h", b"new").unwrap(), Some(b"2".to_vec()));
        assert_eq!(s.hget(b"h", b"old").unwrap(), None);
    }
}

#[test]
fn a_clock_reading_rounds_milliseconds_down() {
    let now = gamestore::engine::model::Now::at(1_999);
    assert_eq!(now.micros, 1_999);
    assert_eq!(now.ms, 1);
    assert_eq!(gamestore::engine::model::Now::at(u64::MAX).ms, u64::MAX / 1000);
    // The clock of the machine stands well after the epoch.
    assert!(gamestore::engine::now_ms() > 1_000_000_000_000);
}

// ---- Records ----------------------------------------------------------

/// Each member that `ZREM` takes out takes two records with it.
#[test]
fn zrem_takes_two_records_for_each_member() {
    let dir = Disk::new();
    let mut s = open(&dir);
    s.zadd(
        b"z",
        &[
            (1.0, b"a".to_vec()),
            (2.0, b"b".to_vec()),
            (3.0, b"c".to_vec()),
        ],
    )
    .unwrap();
    assert_eq!(s.raw_subkey_count().unwrap(), 6);
    assert_eq!(
        s.zrem(b"z", &[b"a".to_vec(), b"a".to_vec(), b"no".to_vec()])
            .unwrap(),
        1
    );
    assert_eq!(s.raw_subkey_count().unwrap(), 4);
    assert_eq!(s.zrem(b"z", &[b"b".to_vec(), b"c".to_vec()]).unwrap(), 2);
    assert_eq!(s.raw_subkey_count().unwrap(), 0);
    assert!(!s.key_exists(b"z").unwrap());
}

/// `DEL` leaves the records of members, a second one finds nothing, and what is made at the key then
/// has nothing of what was there.
#[test]
fn del_leaves_garbage_that_nobody_sees() {
    let dir = Disk::new();
    let mut s = open(&dir);
    s.hset(b"h", &[(b"a".to_vec(), b"1".to_vec())]).unwrap();
    s.set(b"other", b"x", 0).unwrap();
    assert!(s.del(b"h").unwrap());
    assert!(!s.del(b"h").unwrap());
    assert!(!s.key_exists(b"h").unwrap());
    assert_eq!(s.raw_subkey_count().unwrap(), 1);
    assert_eq!(s.get(b"other").unwrap(), Some(b"x".to_vec()));
    s.hset(b"h", &[(b"b".to_vec(), b"2".to_vec())]).unwrap();
    assert_eq!(s.hgetall(b"h").unwrap(), vec![(b"b".to_vec(), b"2".to_vec())]);
}

/// Writes to a store that was opened on old records are seen along with what was there.
#[test]
fn writes_after_a_restart_add_to_what_was_there() {
    let dir = Disk::new();
    {
        let mut s = open(&dir);
        s.hset(b"h", &[(b"a".to_vec(), b"1".to_vec())]).unwrap();
        s.sadd(b"s", &[b"x".to_vec()]).unwrap();
        s.zadd(b"z", &[(1.0, b"m".to_vec())]).unwrap();
        s.push(b"l", &[b"1".to_vec()], false).unwrap();
        s.hset(b"gone", &[(b"old".to_vec(), b"1".to_vec())]).unwrap();
        s.del(b"gone").unwrap();
        dir.keep(&s);
    }
    let mut s = open(&dir);
    s.hset(b"h", &[(b"b".to_vec(), b"2".to_vec())]).unwrap();
    s.sadd(b"s", &[b"y".to_vec()]).unwrap();
    s.zadd(b"z", &[(2.0, b"n".to_vec())]).unwrap();
    s.push(b"l", &[b"2".to_vec()], false).unwrap();
    s.hset(b"gone", &[(b"new".to_vec(), b"2".to_vec())]).unwrap();
    assert_eq!(
        s.hgetall(b"h").unwrap(),
        vec![
            (b"a".to_vec(), b"1".to_vec()),
            (b"b".to_vec(), b"2".to_vec())
        ]
    );
    assert_eq!(s.smembers(b"s").unwrap(), vec![b"x".to_vec(), b"y".to_vec()]);
    assert_eq!(s.zcard(b"z").unwrap(), 2);
    assert_eq!(s.lrange(b"l", 0, -1).unwrap(), vec![b"1".to_vec(), b"2".to_vec()]);
    assert_eq!(
        s.hgetall(b"gone").unwrap(),
        vec![(b"new".to_vec(), b"2".to_vec())]
    );
}

/// A push and the pops that follow it, as `LRANGE`, `LLEN` and `EXISTS` see them.
#[test]
fn pops_leave_what_they_do_not_take() {
    let dir = Disk::new();
    let mut s = open(&dir);
    let values: Vec<Vec<u8>> = (1..=4).map(|i| format!("{i}").into_bytes()).collect();
    assert_eq!(s.push(b"l", &values, false).unwrap(), 4);
    assert_eq!(
        s.pop(b"l", 1, true).unwrap(),
        vec![b"1".to_vec()]
    );
    assert_eq!(s.pop(b"l", 1, false).unwrap(), vec![b"4".to_vec()]);
    assert_eq!(
        s.lrange(b"l", 0, -1).unwrap(),
        vec![b"2".to_vec(), b"3".to_vec()]
    );
    assert_eq!(s.llen(b"l").unwrap(), 2);
    assert!(s.key_exists(b"l").unwrap());
    assert_eq!(s.pop(b"l", 9, true).unwrap(), vec![b"2".to_vec(), b"3".to_vec()]);
    assert!(!s.key_exists(b"l").unwrap());
    assert_eq!(s.raw_subkey_count().unwrap(), 0);
}

// ---- Versions and the clock -------------------------------------------

/// A store that is opened gives out versions past all that its metadata holds, even where the
/// machine's clock stands before them.
#[test]
fn versions_go_on_from_the_last_one_found() {
    let ahead: u64 = 1 << 62;
    let mut engine = MemEngine::new();
    let mut batch = WriteBatch::new();
    let meta = Meta {
        type_id: TYPE_STRING,
        version: ahead,
        expire_ms: 0,
        payload: b"v".to_vec(),
    };
    batch.put(meta_key(b"k"), meta.encode());
    batch.put(meta_key(b"broken"), b"?".to_vec());
    engine.write(batch).unwrap();
    let mut s = Store::with_engine(engine).unwrap();
    s.hset(b"h", &[(b"f".to_vec(), b"1".to_vec())]).unwrap();
    let raw = s.engine().get(&meta_key(b"h")).unwrap().unwrap();
    assert_eq!(Meta::decode(&raw).unwrap().version, ahead + 1);
}

/// A reading of the clock has the same instant twice.
#[test]
fn milliseconds_of_a_reading_are_its_microseconds() {
    let mut s = Store::with_engine(MemEngine::new()).unwrap();
    let now = s.read_clock();
    assert_eq!(now.ms, now.micros / 1000);
    assert!(now.ms > 0);
    assert_eq!(s.now(), now);
}

/// An empty list of members or scores makes no key; an empty list of fields makes an empty hash.
#[test]
fn nothing_given() {
    let dir = Disk::new();
    let mut s = open(&dir);
    assert_eq!(s.sadd(b"s", &[]).unwrap(), 0);
    assert_eq!(s.zadd(b"z", &[]).unwrap(), 0);
    assert!(!s.key_exists(b"s").unwrap());
    assert!(!s.key_exists(b"z").unwrap());
    assert_eq!(s.hset(b"h", &[]).unwrap(), 0);
    assert_eq!(s.hgetall(b"h").unwrap(), Vec::new());
    assert_eq!(s.hlen(b"h").unwrap(), 0);
    assert_eq!(s.raw_subkey_count().unwrap(), 0);
}

/// What is pushed comes off again at the same end, and the list is as before.
#[test]
fn pop_undoes_push() {
    let dir = Disk::new();
    let mut s = open(&dir);
    let values: Vec<Vec<u8>> = [&b"x"[..], b"y", b"z"].iter().map(|v| v.to_vec()).collect();
    let reversed: Vec<Vec<u8>> = values.iter().rev().cloned().collect();
    for left in [true, false] {
        s.push(b"l", &values, left).unwrap();
        assert_eq!(s.pop(b"l", 3, left).unwrap(), reversed);
        assert!(!s.key_exists(b"l").unwrap());
    }
    s.push(b"l", &[b"1".to_vec(), b"2".to_vec()], false).unwrap();
    for left in [true, false] {
        s.push(b"l", &values, left).unwrap();
        assert_eq!(s.pop(b"l", 3, left).unwrap(), reversed);
        assert_eq!(s.lrange(b"l", 0, -1).unwrap(), vec![b"1".to_vec(), b"2".to_vec()]);
        assert_eq!(s.llen(b"l").unwrap(), 2);
    }
}

/// All members once, each with the score that was given last.
#[test]
fn zadd_then_the_whole_range() {
    let dir = Disk::new();
    let mut s = open(&dir);
    s.zadd(b"z", &[(5.0, b"a".to_vec()), (1.0, b"b".to_vec())]).unwrap();
    assert_eq!(
        s.zadd(
            b"z",
            &[(9.0, b"a".to_vec()), (2.0, b"c".to_vec()), (0.5, b"a".to_vec())]
        )
        .unwrap(),
        1
    );
    assert_eq!(
        s.zrange(b"z", 0, -1).unwrap(),
        vec![
            (b"a".to_vec(), 0.5),
            (b"b".to_vec(), 1.0),
            (b"c".to_vec(), 2.0)
        ]
    );
    assert_eq!(s.zcard(b"z").unwrap(), 3);
    assert_eq!(s.zscore(b"z", b"a").unwrap(), Some(0.5));
}
