//! Commands on a store: how they are found, and what those of each family reply.
use std::cell::RefCell;
use std::collections::BTreeSet;
use std::collections::HashMap;

use bytes::Bytes;
use gamestore::datamodel::{Command, CommandRegistry, ExecCtx};
use gamestore::engine::{now_ms, MemEngine, Store};
use gamestore::protocol::{Frame, RespVersion};

// ---------------------------------------------------------------------------
// Finding commands: letter case, numbers of arguments, unknown and empty requests.
// ---------------------------------------------------------------------------
/// Waits until the clock has gone on by that many milliseconds.
fn wait_ms(ms: u64) {
    let start = now_ms();
    while now_ms() < start + ms {}
}

/// A fresh store and the standard commands.
struct TestDb {
    store: RefCell<Store<MemEngine>>,
    registry: CommandRegistry<Command>,
}

impl TestDb {
    fn new() -> Self {
        TestDb {
            store: RefCell::new(Store::with_engine(MemEngine::new()).expect("open store")),
            registry: CommandRegistry::standard(),
        }
    }

    /// Executes one command at the given protocol version.
    fn exec_v(&self, version: RespVersion, args: &[&str]) -> Frame {
        let args: Vec<Bytes> = args
            .iter()
            .map(|s| Bytes::copy_from_slice(s.as_bytes()))
            .collect();
        let mut store = self.store.borrow_mut();
        let mut ctx = ExecCtx::new(&mut *store, version);
        self.registry.dispatch(&mut ctx, &args)
    }

    /// Executes one command as a RESP2 client.
    fn exec(&self, args: &[&str]) -> Frame {
        self.exec_v(RespVersion::V2, args)
    }
}

fn assert_ok(frame: Frame) {
    assert_eq!(frame, Frame::ok());
}

fn assert_int(frame: Frame, want: i64) {
    assert_eq!(frame, Frame::Integer(want));
}

fn assert_bulk(frame: Frame, want: &str) {
    assert_eq!(frame, Frame::Bulk(Bytes::copy_from_slice(want.as_bytes())));
}

fn assert_simple(frame: Frame, want: &str) {
    assert_eq!(frame, Frame::Simple(want.to_string()));
}

fn assert_null(frame: Frame) {
    assert_eq!(frame, Frame::Null);
}

/// Assert an error reply whose message starts with `prefix`, returning the
/// full message for further checks.
fn assert_err_prefix(frame: Frame, prefix: &str) -> String {
    match frame {
        Frame::Error(msg) => {
            assert!(
                msg.starts_with(prefix),
                "error {msg:?} does not start with {prefix:?}"
            );
            msg
        }
        other => panic!("expected error reply, got {other:?}"),
    }
}

/// Assert the canonical Redis arity error for `cmd` (lowercase name).
fn assert_wrong_args(frame: Frame, cmd: &str) {
    assert_eq!(
        frame,
        Frame::Error(format!("ERR wrong number of arguments for '{cmd}' command"))
    );
}

/// Assert the Redis `WRONGTYPE` error.
fn assert_wrong_type(frame: Frame) {
    assert_err_prefix(frame, "WRONGTYPE");
}

/// Unwrap an integer reply (for range assertions like PTTL bounds).
fn int_of(frame: Frame) -> i64 {
    match frame {
        Frame::Integer(n) => n,
        other => panic!("expected integer reply, got {other:?}"),
    }
}

#[test]
fn command_names_are_case_insensitive() {
    let db = TestDb::new();
    assert_simple(db.exec(&["PING"]), "PONG");
    assert_simple(db.exec(&["ping"]), "PONG");
    assert_simple(db.exec(&["PiNg"]), "PONG");

    assert_ok(db.exec(&["set", "k", "v"]));
    assert_bulk(db.exec(&["GET", "k"]), "v");
    assert_bulk(db.exec(&["get", "k"]), "v");
}

#[test]
fn unknown_command_is_reported_as_it_was_spelled() {
    let db = TestDb::new();
    let msg = assert_err_prefix(db.exec(&["NoSuch", "k", "1", "m"]), "ERR unknown command");
    assert!(msg.contains("'NoSuch'"), "got {msg:?}");
}

#[test]
fn empty_command_is_an_error() {
    let db = TestDb::new();
    assert_err_prefix(db.exec(&[]), "ERR empty command");
}

#[test]
fn exact_arity_is_enforced_before_the_handler_runs() {
    let db = TestDb::new();
    // GET has arity 2: both too few and too many arguments are rejected.
    assert_wrong_args(db.exec(&["GET"]), "get");
    assert_wrong_args(db.exec(&["GET", "k", "extra"]), "get");
    // TYPE has arity 2 as well.
    assert_wrong_args(db.exec(&["TYPE"]), "type");
    assert_wrong_args(db.exec(&["TYPE", "k", "extra"]), "type");
}

#[test]
fn minimum_arity_allows_variadic_tails() {
    let db = TestDb::new();
    // DEL is arity -2: one key or many, but zero keys is an error.
    assert_wrong_args(db.exec(&["DEL"]), "del");
    assert_int(db.exec(&["DEL", "a"]), 0);
    assert_int(db.exec(&["DEL", "a", "b", "c"]), 0);
}

#[test]
fn contains_takes_any_letter_case() {
    let db = TestDb::new();
    assert!(db.registry.contains(b"get"));
    assert!(db.registry.contains(b"GET"));
    assert!(db.registry.contains(b"HGetAll"));
    assert!(db.registry.contains(b"zAdd"));
    assert!(!db.registry.contains(b"NOSUCH"));
}

#[test]
fn arity_error_uses_lowercase_name_even_for_uppercase_invocation() {
    let db = TestDb::new();
    assert_eq!(
        db.exec(&["HGET", "k"]),
        Frame::Error("ERR wrong number of arguments for 'hget' command".into())
    );
}

// ---------------------------------------------------------------------------
// Strings, keys and expiry.
// ---------------------------------------------------------------------------
// ---- SET / GET --------------------------------------------------------------

#[test]
fn set_get_roundtrip_and_overwrite() {
    let db = TestDb::new();
    assert_ok(db.exec(&["SET", "k1", "v1"]));
    assert_bulk(db.exec(&["GET", "k1"]), "v1");
    assert_ok(db.exec(&["SET", "k1", "v2"]));
    assert_bulk(db.exec(&["GET", "k1"]), "v2");
}

#[test]
fn get_missing_key_is_null() {
    let db = TestDb::new();
    assert_null(db.exec(&["GET", "nope"]));
}

#[test]
fn set_arity_errors() {
    let db = TestDb::new();
    assert_wrong_args(db.exec(&["SET"]), "set");
    assert_wrong_args(db.exec(&["SET", "k"]), "set");
}

#[test]
fn set_overwrites_a_hash_without_wrongtype() {
    // SET replaces any previous value regardless of type, like Redis.
    let db = TestDb::new();
    assert_int(db.exec(&["HSET", "k", "f", "v"]), 1);
    assert_ok(db.exec(&["SET", "k", "s"]));
    assert_simple(db.exec(&["TYPE", "k"]), "string");
    assert_bulk(db.exec(&["GET", "k"]), "s");
}

#[test]
fn get_against_hash_is_wrongtype() {
    let db = TestDb::new();
    assert_int(db.exec(&["HSET", "h", "f", "v"]), 1);
    assert_wrong_type(db.exec(&["GET", "h"]));
}

// ---- SET expire options -----------------------------------------------------

#[test]
fn set_with_ex_and_px_sets_a_ttl() {
    let db = TestDb::new();
    assert_ok(db.exec(&["SET", "k", "v", "EX", "100"]));
    let ttl = int_of(db.exec(&["TTL", "k"]));
    assert!(ttl > 0 && ttl <= 100, "ttl={ttl}");

    assert_ok(db.exec(&["SET", "k2", "v", "PX", "100000"]));
    let pttl = int_of(db.exec(&["PTTL", "k2"]));
    assert!(pttl > 0 && pttl <= 100_000, "pttl={pttl}");

    // Option names are case-insensitive.
    assert_ok(db.exec(&["SET", "k3", "v", "ex", "100"]));
    let ttl3 = int_of(db.exec(&["TTL", "k3"]));
    assert!(ttl3 > 0 && ttl3 <= 100, "ttl={ttl3}");
}

#[test]
fn set_overwrite_clears_previous_ttl() {
    let db = TestDb::new();
    assert_ok(db.exec(&["SET", "k", "v", "EX", "100"]));
    assert_ok(db.exec(&["SET", "k", "v2"]));
    assert_int(db.exec(&["TTL", "k"]), -1);
}

#[test]
fn set_expire_option_error_paths() {
    let db = TestDb::new();
    // Missing option value / unknown option / EX+PX together: syntax error.
    assert_err_prefix(db.exec(&["SET", "k", "v", "EX"]), "ERR syntax error");
    assert_err_prefix(db.exec(&["SET", "k", "v", "NX"]), "ERR syntax error");
    assert_err_prefix(
        db.exec(&["SET", "k", "v", "EX", "10", "PX", "10000"]),
        "ERR syntax error",
    );
    // Non-integer expire value.
    assert_err_prefix(
        db.exec(&["SET", "k", "v", "EX", "abc"]),
        "ERR value is not an integer or out of range",
    );
    // Zero / negative expire values are rejected like Redis.
    assert_err_prefix(
        db.exec(&["SET", "k", "v", "EX", "0"]),
        "ERR invalid expire time in 'set' command",
    );
    assert_err_prefix(
        db.exec(&["SET", "k", "v", "PX", "-5"]),
        "ERR invalid expire time in 'set' command",
    );
    // A failed SET must not clobber existing data.
    assert_ok(db.exec(&["SET", "k", "keep"]));
    assert_err_prefix(db.exec(&["SET", "k", "v", "EX", "0"]), "ERR invalid");
    assert_bulk(db.exec(&["GET", "k"]), "keep");
}

#[test]
fn set_px_expiry_is_lazy_but_observable() {
    let db = TestDb::new();
    assert_ok(db.exec(&["SET", "t1", "x", "PX", "80"]));
    let pttl = int_of(db.exec(&["PTTL", "t1"]));
    assert!(pttl > 0 && pttl <= 80, "pttl={pttl}");
    wait_ms(150);
    assert_null(db.exec(&["GET", "t1"]));
    assert_int(db.exec(&["EXISTS", "t1"]), 0);
    assert_int(db.exec(&["TTL", "t1"]), -2);
}

// ---- DEL / EXISTS / TYPE ----------------------------------------------------

#[test]
fn del_counts_only_existing_keys() {
    let db = TestDb::new();
    assert_ok(db.exec(&["SET", "a", "1"]));
    assert_ok(db.exec(&["SET", "b", "2"]));
    assert_int(db.exec(&["HSET", "h", "f", "v"]), 1);
    // DEL works across types and skips missing keys.
    assert_int(db.exec(&["DEL", "a", "missing", "b", "h"]), 3);
    assert_int(db.exec(&["EXISTS", "a", "b", "h"]), 0);
}

#[test]
fn exists_counts_each_mention() {
    let db = TestDb::new();
    assert_ok(db.exec(&["SET", "k", "v"]));
    assert_int(db.exec(&["EXISTS", "k"]), 1);
    assert_int(db.exec(&["EXISTS", "k", "k", "missing"]), 2);
    assert_int(db.exec(&["EXISTS", "missing"]), 0);
    assert_wrong_args(db.exec(&["EXISTS"]), "exists");
}

#[test]
fn type_reports_string_hash_none() {
    let db = TestDb::new();
    assert_ok(db.exec(&["SET", "s", "v"]));
    assert_int(db.exec(&["HSET", "h", "f", "v"]), 1);
    assert_simple(db.exec(&["TYPE", "s"]), "string");
    assert_simple(db.exec(&["TYPE", "h"]), "hash");
    assert_simple(db.exec(&["TYPE", "missing"]), "none");
}

// ---- EXPIRE / PEXPIRE / TTL / PTTL -------------------------------------------

#[test]
fn expire_sets_ttl_and_reports_existence() {
    let db = TestDb::new();
    assert_ok(db.exec(&["SET", "k", "v"]));
    assert_int(db.exec(&["EXPIRE", "k", "100"]), 1);
    let ttl = int_of(db.exec(&["TTL", "k"]));
    assert!(ttl > 0 && ttl <= 100, "ttl={ttl}");
    // TTL is reported in seconds rounded *up*: right after EXPIRE 100 the
    // remaining ~99.9s must read as 100, not 99.
    assert_eq!(ttl, 100);
    assert_int(db.exec(&["EXPIRE", "missing", "100"]), 0);
}

#[test]
fn pexpire_uses_milliseconds() {
    let db = TestDb::new();
    assert_ok(db.exec(&["SET", "k", "v"]));
    assert_int(db.exec(&["PEXPIRE", "k", "100000"]), 1);
    let pttl = int_of(db.exec(&["PTTL", "k"]));
    assert!(pttl > 0 && pttl <= 100_000, "pttl={pttl}");
    assert_int(db.exec(&["PEXPIRE", "missing", "1000"]), 0);
}

#[test]
fn expire_applies_to_hashes_too() {
    let db = TestDb::new();
    assert_int(db.exec(&["HSET", "h", "f", "v"]), 1);
    assert_int(db.exec(&["EXPIRE", "h", "100"]), 1);
    let ttl = int_of(db.exec(&["TTL", "h"]));
    assert!(ttl > 0 && ttl <= 100, "ttl={ttl}");
}

#[test]
fn ttl_and_pttl_edge_values() {
    let db = TestDb::new();
    assert_int(db.exec(&["TTL", "missing"]), -2);
    assert_int(db.exec(&["PTTL", "missing"]), -2);
    assert_ok(db.exec(&["SET", "k", "v"]));
    assert_int(db.exec(&["TTL", "k"]), -1);
    assert_int(db.exec(&["PTTL", "k"]), -1);
}

#[test]
fn expire_with_non_positive_amount_deletes_the_key() {
    // Redis: a non-positive EXPIRE deletes the key and still replies 1.
    let db = TestDb::new();
    assert_ok(db.exec(&["SET", "k", "v"]));
    assert_int(db.exec(&["EXPIRE", "k", "0"]), 1);
    assert_null(db.exec(&["GET", "k"]));
    assert_int(db.exec(&["EXISTS", "k"]), 0);

    assert_ok(db.exec(&["SET", "k2", "v"]));
    assert_int(db.exec(&["PEXPIRE", "k2", "-1000"]), 1);
    assert_int(db.exec(&["EXISTS", "k2"]), 0);
}

#[test]
fn expire_error_paths() {
    let db = TestDb::new();
    assert_ok(db.exec(&["SET", "k", "v"]));
    assert_wrong_args(db.exec(&["EXPIRE", "k"]), "expire");
    assert_wrong_args(db.exec(&["PEXPIRE", "k"]), "pexpire");
    assert_err_prefix(
        db.exec(&["EXPIRE", "k", "abc"]),
        "ERR value is not an integer or out of range",
    );
    // Multiplying i64::MAX seconds by 1000 overflows -> invalid expire time.
    assert_err_prefix(
        db.exec(&["EXPIRE", "k", &i64::MAX.to_string()]),
        "ERR invalid expire time in 'expire' command",
    );
    assert_wrong_args(db.exec(&["TTL"]), "ttl");
    assert_wrong_args(db.exec(&["PTTL", "k", "extra"]), "pttl");
}

#[test]
fn ttl_rounds_milliseconds_up_to_seconds() {
    let db = TestDb::new();
    assert_ok(db.exec(&["SET", "k", "v", "PX", "1500"]));
    // 1500ms remaining reads as ceil(1.5s) = 2s.
    assert_eq!(int_of(db.exec(&["TTL", "k"])), 2);
}

#[test]
fn lazily_expired_key_is_gone_from_all_read_paths() {
    let db = TestDb::new();
    // An expiry in the past: the commands must see the key as missing everywhere.
    db.store.borrow_mut().set(b"k", b"v", 1).unwrap();
    assert_null(db.exec(&["GET", "k"]));
    assert_simple(db.exec(&["TYPE", "k"]), "none");
    assert_int(db.exec(&["EXISTS", "k"]), 0);
    assert_int(db.exec(&["DEL", "k"]), 0);
    assert_int(db.exec(&["EXPIRE", "k", "100"]), 0);

    // Deadlines that the commands set lie in the future.
    assert_ok(db.exec(&["SET", "k2", "v", "EX", "100"]));
    assert!(db.store.borrow_mut().pttl(b"k2").unwrap() > 0);
}

// ---------------------------------------------------------------------------
// Hashes.
// ---------------------------------------------------------------------------
/// Collect a RESP2 flat HGETALL array into a map for order-insensitive asserts.
fn flat_to_map(frame: Frame) -> HashMap<Vec<u8>, Vec<u8>> {
    let Frame::Array(items) = frame else {
        panic!("expected flat array, got {frame:?}");
    };
    assert!(items.len() % 2 == 0, "odd flat array: {items:?}");
    items
        .chunks_exact(2)
        .map(|kv| match (&kv[0], &kv[1]) {
            (Frame::Bulk(f), Frame::Bulk(v)) => (f.to_vec(), v.to_vec()),
            other => panic!("expected bulk pair, got {other:?}"),
        })
        .collect()
}

// ---- HSET / HMSET -------------------------------------------------------------

#[test]
fn hset_returns_created_count_and_updates_in_place() {
    let db = TestDb::new();
    assert_int(
        db.exec(&["HSET", "h", "gold", "100", "level", "5", "hp", "42"]),
        3,
    );
    // Updating an existing field creates nothing new.
    assert_int(db.exec(&["HSET", "h", "gold", "200"]), 0);
    assert_bulk(db.exec(&["HGET", "h", "gold"]), "200");
    // Mixed new + existing counts only the new field.
    assert_int(db.exec(&["HSET", "h", "gold", "300", "mana", "7"]), 1);
    assert_int(db.exec(&["HLEN", "h"]), 4);
}

#[test]
fn hmset_replies_ok_instead_of_a_count() {
    let db = TestDb::new();
    assert_ok(db.exec(&["HMSET", "h", "a", "1", "b", "2"]));
    assert_bulk(db.exec(&["HGET", "h", "a"]), "1");
    assert_int(db.exec(&["HLEN", "h"]), 2);
}

#[test]
fn hset_arity_errors_including_odd_tails() {
    let db = TestDb::new();
    assert_wrong_args(db.exec(&["HSET"]), "hset");
    assert_wrong_args(db.exec(&["HSET", "h"]), "hset");
    assert_wrong_args(db.exec(&["HSET", "h", "f"]), "hset");
    // Odd field/value tail reports under the invoked alias.
    assert_wrong_args(db.exec(&["HSET", "h", "a", "1", "b"]), "hset");
    assert_wrong_args(db.exec(&["HMSET", "h", "a", "1", "b"]), "hmset");
    // A failed HSET must not create the key.
    assert_int(db.exec(&["EXISTS", "h"]), 0);
}

#[test]
fn hset_against_string_is_wrongtype() {
    let db = TestDb::new();
    assert_ok(db.exec(&["SET", "s", "v"]));
    assert_wrong_type(db.exec(&["HSET", "s", "f", "v"]));
    assert_wrong_type(db.exec(&["HMSET", "s", "f", "v"]));
}

// ---- HGET / HMGET -------------------------------------------------------------

#[test]
fn hget_normal_and_missing() {
    let db = TestDb::new();
    assert_int(db.exec(&["HSET", "h", "f", "v"]), 1);
    assert_bulk(db.exec(&["HGET", "h", "f"]), "v");
    assert_null(db.exec(&["HGET", "h", "missing-field"]));
    assert_null(db.exec(&["HGET", "missing-key", "f"]));
    assert_wrong_args(db.exec(&["HGET", "h"]), "hget");
    assert_wrong_args(db.exec(&["HGET", "h", "f", "extra"]), "hget");
}

#[test]
fn hget_against_string_is_wrongtype() {
    let db = TestDb::new();
    assert_ok(db.exec(&["SET", "s", "v"]));
    assert_wrong_type(db.exec(&["HGET", "s", "f"]));
    assert_wrong_type(db.exec(&["HMGET", "s", "f"]));
    assert_wrong_type(db.exec(&["HGETALL", "s"]));
    assert_wrong_type(db.exec(&["HDEL", "s", "f"]));
    assert_wrong_type(db.exec(&["HLEN", "s"]));
    assert_wrong_type(db.exec(&["HEXISTS", "s", "f"]));
}

#[test]
fn hmget_preserves_field_order_with_nulls_for_missing() {
    let db = TestDb::new();
    assert_int(db.exec(&["HSET", "h", "gold", "100", "level", "5"]), 2);
    assert_eq!(
        db.exec(&["HMGET", "h", "gold", "level", "missing"]),
        Frame::Array(vec![
            Frame::Bulk(Bytes::from_static(b"100")),
            Frame::Bulk(Bytes::from_static(b"5")),
            Frame::Null,
        ])
    );
    // Missing key -> all nulls (not an error).
    assert_eq!(
        db.exec(&["HMGET", "nope", "a", "b"]),
        Frame::Array(vec![Frame::Null, Frame::Null])
    );
    assert_wrong_args(db.exec(&["HMGET", "h"]), "hmget");
}

// ---- HGETALL ------------------------------------------------------------------

#[test]
fn hgetall_resp2_is_a_flat_array() {
    let db = TestDb::new();
    assert_int(db.exec(&["HSET", "h", "a", "1", "b", "2"]), 2);
    let map = flat_to_map(db.exec(&["HGETALL", "h"]));
    assert_eq!(map.len(), 2);
    assert_eq!(map[b"a".as_slice()], b"1");
    assert_eq!(map[b"b".as_slice()], b"2");
    // Missing key -> empty array.
    assert_eq!(db.exec(&["HGETALL", "nope"]), Frame::Array(vec![]));
    assert_wrong_args(db.exec(&["HGETALL"]), "hgetall");
}

#[test]
fn hgetall_resp3_is_a_native_map() {
    let db = TestDb::new();
    assert_int(db.exec(&["HSET", "h", "a", "1", "b", "2"]), 2);
    let Frame::MapReply(pairs) = db.exec_v(RespVersion::V3, &["HGETALL", "h"]) else {
        panic!("expected RESP3 map");
    };
    let map: HashMap<Vec<u8>, Vec<u8>> = pairs
        .into_iter()
        .map(|(f, v)| match (f, v) {
            (Frame::Bulk(f), Frame::Bulk(v)) => (f.to_vec(), v.to_vec()),
            other => panic!("expected bulk pair, got {other:?}"),
        })
        .collect();
    assert_eq!(map.len(), 2);
    assert_eq!(map[b"a".as_slice()], b"1");
    // Missing key -> empty map under RESP3.
    assert_eq!(
        db.exec_v(RespVersion::V3, &["HGETALL", "nope"]),
        Frame::MapReply(vec![])
    );
}

// ---- HDEL / HLEN / HEXISTS ------------------------------------------------------

#[test]
fn hdel_counts_removed_fields_and_drops_empty_hashes() {
    let db = TestDb::new();
    assert_int(db.exec(&["HSET", "h", "a", "1", "b", "2", "c", "3"]), 3);
    assert_int(db.exec(&["HDEL", "h", "a", "missing", "b"]), 2);
    assert_int(db.exec(&["HLEN", "h"]), 1);
    // Removing the last field deletes the key entirely.
    assert_int(db.exec(&["HDEL", "h", "c"]), 1);
    assert_int(db.exec(&["EXISTS", "h"]), 0);
    assert_simple(db.exec(&["TYPE", "h"]), "none");
    // HDEL on a missing key returns 0.
    assert_int(db.exec(&["HDEL", "h", "a"]), 0);
    assert_wrong_args(db.exec(&["HDEL", "h"]), "hdel");
}

#[test]
fn hlen_and_hexists_normal_and_missing() {
    let db = TestDb::new();
    assert_int(db.exec(&["HSET", "h", "hp", "42"]), 1);
    assert_int(db.exec(&["HLEN", "h"]), 1);
    assert_int(db.exec(&["HLEN", "missing"]), 0);
    assert_int(db.exec(&["HEXISTS", "h", "hp"]), 1);
    assert_int(db.exec(&["HEXISTS", "h", "mana"]), 0);
    assert_int(db.exec(&["HEXISTS", "missing", "hp"]), 0);
    assert_wrong_args(db.exec(&["HLEN"]), "hlen");
    assert_wrong_args(db.exec(&["HEXISTS", "h"]), "hexists");
}

// ---- binary safety ---------------------------------------------------------------

#[test]
fn hash_fields_and_values_are_binary_safe() {
    let db = TestDb::new();
    let field = b"\x00\xfffield";
    let value = b"va\r\nlue\x00";
    let args: Vec<Bytes> = vec![
        Bytes::from_static(b"HSET"),
        Bytes::from_static(b"h"),
        Bytes::from_static(field),
        Bytes::from_static(value),
    ];
    let mut store = db.store.borrow_mut();
    let mut ctx = ExecCtx::new(&mut *store, RespVersion::V2);
    assert_eq!(db.registry.dispatch(&mut ctx, &args), Frame::Integer(1));

    let get: Vec<Bytes> = vec![
        Bytes::from_static(b"HGET"),
        Bytes::from_static(b"h"),
        Bytes::from_static(field),
    ];
    assert_eq!(
        db.registry.dispatch(&mut ctx, &get),
        Frame::Bulk(Bytes::from_static(value))
    );
}

// ---------------------------------------------------------------------------
// Sets.
// ---------------------------------------------------------------------------
/// Collect an array/set reply's bulk items for order-insensitive asserts.
fn members_of(frame: Frame) -> BTreeSet<Vec<u8>> {
    let items = match frame {
        Frame::Array(items) | Frame::SetReply(items) => items,
        other => panic!("expected array/set, got {other:?}"),
    };
    items
        .into_iter()
        .map(|f| match f {
            Frame::Bulk(b) => b.to_vec(),
            other => panic!("expected bulk member, got {other:?}"),
        })
        .collect()
}

#[test]
fn sadd_counts_only_new_members() {
    let db = TestDb::new();
    assert_int(db.exec(&["SADD", "s", "a", "b", "c"]), 3);
    // Existing members add nothing; new ones count.
    assert_int(db.exec(&["SADD", "s", "a", "d"]), 1);
    // Duplicates within one call count once.
    assert_int(db.exec(&["SADD", "s", "e", "e", "e"]), 1);
    assert_int(db.exec(&["SCARD", "s"]), 5);
    assert_simple(db.exec(&["TYPE", "s"]), "set");
    assert_wrong_args(db.exec(&["SADD", "s"]), "sadd");
    assert_wrong_args(db.exec(&["SADD"]), "sadd");
}

#[test]
fn srem_counts_removed_and_drops_empty_sets() {
    let db = TestDb::new();
    assert_int(db.exec(&["SADD", "s", "a", "b", "c"]), 3);
    assert_int(db.exec(&["SREM", "s", "a", "missing", "b"]), 2);
    assert_int(db.exec(&["SCARD", "s"]), 1);
    // Removing the last member deletes the key entirely.
    assert_int(db.exec(&["SREM", "s", "c"]), 1);
    assert_int(db.exec(&["EXISTS", "s"]), 0);
    assert_simple(db.exec(&["TYPE", "s"]), "none");
    // SREM on a missing key returns 0.
    assert_int(db.exec(&["SREM", "s", "a"]), 0);
    assert_wrong_args(db.exec(&["SREM", "s"]), "srem");
}

#[test]
fn sismember_yes_no_and_missing_key() {
    let db = TestDb::new();
    assert_int(db.exec(&["SADD", "s", "a"]), 1);
    assert_int(db.exec(&["SISMEMBER", "s", "a"]), 1);
    assert_int(db.exec(&["SISMEMBER", "s", "b"]), 0);
    assert_int(db.exec(&["SISMEMBER", "missing", "a"]), 0);
    assert_wrong_args(db.exec(&["SISMEMBER", "s"]), "sismember");
    assert_wrong_args(db.exec(&["SISMEMBER", "s", "a", "b"]), "sismember");
}

#[test]
fn smembers_resp2_array_resp3_set() {
    let db = TestDb::new();
    assert_int(db.exec(&["SADD", "s", "a", "b"]), 2);

    let v2 = db.exec(&["SMEMBERS", "s"]);
    assert!(matches!(v2, Frame::Array(_)), "RESP2 shape: {v2:?}");
    assert_eq!(
        members_of(v2),
        BTreeSet::from([b"a".to_vec(), b"b".to_vec()])
    );

    let v3 = db.exec_v(RespVersion::V3, &["SMEMBERS", "s"]);
    assert!(matches!(v3, Frame::SetReply(_)), "RESP3 shape: {v3:?}");
    assert_eq!(
        members_of(v3),
        BTreeSet::from([b"a".to_vec(), b"b".to_vec()])
    );

    // Missing key -> empty collection, not an error.
    assert_eq!(db.exec(&["SMEMBERS", "nope"]), Frame::Array(vec![]));
    assert_eq!(
        db.exec_v(RespVersion::V3, &["SMEMBERS", "nope"]),
        Frame::SetReply(vec![])
    );
    assert_wrong_args(db.exec(&["SMEMBERS"]), "smembers");
}

#[test]
fn scard_normal_and_missing() {
    let db = TestDb::new();
    assert_int(db.exec(&["SCARD", "missing"]), 0);
    assert_int(db.exec(&["SADD", "s", "a", "b"]), 2);
    assert_int(db.exec(&["SCARD", "s"]), 2);
    assert_wrong_args(db.exec(&["SCARD"]), "scard");
    assert_wrong_args(db.exec(&["SCARD", "s", "extra"]), "scard");
}

#[test]
fn set_commands_against_other_types_are_wrongtype() {
    let db = TestDb::new();
    assert_ok(db.exec(&["SET", "str", "v"]));
    for cmd in [
        vec!["SADD", "str", "m"],
        vec!["SREM", "str", "m"],
        vec!["SISMEMBER", "str", "m"],
        vec!["SMEMBERS", "str"],
        vec!["SCARD", "str"],
    ] {
        assert_wrong_type(db.exec(&cmd));
    }
    // And the reverse: other type families reject a Set key.
    assert_int(db.exec(&["SADD", "s", "m"]), 1);
    assert_wrong_type(db.exec(&["GET", "s"]));
    assert_wrong_type(db.exec(&["HGET", "s", "f"]));
    assert_wrong_type(db.exec(&["LPUSH", "s", "v"]));
    assert_wrong_type(db.exec(&["ZADD", "s", "1", "m"]));
}

#[test]
fn generic_commands_apply_to_sets() {
    let db = TestDb::new();
    assert_int(db.exec(&["SADD", "s", "a"]), 1);
    assert_int(db.exec(&["EXISTS", "s"]), 1);
    assert_int(db.exec(&["EXPIRE", "s", "100"]), 1);
    let ttl = int_of(db.exec(&["TTL", "s"]));
    assert!(ttl > 0 && ttl <= 100, "ttl={ttl}");
    assert_int(db.exec(&["DEL", "s"]), 1);
    assert_int(db.exec(&["EXISTS", "s"]), 0);
}

// ---------------------------------------------------------------------------
// Sorted sets.
// ---------------------------------------------------------------------------
fn bulk_frame(s: &str) -> Frame {
    Frame::Bulk(Bytes::copy_from_slice(s.as_bytes()))
}

// ---- ZADD ----------------------------------------------------------------------

#[test]
fn zadd_counts_new_members_and_updates_scores() {
    let db = TestDb::new();
    assert_int(db.exec(&["ZADD", "z", "1", "a", "2", "b"]), 2);
    // Score update of an existing member counts zero.
    assert_int(db.exec(&["ZADD", "z", "5", "a"]), 0);
    assert_bulk(db.exec(&["ZSCORE", "z", "a"]), "5");
    // Duplicate member in one call: last score wins, counted once.
    assert_int(db.exec(&["ZADD", "z", "1", "c", "9", "c"]), 1);
    assert_bulk(db.exec(&["ZSCORE", "z", "c"]), "9");
    assert_int(db.exec(&["ZCARD", "z"]), 3);
    assert_simple(db.exec(&["TYPE", "z"]), "zset");
}

#[test]
fn zadd_score_syntax_and_arity_errors() {
    let db = TestDb::new();
    assert_wrong_args(db.exec(&["ZADD", "z", "1"]), "zadd");
    // Odd score/member tail is a syntax error in Redis.
    assert_err_prefix(db.exec(&["ZADD", "z", "1", "a", "2"]), "ERR syntax error");
    assert_err_prefix(
        db.exec(&["ZADD", "z", "notanumber", "a"]),
        "ERR value is not a valid float",
    );
    assert_err_prefix(
        db.exec(&["ZADD", "z", "nan", "a"]),
        "ERR value is not a valid float",
    );
    // Unsupported flags are rejected loudly, not silently misparsed.
    assert_err_prefix(db.exec(&["ZADD", "z", "NX", "1", "a"]), "ERR syntax error");
    assert_err_prefix(db.exec(&["ZADD", "z", "GT", "1", "a"]), "ERR syntax error");
    // Nothing was created by the failed calls.
    assert_int(db.exec(&["EXISTS", "z"]), 0);
}

#[test]
fn zadd_accepts_infinity_and_scientific_notation() {
    let db = TestDb::new();
    assert_int(
        db.exec(&["ZADD", "z", "-inf", "low", "+inf", "high", "1e2", "mid"]),
        3,
    );
    assert_bulk(db.exec(&["ZSCORE", "z", "low"]), "-inf");
    assert_bulk(db.exec(&["ZSCORE", "z", "high"]), "inf");
    assert_bulk(db.exec(&["ZSCORE", "z", "mid"]), "100");
    assert_eq!(
        db.exec(&["ZRANGE", "z", "0", "-1"]),
        Frame::Array(vec![
            bulk_frame("low"),
            bulk_frame("mid"),
            bulk_frame("high")
        ])
    );
}

// ---- ZSCORE ---------------------------------------------------------------------

#[test]
fn zscore_shapes_and_missing() {
    let db = TestDb::new();
    assert_int(db.exec(&["ZADD", "z", "1.5", "m"]), 1);
    // RESP2: bulk string; RESP3: native double.
    assert_bulk(db.exec(&["ZSCORE", "z", "m"]), "1.5");
    assert_eq!(
        db.exec_v(RespVersion::V3, &["ZSCORE", "z", "m"]),
        Frame::Double(1.5f64.to_bits())
    );
    assert_null(db.exec(&["ZSCORE", "z", "missing"]));
    assert_null(db.exec(&["ZSCORE", "missing", "m"]));
    assert_wrong_args(db.exec(&["ZSCORE", "z"]), "zscore");
    // Integral scores print without a decimal point (Redis convention).
    assert_int(db.exec(&["ZADD", "z", "42", "n"]), 1);
    assert_bulk(db.exec(&["ZSCORE", "z", "n"]), "42");
}

// ---- ZRANGE ---------------------------------------------------------------------

#[test]
fn zrange_ranks_negatives_and_withscores() {
    let db = TestDb::new();
    assert_int(db.exec(&["ZADD", "z", "1", "a", "2", "b", "3", "c"]), 3);
    assert_eq!(
        db.exec(&["ZRANGE", "z", "0", "-1"]),
        Frame::Array(vec![bulk_frame("a"), bulk_frame("b"), bulk_frame("c")])
    );
    assert_eq!(
        db.exec(&["ZRANGE", "z", "1", "1"]),
        Frame::Array(vec![bulk_frame("b")])
    );
    assert_eq!(
        db.exec(&["ZRANGE", "z", "-2", "-1"]),
        Frame::Array(vec![bulk_frame("b"), bulk_frame("c")])
    );
    // Empty for inverted / out-of-range ranks; missing key -> empty array.
    assert_eq!(db.exec(&["ZRANGE", "z", "5", "9"]), Frame::Array(vec![]));
    assert_eq!(
        db.exec(&["ZRANGE", "nope", "0", "-1"]),
        Frame::Array(vec![])
    );

    // WITHSCORES: RESP2 flattens member,score; RESP3 nests pairs with doubles.
    assert_eq!(
        db.exec(&["ZRANGE", "z", "0", "1", "WITHSCORES"]),
        Frame::Array(vec![
            bulk_frame("a"),
            bulk_frame("1"),
            bulk_frame("b"),
            bulk_frame("2"),
        ])
    );
    assert_eq!(
        db.exec_v(RespVersion::V3, &["ZRANGE", "z", "0", "1", "WITHSCORES"]),
        Frame::Array(vec![
            Frame::Array(vec![bulk_frame("a"), Frame::Double(1.0f64.to_bits())]),
            Frame::Array(vec![bulk_frame("b"), Frame::Double(2.0f64.to_bits())]),
        ])
    );

    assert_eq!(
        db.exec(&["ZRANGE", "z", "x", "-1"]),
        Frame::Error("ERR value is not an integer or out of range".into())
    );
    assert_err_prefix(
        db.exec(&["ZRANGE", "z", "0", "-1", "REV"]),
        "ERR syntax error",
    );
    assert_wrong_args(db.exec(&["ZRANGE", "z", "0"]), "zrange");
}

#[test]
fn zrange_ties_break_lexicographically() {
    let db = TestDb::new();
    assert_int(db.exec(&["ZADD", "z", "1", "bb", "1", "aa", "1", "cc"]), 3);
    assert_eq!(
        db.exec(&["ZRANGE", "z", "0", "-1"]),
        Frame::Array(vec![bulk_frame("aa"), bulk_frame("bb"), bulk_frame("cc")])
    );
}

// ---- ZRANGEBYSCORE ---------------------------------------------------------------

#[test]
fn zrangebyscore_bounds_inclusive_exclusive_infinite() {
    let db = TestDb::new();
    assert_int(db.exec(&["ZADD", "z", "1", "a", "2", "b", "3", "c"]), 3);
    assert_eq!(
        db.exec(&["ZRANGEBYSCORE", "z", "1", "2"]),
        Frame::Array(vec![bulk_frame("a"), bulk_frame("b")])
    );
    // Exclusive bounds.
    assert_eq!(
        db.exec(&["ZRANGEBYSCORE", "z", "(1", "3"]),
        Frame::Array(vec![bulk_frame("b"), bulk_frame("c")])
    );
    assert_eq!(
        db.exec(&["ZRANGEBYSCORE", "z", "(1", "(3"]),
        Frame::Array(vec![bulk_frame("b")])
    );
    // Infinite bounds.
    assert_eq!(
        db.exec(&["ZRANGEBYSCORE", "z", "-inf", "+inf"]),
        Frame::Array(vec![bulk_frame("a"), bulk_frame("b"), bulk_frame("c")])
    );
    // Empty results and missing key.
    assert_eq!(
        db.exec(&["ZRANGEBYSCORE", "z", "9", "10"]),
        Frame::Array(vec![])
    );
    assert_eq!(
        db.exec(&["ZRANGEBYSCORE", "nope", "-inf", "+inf"]),
        Frame::Array(vec![])
    );
    // WITHSCORES + LIMIT.
    assert_eq!(
        db.exec(&["ZRANGEBYSCORE", "z", "-inf", "+inf", "WITHSCORES"]),
        Frame::Array(vec![
            bulk_frame("a"),
            bulk_frame("1"),
            bulk_frame("b"),
            bulk_frame("2"),
            bulk_frame("c"),
            bulk_frame("3"),
        ])
    );
    assert_eq!(
        db.exec(&["ZRANGEBYSCORE", "z", "-inf", "+inf", "LIMIT", "1", "1"]),
        Frame::Array(vec![bulk_frame("b")])
    );
    // Negative count = "everything from offset"; negative offset = nothing.
    assert_eq!(
        db.exec(&["ZRANGEBYSCORE", "z", "-inf", "+inf", "LIMIT", "1", "-1"]),
        Frame::Array(vec![bulk_frame("b"), bulk_frame("c")])
    );
    assert_eq!(
        db.exec(&["ZRANGEBYSCORE", "z", "-inf", "+inf", "LIMIT", "-1", "2"]),
        Frame::Array(vec![])
    );
    // Errors.
    assert_err_prefix(
        db.exec(&["ZRANGEBYSCORE", "z", "abc", "2"]),
        "ERR min or max is not a float",
    );
    assert_err_prefix(
        db.exec(&["ZRANGEBYSCORE", "z", "1", "2", "NOPE"]),
        "ERR syntax error",
    );
    assert_err_prefix(
        db.exec(&["ZRANGEBYSCORE", "z", "1", "2", "LIMIT", "1"]),
        "ERR syntax error",
    );
    assert_wrong_args(db.exec(&["ZRANGEBYSCORE", "z", "1"]), "zrangebyscore");
}

// ---- ZREM / ZCARD ------------------------------------------------------------------

#[test]
fn zrem_counts_removed_and_drops_empty_zsets() {
    let db = TestDb::new();
    assert_int(db.exec(&["ZADD", "z", "1", "a", "2", "b"]), 2);
    assert_int(db.exec(&["ZREM", "z", "a", "missing"]), 1);
    assert_int(db.exec(&["ZCARD", "z"]), 1);
    // Removing the last member deletes the key.
    assert_int(db.exec(&["ZREM", "z", "b"]), 1);
    assert_int(db.exec(&["EXISTS", "z"]), 0);
    assert_simple(db.exec(&["TYPE", "z"]), "none");
    assert_int(db.exec(&["ZREM", "z", "a"]), 0);
    assert_int(db.exec(&["ZCARD", "missing"]), 0);
    assert_wrong_args(db.exec(&["ZREM", "z"]), "zrem");
    assert_wrong_args(db.exec(&["ZCARD"]), "zcard");
}

// ---- cross-type / generic -----------------------------------------------------------

#[test]
fn zset_commands_against_other_types_are_wrongtype() {
    let db = TestDb::new();
    assert_ok(db.exec(&["SET", "str", "v"]));
    for cmd in [
        vec!["ZADD", "str", "1", "m"],
        vec!["ZSCORE", "str", "m"],
        vec!["ZRANGE", "str", "0", "-1"],
        vec!["ZRANGEBYSCORE", "str", "-inf", "+inf"],
        vec!["ZREM", "str", "m"],
        vec!["ZCARD", "str"],
    ] {
        assert_wrong_type(db.exec(&cmd));
    }
}

#[test]
fn generic_commands_apply_to_zsets() {
    let db = TestDb::new();
    assert_int(db.exec(&["ZADD", "z", "1", "m"]), 1);
    assert_int(db.exec(&["EXISTS", "z"]), 1);
    assert_int(db.exec(&["EXPIRE", "z", "100"]), 1);
    let ttl = int_of(db.exec(&["TTL", "z"]));
    assert!(ttl > 0 && ttl <= 100, "ttl={ttl}");
    assert_int(db.exec(&["DEL", "z"]), 1);
    assert_int(db.exec(&["EXISTS", "z"]), 0);
}

// ---------------------------------------------------------------------------
// Lists.
// ---------------------------------------------------------------------------
fn assert_list(frame: Frame, want: &[&str]) {
    assert_eq!(
        frame,
        Frame::Array(want.iter().map(|s| bulk_frame(s)).collect::<Vec<_>>())
    );
}

// ---- LPUSH / RPUSH ---------------------------------------------------------------

#[test]
fn push_returns_length_and_orders_correctly() {
    let db = TestDb::new();
    // RPUSH appends left-to-right; LPUSH prepends one by one (reversing).
    assert_int(db.exec(&["RPUSH", "l", "a", "b"]), 2);
    assert_int(db.exec(&["LPUSH", "l", "x", "y"]), 4);
    assert_list(db.exec(&["LRANGE", "l", "0", "-1"]), &["y", "x", "a", "b"]);
    assert_simple(db.exec(&["TYPE", "l"]), "list");
    assert_int(db.exec(&["LLEN", "l"]), 4);
    assert_wrong_args(db.exec(&["LPUSH", "l"]), "lpush");
    assert_wrong_args(db.exec(&["RPUSH"]), "rpush");
}

// ---- LPOP / RPOP -----------------------------------------------------------------

#[test]
fn pop_without_count_returns_bulk_or_nil() {
    let db = TestDb::new();
    assert_int(db.exec(&["RPUSH", "l", "a", "b", "c"]), 3);
    assert_bulk(db.exec(&["LPOP", "l"]), "a");
    assert_bulk(db.exec(&["RPOP", "l"]), "c");
    assert_int(db.exec(&["LLEN", "l"]), 1);
    // Popping the last element deletes the key.
    assert_bulk(db.exec(&["LPOP", "l"]), "b");
    assert_int(db.exec(&["EXISTS", "l"]), 0);
    assert_simple(db.exec(&["TYPE", "l"]), "none");
    assert_null(db.exec(&["LPOP", "l"]));
    assert_null(db.exec(&["RPOP", "missing"]));
}

#[test]
fn pop_with_count_returns_array_semantics() {
    let db = TestDb::new();
    assert_int(db.exec(&["RPUSH", "l", "a", "b", "c"]), 3);
    // count pops in order from the chosen end.
    assert_list(db.exec(&["LPOP", "l", "2"]), &["a", "b"]);
    assert_int(db.exec(&["RPUSH", "l", "d", "e"]), 3);
    assert_list(db.exec(&["RPOP", "l", "2"]), &["e", "d"]);
    // count larger than the list drains it (and deletes the key).
    assert_list(db.exec(&["LPOP", "l", "99"]), &["c"]);
    assert_int(db.exec(&["EXISTS", "l"]), 0);
    // count on a missing key -> nil; count 0 on an existing key -> empty array.
    assert_null(db.exec(&["LPOP", "l", "2"]));
    assert_int(db.exec(&["RPUSH", "l", "x"]), 1);
    assert_list(db.exec(&["LPOP", "l", "0"]), &[]);
    assert_int(db.exec(&["LLEN", "l"]), 1);
    // Errors: negative or non-integer count, too many arguments.
    assert_err_prefix(
        db.exec(&["LPOP", "l", "-1"]),
        "ERR value is out of range, must be positive",
    );
    assert_err_prefix(
        db.exec(&["LPOP", "l", "abc"]),
        "ERR value is not an integer or out of range",
    );
    assert_wrong_args(db.exec(&["LPOP", "l", "1", "extra"]), "lpop");
    assert_wrong_args(db.exec(&["RPOP", "l", "1", "extra"]), "rpop");
    assert_wrong_args(db.exec(&["LPOP"]), "lpop");
}

// ---- LRANGE / LLEN ------------------------------------------------------------------

#[test]
fn lrange_indexes_and_clamping() {
    let db = TestDb::new();
    assert_int(db.exec(&["RPUSH", "l", "a", "b", "c", "d"]), 4);
    assert_list(db.exec(&["LRANGE", "l", "0", "-1"]), &["a", "b", "c", "d"]);
    assert_list(db.exec(&["LRANGE", "l", "1", "2"]), &["b", "c"]);
    assert_list(db.exec(&["LRANGE", "l", "-2", "-1"]), &["c", "d"]);
    // Out-of-bounds indexes clamp; inverted ranges are empty.
    assert_list(
        db.exec(&["LRANGE", "l", "-100", "100"]),
        &["a", "b", "c", "d"],
    );
    assert_list(db.exec(&["LRANGE", "l", "3", "1"]), &[]);
    assert_list(db.exec(&["LRANGE", "l", "9", "12"]), &[]);
    // Missing key -> empty array.
    assert_list(db.exec(&["LRANGE", "missing", "0", "-1"]), &[]);
    // Errors.
    assert_eq!(
        db.exec(&["LRANGE", "l", "x", "-1"]),
        Frame::Error("ERR value is not an integer or out of range".into())
    );
    assert_wrong_args(db.exec(&["LRANGE", "l", "0"]), "lrange");
    assert_wrong_args(db.exec(&["LRANGE", "l", "0", "1", "2"]), "lrange");
}

#[test]
fn llen_normal_and_missing() {
    let db = TestDb::new();
    assert_int(db.exec(&["LLEN", "missing"]), 0);
    assert_int(db.exec(&["RPUSH", "l", "a", "b"]), 2);
    assert_int(db.exec(&["LLEN", "l"]), 2);
    assert_wrong_args(db.exec(&["LLEN"]), "llen");
    assert_wrong_args(db.exec(&["LLEN", "l", "extra"]), "llen");
}

// ---- cross-type / generic ------------------------------------------------------------

#[test]
fn list_commands_against_other_types_are_wrongtype() {
    let db = TestDb::new();
    assert_ok(db.exec(&["SET", "str", "v"]));
    for cmd in [
        vec!["LPUSH", "str", "v"],
        vec!["RPUSH", "str", "v"],
        vec!["LPOP", "str"],
        vec!["RPOP", "str", "2"],
        vec!["LRANGE", "str", "0", "-1"],
        vec!["LLEN", "str"],
    ] {
        assert_wrong_type(db.exec(&cmd));
    }
    // And the reverse: a List key rejects other families.
    assert_int(db.exec(&["RPUSH", "l", "v"]), 1);
    assert_wrong_type(db.exec(&["GET", "l"]));
    assert_wrong_type(db.exec(&["SADD", "l", "m"]));
    assert_wrong_type(db.exec(&["ZCARD", "l"]));
}

#[test]
fn generic_commands_apply_to_lists() {
    let db = TestDb::new();
    assert_int(db.exec(&["RPUSH", "l", "v"]), 1);
    assert_int(db.exec(&["EXISTS", "l"]), 1);
    assert_int(db.exec(&["EXPIRE", "l", "100"]), 1);
    let ttl = int_of(db.exec(&["TTL", "l"]));
    assert!(ttl > 0 && ttl <= 100, "ttl={ttl}");
    assert_int(db.exec(&["DEL", "l"]), 1);
    assert_int(db.exec(&["EXISTS", "l"]), 0);
}

// ---------------------------------------------------------------------------
// A session that goes through the commands.
// ---------------------------------------------------------------------------
fn hgetall_as_map(db: &TestDb, key: &str) -> HashMap<Vec<u8>, Vec<u8>> {
    let Frame::Array(items) = db.exec(&["HGETALL", key]) else {
        panic!("expected flat array");
    };
    items
        .chunks_exact(2)
        .map(|kv| match (&kv[0], &kv[1]) {
            (Frame::Bulk(f), Frame::Bulk(v)) => (f.to_vec(), v.to_vec()),
            other => panic!("expected bulk pair, got {other:?}"),
        })
        .collect()
}

#[test]
fn spike_functional_suite_connectivity_string_ttl_hash() {
    let db = TestDb::new();

    // --- connectivity ---
    assert_simple(db.exec(&["PING"]), "PONG"); // PING
    assert_bulk(db.exec(&["ECHO", "hi"]), "hi"); // ECHO

    // --- String ---
    assert_ok(db.exec(&["SET", "k1", "v1"])); // SET
    assert_bulk(db.exec(&["GET", "k1"]), "v1"); // GET
    assert_null(db.exec(&["GET", "nope"])); // GET missing
    assert_simple(db.exec(&["TYPE", "k1"]), "string"); // TYPE string
    assert_int(db.exec(&["EXISTS", "k1"]), 1); // EXISTS
    assert_int(db.exec(&["DEL", "k1"]), 1); // DEL
    assert_null(db.exec(&["GET", "k1"])); // GET after DEL
    assert_int(db.exec(&["EXISTS", "k1"]), 0); // EXISTS after DEL

    // --- String overwrite + TTL ---
    assert_ok(db.exec(&["SET", "t1", "x", "PX", "150"]));
    let pttl = int_of(db.exec(&["PTTL", "t1"]));
    assert!(0 < pttl && pttl <= 150, "pttl={pttl}"); // PTTL set
    wait_ms(250);
    assert_null(db.exec(&["GET", "t1"])); // GET after expiry
    assert_int(db.exec(&["TTL", "missing"]), -2); // TTL missing key
    assert_ok(db.exec(&["SET", "t2", "y"]));
    assert_int(db.exec(&["TTL", "t2"]), -1); // TTL no expiry

    // --- Hash (player data, the main carrier) ---
    let player = "player:{1001}";
    assert_int(
        db.exec(&["HSET", player, "gold", "100", "level", "5", "hp", "42"]),
        3,
    ); // HSET new fields
    assert_bulk(db.exec(&["HGET", player, "gold"]), "100"); // HGET
    assert_int(db.exec(&["HLEN", player]), 3); // HLEN
    assert_int(db.exec(&["HEXISTS", player, "hp"]), 1); // HEXISTS yes
    assert_int(db.exec(&["HEXISTS", player, "mana"]), 0); // HEXISTS no
    assert_eq!(
        db.exec(&["HMGET", player, "gold", "level", "missing"]),
        Frame::Array(vec![
            Frame::Bulk("100".into()),
            Frame::Bulk("5".into()),
            Frame::Null,
        ])
    ); // HMGET
    let all = hgetall_as_map(&db, player);
    let want: HashMap<Vec<u8>, Vec<u8>> = [
        (b"gold".to_vec(), b"100".to_vec()),
        (b"level".to_vec(), b"5".to_vec()),
        (b"hp".to_vec(), b"42".to_vec()),
    ]
    .into_iter()
    .collect();
    assert_eq!(all, want); // HGETALL
    assert_simple(db.exec(&["TYPE", player]), "hash"); // TYPE hash
    assert_int(db.exec(&["HSET", player, "gold", "200"]), 0); // HSET update existing
    assert_bulk(db.exec(&["HGET", player, "gold"]), "200"); // HGET updated
    assert_int(db.exec(&["HDEL", player, "hp"]), 1); // HDEL
    assert_int(db.exec(&["HLEN", player]), 2); // HLEN after HDEL
}

#[test]
fn spike_functional_suite_version_gc_via_compaction_filter() {
    // A fresh store, so that RAWCOUNT reflects only this hash's records.
    let db = TestDb::new();
    let big = "player:{gc}";
    let mut args: Vec<String> = vec!["HSET".into(), big.into()];
    for i in 0..200 {
        args.push(format!("f{i}"));
        args.push(i.to_string());
    }
    let arg_refs: Vec<&str> = args.iter().map(String::as_str).collect();
    assert_int(db.exec(&arg_refs), 200);

    let raw_before = int_of(db.exec(&["RAWCOUNT"]));
    assert!(raw_before >= 200, "raw_before={raw_before}"); // RAWCOUNT has subkeys before DEL
    assert_int(db.exec(&["DEL", big]), 1); // DEL big hash (O(1) version bump)
    assert_ok(db.exec(&["COMPACT"]));
    assert_int(db.exec(&["RAWCOUNT"]), 0); // subkeys reclaimed by compaction filter

    // --- Rebuild after delete uses a fresh version (no stale leakage) ---
    assert_int(db.exec(&["HSET", big, "a", "1", "b", "2"]), 2);
    assert_int(db.exec(&["DEL", big]), 1);
    assert_int(db.exec(&["HSET", big, "only", "new"]), 1); // recreated; old version orphaned
    assert_ok(db.exec(&["COMPACT"]));
    let all = hgetall_as_map(&db, big);
    let want: HashMap<Vec<u8>, Vec<u8>> =
        [(b"only".to_vec(), b"new".to_vec())].into_iter().collect();
    assert_eq!(all, want); // recreated hash sees only new fields
    assert_int(db.exec(&["HLEN", big]), 1); // recreated hash HLEN
}

#[test]
fn spike_functional_suite_dbsize_on_fresh_db() {
    let db = TestDb::new();
    assert_int(db.exec(&["DBSIZE"]), 0); // DBSIZE after flush
}
