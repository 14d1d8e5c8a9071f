//! What a data node does with requests.
use std::cell::RefCell;

use bytes::Bytes;
use gamestore::datamodel::{Command, CommandRegistry};
use gamestore::datanode::server::{dispatch, hello, Action};
use gamestore::engine::{MemEngine, Store};
use gamestore::protocol::{Frame, RespVersion};

struct TestCtx {
    store: RefCell<Store<MemEngine>>,
    registry: CommandRegistry<Command>,
}

impl TestCtx {
    fn new() -> Self {
        TestCtx {
            store: RefCell::new(Store::with_engine(MemEngine::new()).expect("open store")),
            registry: CommandRegistry::standard(),
        }
    }

    fn dispatch(&self, parts: &[&str]) -> Action {
        self.dispatch_v(parts, RespVersion::V2)
    }

    fn dispatch_v(&self, parts: &[&str], version: RespVersion) -> Action {
        let args: Vec<Bytes> = parts
            .iter()
            .map(|s| Bytes::from(s.as_bytes().to_vec()))
            .collect();
        dispatch(&args, version, 7, &mut *self.store.borrow_mut(), &self.registry)
    }
}

#[test]
fn data_commands_reach_the_registry() {
    let ctx = TestCtx::new();
    assert_eq!(ctx.dispatch(&["SET", "k", "v"]).reply, Frame::ok());
    assert_eq!(
        ctx.dispatch(&["GET", "k"]).reply,
        Frame::Bulk(Bytes::from_static(b"v"))
    );
    assert_eq!(
        ctx.dispatch(&["HSET", "h", "f", "1"]).reply,
        Frame::Integer(1)
    );
    assert_eq!(
        ctx.dispatch(&["HGET", "h", "f"]).reply,
        Frame::Bulk(Bytes::from_static(b"1"))
    );
}

#[test]
fn ping_is_case_insensitive_and_registry_backed() {
    let ctx = TestCtx::new();
    let action = ctx.dispatch(&["ping"]);
    assert!(matches!(action.reply, Frame::Simple(s) if s == "PONG"));
    assert!(!action.close);
}

#[test]
fn unknown_command_uses_canonical_wording() {
    let ctx = TestCtx::new();
    let action = ctx.dispatch(&["NOSUCHCMD", "x"]);
    assert_eq!(
        action.reply,
        Frame::Error("ERR unknown command 'NOSUCHCMD'".to_string())
    );
}

#[test]
fn quit_closes_connection() {
    let ctx = TestCtx::new();
    let action = ctx.dispatch(&["QUIT"]);
    assert!(action.close);
    assert_eq!(action.reply, Frame::ok());
}

#[test]
fn flushdb_clears_the_store() {
    let ctx = TestCtx::new();
    ctx.dispatch(&["SET", "k", "v"]);
    ctx.dispatch(&["HSET", "h", "f", "1"]);
    assert_eq!(ctx.dispatch(&["DBSIZE"]).reply, Frame::Integer(2));
    assert_eq!(ctx.dispatch(&["FLUSHDB"]).reply, Frame::ok());
    assert_eq!(ctx.dispatch(&["DBSIZE"]).reply, Frame::Integer(0));
    assert_eq!(ctx.dispatch(&["GET", "k"]).reply, Frame::Null);
}

#[test]
fn flushall_accepts_async_and_sync_modifiers() {
    let ctx = TestCtx::new();
    assert_eq!(ctx.dispatch(&["FLUSHALL"]).reply, Frame::ok());
    assert_eq!(ctx.dispatch(&["FLUSHALL", "ASYNC"]).reply, Frame::ok());
    assert_eq!(ctx.dispatch(&["FLUSHDB", "sync"]).reply, Frame::ok());
    assert_eq!(
        ctx.dispatch(&["FLUSHDB", "nope"]).reply,
        Frame::Error("ERR syntax error".to_string())
    );
}

#[test]
fn client_housekeeping_is_tolerated() {
    let ctx = TestCtx::new();
    assert_eq!(
        ctx.dispatch(&["CLIENT", "SETINFO", "lib-name", "redis-py"])
            .reply,
        Frame::ok()
    );
    assert_eq!(
        ctx.dispatch(&["CLIENT", "SETNAME", "me"]).reply,
        Frame::ok()
    );
    assert_eq!(ctx.dispatch(&["CLIENT", "ID"]).reply, Frame::Integer(7));
    assert_eq!(
        ctx.dispatch(&["CLIENT", "GETNAME"]).reply,
        Frame::Bulk(Bytes::new())
    );
    assert!(matches!(
        ctx.dispatch(&["CLIENT", "KILL"]).reply,
        Frame::Error(_)
    ));
    assert!(matches!(ctx.dispatch(&["CLIENT"]).reply, Frame::Error(_)));
}

#[test]
fn select_only_accepts_db_zero() {
    let ctx = TestCtx::new();
    assert_eq!(ctx.dispatch(&["SELECT", "0"]).reply, Frame::ok());
    assert_eq!(
        ctx.dispatch(&["SELECT", "1"]).reply,
        Frame::Error("ERR DB index is out of range".to_string())
    );
    assert_eq!(
        ctx.dispatch(&["SELECT", "abc"]).reply,
        Frame::Error("ERR value is not an integer or out of range".to_string())
    );
}

#[test]
fn command_replies_empty_array() {
    let ctx = TestCtx::new();
    assert_eq!(ctx.dispatch(&["COMMAND"]).reply, Frame::Array(vec![]));
    assert_eq!(
        ctx.dispatch(&["COMMAND", "DOCS"]).reply,
        Frame::Array(vec![])
    );
}

#[test]
fn hello_without_arg_keeps_version_and_replies_array_in_resp2() {
    let ctx = TestCtx::new();
    let action = ctx.dispatch(&["HELLO"]);
    assert!(action.set_version.is_none());
    assert!(matches!(action.reply, Frame::Array(_)));
}

#[test]
fn hello_3_switches_to_resp3_and_replies_map() {
    let ctx = TestCtx::new();
    let action = ctx.dispatch(&["HELLO", "3"]);
    assert_eq!(action.set_version, Some(RespVersion::V3));
    assert!(matches!(action.reply, Frame::MapReply(_)));
}

#[test]
fn hello_2_stays_resp2() {
    let ctx = TestCtx::new();
    let action = ctx.dispatch_v(&["HELLO", "2"], RespVersion::V3);
    assert_eq!(action.set_version, Some(RespVersion::V2));
    assert!(matches!(action.reply, Frame::Array(_)));
}

#[test]
fn hello_bad_version_is_noproto() {
    let ctx = TestCtx::new();
    let action = ctx.dispatch(&["HELLO", "9"]);
    assert!(action.set_version.is_none());
    assert!(matches!(action.reply, Frame::Error(e) if e.starts_with("NOPROTO")));
}

#[test]
fn hgetall_respects_negotiated_version() {
    let ctx = TestCtx::new();
    ctx.dispatch(&["HSET", "h", "f", "1"]);
    assert!(matches!(
        ctx.dispatch_v(&["HGETALL", "h"], RespVersion::V2).reply,
        Frame::Array(_)
    ));
    assert!(matches!(
        ctx.dispatch_v(&["HGETALL", "h"], RespVersion::V3).reply,
        Frame::MapReply(_)
    ));
}

/// The number may have space around it; bytes that are no text ask for no version.
#[test]
fn hello_takes_a_trimmed_number() {
    let ask = |arg: &[u8]| {
        let args = vec![Bytes::from_static(b"HELLO"), Bytes::copy_from_slice(arg)];
        hello(&args, RespVersion::V2, 7).set_version
    };
    assert_eq!(ask(b" 3\t"), Some(RespVersion::V3));
    assert_eq!(ask(b"2"), Some(RespVersion::V2));
    assert_eq!(ask(b"4"), None);
    assert_eq!(ask(b"3\xff"), None);
}
