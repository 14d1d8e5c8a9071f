//! Connections from the bytes that come in to the bytes that go out, and the listener.
use bytes::{Bytes, BytesMut};
use gamestore::datamodel::{Command, CommandRegistry};
use gamestore::datanode::connection::{
    Connection, Event, Listener, ListenerEvent, ListenerStep, Step,
};
use gamestore::engine::{GeneralEngine, MemEngine, Store, WriteBatch};
use gamestore::protocol::encode::has_room;
use gamestore::protocol::{CommandCodec, Frame, ProtocolError, RespVersion};

/// A node with its store and its commands.
struct Node {
    store: Store<MemEngine>,
    registry: CommandRegistry<Command>,
}

impl Node {
    fn new() -> Self {
        Node::on(MemEngine::new())
    }

    fn on(engine: MemEngine) -> Self {
        Node {
            store: Store::with_engine(engine).expect("open store"),
            registry: CommandRegistry::standard(),
        }
    }

    /// The same data behind a store that was opened anew.
    fn restarted(self) -> Self {
        let mut batch = WriteBatch::new();
        for (key, value) in self.store.engine().scan_prefix(b"").whole().unwrap() {
            batch.put(key, value);
        }
        let mut engine = MemEngine::new();
        engine.write(batch).unwrap();
        Node::on(engine)
    }
}

/// A client's side of a connection.
struct Client {
    connection: Connection,
    codec: CommandCodec,
    incoming: BytesMut,
    open: bool,
}

impl Client {
    fn new(id: i64) -> Self {
        Client {
            connection: Connection::new(id),
            codec: CommandCodec::new(),
            incoming: BytesMut::new(),
            open: true,
        }
    }

    /// Sends bytes and gives back what is answered to them.
    fn send(&mut self, node: &mut Node, bytes: &[u8]) -> Vec<u8> {
        self.incoming.extend_from_slice(bytes);
        let mut out = BytesMut::new();
        while self.open {
            let event = match self.codec.decode(&mut self.incoming) {
                Ok(Some(args)) => Event::Request(args),
                Ok(None) => break,
                Err(e) => Event::Malformed(e),
            };
            self.take(node, event, &mut out);
        }
        out.to_vec()
    }

    fn take(&mut self, node: &mut Node, event: Event, out: &mut BytesMut) {
        let step = self
            .connection
            .on_event(event, &mut node.store, &node.registry);
        self.codec.set_version(self.connection.version());
        match step {
            Step::Wait => {}
            Step::Send(frame) => self.reply(&frame, out),
            Step::SendAndClose(frame) => {
                self.reply(&frame, out);
                self.open = false;
            }
            Step::Close => self.open = false,
        }
    }

    fn reply(&self, frame: &Frame, out: &mut BytesMut) {
        assert!(has_room(frame, self.codec.version(), out.len()));
        self.codec.encode(frame, out);
    }

    /// Sends a request as an array of bulk strings.
    fn call(&mut self, node: &mut Node, parts: &[&str]) -> Vec<u8> {
        let mut request = format!("*{}\r\n", parts.len()).into_bytes();
        for p in parts {
            request.extend_from_slice(format!("${}\r\n{p}\r\n", p.len()).as_bytes());
        }
        self.send(node, &request)
    }
}

#[test]
fn ping_returns_pong() {
    let (mut node, mut c) = (Node::new(), Client::new(1));
    let reply = c.send(&mut node, b"*1\r\n$4\r\nPING\r\n");
    assert_eq!(reply, b"+PONG\r\n", "expected +PONG, got {reply:?}");
}

#[test]
fn inline_ping_returns_pong() {
    let (mut node, mut c) = (Node::new(), Client::new(1));
    let reply = c.send(&mut node, b"PING\r\n");
    assert_eq!(reply, b"+PONG\r\n", "expected +PONG, got {reply:?}");
}

#[test]
fn ping_with_argument_is_echoed() {
    let (mut node, mut c) = (Node::new(), Client::new(1));
    let reply = c.send(&mut node, b"*2\r\n$4\r\nPING\r\n$5\r\nhello\r\n");
    assert_eq!(reply, b"$5\r\nhello\r\n", "expected bulk 'hello', got {reply:?}");
}

#[test]
fn string_and_hash_commands_over_the_wire() {
    let (mut node, mut c) = (Node::new(), Client::new(1));
    let n = &mut node;
    assert_eq!(c.call(n, &["SET", "k1", "v1"]), b"+OK\r\n");
    assert_eq!(c.call(n, &["GET", "k1"]), b"$2\r\nv1\r\n");
    assert_eq!(c.call(n, &["GET", "missing"]), b"$-1\r\n");
    assert_eq!(c.call(n, &["TYPE", "k1"]), b"+string\r\n");

    assert_eq!(c.call(n, &["HSET", "h", "gold", "100", "level", "5"]), b":2\r\n");
    assert_eq!(c.call(n, &["HGET", "h", "gold"]), b"$3\r\n100\r\n");
    assert_eq!(c.call(n, &["HLEN", "h"]), b":2\r\n");
    assert_eq!(
        c.call(n, &["HMGET", "h", "gold", "nope"]),
        b"*2\r\n$3\r\n100\r\n$-1\r\n"
    );

    let reply = c.call(n, &["GET", "h"]);
    assert!(reply.starts_with(b"-WRONGTYPE"), "got {reply:?}");
    let reply = c.call(n, &["GEOADD", "g", "1", "2", "m"]);
    assert!(
        reply.starts_with(b"-ERR unknown command 'GEOADD'"),
        "got {reply:?}"
    );

    assert_eq!(c.call(n, &["FLUSHDB"]), b"+OK\r\n");
    assert_eq!(c.call(n, &["DBSIZE"]), b":0\r\n");
    assert_eq!(c.call(n, &["GET", "k1"]), b"$-1\r\n");
}

#[test]
fn hgetall_is_map_on_resp3_and_flat_array_on_resp2() {
    let mut node = Node::new();
    let n = &mut node;
    let mut c2 = Client::new(1);
    assert_eq!(c2.call(n, &["HSET", "h", "f", "1"]), b":1\r\n");
    assert_eq!(
        c2.call(n, &["HGETALL", "h"]),
        b"*2\r\n$1\r\nf\r\n$1\r\n1\r\n"
    );

    let mut c3 = Client::new(2);
    let hello = c3.call(n, &["HELLO", "3"]);
    assert!(hello.starts_with(b"%"), "expected RESP3 map, got {hello:?}");
    assert_eq!(
        c3.call(n, &["HGETALL", "h"]),
        b"%1\r\n$1\r\nf\r\n$1\r\n1\r\n"
    );
}

#[test]
fn composite_type_commands_over_the_wire() {
    let (mut node, mut c) = (Node::new(), Client::new(1));
    let n = &mut node;
    assert_eq!(c.call(n, &["SADD", "s", "a", "b", "a"]), b":2\r\n");
    assert_eq!(c.call(n, &["SISMEMBER", "s", "a"]), b":1\r\n");
    assert_eq!(c.call(n, &["SCARD", "s"]), b":2\r\n");
    assert_eq!(c.call(n, &["TYPE", "s"]), b"+set\r\n");

    assert_eq!(c.call(n, &["ZADD", "z", "2", "b", "1", "a"]), b":2\r\n");
    assert_eq!(
        c.call(n, &["ZRANGE", "z", "0", "-1", "WITHSCORES"]),
        b"*4\r\n$1\r\na\r\n$1\r\n1\r\n$1\r\nb\r\n$1\r\n2\r\n"
    );
    assert_eq!(
        c.call(n, &["ZRANGEBYSCORE", "z", "(1", "+inf"]),
        b"*1\r\n$1\r\nb\r\n"
    );
    assert_eq!(c.call(n, &["ZSCORE", "z", "a"]), b"$1\r\n1\r\n");

    assert_eq!(c.call(n, &["RPUSH", "l", "x", "y"]), b":2\r\n");
    assert_eq!(c.call(n, &["LPUSH", "l", "w"]), b":3\r\n");
    assert_eq!(
        c.call(n, &["LRANGE", "l", "0", "-1"]),
        b"*3\r\n$1\r\nw\r\n$1\r\nx\r\n$1\r\ny\r\n"
    );
    assert_eq!(c.call(n, &["LPOP", "l"]), b"$1\r\nw\r\n");
    assert_eq!(c.call(n, &["RPOP", "l", "2"]), b"*2\r\n$1\r\ny\r\n$1\r\nx\r\n");
    assert_eq!(c.call(n, &["LPOP", "l"]), b"$-1\r\n");

    let reply = c.call(n, &["LPUSH", "s", "v"]);
    assert!(reply.starts_with(b"-WRONGTYPE"), "got {reply:?}");

    let mut c3 = Client::new(2);
    let hello = c3.call(n, &["HELLO", "3"]);
    assert!(hello.starts_with(b"%"), "got {hello:?}");
    let smembers = c3.call(n, &["SMEMBERS", "s"]);
    assert!(smembers.starts_with(b"~2\r\n"), "got {smembers:?}");
    assert_eq!(c3.call(n, &["ZSCORE", "z", "a"]), b",1\r\n");
}

#[test]
fn restart_preserves_persisted_data() {
    let mut node = Node::new();
    let mut c = Client::new(1);
    let n = &mut node;
    assert_eq!(c.call(n, &["SET", "k", "v"]), b"+OK\r\n");
    assert_eq!(
        c.call(n, &["HSET", "player:1", "gold", "100", "hp", "42"]),
        b":2\r\n"
    );
    assert_eq!(c.call(n, &["SADD", "guild", "alice"]), b":1\r\n");
    assert_eq!(c.call(n, &["ZADD", "lb", "9", "alice"]), b":1\r\n");
    assert_eq!(c.call(n, &["RPUSH", "log", "e1", "e2"]), b":2\r\n");

    let mut node = node.restarted();
    let mut c = Client::new(1);
    let n = &mut node;
    assert_eq!(c.call(n, &["GET", "k"]), b"$1\r\nv\r\n");
    assert_eq!(c.call(n, &["HGET", "player:1", "gold"]), b"$3\r\n100\r\n");
    assert_eq!(c.call(n, &["HLEN", "player:1"]), b":2\r\n");
    assert_eq!(c.call(n, &["SISMEMBER", "guild", "alice"]), b":1\r\n");
    assert_eq!(c.call(n, &["ZSCORE", "lb", "alice"]), b"$1\r\n9\r\n");
    assert_eq!(
        c.call(n, &["LRANGE", "log", "0", "-1"]),
        b"*2\r\n$2\r\ne1\r\n$2\r\ne2\r\n"
    );
    assert_eq!(c.call(n, &["DBSIZE"]), b":5\r\n");
    // New values at old keys do not see what was there before.
    assert_eq!(c.call(n, &["DEL", "player:1"]), b":1\r\n");
    assert_eq!(c.call(n, &["HSET", "player:1", "mp", "7"]), b":1\r\n");
    assert_eq!(
        c.call(n, &["HGETALL", "player:1"]),
        b"*2\r\n$2\r\nmp\r\n$1\r\n7\r\n"
    );
}

#[test]
fn requests_in_one_packet_are_answered_in_order() {
    let (mut node, mut c) = (Node::new(), Client::new(1));
    assert_eq!(
        c.send(&mut node, b"SET a 1\r\nGET a\r\n\r\nGET b\r\nPI"),
        b"+OK\r\n$1\r\n1\r\n$-1\r\n"
    );
    assert_eq!(c.send(&mut node, b"NG\r\n"), b"+PONG\r\n");
}

#[test]
fn quit_is_answered_and_ends_the_connection() {
    let (mut node, mut c) = (Node::new(), Client::new(1));
    assert_eq!(c.send(&mut node, b"QUIT\r\nPING\r\n"), b"+OK\r\n");
    assert!(!c.open);
}

#[test]
fn what_is_no_request_is_told_and_ends_the_connection() {
    let (mut node, mut c) = (Node::new(), Client::new(1));
    let reply = c.send(&mut node, b"*x\r\n");
    assert!(
        reply.starts_with(b"-ERR Protocol error: protocol error: "),
        "got {reply:?}"
    );
    assert!(!c.open);

    let mut c = Client::new(2);
    let mut out = BytesMut::new();
    c.take(
        &mut node,
        Event::Malformed(ProtocolError::LimitExceeded("too long".to_string())),
        &mut out,
    );
    assert_eq!(
        &out[..],
        b"-ERR Protocol error: value exceeds configured limit: too long\r\n"
    );
}

#[test]
fn a_broken_connection_is_told_and_ended() {
    let (mut node, mut c) = (Node::new(), Client::new(1));
    let mut out = BytesMut::new();
    c.take(&mut node, Event::Broken("reset".to_string()), &mut out);
    assert_eq!(&out[..], b"-ERR Protocol error: i/o error: reset\r\n");
    assert!(!c.open);
}

#[test]
fn an_empty_request_is_passed_over() {
    let (mut node, mut c) = (Node::new(), Client::new(1));
    let mut out = BytesMut::new();
    c.take(&mut node, Event::Request(vec![]), &mut out);
    assert!(out.is_empty());
    assert!(c.open);
}

#[test]
fn shutdown_and_hangup_end_the_connection_without_a_word() {
    for event in [Event::Shutdown, Event::Closed] {
        let (mut node, mut c) = (Node::new(), Client::new(1));
        let mut out = BytesMut::new();
        c.take(&mut node, event, &mut out);
        assert!(out.is_empty());
        assert!(!c.open);
    }
}

#[test]
fn hello_is_answered_in_the_version_it_asks_for() {
    let (mut node, mut c) = (Node::new(), Client::new(9));
    assert_eq!(c.connection.version(), RespVersion::V2);
    let reply = c.call(&mut node, &["HELLO", " 3 "]);
    let want: &[u8] = b"%7\r\n$6\r\nserver\r\n$9\r\ngamestore\r\n$7\r\nversion\r\n$5\r\n0.1.0\r\n\
        $5\r\nproto\r\n:3\r\n$2\r\nid\r\n:9\r\n$4\r\nmode\r\n$10\r\nstandalone\r\n\
        $4\r\nrole\r\n$6\r\nmaster\r\n$7\r\nmodules\r\n*0\r\n";
    assert_eq!(reply, want);
    assert_eq!(c.connection.version(), RespVersion::V3);
    assert_eq!(c.call(&mut node, &["GET", "nope"]), b"_\r\n");

    let reply = c.call(&mut node, &["HELLO", "4"]);
    assert_eq!(reply, b"-NOPROTO unsupported protocol version\r\n");
    assert_eq!(c.connection.version(), RespVersion::V3);

    let reply = c.call(&mut node, &["hello", "2", "SETNAME", "x"]);
    assert!(reply.starts_with(b"*14\r\n$6\r\nserver\r\n"));
    assert_eq!(c.connection.version(), RespVersion::V2);
}

#[test]
fn a_listener_serves_until_it_is_told_to_stop() {
    let mut listener = Listener::new();
    assert_eq!(listener.connections(), 0);
    assert_eq!(listener.on_event(ListenerEvent::Accepted), ListenerStep::Serve);
    assert_eq!(listener.on_event(ListenerEvent::Accepted), ListenerStep::Serve);
    assert_eq!(listener.on_event(ListenerEvent::Failed), ListenerStep::GoOn);
    assert_eq!(listener.on_event(ListenerEvent::Ended), ListenerStep::GoOn);
    assert_eq!(listener.on_event(ListenerEvent::Accepted), ListenerStep::Serve);
    assert_eq!(listener.connections(), 2);
    assert_eq!(listener.on_event(ListenerEvent::Shutdown), ListenerStep::Drain);
    assert_eq!(listener.on_event(ListenerEvent::Accepted), ListenerStep::GoOn);
    assert_eq!(listener.on_event(ListenerEvent::Ended), ListenerStep::GoOn);
    assert_eq!(listener.on_event(ListenerEvent::Ended), ListenerStep::Finish);
    assert_eq!(listener.connections(), 0);
}

#[test]
fn a_listener_without_connections_is_done_at_once() {
    let mut listener = Listener::new();
    assert_eq!(listener.on_event(ListenerEvent::Shutdown), ListenerStep::Finish);
}

#[test]
fn bytes_that_are_no_text_are_kept_as_they_are() {
    let (mut node, mut c) = (Node::new(), Client::new(1));
    let value: Vec<u8> = (0..=255).collect();
    let args = vec![
        Bytes::from_static(b"SET"),
        Bytes::from_static(b"\xff\x00"),
        Bytes::from(value.clone()),
    ];
    let mut out = BytesMut::new();
    c.take(&mut node, Event::Request(args), &mut out);
    let args = vec![Bytes::from_static(b"GET"), Bytes::from_static(b"\xff\x00")];
    c.take(&mut node, Event::Request(args), &mut out);
    let mut want = b"+OK\r\n$256\r\n".to_vec();
    want.extend_from_slice(&value);
    want.extend_from_slice(b"\r\n");
    assert_eq!(&out[..], &want[..]);
    // An unknown command is told with what of it can be shown.
    let mut out = BytesMut::new();
    c.take(
        &mut node,
        Event::Request(vec![Bytes::from_static(b"NO\xffPE")]),
        &mut out,
    );
    assert_eq!(&out[..], "-ERR unknown command 'NO\u{fffd}PE'\r\n".as_bytes());
}

#[test]
fn commands_leave_other_keys_alone() {
    let (mut node, mut c) = (Node::new(), Client::new(1));
    let n = &mut node;
    c.call(n, &["SET", "text", "v"]);
    c.call(n, &["HSET", "hash", "f", "1"]);
    c.call(n, &["RPUSH", "list", "a", "b"]);
    for request in [
        &["HSET", "other", "f", "2"][..],
        &["GET", "other"],
        &["HDEL", "other", "f"],
        &["SADD", "other", "hash", "text"],
        &["SREM", "other", "hash", "text"],
        &["ZADD", "other", "1", "list"],
        &["ZREM", "other", "list"],
        &["LPUSH", "other", "x"],
        &["LPOP", "other"],
        &["SET", "other", "v", "EX", "0"],
        &["DEL", "other"],
        &["COMPACT"],
    ] {
        c.call(n, request);
    }
    assert_eq!(c.call(n, &["GET", "text"]), b"$1\r\nv\r\n");
    assert_eq!(c.call(n, &["HGETALL", "hash"]), b"*2\r\n$1\r\nf\r\n$1\r\n1\r\n");
    assert_eq!(
        c.call(n, &["LRANGE", "list", "0", "-1"]),
        b"*2\r\n$1\r\na\r\n$1\r\nb\r\n"
    );
    assert_eq!(c.call(n, &["DBSIZE"]), b":3\r\n");
}
