//! The parts around the connections of a node: arguments, metrics, the slow log, and the small
//! RESP2 reader and writer.
use bytes::Bytes;
use gamestore::common::config::Config;
use gamestore::common::error::Error;
use gamestore::datamodel::{Command, CommandRegistry};
use gamestore::datanode::args::{apply_args, parse_args, Args, Parsed};
use gamestore::datanode::observability::{
    describe_metrics, head_is_read, is_metrics_request, is_metrics_text, metrics_response,
    slow_command, MetricKind,
    HEAD_LIMIT, NOT_FOUND_RESPONSE,
};
use gamestore::datanode::resp::{strip_line, CommandReader, Reply, Want};
use gamestore::datanode::server::{command_label, ServeOptions};
use gamestore::engine::properties::{report, rocksdb_properties};
use gamestore::engine::EngineError;
use gamestore::protocol::ProtocolError;
use gamestore::words::{read_trimmed_int, split_words};

fn argv(args: &[&str]) -> Vec<String> {
    args.iter().map(|s| s.to_string()).collect()
}

fn run(args: &[&str]) -> Args {
    match parse_args(&argv(args)) {
        Parsed::Run(args) => args,
        other => panic!("{other:?}"),
    }
}

#[test]
fn arguments_override_the_configuration() {
    let args = run(&["--bind", "0.0.0.0", "--port", "7000", "--data-dir", "/d"]);
    assert_eq!(args.config, None);
    let mut config = Config::default();
    apply_args(&mut config, &args);
    assert_eq!(config.server.addr(), "0.0.0.0:7000");
    assert_eq!(config.storage.data_dir, "/d");
    assert_eq!(config.metrics.addr(), "127.0.0.1:9600");

    let args = run(&[]);
    apply_args(&mut config, &args);
    assert_eq!(config.server.addr(), "0.0.0.0:7000");

    let args = run(&["--config", "a.toml", "--config", "b.toml", "--port", "+80"]);
    assert_eq!(args.config.as_deref(), Some("b.toml"));
    assert_eq!(args.port, Some(80));
}

#[test]
fn wrong_arguments_are_told() {
    let bad = |args: &[&str]| match parse_args(&argv(args)) {
        Parsed::Bad(text) => text,
        other => panic!("{other:?}"),
    };
    assert_eq!(bad(&["--nope"]), "unknown argument: --nope");
    assert_eq!(bad(&["--bind"]), "unknown argument: --bind");
    assert_eq!(bad(&["--port", "65536"]), "invalid --port");
    assert_eq!(bad(&["--port", "-1"]), "invalid --port");
    assert_eq!(bad(&["--port", ""]), "invalid --port");
    assert_eq!(bad(&["--bind", "a", "x"]), "unknown argument: x");
}

#[test]
fn help_is_asked_for() {
    assert!(matches!(parse_args(&argv(&["-h"])), Parsed::Help));
    assert!(matches!(
        parse_args(&argv(&["--port", "1", "--help", "--nope"])),
        Parsed::Help
    ));
}

#[test]
fn metrics_have_their_names() {
    let all = describe_metrics();
    let names: Vec<&str> = all.iter().map(|m| m.name).collect();
    assert_eq!(
        names,
        [
            "datanode_commands_total",
            "datanode_command_latency_seconds",
            "datanode_slow_commands_total",
            "datanode_conn_active",
        ]
    );
    assert_eq!(all[1].kind, MetricKind::SecondsHistogram);
    assert_eq!(all[3].kind, MetricKind::Gauge);
    assert_eq!(all[3].help, "Open RESP connections");
}

#[test]
fn slow_commands_are_logged_with_their_key() {
    let args = [
        Bytes::from_static(b"SET"),
        Bytes::from_static(b"k\xff"),
        Bytes::from_static(b"secret"),
    ];
    let threshold = ServeOptions::default().slow_log_threshold;
    assert_eq!(threshold, 10_000_000);
    assert!(slow_command(&args, threshold - 1, threshold).is_none());
    let entry = slow_command(&args, 12_999_999, threshold).unwrap();
    assert_eq!(entry.key, "k\u{fffd}");
    assert_eq!(entry.argc, 3);
    assert_eq!(entry.elapsed_ms, 12);
    let entry = slow_command(&args[..1], 0, 0).unwrap();
    assert_eq!(entry.key, "");
    assert_eq!(entry.argc, 1);
    assert_eq!(entry.elapsed_ms, 0);
}

#[test]
fn labels_are_those_of_known_commands() {
    let registry = CommandRegistry::<Command>::standard();
    let label = |name: &'static [u8]| command_label(&Bytes::from_static(name), &registry);
    assert_eq!(label(b"get"), "GET");
    assert_eq!(label(b"ZAdd"), "ZADD");
    assert_eq!(label(b"hello"), "HELLO");
    assert_eq!(label(b"flushall"), "FLUSHALL");
    assert_eq!(label(b"NOSUCHCMD"), "UNKNOWN");
    assert_eq!(label(b""), "UNKNOWN");
}

#[test]
fn only_the_metrics_path_is_served() {
    assert!(is_metrics_text("GET /metrics HTTP/1.1"));
    assert!(!is_metrics_text("GET /metricsx"));
    assert!(is_metrics_request(b"GET /metrics HTTP/1.1\r\n\r\n"));
    assert!(is_metrics_request(b"GET /metrics?x=1 HTTP/1.1\r\n\r\n"));
    assert!(is_metrics_request(b"  GET\t/metrics"));
    assert!(!is_metrics_request(b"GET /metricsx HTTP/1.1\r\n\r\n"));
    assert!(!is_metrics_request(b"GET /nope HTTP/1.1\r\n\r\n"));
    assert!(!is_metrics_request(b"POST /metrics HTTP/1.1\r\n\r\n"));
    assert!(!is_metrics_request(b"GET"));
    assert!(!is_metrics_request(b""));
    assert!(!is_metrics_request(b"GET\xff/metrics"));
    assert_eq!(
        metrics_response("a 1\u{e9}\n"),
        "HTTP/1.1 200 OK\r\ncontent-type: text/plain; version=0.0.4; charset=utf-8\r\n\
         content-length: 6\r\nconnection: close\r\n\r\na 1\u{e9}\n"
    );
    assert!(NOT_FOUND_RESPONSE.starts_with("HTTP/1.1 404 Not Found\r\n"));
}

#[test]
fn a_request_head_is_read_to_its_end_or_the_limit() {
    assert!(!head_is_read(b""));
    assert!(!head_is_read(b"GET / HTTP/1.1\r\n\r"));
    assert!(head_is_read(b"GET / HTTP/1.1\r\n\r\n"));
    assert!(head_is_read(b"\r\n\r\nbody"));
    assert!(!head_is_read(&vec![b'a'; HEAD_LIMIT - 1]));
    assert!(head_is_read(&vec![b'a'; HEAD_LIMIT]));
}

#[test]
fn replies_have_their_wire_form() {
    assert_eq!(Reply::Simple("PONG".to_string()).to_wire(), b"+PONG\r\n");
    assert_eq!(Reply::Error("ERR x".to_string()).to_wire(), b"-ERR x\r\n");
    assert_eq!(Reply::Bulk(None).to_wire(), b"$-1\r\n");
    assert_eq!(Reply::Bulk(Some(vec![])).to_wire(), b"$0\r\n\r\n");
    assert_eq!(
        Reply::Bulk(Some(b"0123456789".to_vec())).to_wire(),
        b"$10\r\n0123456789\r\n"
    );
}

/// Reads one request out of `input`.
fn read(mut input: &[u8]) -> Want {
    let mut reader = CommandReader::new();
    let mut want = Want::Line;
    loop {
        want = match want {
            Want::Line => {
                let end = input.iter().position(|b| *b == b'\n').map(|i| i + 1);
                let n = end.unwrap_or(input.len());
                let (line, rest) = input.split_at(n);
                input = rest;
                reader.on_line(if n == 0 { None } else { Some(line.to_vec()) })
            }
            Want::Exactly(n) => {
                let (data, rest) = input.split_at(n as usize);
                input = rest;
                reader.on_bytes(data.to_vec())
            }
            done => return done,
        };
    }
}

fn args_of(want: Want) -> Vec<Vec<u8>> {
    match want {
        Want::Done(args) => args,
        other => panic!("{other:?}"),
    }
}

#[test]
fn requests_are_read_line_by_line() {
    assert_eq!(
        args_of(read(b"*3\r\n$3\r\nSET\r\n$1\r\nk\r\n$4\r\na\r\nb\r\n")),
        [b"SET".to_vec(), b"k".to_vec(), b"a\r\nb".to_vec()]
    );
    assert_eq!(
        args_of(read(b"*2\r\n$-1\r\n$0\r\n\r\n")),
        [b"".to_vec(), b"".to_vec()]
    );
    assert_eq!(args_of(read(b"* 1 \n$ 2\nab\r\n")), [b"ab".to_vec()]);
    assert_eq!(
        args_of(read(b" PING \t hello\r\n")),
        [b"PING".to_vec(), b"hello".to_vec()]
    );
    assert!(args_of(read(b"\r\n")).is_empty());
    assert!(args_of(read(b"*0\r\n")).is_empty());
    assert!(args_of(read(b"*-1\r\n")).is_empty());
    assert_eq!(strip_line(b"ab\r\n\n\r".to_vec()), b"ab");
    assert_eq!(strip_line(b"\n".to_vec()), b"");
}

#[test]
fn what_cannot_be_read_is_refused() {
    assert!(matches!(read(b""), Want::Gone));
    assert!(matches!(read(b"*1\r\n"), Want::Gone));
    assert!(matches!(read(b"*x\r\n"), Want::Bad("invalid integer")));
    assert!(matches!(read(b"*\xff\r\n"), Want::Bad("invalid integer")));
    assert!(matches!(read(b"*1\r\n$\r\n"), Want::Bad("invalid integer")));
    assert!(matches!(read(b"*1\r\n:1\r\n"), Want::Bad("expected bulk string")));
    assert!(matches!(read(b"*1\r\n\r\n"), Want::Bad("expected bulk string")));
}

#[test]
fn words_stand_between_white_space() {
    let text = " a\u{a0}b\u{2003}\u{3000}c\u{1680}d\u{85}e\u{2028}f\u{205f}g ";
    let words: Vec<Vec<u8>> = text
        .split_whitespace()
        .map(|w| w.as_bytes().to_vec())
        .collect();
    assert_eq!(split_words(text.as_bytes()), words);
    assert_eq!(words.len(), 7);
    assert!(split_words(b" \t\r\n\x0b\x0c").is_empty());
    assert_eq!(read_trimmed_int("\u{2003} -12\n".as_bytes()), Some(-12));
    assert_eq!(read_trimmed_int(b"1 2"), None);
    assert_eq!(read_trimmed_int(b""), None);
    assert_eq!(read_trimmed_int(b"+3"), Some(3));
}

#[test]
fn figures_that_are_missing_are_left_out() {
    let properties = rocksdb_properties();
    assert_eq!(properties.len(), 9);
    assert_eq!(
        properties[0],
        ("rocksdb_estimate_num_keys", "rocksdb.estimate-num-keys")
    );
    assert_eq!(
        properties[8],
        ("rocksdb_is_write_stopped", "rocksdb.is-write-stopped")
    );
    assert_eq!(
        report(&["a", "b", "c"], &[Some(1), None, Some(3)]),
        [("a", 1), ("c", 3)]
    );
    assert!(report(&[], &[]).is_empty());
}

#[test]
fn errors_say_what_is_wrong() {
    assert_eq!(Error::config("x").message(), "configuration error: x");
    assert_eq!(Error::other("x").message(), "x");
    assert_eq!(Error::Io("x".to_string()).message(), "i/o error: x");
    assert_eq!(
        Error::Observability("x".to_string()).message(),
        "observability error: x"
    );
    assert_eq!(
        Error::from(ProtocolError::Malformed("x".to_string())).message(),
        "protocol error: protocol error: x"
    );
    assert_eq!(
        Error::from(ProtocolError::InlineSyntax("x".to_string())),
        Error::Protocol("invalid inline command: x".to_string())
    );
    assert_eq!(
        Error::from(EngineError::backend("x")).message(),
        "engine error: engine backend error: x"
    );
    assert_eq!(
        Error::from(EngineError::corruption("x")),
        Error::Engine("engine corruption: x".to_string())
    );
    assert_eq!(
        Error::from(EngineError::WrongType),
        Error::Engine(
            "WRONGTYPE Operation against a key holding the wrong kind of value".to_string()
        )
    );
}
