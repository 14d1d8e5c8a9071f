//! Metrics, the slow log, and the HTTP endpoint that metrics are read from.
//!
//! Which metrics there are, which commands are slow, and what is answered to an HTTP request is
//! decided here; recording and sending is left to the caller.
use bytes::Bytes;
use vstd::prelude::*;
use vstd::utf8::encode_utf8;

use crate::buffer::{all_bytes_of, bytes_of, bytes_slice};
use crate::text::{decimal_text, join3, lossy, same_bytes, shown_text, u64_text};
use crate::words::{split_words, words};

verus! {

/// What a metric counts.
#[derive(Debug, Clone, Copy, PartialEq, Eq, Structural)]
pub enum MetricKind {
    /// A number that grows.
    Counter,
    /// A number that goes up and down.
    Gauge,
    /// A distribution of seconds.
    SecondsHistogram,
}

/// A metric: what it counts, its name, and what it means.
#[derive(Debug, Clone, Copy)]
pub struct MetricDescription {
    pub kind: MetricKind,
    pub name: &'static str,
    pub help: &'static str,
}

/// The metrics of a data node.
pub open spec fn metrics() -> Seq<(MetricKind, Seq<char>, Seq<char>)> {
    seq![
        (
            MetricKind::Counter,
            "datanode_commands_total"@,
            "Commands executed, labelled by (known) command name"@,
        ),
        (
            MetricKind::SecondsHistogram,
            "datanode_command_latency_seconds"@,
            "Command execution latency (dispatch to reply frame ready)"@,
        ),
        (
            MetricKind::Counter,
            "datanode_slow_commands_total"@,
            "Commands that exceeded the slow-log threshold"@,
        ),
        (MetricKind::Gauge, "datanode_conn_active"@, "Open RESP connections"@),
    ]
}

/// The metrics of a data node.
pub fn describe_metrics() -> (r: Vec<MetricDescription>)
    ensures
        r@.map_values(|m: MetricDescription| (m.kind, m.name@, m.help@)) == metrics(),
{
    let mut out: Vec<MetricDescription> = Vec::new();
    out.push(
        MetricDescription {
            kind: MetricKind::Counter,
            name: "datanode_commands_total",
            help: "Commands executed, labelled by (known) command name",
        },
    );
    out.push(
        MetricDescription {
            kind: MetricKind::SecondsHistogram,
            name: "datanode_command_latency_seconds",
            help: "Command execution latency (dispatch to reply frame ready)",
        },
    );
    out.push(
        MetricDescription {
            kind: MetricKind::Counter,
            name: "datanode_slow_commands_total",
            help: "Commands that exceeded the slow-log threshold",
        },
    );
    out.push(
        MetricDescription {
            kind: MetricKind::Gauge,
            name: "datanode_conn_active",
            help: "Open RESP connections",
        },
    );
    assert(out@.map_values(|m: MetricDescription| (m.kind, m.name@, m.help@)) =~= metrics());
    out
}

/// An entry of the slow log. It holds the key and not the values, which may be large and are none
/// of its business.
#[derive(Debug)]
pub struct SlowCommand {
    /// The key of the command, empty where it has none.
    pub key: String,
    /// The number of its arguments, the name included.
    pub argc: usize,
    /// How long it took.
    pub elapsed_ms: u64,
}

/// What the slow log gets of a command that took `elapsed` nanoseconds: the key as text, the number
/// of arguments and the milliseconds.
pub open spec fn slow_entry(args: Seq<Seq<u8>>, elapsed: u128, threshold: u128) -> Option<
    (Seq<char>, nat, u64),
> {
    if elapsed < threshold {
        None
    } else {
        Some(
            (
                if args.len() > 1 {
                    shown_text(args[1])
                } else {
                    Seq::empty()
                },
                args.len(),
                (elapsed / 1_000_000) as u64,
            ),
        )
    }
}

/// What the slow log gets of a command that took `elapsed` nanoseconds: nothing where it took less
/// than the threshold.
pub fn slow_command(args: &[Bytes], elapsed: u128, threshold: u128) -> (r: Option<SlowCommand>)
    ensures
        slow_entry(all_bytes_of(args@), elapsed, threshold) == match r {
            Some(entry) => Some((entry.key@, entry.argc as nat, entry.elapsed_ms)),
            None => None,
        },
        r is Some == (elapsed >= threshold),
        r matches Some(entry) ==> {
            &&& entry.key@ == (if args@.len() > 1 {
                shown_text(bytes_of(args@[1]))
            } else {
                Seq::empty()
            })
            &&& entry.argc == args@.len()
            &&& entry.elapsed_ms == (elapsed / 1_000_000) as u64
        },
{
    if elapsed < threshold {
        return None;
    }
    assert(args@.len() > 1 ==> all_bytes_of(args@)[1] == bytes_of(args@[1]));
    let key = if args.len() > 1 {
        lossy(bytes_slice(&args[1]))
    } else {
        let none = String::new();
        assert(none@ =~= Seq::<char>::empty());
        none
    };
    Some(SlowCommand { key, argc: args.len(), elapsed_ms: (elapsed / 1_000_000) as u64 })
}

// ---------------------------------------------------------------------------
// The HTTP endpoint
// ---------------------------------------------------------------------------
/// The most bytes of a request that are read.
pub const HEAD_LIMIT: usize = 4096;

/// The blank line at the end of a request's head stands at `i`.
pub open spec fn blank_line_at(head: Seq<u8>, i: int) -> bool {
    0 <= i && i + 4 <= head.len() && head[i] == 13 && head[i + 1] == 10 && head[i + 2] == 13
        && head[i + 3] == 10
}

/// Enough of a request was read: its head is there, or as much as is looked at.
pub open spec fn is_read(head: Seq<u8>) -> bool {
    head.len() >= HEAD_LIMIT || exists|i: int| blank_line_at(head, i)
}

/// Whether enough of a request was read: its head is there, or as much as is looked at.
pub fn head_is_read(head: &[u8]) -> (r: bool)
    ensures
        r == is_read(head@),
        r == (head@.len() >= HEAD_LIMIT || exists|i: int| blank_line_at(head@, i)),
{
    if head.len() >= HEAD_LIMIT {
        return true;
    }
    let n: usize = head.len();
    let mut i: usize = 0;
    while n >= 4 && i <= n - 4
        invariant
            n == head@.len(),
            i <= n,
            forall|j: int| 0 <= j < i ==> !blank_line_at(head@, j),
        decreases n - i,
    {
        if head[i] == 13 && head[i + 1] == 10 && head[i + 2] == 13 && head[i + 3] == 10 {
            assert(blank_line_at(head@, i as int));
            return true;
        }
        i += 1;
    }
    false
}

/// The path is that of the metrics, whatever is asked about them.
pub open spec fn is_metrics_path(path: Seq<u8>) -> bool {
    let name = encode_utf8("/metrics"@);
    path == name || path.len() > name.len() && path.take(name.len() as int) == name
        && path[name.len() as int] == 63
}

/// The text asks for the metrics: its first word is `GET`, and its second one the path.
pub open spec fn text_asks_for_metrics(text: Seq<char>) -> bool {
    let parts = words(encode_utf8(text));
    parts.len() >= 2 && parts[0] == encode_utf8("GET"@) && is_metrics_path(parts[1])
}

/// Whether the text of a request asks for the metrics.
pub fn is_metrics_text(text: &str) -> (r: bool)
    ensures
        r == text_asks_for_metrics(text@),
{
    let parts = split_words(text.as_bytes());
    let ghost view = |w: Vec<u8>| w@;
    assert(parts@.map_values(view).len() == parts@.len());
    if parts.len() < 2 {
        return false;
    }
    assert(parts@.map_values(view)[0] == parts@[0]@);
    assert(parts@.map_values(view)[1] == parts@[1]@);
    if !same_bytes(&parts[0], "GET".as_bytes()) {
        return false;
    }
    let path = &parts[1];
    let name = "/metrics".as_bytes();
    if same_bytes(path, name) {
        return true;
    }
    if path.len() <= name.len() {
        return false;
    }
    let front = vstd::slice::slice_subrange(path.as_slice(), 0, name.len());
    assert(front@ =~= path@.take(name@.len() as int));
    same_bytes(front, name) && path[name.len()] == 63
}

/// The request asks for the metrics.
pub open spec fn asks_for_metrics(head: Seq<u8>) -> bool {
    text_asks_for_metrics(shown_text(head))
}

/// Whether the request asks for the metrics.
pub fn is_metrics_request(head: &[u8]) -> (r: bool)
    ensures
        r == asks_for_metrics(head@),
{
    let text = lossy(head);
    is_metrics_text(text.as_str())
}

/// What is answered to a request for the metrics, which `body` holds.
pub open spec fn metrics_text(body: Seq<char>) -> Seq<char> {
    "HTTP/1.1 200 OK\r\ncontent-type: text/plain; version=0.0.4; charset=utf-8\r\ncontent-length: "@
        + decimal_text(encode_utf8(body).len() as int) + ("\r\nconnection: close\r\n\r\n"@ + body)
}

/// What is answered to a request for the metrics, which `body` holds.
pub fn metrics_response(body: &str) -> (r: String)
    ensures
        r@ == metrics_text(body@),
{
    let length = u64_text(body.as_bytes().len() as u64);
    let rest = crate::text::join2("\r\nconnection: close\r\n\r\n", body);
    join3(
        "HTTP/1.1 200 OK\r\ncontent-type: text/plain; version=0.0.4; charset=utf-8\r\ncontent-length: ",
        &length,
        &rest,
    )
}

/// What is answered to any other request.
pub const NOT_FOUND_RESPONSE: &'static str =
    "HTTP/1.1 404 Not Found\r\ncontent-length: 0\r\nconnection: close\r\n\r\n";

} // verus!
