//! A small RESP2 reader and writer, enough for a client that sends one request at a time.
//!
//! The reader asks for lines and for runs of bytes and is handed what was read; reading itself is
//! left to the caller.
use vstd::prelude::*;
use vstd::slice::slice_subrange;
use vstd::utf8::{encode_utf8, valid_utf8};

use crate::text::{decimal, decimal_u64, utf8_text};
use crate::words::{read_trimmed_int, trimmed_int};

verus! {

/// A RESP2 reply.
#[derive(Debug)]
pub enum Reply {
    /// A simple string.
    Simple(String),
    /// An error.
    Error(String),
    /// A bulk string, or the null in place of one.
    Bulk(Option<Vec<u8>>),
}

/// The wire form of a reply.
pub open spec fn reply_wire(reply: Reply) -> Seq<u8> {
    match reply {
        Reply::Simple(s) => seq![43u8] + encode_utf8(s@) + seq![13u8, 10],
        Reply::Error(s) => seq![45u8] + encode_utf8(s@) + seq![13u8, 10],
        Reply::Bulk(None) => seq![36u8, 45, 49, 13, 10],
        Reply::Bulk(Some(data)) => seq![36u8] + decimal(data@.len() as int) + seq![13u8, 10] + data@
            + seq![13u8, 10],
    }
}

/// Appends bytes.
fn put(out: &mut Vec<u8>, data: &[u8])
    ensures
        final(out)@ == old(out)@ + data@,
{
    out.extend_from_slice(data);
    assert(out@ =~= old(out)@ + data@);
}

impl Reply {
    /// The wire form of the reply.
    pub fn to_wire(&self) -> (r: Vec<u8>)
        ensures
            r@ == reply_wire(*self),
    {
        let mut out: Vec<u8> = Vec::new();
        let end: [u8; 2] = [13, 10];
        assert(end@ =~= seq![13u8, 10]);
        match self {
            Reply::Simple(s) => {
                out.push(43);
                put(&mut out, s.as_str().as_bytes());
                put(&mut out, &end);
                assert(out@ =~= reply_wire(*self));
            },
            Reply::Error(s) => {
                out.push(45);
                put(&mut out, s.as_str().as_bytes());
                put(&mut out, &end);
                assert(out@ =~= reply_wire(*self));
            },
            Reply::Bulk(None) => {
                let null: [u8; 5] = [36, 45, 49, 13, 10];
                put(&mut out, &null);
                assert(out@ =~= reply_wire(*self));
            },
            Reply::Bulk(Some(data)) => {
                out.push(36);
                put(&mut out, &decimal_u64(data.len() as u64));
                put(&mut out, &end);
                put(&mut out, data);
                put(&mut out, &end);
                assert(out@ =~= reply_wire(*self));
            },
        }
        out
    }
}

// ---------------------------------------------------------------------------
// Reading requests
// ---------------------------------------------------------------------------
/// A line without the line feeds and carriage returns at its end.
pub open spec fn stripped(line: Seq<u8>) -> Seq<u8>
    decreases line.len(),
{
    if line.len() > 0 && (line.last() == 10 || line.last() == 13) {
        stripped(line.drop_last())
    } else {
        line
    }
}

/// A line without the line feeds and carriage returns at its end.
pub fn strip_line(line: Vec<u8>) -> (r: Vec<u8>)
    ensures
        r@ == stripped(line@),
{
    let mut line = line;
    let ghost whole = line@;
    while line.len() > 0 && (line[line.len() - 1] == 10 || line[line.len() - 1] == 13)
        invariant
            stripped(line@) == stripped(whole),
        decreases line@.len(),
    {
        let ghost was = line@;
        let _ = line.pop();
        assert(line@ =~= was.drop_last());
    }
    line
}

/// The integer in a header, with white space around it.
pub open spec fn header_int(text: Seq<u8>) -> Option<i64> {
    if valid_utf8(text) {
        trimmed_int(text)
    } else {
        None
    }
}

/// The integer in a header.
fn parse_int(text: &[u8]) -> (r: Option<i64>)
    ensures
        r == header_int(text@),
{
    match utf8_text(text) {
        Some(_) => read_trimmed_int(text),
        None => None,
    }
}

/// The words of an inline request behind the one that `word` is the front of: they are set apart by
/// spaces and tabs.
pub open spec fn inline_words(word: Seq<u8>, s: Seq<u8>) -> Seq<Seq<u8>>
    decreases s.len(),
{
    if s.len() == 0 {
        crate::words::ended(word)
    } else if s[0] == 32 || s[0] == 9 {
        crate::words::ended(word) + inline_words(Seq::empty(), s.skip(1))
    } else {
        inline_words(word.push(s[0]), s.skip(1))
    }
}

/// The values of byte strings.
pub open spec fn values(v: Seq<Vec<u8>>) -> Seq<Seq<u8>> {
    v.map_values(|b: Vec<u8>| b@)
}

/// The words of an inline request.
fn split_line(s: &[u8]) -> (r: Vec<Vec<u8>>)
    ensures
        values(r@) == inline_words(Seq::empty(), s@),
{
    let mut out: Vec<Vec<u8>> = Vec::new();
    let mut word: Vec<u8> = Vec::new();
    let mut i: usize = 0;
    assert(values(out@) =~= Seq::empty());
    assert(s@.skip(0) =~= s@);
    assert(Seq::<Seq<u8>>::empty() + inline_words(Seq::empty(), s@) =~= inline_words(
        Seq::empty(),
        s@,
    ));
    while i < s.len()
        invariant
            i <= s@.len(),
            inline_words(Seq::empty(), s@) == values(out@) + inline_words(
                word@,
                s@.skip(i as int),
            ),
        decreases s@.len() - i,
    {
        let ghost rest = s@.skip(i as int);
        let ghost was = values(out@);
        let ghost read = word@;
        proof {
            assert(rest[0] == s@[i as int]);
            assert(rest.skip(1) =~= s@.skip(i + 1));
        }
        if s[i] == 32 || s[i] == 9 {
            if word.len() > 0 {
                out.push(word);
                word = Vec::new();
            }
            proof {
                assert(values(out@) =~= was + crate::words::ended(read));
                assert(word@ =~= Seq::<u8>::empty());
                let more = inline_words(Seq::empty(), s@.skip(i + 1));
                assert(was + (crate::words::ended(read) + more) =~= (was + crate::words::ended(
                    read,
                )) + more);
            }
        } else {
            word.push(s[i]);
        }
        i += 1;
    }
    let ghost was = values(out@);
    let ghost read = word@;
    if word.len() > 0 {
        out.push(word);
    }
    proof {
        assert(s@.skip(i as int) =~= Seq::<u8>::empty());
        assert(values(out@) =~= was + crate::words::ended(read));
    }
    out
}

/// What the reader asks for, or what came of the request.
#[derive(Debug)]
pub enum Want {
    /// The next line, up to a line feed.
    Line,
    /// That many bytes.
    Exactly(u64),
    /// Nothing more: these are the arguments.
    Done(Vec<Vec<u8>>),
    /// Nothing more: the client is gone.
    Gone,
    /// Nothing more: what came in is no request.
    Bad(&'static str),
}

/// A [`Want`] as a mathematical value.
#[verifier::ext_equal]
pub enum WantView {
    Line,
    Exactly(u64),
    Done(Seq<Seq<u8>>),
    Gone,
    Bad(Seq<char>),
}

impl View for Want {
    type V = WantView;

    open spec fn view(&self) -> WantView {
        match self {
            Want::Line => WantView::Line,
            Want::Exactly(n) => WantView::Exactly(*n),
            Want::Done(args) => WantView::Done(values(args@)),
            Want::Gone => WantView::Gone,
            Want::Bad(msg) => WantView::Bad(msg@),
        }
    }
}

/// Reads one request: an array of bulk strings, or words on a line.
#[derive(Debug)]
pub struct CommandReader {
    /// How many arguments are to come, `None` before the first line.
    left: Option<u64>,
    /// The length of the argument whose bytes are asked for.
    length: u64,
    /// The arguments so far.
    args: Vec<Vec<u8>>,
}

/// The state of a [`CommandReader`].
#[verifier::ext_equal]
pub struct ReaderView {
    pub left: Option<u64>,
    pub length: u64,
    pub args: Seq<Seq<u8>>,
}

impl View for CommandReader {
    type V = ReaderView;

    closed spec fn view(&self) -> ReaderView {
        ReaderView { left: self.left, length: self.length, args: values(self.args@) }
    }
}

/// The state and what is asked for once another argument is there.
pub open spec fn one_more(s: ReaderView, arg: Seq<u8>) -> (ReaderView, WantView) {
    let args = s.args.push(arg);
    let left = (s.left->0 - 1) as u64;
    if left == 0 {
        (ReaderView { left: Some(0), length: 0, args: Seq::empty() }, WantView::Done(args))
    } else {
        (ReaderView { left: Some(left), length: 0, args }, WantView::Line)
    }
}

/// What a line leads to; `None` stands for the end of the input.
pub open spec fn line_step(s: ReaderView, line: Option<Seq<u8>>) -> (ReaderView, WantView) {
    match (line, s.left) {
        (None, _) => (s, WantView::Gone),
        (Some(raw), None) => {
            let text = stripped(raw);
            if text.len() == 0 {
                (s, WantView::Done(Seq::empty()))
            } else if text[0] == 42 {
                match header_int(text.skip(1)) {
                    None => (s, WantView::Bad("invalid integer"@)),
                    Some(n) => if n <= 0 {
                        (s, WantView::Done(Seq::empty()))
                    } else {
                        (ReaderView { left: Some(n as u64), ..s }, WantView::Line)
                    },
                }
            } else {
                (s, WantView::Done(inline_words(Seq::empty(), text)))
            }
        },
        (Some(raw), Some(_)) => {
            let text = stripped(raw);
            if text.len() == 0 || text[0] != 36 {
                (s, WantView::Bad("expected bulk string"@))
            } else {
                match header_int(text.skip(1)) {
                    None => (s, WantView::Bad("invalid integer"@)),
                    Some(n) => if n < 0 {
                        one_more(s, Seq::empty())
                    } else {
                        (
                            ReaderView { length: n as u64, ..s },
                            WantView::Exactly((n + 2) as u64),
                        )
                    },
                }
            }
        },
    }
}

impl CommandReader {
    /// A reader before the first line of a request.
    pub fn new() -> (r: Self)
        ensures
            r@ == (ReaderView { left: None, length: 0, args: Seq::empty() }),
    {
        let r = CommandReader { left: None, length: 0, args: Vec::new() };
        assert(values(r.args@) =~= Seq::<Seq<u8>>::empty());
        r
    }

    /// Takes an argument that is there.
    fn take(&mut self, arg: Vec<u8>) -> (r: Want)
        requires
            old(self)@.left matches Some(n) && n > 0,
        ensures
            (final(self)@, r@) == one_more(old(self)@, arg@),
    {
        let ghost was = self@;
        let mut args: Vec<Vec<u8>> = Vec::new();
        std::mem::swap(&mut args, &mut self.args);
        let ghost bytes = arg@;
        args.push(arg);
        assert(values(args@) =~= was.args.push(bytes));
        self.length = 0;
        let left: u64 = match self.left {
            Some(n) => n - 1,
            None => 0,
        };
        self.left = Some(left);
        if left == 0 {
            assert(values(self.args@) =~= Seq::<Seq<u8>>::empty());
            Want::Done(args)
        } else {
            self.args = args;
            Want::Line
        }
    }

    /// Takes a line, with the line feed at its end if there was one, or the end of the input.
    pub fn on_line(&mut self, line: Option<Vec<u8>>) -> (r: Want)
        requires
            old(self)@.left matches Some(n) ==> n > 0,
        ensures
            (final(self)@, r@) == line_step(
                old(self)@,
                match line {
                    Some(raw) => Some(raw@),
                    None => None,
                },
            ),
    {
        let text = match line {
            Some(raw) => strip_line(raw),
            None => return Want::Gone,
        };
        let none: Vec<Vec<u8>> = Vec::new();
        assert(values(none@) =~= Seq::<Seq<u8>>::empty());
        match self.left {
            None => {
                if text.len() == 0 {
                    return Want::Done(none);
                }
                if text[0] != 42 {
                    return Want::Done(split_line(&text));
                }
                let rest = slice_subrange(text.as_slice(), 1, text.len());
                assert(rest@ =~= text@.skip(1));
                match parse_int(rest) {
                    None => Want::Bad("invalid integer"),
                    Some(n) => {
                        if n <= 0 {
                            Want::Done(none)
                        } else {
                            self.left = Some(n as u64);
                            Want::Line
                        }
                    },
                }
            },
            Some(_) => {
                if text.len() == 0 || text[0] != 36 {
                    return Want::Bad("expected bulk string");
                }
                let rest = slice_subrange(text.as_slice(), 1, text.len());
                assert(rest@ =~= text@.skip(1));
                match parse_int(rest) {
                    None => Want::Bad("invalid integer"),
                    Some(n) => {
                        if n < 0 {
                            let empty: Vec<u8> = Vec::new();
                            assert(empty@ =~= Seq::<u8>::empty());
                            self.take(empty)
                        } else {
                            self.length = n as u64;
                            Want::Exactly(n as u64 + 2)
                        }
                    },
                }
            },
        }
    }

    /// Takes the bytes of an argument and the line end behind them.
    pub fn on_bytes(&mut self, data: Vec<u8>) -> (r: Want)
        requires
            old(self)@.left matches Some(n) && n > 0,
            data@.len() >= old(self)@.length,
        ensures
            (final(self)@, r@) == one_more(old(self)@, data@.take(old(self)@.length as int)),
    {
        let ghost whole = data@;
        let mut data = data;
        data.truncate(self.length as usize);
        assert(data@ =~= whole.take(old(self)@.length as int));
        self.take(data)
    }
}

} // verus!
