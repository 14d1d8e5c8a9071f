//! Reading values and requests off a buffer.
use bytes::{Bytes, BytesMut};
use gamestore::protocol::{decode, decode_command, Frame, Limits, ProtocolError};

fn d(bytes: &[u8]) -> Frame {
    let mut buf = BytesMut::from(bytes);
    let frame = decode(&mut buf, &Limits::default())
        .expect("decode ok")
        .expect("frame present");
    assert!(buf.is_empty(), "decoder left {} bytes", buf.len());
    frame
}

fn cmd(bytes: &[u8]) -> Vec<Bytes> {
    let mut buf = BytesMut::from(bytes);
    decode_command(&mut buf, &Limits::default())
        .expect("decode ok")
        .expect("command present")
}

// ---- RESP2 value types ----

#[test]
fn decode_simple_string() {
    assert_eq!(d(b"+OK\r\n"), Frame::Simple("OK".into()));
}

#[test]
fn decode_error() {
    assert_eq!(d(b"-ERR bad\r\n"), Frame::Error("ERR bad".into()));
}

#[test]
fn decode_integer() {
    assert_eq!(d(b":1000\r\n"), Frame::Integer(1000));
    assert_eq!(d(b":-42\r\n"), Frame::Integer(-42));
}

#[test]
fn decode_bulk_string() {
    assert_eq!(
        d(b"$5\r\nhello\r\n"),
        Frame::Bulk(Bytes::from_static(b"hello"))
    );
    assert_eq!(d(b"$0\r\n\r\n"), Frame::Bulk(Bytes::new()));
}

#[test]
fn decode_bulk_is_binary_safe() {
    assert_eq!(
        d(b"$3\r\n\x00\r\n\r\n"),
        Frame::Bulk(Bytes::from_static(b"\x00\r\n"))
    );
}

#[test]
fn decode_null_bulk_and_null_array_map_to_null() {
    assert_eq!(d(b"$-1\r\n"), Frame::Null);
    assert_eq!(d(b"*-1\r\n"), Frame::Null);
}

#[test]
fn decode_array() {
    assert_eq!(
        d(b"*2\r\n$3\r\nfoo\r\n:7\r\n"),
        Frame::Array(vec![
            Frame::Bulk(Bytes::from_static(b"foo")),
            Frame::Integer(7)
        ])
    );
    assert_eq!(d(b"*0\r\n"), Frame::Array(vec![]));
}

#[test]
fn decode_nested_array() {
    assert_eq!(
        d(b"*2\r\n*1\r\n:1\r\n:2\r\n"),
        Frame::Array(vec![
            Frame::Array(vec![Frame::Integer(1)]),
            Frame::Integer(2)
        ])
    );
}

// ---- RESP3 value types ----

#[test]
fn decode_resp3_null() {
    assert_eq!(d(b"_\r\n"), Frame::Null);
}

#[test]
fn decode_boolean() {
    assert_eq!(d(b"#t\r\n"), Frame::Boolean(true));
    assert_eq!(d(b"#f\r\n"), Frame::Boolean(false));
}

#[test]
fn decode_double() {
    assert_eq!(d(b",3.25\r\n"), Frame::Double(3.25f64.to_bits()));
    assert_eq!(d(b",inf\r\n"), Frame::Double(f64::INFINITY.to_bits()));
    assert_eq!(d(b",-inf\r\n"), Frame::Double(f64::NEG_INFINITY.to_bits()));
    match d(b",nan\r\n") {
        Frame::Double(x) => assert!(f64::from_bits(x).is_nan()),
        other => panic!("expected double, got {other:?}"),
    }
}

#[test]
fn decode_big_number() {
    assert_eq!(
        d(b"(3492890328409238509324850943850943825024385\r\n"),
        Frame::BigNumber("3492890328409238509324850943850943825024385".into())
    );
}

#[test]
fn decode_bulk_error() {
    assert_eq!(
        d(b"!21\r\nSYNTAX invalid syntax\r\n"),
        Frame::BulkError("SYNTAX invalid syntax".into())
    );
}

#[test]
fn decode_verbatim() {
    assert_eq!(
        d(b"=15\r\ntxt:Some string\r\n"),
        Frame::Verbatim {
            format: *b"txt",
            data: Bytes::from_static(b"Some string"),
        }
    );
}

#[test]
fn decode_map() {
    assert_eq!(
        d(b"%1\r\n$3\r\nkey\r\n:5\r\n"),
        Frame::MapReply(vec![(
            Frame::Bulk(Bytes::from_static(b"key")),
            Frame::Integer(5)
        )])
    );
}

#[test]
fn decode_set_and_push() {
    assert_eq!(
        d(b"~2\r\n:1\r\n:2\r\n"),
        Frame::SetReply(vec![Frame::Integer(1), Frame::Integer(2)])
    );
    assert_eq!(
        d(b">1\r\n$3\r\nmsg\r\n"),
        Frame::Push(vec![Frame::Bulk(Bytes::from_static(b"msg"))])
    );
}

// ---- streaming / fragmented reads ----

#[test]
fn incomplete_returns_none_without_consuming() {
    let limits = Limits::default();
    // Header present, payload missing.
    let mut buf = BytesMut::from(&b"$5\r\nhel"[..]);
    assert_eq!(decode(&mut buf, &limits).unwrap(), None);
    assert_eq!(buf.len(), 7, "nothing should be consumed");
    // Complete it.
    buf.extend_from_slice(b"lo\r\n");
    assert_eq!(
        decode(&mut buf, &limits).unwrap(),
        Some(Frame::Bulk(Bytes::from_static(b"hello")))
    );
}

#[test]
fn missing_final_crlf_is_incomplete() {
    let limits = Limits::default();
    let mut buf = BytesMut::from(&b"$5\r\nhello"[..]);
    assert_eq!(decode(&mut buf, &limits).unwrap(), None);
}

#[test]
fn two_frames_decode_sequentially() {
    let limits = Limits::default();
    let mut buf = BytesMut::from(&b"+A\r\n:2\r\n"[..]);
    assert_eq!(
        decode(&mut buf, &limits).unwrap(),
        Some(Frame::Simple("A".into()))
    );
    assert_eq!(decode(&mut buf, &limits).unwrap(), Some(Frame::Integer(2)));
    assert_eq!(decode(&mut buf, &limits).unwrap(), None);
}

// ---- errors ----

#[test]
fn unknown_type_byte_errors() {
    let mut buf = BytesMut::from(&b"@nope\r\n"[..]);
    assert!(matches!(
        decode(&mut buf, &Limits::default()),
        Err(ProtocolError::Malformed(_))
    ));
}

#[test]
fn bad_integer_errors() {
    let mut buf = BytesMut::from(&b":abc\r\n"[..]);
    assert!(matches!(
        decode(&mut buf, &Limits::default()),
        Err(ProtocolError::Malformed(_))
    ));
}

#[test]
fn bulk_over_limit_errors() {
    let limits = Limits {
        max_bulk_len: 4,
        ..Limits::default()
    };
    let mut buf = BytesMut::from(&b"$10\r\n"[..]);
    assert!(matches!(
        decode(&mut buf, &limits),
        Err(ProtocolError::LimitExceeded(_))
    ));
}

#[test]
fn array_over_limit_errors() {
    let limits = Limits {
        max_array_len: 2,
        ..Limits::default()
    };
    let mut buf = BytesMut::from(&b"*5\r\n"[..]);
    assert!(matches!(
        decode(&mut buf, &limits),
        Err(ProtocolError::LimitExceeded(_))
    ));
}

#[test]
fn depth_over_limit_errors() {
    let limits = Limits {
        max_depth: 2,
        ..Limits::default()
    };
    let mut buf = BytesMut::from(&b"*1\r\n*1\r\n*1\r\n*1\r\n:1\r\n"[..]);
    assert!(matches!(
        decode(&mut buf, &limits),
        Err(ProtocolError::Malformed(_))
    ));
}

// ---- command decoding: multibulk ----

#[test]
fn decode_multibulk_command() {
    assert_eq!(
        cmd(b"*2\r\n$3\r\nGET\r\n$3\r\nfoo\r\n"),
        vec![Bytes::from_static(b"GET"), Bytes::from_static(b"foo")]
    );
}

#[test]
fn decode_empty_multibulk_is_empty_args() {
    assert_eq!(cmd(b"*0\r\n"), Vec::<Bytes>::new());
}

#[test]
fn multibulk_null_element_errors() {
    let mut buf = BytesMut::from(&b"*1\r\n$-1\r\n"[..]);
    assert!(matches!(
        decode_command(&mut buf, &Limits::default()),
        Err(ProtocolError::Malformed(_))
    ));
}

#[test]
fn multibulk_non_bulk_element_errors() {
    let mut buf = BytesMut::from(&b"*1\r\n:5\r\n"[..]);
    assert!(matches!(
        decode_command(&mut buf, &Limits::default()),
        Err(ProtocolError::Malformed(_))
    ));
}

// ---- command decoding: inline ----

#[test]
fn decode_inline_command() {
    assert_eq!(cmd(b"PING\r\n"), vec![Bytes::from_static(b"PING")]);
    assert_eq!(
        cmd(b"SET foo bar\r\n"),
        vec![
            Bytes::from_static(b"SET"),
            Bytes::from_static(b"foo"),
            Bytes::from_static(b"bar"),
        ]
    );
}

#[test]
fn decode_inline_blank_line_is_empty() {
    assert_eq!(cmd(b"\r\n"), Vec::<Bytes>::new());
    assert_eq!(cmd(b"   \r\n"), Vec::<Bytes>::new());
}

#[test]
fn decode_inline_double_quotes_with_escapes() {
    assert_eq!(
        cmd(b"SET k \"a b\\tc\\x41\"\r\n"),
        vec![
            Bytes::from_static(b"SET"),
            Bytes::from_static(b"k"),
            Bytes::from_static(b"a b\tcA"),
        ]
    );
}

#[test]
fn decode_inline_single_quotes() {
    assert_eq!(
        cmd(b"SET k 'a b'\r\n"),
        vec![
            Bytes::from_static(b"SET"),
            Bytes::from_static(b"k"),
            Bytes::from_static(b"a b"),
        ]
    );
}

#[test]
fn decode_inline_unbalanced_quote_errors() {
    let mut buf = BytesMut::from(&b"SET k \"oops\r\n"[..]);
    assert!(matches!(
        decode_command(&mut buf, &Limits::default()),
        Err(ProtocolError::InlineSyntax(_))
    ));
}

#[test]
fn decode_inline_incomplete_returns_none() {
    let mut buf = BytesMut::from(&b"PING"[..]);
    assert_eq!(decode_command(&mut buf, &Limits::default()).unwrap(), None);
    assert_eq!(buf.len(), 4);
}

#[test]
fn inline_over_limit_errors() {
    let limits = Limits {
        max_inline_len: 4,
        ..Limits::default()
    };
    let mut buf = BytesMut::from(&b"AAAAAAAA\r\n"[..]);
    assert!(matches!(
        decode_command(&mut buf, &limits),
        Err(ProtocolError::LimitExceeded(_))
    ));
}

// ---- what the limits count, and where quotes open ----

/// A map of two pairs is four elements.
#[test]
fn map_limit_counts_keys_and_values() {
    let wire = b"%2\r\n+a\r\n:1\r\n+b\r\n:2\r\n";
    let three = Limits {
        max_array_len: 3,
        ..Limits::default()
    };
    let mut buf = BytesMut::from(&wire[..]);
    assert!(matches!(
        decode(&mut buf, &three),
        Err(ProtocolError::LimitExceeded(_))
    ));
    let four = Limits {
        max_array_len: 4,
        ..Limits::default()
    };
    let mut buf = BytesMut::from(&wire[..]);
    assert!(matches!(
        decode(&mut buf, &four),
        Ok(Some(Frame::MapReply(_)))
    ));
    // An array is counted by its elements.
    let mut buf = BytesMut::from(&b"*3\r\n:1\r\n:2\r\n:3\r\n"[..]);
    assert!(matches!(decode(&mut buf, &three), Ok(Some(Frame::Array(_)))));
}

/// A quote inside a word opens a quoted part.
#[test]
fn inline_quote_inside_a_word() {
    assert_eq!(
        cmd(b"SET k a\"b c\"\r\n"),
        vec![
            Bytes::from_static(b"SET"),
            Bytes::from_static(b"k"),
            Bytes::from_static(b"ab c")
        ]
    );
    assert_eq!(
        cmd(b"SET k a'b c'\r\n"),
        vec![
            Bytes::from_static(b"SET"),
            Bytes::from_static(b"k"),
            Bytes::from_static(b"ab c")
        ]
    );
}

/// The end of the line inside quotes is an error, and so is anything but a space behind them.
#[test]
fn inline_quote_inside_a_word_must_close() {
    for line in [
        &b"SET k a\"b\r\n"[..],
        &b"SET k a'b\r\n"[..],
        &b"SET k a\"b\"c\r\n"[..],
        &b"SET k a'b'c\r\n"[..],
    ] {
        let mut buf = BytesMut::from(line);
        assert!(matches!(
            decode_command(&mut buf, &Limits::default()),
            Err(ProtocolError::InlineSyntax(_))
        ));
    }
}

// ---- equality ----

/// Doubles are compared as numbers, inside other values too.
#[test]
fn frames_compare_doubles_as_numbers() {
    let zero = Frame::Double(0.0f64.to_bits());
    let minus_zero = Frame::Double((-0.0f64).to_bits());
    let nan = Frame::Double(f64::NAN.to_bits());
    assert_eq!(zero, minus_zero);
    assert_ne!(nan, nan.clone());
    assert_ne!(zero, Frame::Double(1.0f64.to_bits()));
    assert_eq!(
        Frame::Array(vec![zero.clone(), Frame::Null]),
        Frame::Array(vec![minus_zero.clone(), Frame::Null])
    );
    assert_eq!(
        Frame::MapReply(vec![(Frame::simple("k"), zero)]),
        Frame::MapReply(vec![(Frame::simple("k"), minus_zero)])
    );
    assert_ne!(Frame::SetReply(vec![nan.clone()]), Frame::SetReply(vec![nan]));
    assert_ne!(Frame::simple("OK"), Frame::error("OK"));
    assert_ne!(
        Frame::Push(vec![Frame::Integer(1)]),
        Frame::Push(vec![Frame::Integer(1), Frame::Null])
    );
}
