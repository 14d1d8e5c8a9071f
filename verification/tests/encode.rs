//! Writing values.
use bytes::Bytes;
use gamestore::protocol::{encode_to_vec, Frame, RespVersion};

fn enc(frame: &Frame, version: RespVersion) -> Vec<u8> {
    encode_to_vec(frame, version).to_vec()
}

#[test]
fn encode_simple_and_error_and_int() {
    assert_eq!(enc(&Frame::simple("OK"), RespVersion::V2), b"+OK\r\n");
    assert_eq!(enc(&Frame::error("ERR x"), RespVersion::V2), b"-ERR x\r\n");
    assert_eq!(enc(&Frame::Integer(-9), RespVersion::V2), b":-9\r\n");
}

#[test]
fn encode_bulk() {
    assert_eq!(
        enc(&Frame::Bulk(Bytes::from_static(b"hello")), RespVersion::V2),
        b"$5\r\nhello\r\n"
    );
    assert_eq!(
        enc(&Frame::Bulk(Bytes::new()), RespVersion::V2),
        b"$0\r\n\r\n"
    );
}

#[test]
fn encode_null_is_version_specific() {
    assert_eq!(enc(&Frame::Null, RespVersion::V2), b"$-1\r\n");
    assert_eq!(enc(&Frame::Null, RespVersion::V3), b"_\r\n");
}

#[test]
fn encode_array() {
    assert_eq!(
        enc(
            &Frame::Array(vec![Frame::Integer(1), Frame::simple("x")]),
            RespVersion::V2
        ),
        b"*2\r\n:1\r\n+x\r\n"
    );
}

#[test]
fn encode_resp3_scalars() {
    assert_eq!(enc(&Frame::Boolean(true), RespVersion::V3), b"#t\r\n");
    assert_eq!(enc(&Frame::Boolean(false), RespVersion::V3), b"#f\r\n");
    assert_eq!(enc(&Frame::Double(f64::to_bits(3.25)), RespVersion::V3), b",3.25\r\n");
    assert_eq!(
        enc(&Frame::Double(f64::to_bits(f64::INFINITY)), RespVersion::V3),
        b",inf\r\n"
    );
    assert_eq!(
        enc(&Frame::Double(f64::to_bits(f64::NEG_INFINITY)), RespVersion::V3),
        b",-inf\r\n"
    );
    assert_eq!(enc(&Frame::Double(f64::to_bits(f64::NAN)), RespVersion::V3), b",nan\r\n");
}

#[test]
fn encode_verbatim_length_covers_prefix() {
    assert_eq!(
        enc(
            &Frame::Verbatim {
                format: *b"txt",
                data: Bytes::from_static(b"Some string"),
            },
            RespVersion::V3
        ),
        b"=15\r\ntxt:Some string\r\n"
    );
}

#[test]
fn encode_map_set_push() {
    assert_eq!(
        enc(
            &Frame::MapReply(vec![(Frame::simple("k"), Frame::Integer(1))]),
            RespVersion::V3
        ),
        b"%1\r\n+k\r\n:1\r\n"
    );
    assert_eq!(
        enc(&Frame::SetReply(vec![Frame::Integer(1)]), RespVersion::V3),
        b"~1\r\n:1\r\n"
    );
    assert_eq!(
        enc(&Frame::Push(vec![Frame::simple("m")]), RespVersion::V3),
        b">1\r\n+m\r\n"
    );
}
