//! What is written reads back, whole and in fragments, and no input is fatal.
use bytes::{Bytes, BytesMut};
use gamestore::protocol::encode::has_room;
use gamestore::protocol::{decode, decode_command, encode, Frame, Limits, RespVersion};

/// A sequence of numbers that looks random.
struct Numbers(u64);

impl Numbers {
    fn next(&mut self) -> u64 {
        self.0 ^= self.0 << 13;
        self.0 ^= self.0 >> 7;
        self.0 ^= self.0 << 17;
        self.0
    }

    fn below(&mut self, n: u64) -> u64 {
        self.next() % n
    }

    /// Text without a line end.
    fn line(&mut self) -> String {
        let letters = b"abcxyzABCXYZ0189 ";
        let n = self.below(25);
        (0..n)
            .map(|_| letters[self.below(letters.len() as u64) as usize] as char)
            .collect()
    }

    /// Any bytes.
    fn blob(&mut self) -> Bytes {
        let n = self.below(64);
        Bytes::from((0..n).map(|_| self.next() as u8).collect::<Vec<u8>>())
    }

    fn resp2_leaf(&mut self) -> Frame {
        match self.below(5) {
            0 => Frame::Simple(self.line()),
            1 => Frame::Error(self.line()),
            2 => Frame::Integer(self.next() as i64),
            3 => Frame::Bulk(self.blob()),
            _ => Frame::Null,
        }
    }

    fn resp2(&mut self, depth: u64) -> Frame {
        if depth == 0 || self.below(3) == 0 {
            return self.resp2_leaf();
        }
        let n = self.below(6);
        Frame::Array((0..n).map(|_| self.resp2(depth - 1)).collect())
    }

    fn resp3_leaf(&mut self) -> Frame {
        match self.below(10) {
            0 => Frame::Boolean(self.below(2) == 0),
            1 => {
                let mut bits = self.next();
                while !f64::from_bits(bits).is_finite() {
                    bits = self.next();
                }
                Frame::Double(bits)
            }
            2 => {
                let sign = if self.below(2) == 0 { "-" } else { "" };
                Frame::BigNumber(format!("{sign}{}{}", self.next(), self.next()))
            }
            3 => Frame::BulkError(self.line()),
            4 => Frame::Verbatim {
                format: *b"txt",
                data: self.blob(),
            },
            _ => self.resp2_leaf(),
        }
    }

    fn resp3(&mut self, depth: u64) -> Frame {
        if depth == 0 || self.below(3) == 0 {
            return self.resp3_leaf();
        }
        let n = self.below(5);
        match self.below(4) {
            0 => Frame::Array((0..n).map(|_| self.resp3(depth - 1)).collect()),
            1 => Frame::SetReply((0..n).map(|_| self.resp3(depth - 1)).collect()),
            2 => Frame::Push((0..n).map(|_| self.resp3(depth - 1)).collect()),
            _ => Frame::MapReply(
                (0..n)
                    .map(|_| (self.resp3(depth - 1), self.resp3(depth - 1)))
                    .collect(),
            ),
        }
    }
}

fn assert_roundtrip(frame: &Frame, version: RespVersion) {
    let mut buf = BytesMut::new();
    assert!(has_room(frame, version, 0));
    encode(frame, version, &mut buf);
    let decoded = decode(&mut buf, &Limits::default())
        .expect("decode ok")
        .expect("frame present");
    assert_eq!(&decoded, frame, "round-trip mismatch for {frame:?}");
    assert!(buf.is_empty(), "decoder left trailing bytes for {frame:?}");
}

fn assert_fragmented_roundtrip(frame: &Frame, version: RespVersion) {
    let mut encoded = BytesMut::new();
    encode(frame, version, &mut encoded);
    let bytes = encoded.to_vec();
    let limits = Limits::default();

    let mut buf = BytesMut::new();
    for (i, b) in bytes.iter().enumerate() {
        buf.extend_from_slice(&[*b]);
        let last = i + 1 == bytes.len();
        match decode(&mut buf, &limits).expect("decode ok") {
            None => assert!(!last, "still None after all bytes for {frame:?}"),
            Some(got) => {
                assert!(last, "decoded early for {frame:?}");
                assert_eq!(&got, frame);
            }
        }
    }
}

#[test]
fn resp2_roundtrip() {
    let mut numbers = Numbers(0x0123_4567_89ab_cdef);
    for _ in 0..256 {
        assert_roundtrip(&numbers.resp2(4), RespVersion::V2);
    }
}

#[test]
fn resp3_roundtrip() {
    let mut numbers = Numbers(0x1023_4567_89ab_cdef);
    for _ in 0..256 {
        assert_roundtrip(&numbers.resp3(3), RespVersion::V3);
    }
}

#[test]
fn resp2_fragmented_roundtrip() {
    let mut numbers = Numbers(0x2013_4567_89ab_cdef);
    for _ in 0..48 {
        assert_fragmented_roundtrip(&numbers.resp2(2), RespVersion::V2);
    }
}

#[test]
fn resp3_fragmented_roundtrip() {
    let mut numbers = Numbers(0x3012_4567_89ab_cdef);
    for _ in 0..32 {
        assert_fragmented_roundtrip(&numbers.resp3(2), RespVersion::V3);
    }
}

#[test]
fn multibulk_command_roundtrip() {
    let mut numbers = Numbers(0x4012_3567_89ab_cdef);
    for _ in 0..256 {
        let n = numbers.below(8);
        let args: Vec<Bytes> = (0..n).map(|_| numbers.blob()).collect();
        let mut buf = BytesMut::new();
        buf.extend_from_slice(format!("*{}\r\n", args.len()).as_bytes());
        for a in &args {
            buf.extend_from_slice(format!("${}\r\n", a.len()).as_bytes());
            buf.extend_from_slice(a);
            buf.extend_from_slice(b"\r\n");
        }
        let decoded = decode_command(&mut buf, &Limits::default())
            .expect("decode ok")
            .expect("command present");
        assert_eq!(decoded, args);
        assert!(buf.is_empty());
    }
}

#[test]
fn arbitrary_bytes_never_panic() {
    let mut numbers = Numbers(0x5012_3467_89ab_cdef);
    for _ in 0..2000 {
        let n = numbers.below(256);
        let mut data: Vec<u8> = (0..n).map(|_| numbers.next() as u8).collect();
        if numbers.below(2) == 0 && !data.is_empty() {
            data[0] = b"+-:$*_#,(!=%~>"[numbers.below(14) as usize];
        }
        let mut buf = BytesMut::from(&data[..]);
        let _ = decode(&mut buf, &Limits::default());
        let mut buf2 = BytesMut::from(&data[..]);
        let _ = decode_command(&mut buf2, &Limits::default());
    }
}

#[test]
fn doubles_that_are_no_numbers_read_back() {
    for number in [f64::INFINITY, f64::NEG_INFINITY, f64::NAN, -0.0] {
        let mut buf = BytesMut::new();
        encode(&Frame::Double(number.to_bits()), RespVersion::V3, &mut buf);
        // Held against the bits: what is no number equals nothing.
        match decode(&mut buf, &Limits::default()) {
            Ok(Some(Frame::Double(bits))) => assert_eq!(bits, number.to_bits()),
            other => panic!("expected a double, got {other:?}"),
        }
    }
}

#[test]
fn a_full_buffer_has_no_room() {
    let limit = isize::MAX as usize;
    assert!(has_room(&Frame::Null, RespVersion::V3, limit - 3));
    assert!(!has_room(&Frame::Null, RespVersion::V3, limit - 2));
    assert!(has_room(&Frame::ok(), RespVersion::V2, limit - 5));
    assert!(!has_room(&Frame::ok(), RespVersion::V2, limit - 4));
    assert!(!has_room(&Frame::Null, RespVersion::V2, usize::MAX));
    let nested = Frame::Array(vec![Frame::Integer(7), Frame::Bulk(Bytes::from_static(b"ab"))]);
    assert!(has_room(&nested, RespVersion::V2, limit - 16));
    assert!(!has_room(&nested, RespVersion::V2, limit - 15));
}
