//! The layout of record keys and metadata.
use gamestore::engine::encoding::{
    decode_score, encode_score, list_index_field, meta_key, parse_owner_version, parse_subkey,
    split_score_suffix, subkey, subkey_prefix, zscore_key, zscore_prefix, Meta, LIST_INITIAL_INDEX,
    META_HEADER_LEN, META_PREFIX, SUBKEY_PREFIX, TYPE_HASH, TYPE_LIST, TYPE_SET, TYPE_STRING,
    TYPE_ZSET,
};

#[test]
fn meta_key_has_prefix() {
    assert_eq!(
        meta_key(b"player:1"),
        [&[META_PREFIX][..], b"player:1"].concat()
    );
}

#[test]
fn subkey_roundtrips() {
    let raw = subkey(b"player:1", 42, b"gold");
    let (uk, ver, field) = parse_subkey(&raw).expect("well-formed subkey");
    assert_eq!(uk, b"player:1");
    assert_eq!(ver, 42);
    assert_eq!(field, b"gold");
}

#[test]
fn subkey_prefix_is_prefix_of_subkey() {
    let prefix = subkey_prefix(b"k", 7);
    let full = subkey(b"k", 7, b"field");
    assert!(full.starts_with(&prefix));
    assert_eq!(&full[prefix.len()..], b"field");
}

#[test]
fn parse_subkey_rejects_metadata_and_garbage() {
    assert!(parse_subkey(&meta_key(b"k")).is_none());
    assert!(parse_subkey(b"").is_none());
    assert!(parse_subkey(&[SUBKEY_PREFIX]).is_none());
    // A declared key length beyond the end must be refused.
    let mut bad = vec![SUBKEY_PREFIX];
    bad.extend_from_slice(&u32::MAX.to_be_bytes());
    bad.extend_from_slice(&0u64.to_be_bytes());
    assert!(parse_subkey(&bad).is_none());
}

#[test]
fn empty_field_and_key_are_wellformed() {
    let raw = subkey(b"", 0, b"");
    let (uk, ver, field) = parse_subkey(&raw).expect("empty key/field is valid");
    assert_eq!(uk, b"");
    assert_eq!(ver, 0);
    assert_eq!(field, b"");
}

#[test]
fn meta_roundtrips_string_and_hash() {
    let s = Meta {
        type_id: TYPE_STRING,
        version: 123,
        expire_ms: 456,
        payload: b"value".to_vec(),
    };
    assert_eq!(Meta::decode(&s.encode()), Some(s));

    let mut h = Meta {
        type_id: TYPE_HASH,
        version: 999,
        expire_ms: 0,
        payload: Vec::new(),
    };
    h.set_field_count(7);
    let decoded = Meta::decode(&h.encode()).unwrap();
    assert_eq!(decoded.field_count(), 7);
    assert_eq!(decoded, h);
}

#[test]
fn meta_decode_rejects_short_buffer() {
    assert!(Meta::decode(&[0u8; META_HEADER_LEN - 1]).is_none());
}

#[test]
fn score_encoding_preserves_order() {
    let scores = [
        f64::NEG_INFINITY,
        -1e300,
        -42.5,
        -1.0,
        -f64::MIN_POSITIVE,
        -0.0,
        0.0,
        f64::MIN_POSITIVE,
        0.5,
        1.0,
        42.5,
        1e300,
        f64::INFINITY,
    ];
    for w in scores.windows(2) {
        assert!(
            encode_score(w[0].to_bits()) <= encode_score(w[1].to_bits()),
            "byte order violated for {} vs {}",
            w[0],
            w[1]
        );
    }
    for s in scores {
        assert_eq!(
            f64::from_bits(decode_score(encode_score(s.to_bits()))),
            s,
            "round-trip of {s}"
        );
    }
    // -0.0 and 0.0 compare equal as numbers but must both round-trip.
    assert!(f64::from_bits(decode_score(encode_score((-0.0f64).to_bits()))).is_sign_negative());
}

#[test]
fn zscore_key_roundtrips_through_prefix_scan_shape() {
    let prefix = zscore_prefix(b"lb", 9);
    let full = zscore_key(b"lb", 9, 3.5f64.to_bits(), b"alice");
    assert!(full.starts_with(&prefix));
    let (score, member) = split_score_suffix(&full[prefix.len()..]).unwrap();
    assert_eq!(f64::from_bits(score), 3.5);
    assert_eq!(member, b"alice");
    // The owner and the version of a score-index record can be told too.
    assert_eq!(parse_owner_version(&full), Some((&b"lb"[..], 9)));
}

#[test]
fn split_score_suffix_rejects_short_input() {
    assert!(split_score_suffix(b"short").is_none());
}

#[test]
fn parse_owner_version_covers_both_families_and_rejects_meta() {
    let sk = subkey(b"k", 7, b"f");
    assert_eq!(parse_owner_version(&sk), Some((&b"k"[..], 7)));
    assert!(parse_owner_version(&meta_key(b"k")).is_none());
    assert!(parse_owner_version(b"").is_none());
}

#[test]
fn list_index_fields_sort_in_numeric_order() {
    let around = LIST_INITIAL_INDEX;
    let fields = [
        list_index_field(around - 2),
        list_index_field(around - 1),
        list_index_field(around),
        list_index_field(around + 1),
    ];
    for w in fields.windows(2) {
        assert!(w[0] < w[1]);
    }
}

#[test]
fn meta_list_bounds_roundtrip() {
    let mut m = Meta {
        type_id: TYPE_LIST,
        version: 1,
        expire_ms: 0,
        payload: Vec::new(),
    };
    m.set_list_bounds(10, 15);
    assert_eq!(m.list_bounds(), Some((10, 15)));
    let decoded = Meta::decode(&m.encode()).unwrap();
    assert_eq!(decoded.list_bounds(), Some((10, 15)));
    // Other types have no bounds.
    let s = Meta {
        type_id: TYPE_STRING,
        version: 1,
        expire_ms: 0,
        payload: vec![0; 16],
    };
    assert_eq!(s.list_bounds(), None);
}

#[test]
fn field_count_covers_set_and_zset() {
    for type_id in [TYPE_HASH, TYPE_SET, TYPE_ZSET] {
        let mut m = Meta {
            type_id,
            version: 1,
            expire_ms: 0,
            payload: Vec::new(),
        };
        m.set_field_count(11);
        assert_eq!(m.field_count(), 11, "type {type_id}");
    }
}

#[test]
fn record_keys_have_their_layout() {
    assert_eq!(
        subkey(b"ab", 0x0102_0304_0506_0708, b"f"),
        b"\x02\x00\x00\x00\x02ab\x01\x02\x03\x04\x05\x06\x07\x08f"
    );
    assert_eq!(
        zscore_key(b"ab", 1, 1.0f64.to_bits(), b"m"),
        b"\x03\x00\x00\x00\x02ab\x00\x00\x00\x00\x00\x00\x00\x01\xbf\xf0\x00\x00\x00\x00\x00\x00m"
    );
    assert_eq!(
        encode_score((-1.0f64).to_bits()),
        [0x40, 0x0f, 0xff, 0xff, 0xff, 0xff, 0xff, 0xff]
    );
    let m = Meta {
        type_id: TYPE_STRING,
        version: 258,
        expire_ms: 3,
        payload: b"v".to_vec(),
    };
    assert_eq!(
        m.encode(),
        b"\x01\x00\x00\x00\x00\x00\x00\x01\x02\x00\x00\x00\x00\x00\x00\x00\x03v"
    );
}

#[test]
fn meta_roundtrip() {
    for type_id in [TYPE_STRING, TYPE_HASH] {
        for version in [0, 1, 255, 256, u64::MAX] {
            for expire_ms in [0, 1, u64::MAX] {
                for len in [0usize, 1, 4, 16, 255] {
                    let meta = Meta {
                        type_id,
                        version,
                        expire_ms,
                        payload: (0..len).map(|i| i as u8).collect(),
                    };
                    let decoded = Meta::decode(&meta.encode()).expect("decodes");
                    assert_eq!(decoded, meta);
                }
            }
        }
    }
}

#[test]
fn subkey_roundtrip() {
    let strings: [&[u8]; 5] = [b"", b"k", b"\x00\xff", b"player:1", &[7u8; 63]];
    for user_key in strings {
        for version in [0, 1, 1 << 32, u64::MAX] {
            for field in strings {
                let raw = subkey(user_key, version, field);
                let (uk, ver, f) = parse_subkey(&raw).expect("well-formed");
                assert_eq!(uk, user_key);
                assert_eq!(ver, version);
                assert_eq!(f, field);

                let prefix = subkey_prefix(user_key, version);
                assert!(raw.starts_with(&prefix));
                assert_eq!(&raw[prefix.len()..], field);
            }
        }
    }
}

#[test]
fn parse_subkey_never_panics() {
    let full = subkey(b"key", 5, b"field");
    for n in 0..full.len() {
        let _ = parse_subkey(&full[..n]);
    }
    for b in 0..=255u8 {
        for n in 0..40 {
            let _ = parse_subkey(&vec![b; n]);
            let mut raw = vec![SUBKEY_PREFIX];
            raw.extend(vec![b; n]);
            let _ = parse_subkey(&raw);
        }
    }
}
