//! How keys, members and metadata are laid out as records.
//!
//! Every key that a user sees has one metadata record. Every member of a composite value (hash,
//! set, sorted set, list) is one record of its own, whose key holds the owner's key and the
//! version of its structure. To delete or rebuild a key it is enough to give up its version:
//! what it leaves behind is reclaimed later (see [`super::gc`]).
//!
//! ```text
//! metadata   : [META_PREFIX][key]
//! subkey     : [SUBKEY_PREFIX][u32 key length][key][u64 version][field]
//! score index: [ZSCORE_PREFIX][u32 key length][key][u64 version][8-byte score][member]
//! ```
//!
//! A metadata record holds `[type][u64 version][u64 expiry in ms][payload]`, where the payload is
//! the value of a string, the `u32` member count of a hash, a set or a sorted set, and the two
//! `u64` bounds of a list, whose elements have the indexes from the first up to the second. All
//! numbers are big-endian.
//!
//! A set's members are subkeys with an empty value. A sorted set has each member twice: a subkey
//! that holds its score, and a score-index record that stands in the order of score and member.
//! A list's elements are subkeys whose field is the index of the element.
use vstd::prelude::*;
use vstd::slice::{slice_subrange, slice_to_vec};

use super::bigend::{
    be, be_ordered, be_ranges, be_reads_back, be_u32, be_u64, be_value, be_value_writes_back,
    read_be,
};
use crate::order::{before, before_behind_prefix, before_by_front};

verus! {

/// The first byte of a metadata record's key.
pub const META_PREFIX: u8 = 0x01;

/// The first byte of a subkey.
pub const SUBKEY_PREFIX: u8 = 0x02;

/// The first byte of a score-index record's key.
pub const ZSCORE_PREFIX: u8 = 0x03;

/// The type tag of a string.
pub const TYPE_STRING: u8 = 1;

/// The type tag of a hash.
pub const TYPE_HASH: u8 = 2;

/// The type tag of a set.
pub const TYPE_SET: u8 = 3;

/// The type tag of a sorted set.
pub const TYPE_ZSET: u8 = 4;

/// The type tag of a list.
pub const TYPE_LIST: u8 = 5;

/// How many bytes of a metadata record stand before its payload.
pub const META_HEADER_LEN: usize = 1 + 8 + 8;

/// The first index of a new list: the middle of the range, so that both ends have room.
pub const LIST_INITIAL_INDEX: u64 = 0x8000_0000_0000_0000;

// ---------------------------------------------------------------------------
// Record keys
// ---------------------------------------------------------------------------
/// The key of the metadata record of `key`.
pub open spec fn meta_name(key: Seq<u8>) -> Seq<u8> {
    seq![META_PREFIX] + key
}

/// What the keys of all records of one family, owner and version start with.
pub open spec fn owner_prefix(family: u8, key: Seq<u8>, version: u64) -> Seq<u8> {
    seq![family] + be(key.len() as u32 as nat, 4) + key + be(version as nat, 8)
}

/// The key of the record of `field`.
pub open spec fn sub_name(key: Seq<u8>, version: u64, field: Seq<u8>) -> Seq<u8> {
    owner_prefix(SUBKEY_PREFIX, key, version) + field
}

/// A number with the order of the score that `bits` encode as an IEEE 754 double: the greater
/// score has the greater number.
pub open spec fn score_order(bits: u64) -> u64 {
    if bits >= 0x8000_0000_0000_0000 {
        (0xffff_ffff_ffff_ffff - bits) as u64
    } else {
        (bits + 0x8000_0000_0000_0000) as u64
    }
}

/// The score with the given order.
pub open spec fn score_bits(ordered: u64) -> u64 {
    if ordered >= 0x8000_0000_0000_0000 {
        (ordered - 0x8000_0000_0000_0000) as u64
    } else {
        (0xffff_ffff_ffff_ffff - ordered) as u64
    }
}

/// A score as eight bytes that stand in the order of the scores.
pub open spec fn score_bytes(bits: u64) -> Seq<u8> {
    be(score_order(bits) as nat, 8)
}

/// The key of the score-index record of `member`.
pub open spec fn index_name(key: Seq<u8>, version: u64, score: u64, member: Seq<u8>) -> Seq<u8> {
    owner_prefix(ZSCORE_PREFIX, key, version) + score_bytes(score) + member
}

/// The owner, the version and the rest of the key of a record of the given family.
pub open spec fn parse_record(raw: Seq<u8>, family: u8) -> Option<(Seq<u8>, u64, Seq<u8>)> {
    if raw.len() < 13 || raw[0] != family {
        None
    } else {
        let end = 5 + be_value(raw.subrange(1, 5)) as int;
        if raw.len() < end + 8 {
            None
        } else {
            Some(
                (
                    raw.subrange(5, end),
                    be_value(raw.subrange(end, end + 8)) as u64,
                    raw.subrange(end + 8, raw.len() as int),
                ),
            )
        }
    }
}

/// The owner and the version of a record of either family that has them.
pub open spec fn record_owner(raw: Seq<u8>) -> Option<(Seq<u8>, u64)> {
    if raw.len() > 0 && (raw[0] == SUBKEY_PREFIX || raw[0] == ZSCORE_PREFIX) {
        match parse_record(raw, raw[0]) {
            Some((key, version, _)) => Some((key, version)),
            None => None,
        }
    } else {
        None
    }
}

/// A record key reads back as what it was made of.
pub proof fn record_key_reads_back(family: u8, key: Seq<u8>, version: u64, rest: Seq<u8>)
    requires
        key.len() <= u32::MAX,
    ensures
        parse_record(owner_prefix(family, key, version) + rest, family) == Some(
            (key, version, rest),
        ),
        owner_prefix(family, key, version).len() == 13 + key.len(),
{
    let raw = owner_prefix(family, key, version) + rest;
    let end = 5 + key.len() as int;
    be_ranges();
    be_reads_back(key.len() as nat, 4);
    be_reads_back(version as nat, 8);
    assert(raw.subrange(1, 5) =~= be(key.len() as nat, 4));
    assert(raw.subrange(5, end) =~= key);
    assert(raw.subrange(end, end + 8) =~= be(version as nat, 8));
    assert(raw.subrange(end + 8, raw.len() as int) =~= rest);
}

/// A score-index key reads back as the owner, the version, the score and the member.
pub proof fn index_key_reads_back(key: Seq<u8>, version: u64, score: u64, member: Seq<u8>)
    requires
        key.len() <= u32::MAX,
    ensures
        index_name(key, version, score, member) == owner_prefix(ZSCORE_PREFIX, key, version) + (
        score_bytes(score) + member),
        parse_record(index_name(key, version, score, member), ZSCORE_PREFIX) == Some(
            (key, version, score_bytes(score) + member),
        ),
        index_suffix(score_bytes(score) + member) == Some((score, member)),
{
    let rest = score_bytes(score) + member;
    assert(index_name(key, version, score, member) =~= owner_prefix(ZSCORE_PREFIX, key, version)
        + rest);
    record_key_reads_back(ZSCORE_PREFIX, key, version, rest);
    be_ranges();
    be_reads_back(score_order(score) as nat, 8);
    assert(rest.take(8) =~= score_bytes(score));
    assert(rest.skip(8) =~= member);
    score_order_inverts(score);
}

/// Records of different families, owners, versions or fields have different keys, and none has
/// the key of a metadata record.
pub proof fn record_keys_differ(
    f1: u8,
    k1: Seq<u8>,
    v1: u64,
    r1: Seq<u8>,
    f2: u8,
    k2: Seq<u8>,
    v2: u64,
    r2: Seq<u8>,
)
    requires
        k1.len() <= u32::MAX,
        k2.len() <= u32::MAX,
        owner_prefix(f1, k1, v1) + r1 == owner_prefix(f2, k2, v2) + r2,
    ensures
        f1 == f2,
        k1 == k2,
        v1 == v2,
        r1 == r2,
{
    record_key_reads_back(f1, k1, v1, r1);
    record_key_reads_back(f2, k2, v2, r2);
    assert((owner_prefix(f1, k1, v1) + r1)[0] == f1);
    assert((owner_prefix(f2, k2, v2) + r2)[0] == f2);
}

/// Different keys have different metadata records.
pub proof fn meta_keys_differ(k1: Seq<u8>, k2: Seq<u8>)
    requires
        meta_name(k1) == meta_name(k2),
    ensures
        k1 == k2,
{
    assert(meta_name(k1).skip(1) =~= k1);
    assert(meta_name(k2).skip(1) =~= k2);
}

// ---------------------------------------------------------------------------
// Scores
// ---------------------------------------------------------------------------
/// The score and the member behind the prefix of a score-index key.
pub open spec fn index_suffix(suffix: Seq<u8>) -> Option<(u64, Seq<u8>)> {
    if suffix.len() < 8 {
        None
    } else {
        Some((score_bits(be_value(suffix.take(8)) as u64), suffix.skip(8)))
    }
}

/// The number is not one: its exponent is all ones and its fraction is not zero.
pub open spec fn score_is_nan(bits: u64) -> bool {
    bits % 0x8000_0000_0000_0000 > 0x7ff0_0000_0000_0000
}

/// The place of a score, if it is a number, on the line of integers: negative scores in reverse
/// below zero, and both zeros at zero.
pub open spec fn score_place(bits: u64) -> int {
    if bits >= 0x8000_0000_0000_0000 {
        0x8000_0000_0000_0000 - bits
    } else {
        bits as int
    }
}

/// `a < b` as doubles.
pub open spec fn score_less(a: u64, b: u64) -> bool {
    !score_is_nan(a) && !score_is_nan(b) && score_place(a) < score_place(b)
}

/// `a == b` as doubles.
pub open spec fn score_same(a: u64, b: u64) -> bool {
    !score_is_nan(a) && !score_is_nan(b) && score_place(a) == score_place(b)
}

/// The order number of a score determines it.
pub proof fn score_order_inverts(bits: u64)
    ensures
        score_bits(score_order(bits)) == bits,
        score_order(score_bits(bits)) == bits,
{
}

/// The bytes of scores stand in the order of the scores.
pub proof fn score_bytes_ordered(a: u64, b: u64)
    ensures
        score_less(a, b) ==> before(score_bytes(a), score_bytes(b)),
        before(score_bytes(a), score_bytes(b)) == (score_order(a) < score_order(b)),
        !score_is_nan(a) && !score_is_nan(b) && before(score_bytes(a), score_bytes(b))
            ==> score_less(a, b) || score_same(a, b),
{
    be_ranges();
    be_ordered(score_order(a) as nat, score_order(b) as nat, 8);
}

/// Score-index keys of one owner and version stand in the order of score and member.
pub proof fn index_keys_ordered(
    key: Seq<u8>,
    version: u64,
    s1: u64,
    m1: Seq<u8>,
    s2: u64,
    m2: Seq<u8>,
)
    ensures
        before(index_name(key, version, s1, m1), index_name(key, version, s2, m2)) == (score_order(
            s1,
        ) < score_order(s2) || s1 == s2 && before(m1, m2)),
{
    let p = owner_prefix(ZSCORE_PREFIX, key, version);
    assert(index_name(key, version, s1, m1) =~= p + (score_bytes(s1) + m1));
    assert(index_name(key, version, s2, m2) =~= p + (score_bytes(s2) + m2));
    before_behind_prefix(p, score_bytes(s1) + m1, score_bytes(s2) + m2);
    be_ranges();
    be_reads_back(score_order(s1) as nat, 8);
    be_reads_back(score_order(s2) as nat, 8);
    score_order_inverts(s1);
    score_order_inverts(s2);
    before_by_front(score_bytes(s1), score_bytes(s2), m1, m2);
    score_bytes_ordered(s1, s2);
}

/// The fields of list elements stand in the order of the indexes.
pub proof fn list_fields_ordered(i: u64, j: u64)
    ensures
        before(be(i as nat, 8), be(j as nat, 8)) == (i < j),
{
    be_ranges();
    be_ordered(i as nat, j as nat, 8);
}

// ---------------------------------------------------------------------------
// Functions on record keys
// ---------------------------------------------------------------------------
/// Appends `more` to `v`.
fn extend(v: &mut Vec<u8>, more: &[u8])
    ensures
        final(v)@ == old(v)@ + more@,
{
    let mut i: usize = 0;
    while i < more.len()
        invariant
            i <= more@.len(),
            v@ == old(v)@ + more@.take(i as int),
        decreases more@.len() - i,
    {
        v.push(more[i]);
        i += 1;
        assert(v@ =~= old(v)@ + more@.take(i as int));
    }
    assert(more@.take(i as int) =~= more@);
}

/// The key of the metadata record of `user_key`.
pub fn meta_key(user_key: &[u8]) -> (r: Vec<u8>)
    ensures
        r@ == meta_name(user_key@),
{
    let mut k: Vec<u8> = Vec::new();
    k.push(META_PREFIX);
    extend(&mut k, user_key);
    assert(k@ =~= meta_name(user_key@));
    k
}

/// What the keys of all records of one family, owner and version start with.
fn versioned_prefix(family: u8, user_key: &[u8], version: u64) -> (r: Vec<u8>)
    ensures
        r@ == owner_prefix(family, user_key@, version),
{
    let mut k: Vec<u8> = Vec::new();
    k.push(family);
    extend(&mut k, &be_u32(user_key.len() as u32));
    extend(&mut k, user_key);
    extend(&mut k, &be_u64(version));
    assert(k@ =~= owner_prefix(family, user_key@, version));
    k
}

/// What every subkey of `user_key` at `version` starts with.
pub fn subkey_prefix(user_key: &[u8], version: u64) -> (r: Vec<u8>)
    ensures
        r@ == owner_prefix(SUBKEY_PREFIX, user_key@, version),
{
    versioned_prefix(SUBKEY_PREFIX, user_key, version)
}

/// The key of the record of `field` of `user_key` at `version`.
pub fn subkey(user_key: &[u8], version: u64, field: &[u8]) -> (r: Vec<u8>)
    ensures
        r@ == sub_name(user_key@, version, field@),
{
    let mut k = subkey_prefix(user_key, version);
    extend(&mut k, field);
    k
}

/// The owner, the version and the rest of the key of a record of the given family.
fn parse_versioned(raw: &[u8], family: u8) -> (r: Option<(&[u8], u64, &[u8])>)
    ensures
        match r {
            Some((key, version, rest)) => parse_record(raw@, family) == Some(
                (key@, version, rest@),
            ),
            None => parse_record(raw@, family) is None,
        },
{
    if raw.len() < 13 || raw[0] != family {
        return None;
    }
    let key_len = read_be(slice_subrange(raw, 1, 5));
    proof {
        be_ranges();
    }
    if raw.len() as u64 - 13 < key_len {
        return None;
    }
    let key_end: usize = 5 + key_len as usize;
    let version_end: usize = key_end + 8;
    let user_key = slice_subrange(raw, 5, key_end);
    let version = read_be(slice_subrange(raw, key_end, version_end));
    let rest = slice_subrange(raw, version_end, raw.len());
    Some((user_key, version, rest))
}

/// The owner, the version and the field of a subkey, or `None` where `raw` is not one.
pub fn parse_subkey(raw: &[u8]) -> (r: Option<(&[u8], u64, &[u8])>)
    ensures
        match r {
            Some((key, version, field)) => parse_record(raw@, SUBKEY_PREFIX) == Some(
                (key@, version, field@),
            ),
            None => parse_record(raw@, SUBKEY_PREFIX) is None,
        },
{
    parse_versioned(raw, SUBKEY_PREFIX)
}

/// The owner and the version of a record of either family that has them.
pub fn parse_owner_version(raw: &[u8]) -> (r: Option<(&[u8], u64)>)
    ensures
        match r {
            Some((key, version)) => record_owner(raw@) == Some((key@, version)),
            None => record_owner(raw@) is None,
        },
{
    if raw.len() == 0 {
        return None;
    }
    let family = raw[0];
    if family != SUBKEY_PREFIX && family != ZSCORE_PREFIX {
        return None;
    }
    match parse_versioned(raw, family) {
        Some((key, version, _)) => Some((key, version)),
        None => None,
    }
}

/// The eight bytes of a score, given by its bits, in an order that is that of the scores.
pub fn encode_score(score: u64) -> (r: [u8; 8])
    ensures
        r@ == score_bytes(score),
{
    let ordered: u64 = if score >= 0x8000_0000_0000_0000 {
        // Negative: reverse the order and go below the others.
        0xffff_ffff_ffff_ffff - score
    } else {
        score + 0x8000_0000_0000_0000
    };
    be_u64(ordered)
}

/// The bits of the score that [`encode_score`] gave these bytes.
pub fn decode_score(raw: [u8; 8]) -> (r: u64)
    ensures
        r == score_bits(be_value(raw@) as u64),
{
    proof {
        be_ranges();
    }
    let ordered = read_be(&raw);
    if ordered >= 0x8000_0000_0000_0000 {
        ordered - 0x8000_0000_0000_0000
    } else {
        0xffff_ffff_ffff_ffff - ordered
    }
}

/// What every score-index key of `user_key` at `version` starts with.
pub fn zscore_prefix(user_key: &[u8], version: u64) -> (r: Vec<u8>)
    ensures
        r@ == owner_prefix(ZSCORE_PREFIX, user_key@, version),
{
    versioned_prefix(ZSCORE_PREFIX, user_key, version)
}

/// The key of the score-index record of `member` of `user_key` at `version`.
pub fn zscore_key(user_key: &[u8], version: u64, score: u64, member: &[u8]) -> (r: Vec<u8>)
    ensures
        r@ == index_name(user_key@, version, score, member@),
{
    let mut k = zscore_prefix(user_key, version);
    extend(&mut k, &encode_score(score));
    extend(&mut k, member);
    k
}

/// The eight bytes at the front of `s`.
pub(crate) fn eight(s: &[u8]) -> (r: [u8; 8])
    requires
        s@.len() >= 8,
    ensures
        r@ == s@.take(8),
{
    let r: [u8; 8] = [s[0], s[1], s[2], s[3], s[4], s[5], s[6], s[7]];
    assert(r@ =~= s@.take(8));
    r
}

/// The score and the member behind the prefix of a score-index key, or `None` where there are
/// too few bytes.
pub fn split_score_suffix(suffix: &[u8]) -> (r: Option<(u64, &[u8])>)
    ensures
        match r {
            Some((score, member)) => index_suffix(suffix@) == Some((score, member@)),
            None => index_suffix(suffix@) is None,
        },
{
    if suffix.len() < 8 {
        return None;
    }
    let score = decode_score(eight(suffix));
    Some((score, slice_subrange(suffix, 8, suffix.len())))
}

/// Whether a score is not a number.
pub(crate) fn is_nan(score: u64) -> (r: bool)
    ensures
        r == score_is_nan(score),
{
    score % 0x8000_0000_0000_0000 > 0x7ff0_0000_0000_0000
}

/// The place of a score on the line of integers.
fn place(score: u64) -> (r: i128)
    ensures
        r == score_place(score),
{
    if score >= 0x8000_0000_0000_0000 {
        0x8000_0000_0000_0000i128 - score as i128
    } else {
        score as i128
    }
}

/// `a < b` as doubles.
pub(crate) fn less(a: u64, b: u64) -> (r: bool)
    ensures
        r == score_less(a, b),
{
    !is_nan(a) && !is_nan(b) && place(a) < place(b)
}

/// `a == b` as doubles.
pub(crate) fn same(a: u64, b: u64) -> (r: bool)
    ensures
        r == score_same(a, b),
{
    !is_nan(a) && !is_nan(b) && place(a) == place(b)
}

/// The field of the list element with the given index.
pub fn list_index_field(index: u64) -> (r: [u8; 8])
    ensures
        r@ == be(index as nat, 8),
{
    be_u64(index)
}

// ---------------------------------------------------------------------------
// Metadata
// ---------------------------------------------------------------------------
/// A metadata record.
#[derive(Debug, Clone, PartialEq, Eq)]
pub struct Meta {
    /// The type tag ([`TYPE_STRING`] and the others).
    pub type_id: u8,
    /// The version of the structure.
    pub version: u64,
    /// When the key expires, in milliseconds since the epoch; zero for never.
    pub expire_ms: u64,
    /// What the type keeps: a string's value, a member count, or a list's bounds.
    pub payload: Vec<u8>,
}

/// A [`Meta`] as a mathematical value.
#[verifier::ext_equal]
pub struct MetaView {
    pub type_id: u8,
    pub version: u64,
    pub expire_ms: u64,
    pub payload: Seq<u8>,
}

impl View for Meta {
    type V = MetaView;

    open spec fn view(&self) -> MetaView {
        MetaView {
            type_id: self.type_id,
            version: self.version,
            expire_ms: self.expire_ms,
            payload: self.payload@,
        }
    }
}

/// The metadata that a record holds, or `None` where it is too short.
pub open spec fn meta_of(raw: Seq<u8>) -> Option<MetaView> {
    if raw.len() < META_HEADER_LEN {
        None
    } else {
        Some(
            MetaView {
                type_id: raw[0],
                version: be_value(raw.subrange(1, 9)) as u64,
                expire_ms: be_value(raw.subrange(9, 17)) as u64,
                payload: raw.skip(17),
            },
        )
    }
}

impl MetaView {
    /// The record that holds this metadata.
    pub open spec fn encoded(self) -> Seq<u8> {
        seq![self.type_id] + be(self.version as nat, 8) + be(self.expire_ms as nat, 8)
            + self.payload
    }

    /// The values of this type count their members.
    pub open spec fn counted(self) -> bool {
        self.type_id == TYPE_HASH || self.type_id == TYPE_SET || self.type_id == TYPE_ZSET
    }

    /// The values of this type have records besides their metadata.
    pub open spec fn composite(self) -> bool {
        self.counted() || self.type_id == TYPE_LIST
    }

    /// The member count; zero for a type that has none, or a payload that is too short.
    pub open spec fn count(self) -> u32 {
        if self.counted() && self.payload.len() >= 4 {
            be_value(self.payload.take(4)) as u32
        } else {
            0
        }
    }

    /// The bounds of a list; `None` for another type, or a payload that is too short.
    pub open spec fn bounds(self) -> Option<(u64, u64)> {
        if self.type_id != TYPE_LIST || self.payload.len() < 16 {
            None
        } else {
            Some(
                (
                    be_value(self.payload.take(8)) as u64,
                    be_value(self.payload.subrange(8, 16)) as u64,
                ),
            )
        }
    }

    /// The same metadata with another member count.
    pub open spec fn with_count(self, n: u32) -> MetaView {
        MetaView { payload: be(n as nat, 4), ..self }
    }

    /// The same metadata with other bounds.
    pub open spec fn with_bounds(self, head: u64, tail: u64) -> MetaView {
        MetaView { payload: be(head as nat, 8) + be(tail as nat, 8), ..self }
    }
}

/// A metadata record reads back as what was written, and writes back as what was read.
pub proof fn meta_reads_back(m: MetaView)
    ensures
        meta_of(m.encoded()) == Some(m),
{
    let raw = m.encoded();
    be_ranges();
    be_reads_back(m.version as nat, 8);
    be_reads_back(m.expire_ms as nat, 8);
    assert(raw.subrange(1, 9) =~= be(m.version as nat, 8));
    assert(raw.subrange(9, 17) =~= be(m.expire_ms as nat, 8));
    assert(raw.skip(17) =~= m.payload);
}

/// A record that holds metadata is the one that would be written for it.
pub proof fn meta_writes_back(raw: Seq<u8>)
    ensures
        meta_of(raw) matches Some(m) ==> m.encoded() == raw,
{
    if let Some(m) = meta_of(raw) {
        be_ranges();
        be_value_writes_back(raw.subrange(1, 9));
        be_value_writes_back(raw.subrange(9, 17));
        assert(m.encoded() =~= raw);
    }
}

/// A member count that was set reads back.
pub proof fn count_reads_back(m: MetaView, n: u32)
    requires
        m.counted(),
    ensures
        m.with_count(n).count() == n,
{
    be_ranges();
    be_reads_back(n as nat, 4);
    assert(be(n as nat, 4).take(4) =~= be(n as nat, 4));
}

/// Bounds that were set read back.
pub proof fn bounds_read_back(m: MetaView, head: u64, tail: u64)
    requires
        m.type_id == TYPE_LIST,
    ensures
        m.with_bounds(head, tail).bounds() == Some((head, tail)),
{
    be_ranges();
    be_reads_back(head as nat, 8);
    be_reads_back(tail as nat, 8);
    let p = be(head as nat, 8) + be(tail as nat, 8);
    assert(p.take(8) =~= be(head as nat, 8));
    assert(p.subrange(8, 16) =~= be(tail as nat, 8));
}

impl Meta {
    /// The record that holds this metadata.
    pub fn encode(&self) -> (r: Vec<u8>)
        ensures
            r@ == self@.encoded(),
    {
        let mut v: Vec<u8> = Vec::new();
        v.push(self.type_id);
        extend(&mut v, &be_u64(self.version));
        extend(&mut v, &be_u64(self.expire_ms));
        extend(&mut v, &self.payload);
        assert(v@ =~= self@.encoded());
        v
    }

    /// The metadata that a record holds, or `None` where it is too short.
    pub fn decode(raw: &[u8]) -> (r: Option<Meta>)
        ensures
            match r {
                Some(m) => meta_of(raw@) == Some(m@),
                None => meta_of(raw@) is None,
            },
    {
        if raw.len() < META_HEADER_LEN {
            return None;
        }
        proof {
            be_ranges();
        }
        let payload = slice_to_vec(slice_subrange(raw, META_HEADER_LEN, raw.len()));
        assert(payload@ =~= raw@.skip(17));
        Some(
            Meta {
                type_id: raw[0],
                version: read_be(slice_subrange(raw, 1, 9)),
                expire_ms: read_be(slice_subrange(raw, 9, 17)),
                payload,
            },
        )
    }

    /// The member count of a hash, a set or a sorted set; zero for other types and payloads that
    /// are too short.
    pub fn field_count(&self) -> (r: u32)
        ensures
            r == self@.count(),
    {
        let counted = self.type_id == TYPE_HASH || self.type_id == TYPE_SET || self.type_id
            == TYPE_ZSET;
        if counted && self.payload.len() >= 4 {
            proof {
                be_ranges();
            }
            let n = read_be(slice_subrange(&self.payload, 0, 4));
            n as u32
        } else {
            0
        }
    }

    /// Sets the member count.
    pub fn set_field_count(&mut self, n: u32)
        ensures
            final(self)@ == old(self)@.with_count(n),
    {
        self.payload = slice_to_vec(&be_u32(n));
        assert(self@ =~= old(self)@.with_count(n));
    }

    /// The bounds of a list; `None` for other types and payloads that are too short.
    pub fn list_bounds(&self) -> (r: Option<(u64, u64)>)
        ensures
            r == self@.bounds(),
    {
        if self.type_id != TYPE_LIST || self.payload.len() < 16 {
            return None;
        }
        proof {
            be_ranges();
        }
        let head = read_be(slice_subrange(&self.payload, 0, 8));
        let tail = read_be(slice_subrange(&self.payload, 8, 16));
        Some((head, tail))
    }

    /// Sets the bounds.
    pub fn set_list_bounds(&mut self, head: u64, tail: u64)
        ensures
            final(self)@ == old(self)@.with_bounds(head, tail),
    {
        let mut p = slice_to_vec(&be_u64(head));
        extend(&mut p, &be_u64(tail));
        self.payload = p;
        assert(self@ =~= old(self)@.with_bounds(head, tail));
    }
}

} // verus!
