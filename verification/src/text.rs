//! Decimal numbers and text: what they look like as bytes, and how to read them back.
use vstd::prelude::*;
use vstd::string::*;
use vstd::utf8::*;

verus! {

// ---------------------------------------------------------------------------
// Decimal digits
// ---------------------------------------------------------------------------
/// The ASCII digits `0` to `9`.
pub open spec fn is_digit(b: u8) -> bool {
    48 <= b <= 57
}

/// Every byte of `s` is an ASCII digit.
pub open spec fn all_digits(s: Seq<u8>) -> bool {
    forall|i: int| 0 <= i < s.len() ==> is_digit(#[trigger] s[i])
}

/// The number that a run of decimal digits denotes; an empty run denotes zero.
pub open spec fn digits_value(s: Seq<u8>) -> nat
    decreases s.len(),
{
    if s.len() == 0 {
        0
    } else {
        10 * digits_value(s.drop_last()) + (s.last() - 48) as nat
    }
}

/// The decimal digits of a natural number, without leading zeros.
pub open spec fn nat_digits(n: nat) -> Seq<u8>
    decreases n,
{
    if n < 10 {
        seq![(48 + n) as u8]
    } else {
        nat_digits(n / 10).push((48 + n % 10) as u8)
    }
}

/// The decimal form of an integer: a minus sign where it is negative, then its digits.
pub open spec fn decimal(n: int) -> Seq<u8> {
    if n < 0 {
        seq![45u8] + nat_digits((-n) as nat)
    } else {
        nat_digits(n as nat)
    }
}

/// The integer that `s` spells: an optional sign, then at least one digit and nothing else.
pub open spec fn signed_value(s: Seq<u8>) -> Option<int> {
    let signed = s.len() > 0 && (s[0] == 45 || s[0] == 43);
    let digits = if signed {
        s.skip(1)
    } else {
        s
    };
    if digits.len() == 0 || !all_digits(digits) {
        None
    } else if s[0] == 45 {
        Some(-(digits_value(digits) as int))
    } else {
        Some(digits_value(digits) as int)
    }
}

/// What `s` denotes as a 64-bit signed integer, where it spells one that fits.
pub open spec fn int_value(s: Seq<u8>) -> Option<i64> {
    match signed_value(s) {
        Some(v) => if i64::MIN <= v <= i64::MAX {
            Some(v as i64)
        } else {
            None
        },
        None => None,
    }
}

/// The decimal digits of a natural number are digits, there is at least one, and they
/// denote that number.
pub proof fn nat_digits_denote(n: nat)
    ensures
        nat_digits(n).len() >= 1,
        all_digits(nat_digits(n)),
        digits_value(nat_digits(n)) == n,
    decreases n,
{
    if n < 10 {
        let s = nat_digits(n);
        assert(s.drop_last() =~= Seq::<u8>::empty());
        assert(digits_value(s.drop_last()) == 0);
    } else {
        nat_digits_denote(n / 10);
        let s = nat_digits(n);
        assert(s.drop_last() =~= nat_digits(n / 10));
        assert(s.last() - 48 == n % 10);
    }
}

/// Reading back the decimal form of a 64-bit integer gives that integer.
pub proof fn decimal_reads_back(n: i64)
    ensures
        int_value(decimal(n as int)) == Some(n),
{
    if n < 0 {
        nat_digits_denote((-n) as nat);
        assert(decimal(n as int).skip(1) =~= nat_digits((-n) as nat));
    } else {
        nat_digits_denote(n as nat);
        assert(is_digit(nat_digits(n as nat)[0]));
    }
}

/// A decimal form has at most twenty bytes where the number fits in 64 bits, signed or not,
/// and holds nothing but digits and a leading minus sign.
pub proof fn decimal_is_short(n: int)
    requires
        i64::MIN <= n <= u64::MAX,
    ensures
        1 <= decimal(n).len() <= 20,
        forall|i: int|
            0 <= i < decimal(n).len() ==> is_digit(#[trigger] decimal(n)[i]) || decimal(n)[i] == 45,
{
    if n < 0 {
        nat_digits_denote((-n) as nat);
        nat_digits_len((-n) as nat, 19);
    } else {
        nat_digits_denote(n as nat);
        nat_digits_len(n as nat, 20);
    }
}

/// Ten to the power `k`.
pub open spec fn ten_to(k: nat) -> nat
    decreases k,
{
    if k == 0 {
        1
    } else {
        10 * ten_to((k - 1) as nat)
    }
}

/// A number below ten to the `k` has at most `k` digits.
proof fn nat_digits_below(n: nat, k: nat)
    requires
        k >= 1,
        n < ten_to(k),
    ensures
        nat_digits(n).len() <= k,
    decreases k,
{
    if n >= 10 {
        if k == 1 {
            assert(ten_to(1) == 10) by {
                reveal_with_fuel(ten_to, 2);
            }
        } else {
            nat_digits_below(n / 10, (k - 1) as nat);
        }
    }
}

/// The digit counts of the largest 64-bit magnitudes.
proof fn nat_digits_len(n: nat, k: nat)
    requires
        k == 19 && n <= 0x8000_0000_0000_0000 || k == 20 && n <= u64::MAX,
    ensures
        nat_digits(n).len() <= k,
{
    assert(ten_to(10) == 10_000_000_000) by {
        reveal_with_fuel(ten_to, 11);
    }
    assert(ten_to(19) == 10_000_000_000_000_000_000) by {
        reveal_with_fuel(ten_to, 10);
    }
    assert(ten_to(20) == 100_000_000_000_000_000_000);
    nat_digits_below(n, k);
}

/// The decimal digits of `n`.
pub fn decimal_u64(n: u64) -> (r: Vec<u8>)
    ensures
        r@ == decimal(n as int),
    decreases n,
{
    if n < 10 {
        let mut v: Vec<u8> = Vec::new();
        v.push(48 + n as u8);
        assert(v@ =~= nat_digits(n as nat));
        v
    } else {
        let mut v = decimal_u64(n / 10);
        v.push(48 + (n % 10) as u8);
        assert(v@ =~= nat_digits(n as nat));
        v
    }
}

/// The decimal form of `n`.
pub fn decimal_i64(n: i64) -> (r: Vec<u8>)
    ensures
        r@ == decimal(n as int),
{
    if n < 0 {
        let magnitude: u64 = (-(n as i128)) as u64;
        let mut digits = decimal_u64(magnitude);
        let mut v: Vec<u8> = Vec::new();
        v.push(45);
        v.append(&mut digits);
        assert(v@ =~= decimal(n as int));
        v
    } else {
        decimal_u64(n as u64)
    }
}

/// The 64-bit integer that `s` spells: an optional sign and at least one digit.
pub fn read_int(s: &[u8]) -> (r: Option<i64>)
    ensures
        r == int_value(s@),
{
    let n: usize = s.len();
    if n == 0 {
        return None;
    }
    let negative = s[0] == 45;
    let start: usize = if s[0] == 45 || s[0] == 43 {
        1
    } else {
        0
    };
    let ghost digits = s@.skip(start as int);
    assert(start == 0 ==> digits =~= s@);
    if start == n {
        return None;
    }
    let mut value: u128 = 0;
    let mut i: usize = start;
    while i < n
        invariant
            n == s@.len(),
            n > 0,
            start <= i <= n,
            start == if s@[0] == 45 || s@[0] == 43 { 1int } else { 0int },
            digits == s@.skip(start as int),
            start == 0 ==> digits == s@,
            all_digits(digits.take(i - start)),
            value == if digits_value(digits.take(i - start)) <= 0x1_0000_0000_0000_0000 {
                digits_value(digits.take(i - start))
            } else {
                0x1_0000_0000_0000_0000
            },
        decreases n - i,
    {
        let b = s[i];
        let ghost before = digits.take(i - start);
        let ghost after = digits.take(i + 1 - start);
        assert(digits[i - start] == b);
        if b < 48 || b > 57 {
            assert(!is_digit(digits[i - start]));
            return None;
        }
        assert(after =~= before.push(b));
        assert(after.drop_last() =~= before);
        let next: u128 = 10 * value + (b - 48) as u128;
        value = if next <= 0x1_0000_0000_0000_0000 {
            next
        } else {
            0x1_0000_0000_0000_0000
        };
        i += 1;
    }
    assert(digits.take(n - start) =~= digits);
    if negative {
        if value <= 0x8000_0000_0000_0000 {
            Some((-(value as i128)) as i64)
        } else {
            None
        }
    } else if value <= 0x7fff_ffff_ffff_ffff {
        Some(value as i64)
    } else {
        None
    }
}

/// What `s` denotes as an unsigned integer, where it spells one that is at most `max`: an optional
/// plus sign and at least one digit.
pub open spec fn uint_value(s: Seq<u8>, max: u64) -> Option<u64> {
    let digits = if s.len() > 0 && s[0] == 43 {
        s.skip(1)
    } else {
        s
    };
    if digits.len() == 0 || !all_digits(digits) || digits_value(digits) > max {
        None
    } else {
        Some(digits_value(digits) as u64)
    }
}

/// The unsigned integer that `s` spells, where it is at most `max`.
pub fn read_uint(s: &[u8], max: u64) -> (r: Option<u64>)
    ensures
        r == uint_value(s@, max),
{
    let n: usize = s.len();
    let start: usize = if n > 0 && s[0] == 43 {
        1
    } else {
        0
    };
    let ghost digits = s@.skip(start as int);
    assert(start == 0 ==> digits =~= s@);
    if start == n {
        return None;
    }
    let mut value: u128 = 0;
    let mut i: usize = start;
    while i < n
        invariant
            n == s@.len(),
            start <= i <= n,
            digits == s@.skip(start as int),
            digits == (if s@.len() > 0 && s@[0] == 43 {
                s@.skip(1)
            } else {
                s@
            }),
            all_digits(digits.take(i - start)),
            value == if digits_value(digits.take(i - start)) <= 0x1_0000_0000_0000_0000 {
                digits_value(digits.take(i - start))
            } else {
                0x1_0000_0000_0000_0000
            },
        decreases n - i,
    {
        let b = s[i];
        let ghost before = digits.take(i - start);
        let ghost after = digits.take(i + 1 - start);
        assert(digits[i - start] == b);
        if b < 48 || b > 57 {
            assert(!is_digit(digits[i - start]));
            return None;
        }
        assert(after =~= before.push(b));
        assert(after.drop_last() =~= before);
        let next: u128 = 10 * value + (b - 48) as u128;
        value = if next <= 0x1_0000_0000_0000_0000 {
            next
        } else {
            0x1_0000_0000_0000_0000
        };
        i += 1;
    }
    assert(digits.take(n - start) =~= digits);
    if value <= max as u128 {
        Some(value as u64)
    } else {
        None
    }
}

// ---------------------------------------------------------------------------
// Letter case
// ---------------------------------------------------------------------------
/// An ASCII letter in lower case; any other byte as it is.
pub open spec fn lower(b: u8) -> u8 {
    if 65 <= b <= 90 {
        (b + 32) as u8
    } else {
        b
    }
}

/// An ASCII letter in upper case; any other byte as it is.
pub open spec fn upper(b: u8) -> u8 {
    if 97 <= b <= 122 {
        (b - 32) as u8
    } else {
        b
    }
}

/// `s` with its ASCII letters in lower case.
pub open spec fn lower_all(s: Seq<u8>) -> Seq<u8> {
    Seq::new(s.len(), |i: int| lower(s[i]))
}

/// `s` with its ASCII letters in upper case.
pub open spec fn upper_all(s: Seq<u8>) -> Seq<u8> {
    Seq::new(s.len(), |i: int| upper(s[i]))
}

/// `s` with its ASCII letters in lower case.
pub(crate) fn to_lower(s: &[u8]) -> (r: Vec<u8>)
    ensures
        r@ == lower_all(s@),
{
    let mut out: Vec<u8> = Vec::new();
    let mut i: usize = 0;
    while i < s.len()
        invariant
            i <= s@.len(),
            out@ == lower_all(s@).take(i as int),
        decreases s@.len() - i,
    {
        let b = s[i];
        out.push(if 65 <= b && b <= 90 { b + 32 } else { b });
        i += 1;
        assert(out@ =~= lower_all(s@).take(i as int));
    }
    assert(lower_all(s@).take(i as int) =~= lower_all(s@));
    out
}

/// `s` with its ASCII letters in upper case.
pub(crate) fn to_upper(s: &[u8]) -> (r: Vec<u8>)
    ensures
        r@ == upper_all(s@),
{
    let mut out: Vec<u8> = Vec::new();
    let mut i: usize = 0;
    while i < s.len()
        invariant
            i <= s@.len(),
            out@ == upper_all(s@).take(i as int),
        decreases s@.len() - i,
    {
        let b = s[i];
        out.push(if 97 <= b && b <= 122 { b - 32 } else { b });
        i += 1;
        assert(out@ =~= upper_all(s@).take(i as int));
    }
    assert(upper_all(s@).take(i as int) =~= upper_all(s@));
    out
}

/// Whether two byte strings are the same.
pub(crate) fn same_bytes(a: &[u8], b: &[u8]) -> (r: bool)
    ensures
        r == (a@ == b@),
{
    if a.len() != b.len() {
        return false;
    }
    let mut i: usize = 0;
    while i < a.len()
        invariant
            a@.len() == b@.len(),
            i <= a@.len(),
            forall|j: int| 0 <= j < i ==> a@[j] == b@[j],
        decreases a@.len() - i,
    {
        if a[i] != b[i] {
            assert(a@[i as int] != b@[i as int]);
            return false;
        }
        i += 1;
    }
    assert(a@ =~= b@);
    true
}

// ---------------------------------------------------------------------------
// Text
// ---------------------------------------------------------------------------
/// Bytes below 128, read as characters.
pub open spec fn ascii(s: Seq<u8>) -> Seq<char> {
    Seq::new(s.len(), |i: int| s[i] as char)
}

/// Every byte of `s` is an ASCII character.
pub open spec fn all_ascii(s: Seq<u8>) -> bool {
    forall|i: int| 0 <= i < s.len() ==> #[trigger] s[i] < 128
}

/// ASCII bytes are valid UTF-8 and decode to one character each.
pub proof fn ascii_is_utf8(s: Seq<u8>)
    requires
        all_ascii(s),
    ensures
        valid_utf8(s),
        decode_utf8(s) == ascii(s),
        encode_utf8(ascii(s)) == s,
{
    let c = ascii(s);
    assert forall|i: int| 0 <= i < c.len() implies 0 <= #[trigger] c[i] as u32 <= 0x7f by {
        assert(s[i] < 128);
    }
    assert(is_ascii_chars(c));
    is_ascii_chars_encode_utf8(c);
    assert(encode_utf8(c) =~= s) by {
        assert forall|i: int| 0 <= i < s.len() implies encode_utf8(c)[i] == s[i] by {
            assert(c[i] as u8 == encode_utf8(c)[i]);
        }
    }
    encode_utf8_valid_utf8(c);
    encode_utf8_decode_utf8(c);
}

/// `std::str::from_utf8`: the text that `bytes` encodes, where they are valid UTF-8.
#[verifier::external_body]
pub(crate) fn utf8_text(bytes: &[u8]) -> (r: Option<&str>)
    ensures
        r is Some <==> valid_utf8(bytes@),
        r matches Some(s) ==> s@ == decode_utf8(bytes@),
{
    std::str::from_utf8(bytes).ok()
}

/// What `String::from_utf8_lossy` makes of `bytes`.
pub uninterp spec fn lossy_text(bytes: Seq<u8>) -> Seq<char>;

/// The text of `bytes`: what they encode where they are valid UTF-8, and else what
/// `String::from_utf8_lossy` makes of them.
pub open spec fn shown_text(bytes: Seq<u8>) -> Seq<char> {
    if valid_utf8(bytes) {
        decode_utf8(bytes)
    } else {
        lossy_text(bytes)
    }
}

/// `String::from_utf8_lossy`: the text of `bytes`, with each invalid stretch replaced by
/// U+FFFD. Valid UTF-8 comes through unchanged; how an invalid stretch is cut up is left to
/// the function's own documentation and only named here.
#[verifier::external_body]
pub(crate) fn lossy(bytes: &[u8]) -> (r: String)
    ensures
        r@ == lossy_text(bytes@),
        r@ == shown_text(bytes@),
{
    String::from_utf8_lossy(bytes).into_owned()
}

/// The text of ASCII bytes.
pub(crate) fn ascii_string(bytes: &[u8]) -> (r: String)
    requires
        all_ascii(bytes@),
    ensures
        r@ == ascii(bytes@),
{
    proof {
        ascii_is_utf8(bytes@);
    }
    match utf8_text(bytes) {
        Some(s) => s.to_owned(),
        None => String::new(),
    }
}

/// The decimal form of `n` as text.
pub open spec fn decimal_text(n: int) -> Seq<char> {
    ascii(decimal(n))
}

/// The decimal form of `n` as text.
pub(crate) fn u64_text(n: u64) -> (r: String)
    ensures
        r@ == decimal_text(n as int),
{
    let digits = decimal_u64(n);
    proof {
        decimal_is_short(n as int);
    }
    ascii_string(&digits)
}

/// The decimal form of `n` as text.
pub(crate) fn i64_text(n: i64) -> (r: String)
    ensures
        r@ == decimal_text(n as int),
{
    let digits = decimal_i64(n);
    proof {
        decimal_is_short(n as int);
    }
    ascii_string(&digits)
}

/// A lower-case hexadecimal digit.
pub open spec fn hex_digit(n: int) -> u8 {
    if n < 10 {
        (48 + n) as u8
    } else {
        (87 + n) as u8
    }
}

/// A byte as two lower-case hexadecimal digits.
pub open spec fn hex_text(b: u8) -> Seq<char> {
    ascii(seq![hex_digit(b as int / 16), hex_digit(b as int % 16)])
}

/// A byte as two lower-case hexadecimal digits.
pub(crate) fn hex_string(b: u8) -> (r: String)
    ensures
        r@ == hex_text(b),
{
    let hi: u8 = b / 16;
    let lo: u8 = b % 16;
    let mut v: Vec<u8> = Vec::new();
    v.push(if hi < 10 { 48 + hi } else { 87 + hi });
    v.push(if lo < 10 { 48 + lo } else { 87 + lo });
    assert(v@ =~= seq![hex_digit(b as int / 16), hex_digit(b as int % 16)]);
    ascii_string(&v)
}

/// Two pieces of text, one behind the other.
pub(crate) fn join2(a: &str, b: &str) -> (r: String)
    ensures
        r@ == a@ + b@,
{
    a.to_owned().concat(b)
}

/// Three pieces of text, one behind the other.
pub(crate) fn join3(a: &str, b: &str, c: &str) -> (r: String)
    ensures
        r@ == a@ + b@ + c@,
{
    a.to_owned().concat(b).concat(c)
}

/// Four pieces of text, one behind the other.
pub(crate) fn join4(a: &str, b: &str, c: &str, d: &str) -> (r: String)
    ensures
        r@ == a@ + b@ + c@ + d@,
{
    a.to_owned().concat(b).concat(c).concat(d)
}

/// Whether two pieces of text are the same.
pub(crate) fn same_text(a: &str, b: &str) -> (r: bool)
    ensures
        r == (a@ == b@),
{
    proof {
        encode_utf8_decode_utf8(a@);
        encode_utf8_decode_utf8(b@);
    }
    same_bytes(a.as_bytes(), b.as_bytes())
}

} // verus!
