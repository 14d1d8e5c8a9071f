//! The text of a double: how it is read, and how it is written.
use vstd::prelude::*;
use vstd::slice::slice_subrange;

use crate::float::round::{
    denominator, digits_value_appends, digits_value_bounded, large_is_infinite, nearest, nearest_to,
    numerator, reads_as, rounds_to_one, ten_to_adds, ten_to_grows, ten_to_positive, zero_digits,
    INFINITE,
};
use crate::float::shortest::{shortest, shortest_digits, shortest_exists, shortest_is_one};
use crate::text::{
    all_ascii, all_digits, digits_value, is_digit, lower_all, nat_digits, nat_digits_denote,
    same_bytes, signed_value, ten_to, to_lower,
};

verus! {

/// The bits of positive infinity.
pub const POSITIVE_INFINITY: u64 = 0x7ff0_0000_0000_0000;

/// The bits of negative infinity.
pub const NEGATIVE_INFINITY: u64 = 0xfff0_0000_0000_0000;

/// The bits of the value that is not a number.
pub const NOT_A_NUMBER: u64 = 0x7ff8_0000_0000_0000;

/// The sign bit.
pub const SIGN: u64 = 0x8000_0000_0000_0000;

/// How many digits `s` starts with.
pub open spec fn digit_run(s: Seq<u8>) -> nat
    decreases s.len(),
{
    if s.len() > 0 && is_digit(s[0]) {
        1 + digit_run(s.skip(1))
    } else {
        0
    }
}

/// `s` without a leading sign.
pub open spec fn unsigned(s: Seq<u8>) -> Seq<u8> {
    if s.len() > 0 && (s[0] == 43 || s[0] == 45) {
        s.skip(1)
    } else {
        s
    }
}

/// The digits and the power of ten of a decimal number without a sign: digits, an optional
/// fraction and an optional exponent, with at least one digit before the exponent.
pub open spec fn number_parts(s: Seq<u8>) -> Option<(Seq<u8>, int)> {
    let whole = digit_run(s) as int;
    let rest = s.skip(whole);
    let fraction = if rest.len() > 0 && rest[0] == 46 {
        rest.subrange(1, 1 + digit_run(rest.skip(1)) as int)
    } else {
        Seq::empty()
    };
    let tail = if rest.len() > 0 && rest[0] == 46 {
        rest.skip(1 + fraction.len() as int)
    } else {
        rest
    };
    let digits = s.take(whole) + fraction;
    if digits.len() == 0 {
        None
    } else if tail.len() == 0 {
        Some((digits, -(fraction.len() as int)))
    } else if tail[0] == 101 || tail[0] == 69 {
        match signed_value(tail.skip(1)) {
            Some(exponent) => Some((digits, exponent - fraction.len())),
            None => None,
        }
    } else {
        None
    }
}

/// The bits of the double with a magnitude and a sign.
pub open spec fn with_sign(negative: bool, b: nat) -> u64 {
    if negative {
        (SIGN + b) as u64
    } else {
        b as u64
    }
}

/// The bits of the double that `s` spells: a decimal number, or `inf`, `infinity` or `nan` in any
/// letter case, with an optional sign. A decimal number that no double equals is the nearest one.
pub open spec fn double_value(s: Seq<u8>) -> Option<u64> {
    let word = lower_all(unsigned(s));
    let negative = s.len() > 0 && s[0] == 45;
    if word == seq![105u8, 110, 102] || word == seq![
        105u8,
        110,
        102,
        105,
        110,
        105,
        116,
        121,
    ] {
        Some(with_sign(negative, INFINITE as nat))
    } else if word == seq![110u8, 97, 110] {
        Some(NOT_A_NUMBER)
    } else {
        match number_parts(unsigned(s)) {
            Some((digits, k)) => Some(with_sign(negative, nearest(digits_value(digits), k))),
            None => None,
        }
    }
}

/// The magnitude of a double.
pub open spec fn magnitude(bits: u64) -> nat {
    (bits % SIGN) as nat
}

/// `n` zeros.
pub open spec fn zeros(n: int) -> Seq<u8> {
    Seq::new(n as nat, |i: int| 48u8)
}

/// `d` times ten to the power `k`, written out without an exponent.
pub open spec fn written(d: nat, k: int) -> Seq<u8> {
    let s = nat_digits(d);
    if k >= 0 {
        s + zeros(k)
    } else if s.len() + k > 0 {
        s.take(s.len() + k) + seq![46u8] + s.skip(s.len() + k)
    } else {
        seq![48u8, 46] + zeros(-k - s.len()) + s
    }
}

/// `text` is the shortest decimal form of a magnitude that is finite and not zero.
pub open spec fn writes(b: nat, text: Seq<u8>) -> bool {
    exists|d: nat, k: int| #[trigger] shortest(b, d, k) && text == written(d, k)
}

/// The text of a double that is a number: the shortest decimal number that reads back as it.
pub open spec fn finite_text(bits: u64) -> Seq<u8> {
    let b = magnitude(bits);
    let text = if b == 0 {
        seq![48u8]
    } else {
        choose|text: Seq<u8>| writes(b, text)
    };
    if bits >= SIGN {
        seq![45u8] + text
    } else {
        text
    }
}

/// The text of a double: that of a number, or `inf`, `-inf` or `nan`.
pub open spec fn double_text(bits: u64) -> Seq<u8> {
    if magnitude(bits) > INFINITE {
        seq![110u8, 97, 110]
    } else if bits == POSITIVE_INFINITY {
        seq![105u8, 110, 102]
    } else if bits == NEGATIVE_INFINITY {
        seq![45u8, 105, 110, 102]
    } else {
        finite_text(bits)
    }
}

// ---------------------------------------------------------------------------
// Reading
// ---------------------------------------------------------------------------
/// The part of `s` from `n` on.
fn behind(s: &[u8], n: usize) -> (r: &[u8])
    requires
        n <= s@.len(),
    ensures
        r@ == s@.skip(n as int),
{
    let r = slice_subrange(s, n, s.len());
    assert(r@ =~= s@.skip(n as int));
    r
}

/// A run of digits ends where something else stands.
pub proof fn digit_run_is(s: Seq<u8>, n: nat)
    requires
        n <= s.len(),
        forall|j: int| 0 <= j < n ==> is_digit(#[trigger] s[j]),
        n < s.len() ==> !is_digit(s[n as int]),
    ensures
        digit_run(s) == n,
    decreases s.len(),
{
    if n > 0 {
        assert(is_digit(s[0]));
        assert forall|j: int| 0 <= j < n - 1 implies is_digit(#[trigger] s.skip(1)[j]) by {
            assert(is_digit(s[j + 1]));
        }
        digit_run_is(s.skip(1), (n - 1) as nat);
    }
}

/// How many digits `s` starts with.
fn count_digits(s: &[u8]) -> (r: usize)
    ensures
        r == digit_run(s@),
        r <= s.len(),
        forall|j: int| 0 <= j < r ==> is_digit(#[trigger] s@[j]),
{
    let mut i: usize = 0;
    while i < s.len() && 48 <= s[i] && s[i] <= 57
        invariant
            i <= s@.len(),
            forall|j: int| 0 <= j < i ==> is_digit(#[trigger] s@[j]),
        decreases s@.len() - i,
    {
        i += 1;
    }
    proof {
        digit_run_is(s@, i as nat);
    }
    i
}

/// `s` without a leading sign.
fn strip_sign(s: &[u8]) -> (r: &[u8])
    ensures
        r@ == unsigned(s@),
{
    if s.len() > 0 && (s[0] == 43 || s[0] == 45) {
        behind(s, 1)
    } else {
        s
    }
}

/// Larger exponents than this are as good as infinite, beside the digits that fit in memory.
const LARGE_EXPONENT: u128 = 0x1_0000_0000_0000_0000_0000;

/// The size of the integer that `s` spells, cut off at `LARGE_EXPONENT`, and whether it has a
/// minus sign.
fn read_exponent(s: &[u8]) -> (r: Option<(bool, u128)>)
    ensures
        match r {
            Some((negative, n)) => {
                &&& n <= LARGE_EXPONENT
                &&& signed_value(s@) matches Some(v) && {
                    let size = if negative {
                        -v
                    } else {
                        v
                    };
                    if n < LARGE_EXPONENT {
                        size == n
                    } else {
                        size >= n
                    }
                }
            },
            None => signed_value(s@) is None,
        },
{
    let digits = strip_sign(s);
    if digits.len() == 0 {
        return None;
    }
    let negative = s[0] == 45;
    let n = count_digits(digits);
    if n < digits.len() {
        proof {
            digit_run_stops(digits@);
        }
        return None;
    }
    let mut value: u128 = 0;
    let mut i: usize = 0;
    while i < n
        invariant
            i <= n == digits@.len(),
            forall|j: int| 0 <= j < n ==> is_digit(#[trigger] digits@[j]),
            value == if digits_value(digits@.take(i as int)) <= LARGE_EXPONENT {
                digits_value(digits@.take(i as int))
            } else {
                LARGE_EXPONENT as nat
            },
        decreases n - i,
    {
        let ghost after = digits@.take(i + 1);
        assert(after.drop_last() =~= digits@.take(i as int));
        assert(is_digit(digits@[i as int]));
        let next: u128 = 10 * value + (digits[i] - 48) as u128;
        value = if next <= LARGE_EXPONENT {
            next
        } else {
            LARGE_EXPONENT
        };
        i += 1;
    }
    assert(digits@.take(n as int) =~= digits@);
    Some((negative, value))
}

/// Behind a run of digits that is not all of `s` stands something else.
proof fn digit_run_stops(s: Seq<u8>)
    requires
        digit_run(s) < s.len(),
    ensures
        !is_digit(s[digit_run(s) as int]),
    decreases s.len(),
{
    if is_digit(s[0]) {
        digit_run_stops(s.skip(1));
        assert(s.skip(1)[digit_run(s.skip(1)) as int] == s[digit_run(s) as int]);
    }
}

/// A number that is smaller than every double but zero is nearest to zero.
proof fn tiny_is_zero(d: nat, k: int, len: nat)
    requires
        d < ten_to(len),
        len + 1075 <= -k,
    ensures
        reads_as(d, k, 0),
{
    crate::float::round::next_units(0);
    ten_to_adds(len, 1075);
    ten_to_grows(len + 1075, (-k) as nat);
    crate::float::round::ten_to_splits(1075);
    let p = crate::float::big::two_to(1075);
    let t = ten_to(1075);
    let den = ten_to((-k) as nat);
    crate::float::round::five_to_positive(1075);
    crate::float::big::two_to_positive(1075);
    assert(t >= p) by (nonlinear_arith)
        requires
            t == crate::float::round::five_to(1075) * p,
            crate::float::round::five_to(1075) >= 1,
    ;
    let n = ten_to(len);
    assert(d * p < n * t) by (nonlinear_arith)
        requires
            d < n,
            p <= t,
            p >= 1,
    ;
    assert(crate::float::big::two_to(0) == 1);
    assert(crate::float::round::middle(0) * den >= den) by (nonlinear_arith)
        requires
            crate::float::round::middle(0) >= 1,
    ;
}

/// The magnitude of a decimal number without a sign.
fn read_number(s: &[u8]) -> (r: Option<u64>)
    ensures
        match r {
            Some(b) => {
                &&& b <= INFINITE
                &&& number_parts(s@) matches Some((digits, k)) && b == nearest(digits_value(digits), k)
            },
            None => number_parts(s@) is None,
        },
{
    let whole = count_digits(s);
    let after = behind(s, whole);
    let mut digits: Vec<u8> = Vec::new();
    let mut i: usize = 0;
    while i < whole
        invariant
            i <= whole <= s@.len(),
            digits@ == s@.take(i as int),
        decreases whole - i,
    {
        digits.push(s[i]);
        i += 1;
        assert(digits@ =~= s@.take(i as int));
    }
    let dotted = after.len() > 0 && after[0] == 46;
    let mut fraction: usize = 0;
    let mut tail = after;
    let ghost mut part = Seq::<u8>::empty();
    if dotted {
        let run = behind(after, 1);
        fraction = count_digits(run);
        proof {
            part = after@.subrange(1, 1 + fraction);
            assert(part =~= run@.take(fraction as int));
        }
        let mut j: usize = 0;
        while j < fraction
            invariant
                j <= fraction <= run@.len(),
                digits@ == s@.take(whole as int) + run@.take(j as int),
            decreases fraction - j,
        {
            digits.push(run[j]);
            j += 1;
            assert(digits@ =~= s@.take(whole as int) + run@.take(j as int));
        }
        tail = behind(run, fraction);
        assert(tail@ =~= after@.skip(1 + fraction));
    }
    assert(digits@ =~= s@.take(whole as int) + part);
    if digits.len() == 0 {
        return None;
    }
    proof {
        assert forall|j: int| 0 <= j < digits@.len() implies is_digit(#[trigger] digits@[j]) by {
            if j < whole {
                assert(digits@[j] == s@[j]);
            } else {
                let run = after@.skip(1);
                assert(digits@[j] == run[j - whole]);
            }
        }
    }
    if tail.len() == 0 {
        return Some(nearest_to(&digits, -(fraction as i128)));
    }
    if tail[0] != 101 && tail[0] != 69 {
        return None;
    }
    match read_exponent(behind(tail, 1)) {
        None => None,
        Some((negative, size)) => {
            if size < LARGE_EXPONENT - 0x1_0000_0000_0000_0000 {
                let exponent: i128 = if negative {
                    -(size as i128)
                } else {
                    size as i128
                };
                return Some(nearest_to(&digits, exponent - fraction as i128));
            }
            Some(far_off(&digits, negative, Ghost((number_parts(s@)->0).1)))
        },
    }
}

/// The magnitude of digits times a power of ten that is far off.
fn far_off(digits: &[u8], negative: bool, Ghost(k): Ghost<int>) -> (r: u64)
    requires
        forall|i: int| 0 <= i < digits@.len() ==> is_digit(#[trigger] digits@[i]),
        if negative {
            k <= -0xf_0000_0000_0000_0000
        } else {
            k >= 0xf_0000_0000_0000_0000
        },
    ensures
        r <= INFINITE,
        r == nearest(digits_value(digits@), k),
{
    let ghost d = digits_value(digits@);
    let n: usize = digits.len();
    let mut zero = true;
    let mut i: usize = 0;
    while i < n
        invariant
            i <= n == digits@.len(),
            zero == (forall|j: int| 0 <= j < i ==> #[trigger] digits@[j] == 48),
        decreases n - i,
    {
        if digits[i] != 48 {
            zero = false;
        }
        i += 1;
    }
    proof {
        zero_digits(digits@);
        digits_value_bounded(digits@);
    }
    let r: u64 = if zero || negative {
        0
    } else {
        INFINITE
    };
    proof {
        if zero {
            crate::float::round::zero_rounds_to_zero(k);
        } else if negative {
            tiny_is_zero(d, k, digits@.len());
        } else {
            large_is_infinite(d, k, 0);
        }
        if k < 0 {
            ten_to_positive((-k) as nat);
        }
        assert(reads_as(d, k, r as nat));
        rounds_to_one(numerator(d, k), denominator(k), nearest(d, k), r as nat);
    }
    r
}

/// The bits of the double that `s` spells.
pub fn read_double(s: &[u8]) -> (r: Option<u64>)
    ensures
        r == double_value(s@),
{
    let bare = strip_sign(s);
    let word = to_lower(bare);
    let inf: [u8; 3] = [105, 110, 102];
    let infinity: [u8; 8] = [105, 110, 102, 105, 110, 105, 116, 121];
    let nan: [u8; 3] = [110, 97, 110];
    assert(inf@ =~= seq![105u8, 110, 102]);
    assert(infinity@ =~= seq![105u8, 110, 102, 105, 110, 105, 116, 121]);
    assert(nan@ =~= seq![110u8, 97, 110]);
    let negative = s.len() > 0 && s[0] == 45;
    if same_bytes(&word, &inf) || same_bytes(&word, &infinity) {
        return Some(if negative { NEGATIVE_INFINITY } else { POSITIVE_INFINITY });
    }
    if same_bytes(&word, &nan) {
        return Some(NOT_A_NUMBER);
    }
    match read_number(bare) {
        Some(b) => Some(if negative { SIGN + b } else { b }),
        None => None,
    }
}

// ---------------------------------------------------------------------------
// Writing
// ---------------------------------------------------------------------------
/// A magnitude has one text.
proof fn writes_one(b: nat, s: Seq<u8>, t: Seq<u8>)
    requires
        writes(b, s),
        writes(b, t),
    ensures
        s == t,
{
    let (d, k) = choose|d: nat, k: int| #[trigger] shortest(b, d, k) && s == written(d, k);
    let (e, j) = choose|e: nat, j: int| #[trigger] shortest(b, e, j) && t == written(e, j);
    shortest_is_one(b, d, k, e, j);
}

/// Adds `n` zeros.
fn push_zeros(out: &mut Vec<u8>, n: usize)
    ensures
        final(out)@ == old(out)@ + zeros(n as int),
{
    let ghost start = out@;
    let mut i: usize = 0;
    assert(out@ =~= start + zeros(0));
    while i < n
        invariant
            i <= n,
            out@ == start + zeros(i as int),
        decreases n - i,
    {
        out.push(48);
        i += 1;
        assert(out@ =~= start + zeros(i as int));
    }
}

/// Adds the bytes of `s` from `from` up to `to`.
fn push_part(out: &mut Vec<u8>, s: &[u8], from: usize, to: usize)
    requires
        from <= to <= s@.len(),
    ensures
        final(out)@ == old(out)@ + s@.subrange(from as int, to as int),
{
    let ghost start = out@;
    let mut i: usize = from;
    assert(out@ =~= start + s@.subrange(from as int, from as int));
    while i < to
        invariant
            from <= i <= to <= s@.len(),
            out@ == start + s@.subrange(from as int, i as int),
        decreases to - i,
    {
        out.push(s[i]);
        i += 1;
        assert(out@ =~= start + s@.subrange(from as int, i as int));
    }
}

/// Adds the number with the given digits times ten to the power `k`, written out.
fn push_written(out: &mut Vec<u8>, digits: &[u8], k: i64, Ghost(d): Ghost<nat>)
    requires
        digits@ == nat_digits(d),
        -1075 <= k <= 400,
    ensures
        final(out)@ == old(out)@ + written(d, k as int),
{
    let ghost start = out@;
    let n: usize = digits.len();
    if k >= 0 {
        push_part(out, digits, 0, n);
        push_zeros(out, k as usize);
        assert(out@ =~= start + written(d, k as int));
        return;
    }
    let places: usize = (-k) as usize;
    if n > places {
        push_part(out, digits, 0, n - places);
        out.push(46);
        push_part(out, digits, n - places, n);
        assert(out@ =~= start + written(d, k as int));
    } else {
        out.push(48);
        out.push(46);
        push_zeros(out, places - n);
        push_part(out, digits, 0, n);
        assert(out@ =~= start + written(d, k as int));
    }
}

/// The text of a double that is a number.
pub fn write_finite(bits: u64) -> (r: Vec<u8>)
    requires
        magnitude(bits) < INFINITE,
    ensures
        r@ == finite_text(bits),
{
    let b: u64 = bits % SIGN;
    let mut out: Vec<u8> = Vec::new();
    if bits >= SIGN {
        out.push(45);
    }
    let ghost sign = out@;
    if b == 0 {
        out.push(48);
        assert(out@ =~= finite_text(bits));
        return out;
    }
    let (digits, k) = shortest_digits(b);
    let ghost d = choose|d: nat|
        #![trigger nat_digits(d)]
        digits@ == nat_digits(d) && shortest(b as nat, d, k as int);
    push_written(&mut out, &digits, k, Ghost(d));
    proof {
        let text = written(d, k as int);
        assert(shortest(b as nat, d, k as int));
        assert(writes(b as nat, text));
        writes_one(b as nat, text, choose|text: Seq<u8>| writes(b as nat, text));
        assert(out@ =~= finite_text(bits));
    }
    out
}

/// The text of a double.
pub fn write_double(bits: u64) -> (r: Vec<u8>)
    ensures
        r@ == double_text(bits),
{
    let b: u64 = bits % SIGN;
    let mut out: Vec<u8> = Vec::new();
    if b > INFINITE {
        out.push(110);
        out.push(97);
        out.push(110);
        assert(out@ =~= double_text(bits));
        return out;
    }
    if b == INFINITE {
        if bits >= SIGN {
            out.push(45);
        }
        out.push(105);
        out.push(110);
        out.push(102);
        assert(out@ =~= double_text(bits));
        return out;
    }
    write_finite(bits)
}

// ---------------------------------------------------------------------------
// Reading back what was written
// ---------------------------------------------------------------------------
/// The parts of a number that was written out.
proof fn written_parts(d: nat, k: int)
    ensures
        number_parts(written(d, k)) matches Some((digits, e)) && digits_value(digits) == numerator(
            d,
            k,
        ) && (if k >= 0 {
            e == 0
        } else {
            e == k
        }),
        written(d, k).len() > 0,
        is_digit(written(d, k)[0]),
        forall|i: int|
            0 <= i < written(d, k).len() ==> is_digit(#[trigger] written(d, k)[i]) || written(d, k)[i]
                == 46,
{
    let s = nat_digits(d);
    let t = written(d, k);
    nat_digits_denote(d);
    assert(is_digit(s[0]));
    if k >= 0 {
        assert forall|i: int| 0 <= i < t.len() implies is_digit(#[trigger] t[i]) by {
            if i < s.len() {
                assert(is_digit(s[i]));
            }
        }
        digit_run_is(t, t.len());
        assert(t.take(t.len() as int) + Seq::<u8>::empty() =~= t);
        digits_value_appends(s, zeros(k));
        zero_digits(zeros(k));
    } else if s.len() + k > 0 {
        let n = s.len() + k;
        digit_run_is_prefix(t, n as nat, s);
        let rest = t.skip(n);
        let run = rest.skip(1);
        assert(run =~= s.skip(n));
        assert forall|i: int| 0 <= i < run.len() implies is_digit(#[trigger] run[i]) by {
            assert(is_digit(s[i + n]));
        }
        digit_run_is(run, run.len());
        assert(t.take(n) + rest.subrange(1, 1 + run.len() as int) =~= s);
        assert forall|i: int| 0 <= i < t.len() implies is_digit(#[trigger] t[i]) || t[i] == 46 by {
            if i < n {
                assert(is_digit(s[i]));
            } else if i > n {
                assert(t[i] == s[i - 1]);
                assert(is_digit(s[i - 1]));
            }
        }
    } else {
        let z = zeros(-k - s.len());
        digit_run_is_prefix(t, 1, seq![48u8]);
        let rest = t.skip(1);
        let run = rest.skip(1);
        assert(run =~= z + s);
        assert forall|i: int| 0 <= i < run.len() implies is_digit(#[trigger] run[i]) by {
            if i >= z.len() {
                assert(is_digit(s[i - z.len()]));
            }
        }
        digit_run_is(run, run.len());
        let digits = t.take(1) + rest.subrange(1, 1 + run.len() as int);
        let lead = seq![48u8] + z;
        assert(digits =~= lead + s);
        digits_value_appends(lead, s);
        zero_digits(lead);
        assert(0 * ten_to(s.len()) == 0) by (nonlinear_arith);
        assert forall|i: int| 0 <= i < t.len() implies is_digit(#[trigger] t[i]) || t[i] == 46 by {
            if i >= 2 {
                assert(t[i] == run[i - 2]);
            }
        }
    }
}

/// A run of digits that ends at a point.
proof fn digit_run_is_prefix(t: Seq<u8>, n: nat, s: Seq<u8>)
    requires
        n < t.len(),
        n <= s.len(),
        all_digits(s),
        forall|i: int| 0 <= i < n ==> #[trigger] t[i] == s[i],
        t[n as int] == 46,
    ensures
        digit_run(t) == n,
{
    assert forall|i: int| 0 <= i < n implies is_digit(#[trigger] t[i]) by {
        assert(is_digit(s[i]));
    }
    digit_run_is(t, n);
}

/// The text of a double reads back as the same double: writing and reading lose nothing. A value
/// that is not a number reads back as one that is not.
pub proof fn double_reads_back(bits: u64)
    ensures
        double_value(double_text(bits)) == Some(
            if magnitude(bits) > INFINITE {
                NOT_A_NUMBER
            } else {
                bits
            },
        ),
{
    let b = magnitude(bits);
    let text = double_text(bits);
    let negative = bits >= SIGN;
    if b > INFINITE {
        assert(unsigned(text) =~= text);
        assert(lower_all(text) =~= seq![110u8, 97, 110]);
        assert(text.len() == 3 && lower_all(text)[0] == 110);
    } else if b == INFINITE {
        assert(unsigned(text) =~= seq![105u8, 110, 102]);
        assert(lower_all(unsigned(text)) =~= seq![105u8, 110, 102]);
    } else {
        finite_text_shape(bits);
        let bare = unsigned(text);
        let (d, k) = choose|d: nat, k: int|
            bare == #[trigger] written(d, k) && reads_as(d, k, b);
        written_reads_back(d, k, b);
        assert(lower_all(bare)[0] == bare[0]);
        assert(lower_all(bare)[0] != 105 && lower_all(bare)[0] != 110);
        assert(seq![105u8, 110, 102][0] == 105);
        assert(seq![105u8, 110, 102, 105, 110, 105, 116, 121][0] == 105);
        assert(seq![110u8, 97, 110][0] == 110);
        assert(with_sign(negative, b) == bits);
    }
}

/// A number that was written out reads back as the magnitude that it is nearest to.
#[verifier::spinoff_prover]
pub proof fn written_reads_back(d: nat, k: int, b: nat)
    requires
        reads_as(d, k, b),
    ensures
        number_parts(written(d, k)) matches Some((digits, e)) && nearest(digits_value(digits), e)
            == b,
        written(d, k).len() > 0,
        is_digit(written(d, k)[0]),
{
    written_parts(d, k);
    let (digits, e) = number_parts(written(d, k))->0;
    let v = digits_value(digits);
    // The digits and the exponent that are read denote the number that was written.
    assert(reads_as(v, e, b)) by {
        if k >= 0 {
            assert(v * ten_to(0) == v) by (nonlinear_arith)
                requires
                    ten_to(0) == 1,
            ;
        }
    }
    if e < 0 {
        ten_to_positive((-e) as nat);
    }
    rounds_to_one(numerator(v, e), denominator(e), nearest(v, e), b);
}

/// The text of a number: a sign where it is negative, and then a decimal number, with digits and
/// at most a point, that reads back as its magnitude.
proof fn finite_text_shape(bits: u64)
    requires
        magnitude(bits) < INFINITE,
    ensures
        exists|d: nat, k: int|
            unsigned(finite_text(bits)) == #[trigger] written(d, k) && reads_as(
                d,
                k,
                magnitude(bits),
            ),
        finite_text(bits).len() > 0,
        (finite_text(bits)[0] == 45) == (bits >= SIGN),
        all_ascii(finite_text(bits)),
        forall|i: int| 0 <= i < finite_text(bits).len() ==> #[trigger] finite_text(bits)[i] >= 45,
{
    let b = magnitude(bits);
    let full = finite_text(bits);
    let text = if b == 0 {
        seq![48u8]
    } else {
        choose|text: Seq<u8>| writes(b, text)
    };
    let (d, k): (nat, int) = if b == 0 {
        (0, 0)
    } else {
        shortest_exists(b);
        let (d, k) = choose|d: nat, k: int| #[trigger] shortest(b, d, k);
        assert(writes(b, written(d, k)));
        writes_one(b, text, written(d, k));
        (d, k)
    };
    assert(text == written(d, k)) by {
        if b == 0 {
            assert(text =~= nat_digits(0) + zeros(0));
        }
    }
    assert(reads_as(d, k, b)) by {
        if b == 0 {
            crate::float::round::zero_rounds_to_zero(0);
        }
    }
    written_parts(d, k);
    assert(is_digit(text[0]));
    if bits >= SIGN {
        assert(full.skip(1) =~= text);
    }
    assert(unsigned(full) == written(d, k));
    assert forall|i: int| 0 <= i < full.len() implies #[trigger] full[i] < 128 && full[i] >= 45 by {
        if bits >= SIGN {
            if i > 0 {
                assert(full[i] == text[i - 1]);
            }
        } else {
            assert(full[i] == text[i]);
        }
    }
}

/// The text of a double is ASCII and holds no control character.
pub proof fn double_text_is_plain(bits: u64)
    ensures
        all_ascii(double_text(bits)),
        forall|i: int| 0 <= i < double_text(bits).len() ==> #[trigger] double_text(bits)[i] >= 45,
        double_text(bits).len() > 0,
{
    if magnitude(bits) < INFINITE {
        finite_text_shape(bits);
    }
}

} // verus!
