//! How doubles are spelled.
use vstd::prelude::*;

use crate::float::big::two_to;
use crate::float::round::{middle_grows, nearest, rounds_to, units, INFINITE};
use crate::float::text::{digit_run_is, double_value, number_parts, unsigned, with_sign};
use crate::text::{all_digits, digits_value, is_digit, lower, lower_all, signed_value};

verus! {

/// Digits, a point and digits behind it.
pub open spec fn pointed(whole: Seq<u8>, fraction: Seq<u8>) -> Seq<u8> {
    whole + seq![46u8] + fraction
}

/// What is no word is a number or nothing.
proof fn numbers_are_no_words(s: Seq<u8>)
    requires
        s.len() > 0,
        48 <= s[0] <= 57 || s[0] == 46,
    ensures
        lower_all(s) != seq![105u8, 110, 102],
        lower_all(s) != seq![105u8, 110, 102, 105, 110, 105, 116, 121],
        lower_all(s) != seq![110u8, 97, 110],
        unsigned(s) == s,
{
    assert(lower_all(s)[0] == s[0]);
    assert(seq![105u8, 110, 102][0] == 105);
    assert(seq![105u8, 110, 102, 105, 110, 105, 116, 121][0] == 105);
    assert(seq![110u8, 97, 110][0] == 110);
}

/// The parts of a number with a point, and with an exponent where `tail` is one.
proof fn parts_of_pointed(whole: Seq<u8>, fraction: Seq<u8>, tail: Seq<u8>)
    requires
        all_digits(whole),
        all_digits(fraction),
        whole.len() + fraction.len() > 0,
        tail.len() == 0 || tail[0] == 101 || tail[0] == 69,
    ensures
        ({
            let s = pointed(whole, fraction) + tail;
            number_parts(s) == if tail.len() == 0 {
                Some((whole + fraction, -(fraction.len() as int)))
            } else {
                match signed_value(tail.skip(1)) {
                    Some(k) => Some((whole + fraction, k - fraction.len())),
                    None => None,
                }
            }
        }),
{
    let s = pointed(whole, fraction) + tail;
    let n = whole.len();
    assert forall|j: int| 0 <= j < n implies is_digit(#[trigger] s[j]) by {
        assert(s[j] == whole[j]);
    }
    assert(s[n as int] == 46);
    digit_run_is(s, n);
    let rest = s.skip(n as int);
    assert(rest =~= seq![46u8] + fraction + tail);
    let behind = rest.skip(1);
    assert(behind =~= fraction + tail);
    assert forall|j: int| 0 <= j < fraction.len() implies is_digit(
        #[trigger] behind[j],
    ) by {
        assert(behind[j] == fraction[j]);
    }
    digit_run_is(behind, fraction.len());
    assert(rest.subrange(1, 1 + fraction.len() as int) =~= fraction);
    assert(rest.skip(1 + fraction.len() as int) =~= tail);
    assert(s.take(n as int) =~= whole);
}

/// The parts of a number without a point, and with an exponent where `tail` is one.
proof fn parts_of_whole(whole: Seq<u8>, tail: Seq<u8>)
    requires
        all_digits(whole),
        whole.len() > 0,
        tail.len() == 0 || tail[0] == 101 || tail[0] == 69,
    ensures
        ({
            let s = whole + tail;
            number_parts(s) == if tail.len() == 0 {
                Some((whole, 0int))
            } else {
                match signed_value(tail.skip(1)) {
                    Some(k) => Some((whole, k)),
                    None => None,
                }
            }
        }),
{
    let s = whole + tail;
    let n = whole.len();
    assert forall|j: int| 0 <= j < n implies is_digit(#[trigger] s[j]) by {
        assert(s[j] == whole[j]);
    }
    digit_run_is(s, n);
    assert(s.skip(n as int) =~= tail);
    assert(s.take(n as int) =~= whole);
    assert(whole + Seq::<u8>::empty() =~= whole);
}

/// Digits spell the double nearest to the number that they denote; those behind a point count
/// tenths, hundredths and so on, and an exponent behind `e` or `E` counts powers of ten. An
/// exponent that is no integer spells nothing.
pub proof fn decimals_spell_the_nearest(
    whole: Seq<u8>,
    fraction: Seq<u8>,
    mark: u8,
    exponent: Seq<u8>,
)
    requires
        all_digits(whole),
        all_digits(fraction),
        whole.len() > 0,
        mark == 101 || mark == 69,
    ensures
        double_value(whole) == Some(with_sign(false, nearest(digits_value(whole), 0))),
        double_value(pointed(whole, fraction)) == Some(
            with_sign(
                false,
                nearest(digits_value(whole + fraction), -(fraction.len() as int)),
            ),
        ),
        signed_value(exponent) matches Some(k) ==> double_value(whole + seq![mark] + exponent)
            == Some(with_sign(false, nearest(digits_value(whole), k))) && double_value(
            pointed(whole, fraction) + (seq![mark] + exponent),
        ) == Some(
            with_sign(false, nearest(digits_value(whole + fraction), k - fraction.len())),
        ),
        signed_value(exponent) is None ==> double_value(whole + seq![mark] + exponent) is None,
{
    let none = Seq::<u8>::empty();
    let tail = seq![mark] + exponent;
    assert(tail.skip(1) =~= exponent);
    assert(48 <= whole[0] <= 57);
    parts_of_whole(whole, none);
    assert(whole + none =~= whole);
    numbers_are_no_words(whole);
    parts_of_whole(whole, tail);
    assert(whole + seq![mark] + exponent =~= whole + tail);
    assert((whole + tail)[0] == whole[0]);
    numbers_are_no_words(whole + tail);
    parts_of_pointed(whole, fraction, none);
    assert(pointed(whole, fraction) + none =~= pointed(whole, fraction));
    assert(pointed(whole, fraction)[0] == whole[0]);
    numbers_are_no_words(pointed(whole, fraction));
    parts_of_pointed(whole, fraction, tail);
    assert((pointed(whole, fraction) + tail)[0] == whole[0]);
    numbers_are_no_words(pointed(whole, fraction) + tail);
}

/// The two doubles have the same magnitude, and the second one is negative.
pub open spec fn is_negated(bits: u64, negative: u64, b: nat) -> bool {
    bits == b as u64 && negative == (0x8000_0000_0000_0000 + b) as u64
}

/// A minus sign before a number leaves its magnitude and takes it below zero, a plus sign leaves
/// the number as it is; what is no number is none with a sign.
pub proof fn signs_of_doubles(s: Seq<u8>)
    requires
        s.len() > 0,
        s[0] != 43,
        s[0] != 45,
    ensures
        double_value(seq![43u8] + s) == double_value(s),
        double_value(s) is None ==> double_value(seq![45u8] + s) is None,
        double_value(s) is Some && lower_all(s) != seq![110u8, 97, 110] ==> double_value(
            seq![45u8] + s,
        ) is Some && exists|b: nat| #[trigger]
            is_negated(double_value(s)->0, double_value(seq![45u8] + s)->0, b),
{
    assert((seq![43u8] + s).skip(1) =~= s);
    assert((seq![45u8] + s).skip(1) =~= s);
    if double_value(s) is Some && lower_all(s) != seq![110u8, 97, 110] {
        let word = lower_all(s);
        let b = if word == seq![105u8, 110, 102] || word == seq![
            105u8,
            110,
            102,
            105,
            110,
            105,
            116,
            121,
        ] {
            INFINITE as nat
        } else {
            let (digits, k) = number_parts(s)->0;
            nearest(digits_value(digits), k)
        };
        assert(is_negated(double_value(s)->0, double_value(seq![45u8] + s)->0, b));
    }
}

/// `inf` and `infinity`, in any letter case, spell infinity.
pub proof fn infinity_is_spelled(s: Seq<u8>)
    requires
        lower_all(s) == seq![105u8, 110, 102] || lower_all(s) == seq![
            105u8,
            110,
            102,
            105,
            110,
            105,
            116,
            121,
        ],
    ensures
        double_value(s) == Some(0x7ff0_0000_0000_0000u64),
{
    assert(lower_all(s).len() == s.len());
    assert(seq![105u8, 110, 102].len() == 3);
    assert(seq![105u8, 110, 102, 105, 110, 105, 116, 121].len() == 8);
    assert(lower_all(s)[0] == lower(s[0]));
    assert(seq![105u8, 110, 102][0] == 105);
    assert(seq![105u8, 110, 102, 105, 110, 105, 116, 121][0] == 105);
    assert(unsigned(s) == s);
}

/// How far two numbers are apart.
pub open spec fn apart(a: int, b: int) -> int {
    if a < b {
        b - a
    } else {
        a - b
    }
}

/// Of all doubles none is nearer to a fraction than the one that it rounds to, and of two that are
/// equally near it rounds to the even one.
pub proof fn nothing_is_nearer(num: nat, den: nat, b: nat, c: nat)
    requires
        rounds_to(num, den, b),
        den > 0,
        b < INFINITE,
        c < INFINITE,
        c != b,
    ensures
        ({
            let x = (num * two_to(1074)) as int;
            let near = apart(x, (units(b) * den) as int);
            let far = apart(x, (units(c) * den) as int);
            near <= far && (near == far ==> b % 2 == 0)
        }),
{
    let x = (num * two_to(1074)) as int;
    assert(two_to(1075) == 2 * two_to(1074));
    assert(num * two_to(1075) == 2 * x) by (nonlinear_arith)
        requires
            two_to(1075) == 2 * two_to(1074),
            x == num * two_to(1074),
    ;
    let ub = units(b) * den;
    let uc = units(c) * den;
    if c < b {
        let a = (b - 1) as nat;
        let ua = units(a) * den;
        middle_grows(c, b);
        if c < a {
            middle_grows(c, a);
        }
        assert((units(a) + units(b)) * den == ua + ub) by (nonlinear_arith)
            requires
                ua == units(a) * den,
                ub == units(b) * den,
        ;
        assert(uc <= ua) by (nonlinear_arith)
            requires
                units(c) <= units(a),
                uc == units(c) * den,
                ua == units(a) * den,
        ;
        assert(uc < ub) by (nonlinear_arith)
            requires
                units(c) < units(b),
                uc == units(c) * den,
                ub == units(b) * den,
                den > 0,
        ;
    } else {
        let a = b + 1;
        let ua = units(a) * den;
        middle_grows(b, c);
        if a < c {
            middle_grows(a, c);
        }
        assert((units(b) + units(a)) * den == ub + ua) by (nonlinear_arith)
            requires
                ua == units(a) * den,
                ub == units(b) * den,
        ;
        assert(ua <= uc) by (nonlinear_arith)
            requires
                units(a) <= units(c),
                uc == units(c) * den,
                ua == units(a) * den,
        ;
        assert(ub < uc) by (nonlinear_arith)
            requires
                units(b) < units(c),
                uc == units(c) * den,
                ub == units(b) * den,
                den > 0,
        ;
    }
}

} // verus!
