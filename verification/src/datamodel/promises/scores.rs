//! What scores look like in requests and replies.
use vstd::prelude::*;

use crate::datamodel::commands::zset::{bound_value, score_text, score_value};
use crate::engine::encoding::{score_is_nan, score_same};
use crate::float::big::two_to;
use crate::float::round::{middle_grows, nearest, numerator, reads_as, units, INFINITE};
use crate::float::text::{
    double_reads_back, double_text, magnitude, number_parts, unsigned, with_sign, written,
    written_reads_back, SIGN,
};
use crate::float::whole::{is_whole, whole_part};
use crate::text::{decimal, digits_value, is_digit, lower_all, nat_digits, ten_to};

verus! {

/// A whole number is nearest to the double that it is.
proof fn whole_is_exact(b: nat)
    requires
        is_whole(b),
    ensures
        reads_as(whole_part(b), 0, b),
{
    let d = whole_part(b);
    let w = two_to(1074);
    crate::float::big::two_to_positive(1074);
    assert(two_to(1075) == 2 * w);
    assert(units(b) == d * w) by {
        vstd::arithmetic::div_mod::lemma_fundamental_div_mod(units(b) as int, w as int);
        assert(w * d == d * w) by (nonlinear_arith);
    }
    assert(numerator(d, 0) == d) by {
        assert(d * ten_to(0) == d) by (nonlinear_arith)
            requires
                ten_to(0) == 1,
        ;
    }
    assert(d * two_to(1075) == 2 * units(b)) by (nonlinear_arith)
        requires
            two_to(1075) == 2 * w,
            units(b) == d * w,
    ;
    if b > 0 {
        middle_grows((b - 1) as nat, b);
    }
    middle_grows(b, b + 1);
}

/// The digits of a whole number read back as the double that it is.
proof fn whole_reads_back(b: nat)
    requires
        is_whole(b),
    ensures
        ({
            let s = nat_digits(whole_part(b));
            &&& s.len() > 0
            &&& is_digit(s[0])
            &&& number_parts(s) matches Some((digits, e)) && nearest(
                digits_value(digits),
                e,
            ) == b
        }),
{
    let d = whole_part(b);
    whole_is_exact(b);
    written_reads_back(d, 0, b);
    assert(written(d, 0) =~= nat_digits(d));
}

/// A decimal number reads as the sign and the digits say.
proof fn decimal_reads_as_double(text: Seq<u8>, bare: Seq<u8>, b: nat)
    requires
        bare.len() > 0,
        is_digit(bare[0]),
        text == bare || text == seq![45u8] + bare,
        b < INFINITE,
        number_parts(bare) matches Some((digits, e)) && nearest(
            digits_value(digits),
            e,
        ) == b,
    ensures
        score_value(text) == Some(with_sign(text.len() > bare.len(), b)),
{
    if text != bare {
        assert(text.skip(1) =~= bare);
    }
    assert(unsigned(text) == bare);
    assert(lower_all(bare)[0] == bare[0]);
    assert(seq![105u8, 110, 102][0] == 105);
    assert(seq![105u8, 110, 102, 105, 110, 105, 116, 121][0] == 105);
    assert(seq![110u8, 97, 110][0] == 110);
}

/// The text of a score reads back as a score that is the same number.
pub proof fn scores_read_back(bits: u64)
    requires
        !score_is_nan(bits),
    ensures
        score_value(score_text(bits)) matches Some(read) && score_same(read, bits),
{
    let b = magnitude(bits);
    let text = score_text(bits);
    let n = whole_part(b);
    if is_whole(b) && n < crate::float::whole::WHOLE_LIMIT {
        whole_reads_back(b);
        let bare = nat_digits(n);
        decimal_reads_as_double(text, bare, b);
        if bits >= SIGN && n == 0 {
            nothing_is_zero(b);
        }
    } else {
        double_reads_back(bits);
    }
}

/// The magnitude of the whole number zero is zero.
proof fn nothing_is_zero(b: nat)
    requires
        is_whole(b),
        whole_part(b) == 0,
    ensures
        b == 0,
{
    crate::float::big::two_to_positive(1074);
    vstd::arithmetic::div_mod::lemma_fundamental_div_mod(
        units(b) as int,
        two_to(1074) as int,
    );
    assert(two_to(1074) * 0 == 0) by (nonlinear_arith);
    assert(units(b) == 0);
    if b > 0 {
        middle_grows(0, b);
    }
}

/// A whole number that is not too large is shown in full, as any integer is.
pub proof fn whole_scores_are_shown_in_full(bits: u64)
    requires
        is_whole(magnitude(bits)),
        whole_part(magnitude(bits)) < 100_000_000_000_000_000,
    ensures
        bits < 0x8000_0000_0000_0000 ==> score_text(bits) == decimal(
            whole_part(magnitude(bits)) as int,
        ),
        bits >= 0x8000_0000_0000_0000 ==> score_text(bits) == decimal(
            -(whole_part(magnitude(bits)) as int),
        ),
{
}

/// Any other number is shown as any double is, in the fewest digits that read back as it.
pub proof fn other_scores_are_shown_as_doubles(bits: u64)
    requires
        !score_is_nan(bits),
        !is_whole(magnitude(bits)) || whole_part(magnitude(bits)) >= 100_000_000_000_000_000,
    ensures
        score_text(bits) == double_text(bits),
{
}

/// A score is a number or infinite: what is read as a score, or as a bound of a range, is never
/// anything else. A bound is a score, and a parenthesis before it leaves it out of the range.
pub proof fn scores_are_numbers(raw: Seq<u8>)
    ensures
        score_value(raw) matches Some(bits) ==> !score_is_nan(bits),
        raw.len() == 0 || raw[0] != 40 ==> bound_value(raw) == match score_value(raw) {
            Some(bits) => Some((bits, false)),
            None => None,
        },
        bound_value(seq![40u8] + raw) == match score_value(raw) {
            Some(bits) => Some((bits, true)),
            None => None,
        },
{
    assert((seq![40u8] + raw).skip(1) =~= raw);
}

} // verus!
