//! How numbers and words are spelled.
use vstd::prelude::*;
use vstd::string::*;
use vstd::utf8::*;

use crate::datamodel::registry::is_word;
use crate::text::{
    decimal, decimal_reads_back, digits_value, hex_text, int_value, is_digit, lower_all,
    nat_digits_denote, uint_value, upper_all,
};
use crate::words::{trimmed_int, white_at, words, words_from};

verus! {

// ---------------------------------------------------------------------------
// Integers
// ---------------------------------------------------------------------------
/// A digit spells its number, as a signed and as an unsigned integer.
pub proof fn a_digit_is_its_number(d: u8, max: u64)
    requires
        48 <= d <= 57,
    ensures
        int_value(seq![d]) == Some((d - 48) as i64),
        d - 48 <= max ==> uint_value(seq![d], max) == Some((d - 48) as u64),
{
    let s = seq![d];
    assert(s.drop_last() =~= Seq::empty());
    assert(digits_value(Seq::<u8>::empty()) == 0);
    assert(digits_value(s) == d - 48);
}

/// A digit behind an integer counts one, and what stands before it ten times as much; what does not
/// fit is no integer.
pub proof fn digits_count_in_tens(s: Seq<u8>, n: i64, d: u8)
    requires
        int_value(s) == Some(n),
        48 <= d <= 57,
    ensures
        ({
            let next = if s[0] == 45 {
                10 * n - (d - 48)
            } else {
                10 * n + (d - 48)
            };
            int_value(s.push(d)) == if i64::MIN <= next <= i64::MAX {
                Some(next as i64)
            } else {
                None
            }
        }),
{
    let t = s.push(d);
    let signed = s[0] == 45 || s[0] == 43;
    if signed {
        assert(t.skip(1) =~= s.skip(1).push(d));
        assert(t.skip(1).drop_last() =~= s.skip(1));
    } else {
        assert(t.drop_last() =~= s);
    }
}

/// A digit behind an unsigned integer counts one, and what stands before it ten times as much; what
/// is over the maximum is none.
pub proof fn unsigned_digits_count_in_tens(s: Seq<u8>, n: u64, d: u8, max: u64)
    requires
        uint_value(s, max) == Some(n),
        48 <= d <= 57,
    ensures
        uint_value(s.push(d), max) == if 10 * n + (d - 48) <= max {
            Some((10 * n + (d - 48)) as u64)
        } else {
            None
        },
        n <= max,
{
    let t = s.push(d);
    if s[0] == 43 {
        assert(t.skip(1) =~= s.skip(1).push(d));
        assert(t.skip(1).drop_last() =~= s.skip(1));
    } else {
        assert(t.drop_last() =~= s);
    }
}

/// A minus sign before digits makes the integer negative, a plus sign leaves it as it is.
pub proof fn signs_count(s: Seq<u8>, n: i64)
    requires
        int_value(s) == Some(n),
        s[0] != 43,
        s[0] != 45,
    ensures
        n >= 0,
        int_value(seq![45u8] + s) == Some((-n) as i64),
        int_value(seq![43u8] + s) == Some(n),
{
    assert((seq![45u8] + s).skip(1) =~= s);
    assert((seq![43u8] + s).skip(1) =~= s);
}

/// What has anything but digits behind its sign, or no digit at all, is no integer.
pub proof fn only_digits_are_read(s: Seq<u8>, i: int, max: u64)
    requires
        s.len() == 0 || s.len() == 1 && !is_digit(s[0]) || 0 <= i < s.len() && !is_digit(s[i]) && (
        i > 0 || s[i] != 43 && s[i] != 45),
    ensures
        int_value(s) is None,
        uint_value(s, max) is None,
{
    if s.len() > 0 && (s[0] == 45 || s[0] == 43) {
        if i > 0 && i < s.len() {
            assert(s.skip(1)[i - 1] == s[i]);
        }
    }
}

/// An unsigned integer has no minus sign.
pub proof fn unsigned_has_no_minus(s: Seq<u8>, max: u64)
    requires
        s.len() > 0,
        s[0] == 45,
    ensures
        uint_value(s, max) is None,
{
    assert(!is_digit(s[0]));
}

/// An integer is written without a plus sign and without zeros in front.
pub proof fn integers_are_written_plainly(n: nat)
    ensures
        n < 10 ==> decimal(n as int) == seq![(48 + n) as u8],
        n >= 10 ==> decimal(n as int) == decimal((n / 10) as int).push((48 + n % 10) as u8),
        n > 0 ==> decimal(n as int)[0] != 48 && decimal(n as int)[0] != 43,
        n > 0 ==> decimal(-(n as int)) == seq![45u8] + decimal(n as int),
    decreases n,
{
    if n >= 10 {
        integers_are_written_plainly(n / 10);
        nat_digits_denote(n / 10);
    }
}

/// A byte in hexadecimal is two digits, small letters where it takes letters.
pub proof fn bytes_in_hexadecimal(b: u8)
    ensures
        hex_text(b).len() == 2,
        hex_text(b)[0] == small_digit(b as int / 16),
        hex_text(b)[1] == small_digit(b as int % 16),
{
}

/// The character of a hexadecimal digit.
pub open spec fn small_digit(n: int) -> char {
    if n == 10 {
        'a'
    } else if n == 11 {
        'b'
    } else if n == 12 {
        'c'
    } else if n == 13 {
        'd'
    } else if n == 14 {
        'e'
    } else if n == 15 {
        'f'
    } else {
        (48 + n) as u8 as char
    }
}

// ---------------------------------------------------------------------------
// Words
// ---------------------------------------------------------------------------
/// An argument is a word in capital letters where it has the same letters, each of them a capital
/// or a small one.
pub proof fn words_in_either_case(arg: Seq<u8>, word: Seq<char>)
    requires
        forall|i: int| 0 <= i < word.len() ==> 'A' <= #[trigger] word[i] <= 'Z',
    ensures
        is_word(arg, word) == (arg.len() == word.len() && forall|i: int|
            0 <= i < arg.len() ==> #[trigger] arg[i] == word[i] as u8 || arg[i] == word[i] as u8
                + 32),
{
    assert(is_ascii_chars(word)) by {
        assert forall|i: int| 0 <= i < word.len() implies 0 <= #[trigger] word[i] as u32 <= 0x7f by {
            assert('A' <= word[i] <= 'Z');
        }
    }
    is_ascii_chars_encode_utf8(word);
    let up = upper_all(arg);
    let name = encode_utf8(word);
    if is_word(arg, word) {
        assert forall|i: int| 0 <= i < arg.len() implies #[trigger] arg[i] == word[i] as u8
            || arg[i] == word[i] as u8 + 32 by {
            assert(up[i] == name[i]);
            assert('A' <= word[i] <= 'Z');
        }
    }
    if arg.len() == word.len() && forall|i: int|
        0 <= i < arg.len() ==> #[trigger] arg[i] == word[i] as u8 || arg[i] == word[i] as u8 + 32 {
        assert forall|i: int| 0 <= i < up.len() implies #[trigger] up[i] == name[i] by {
            assert('A' <= word[i] <= 'Z');
            assert(arg[i] == word[i] as u8 || arg[i] == word[i] as u8 + 32);
        }
        assert(up =~= name);
    }
}

/// Capital and small letters are 32 apart, and no other byte has two cases.
pub proof fn letters_have_two_cases(s: Seq<u8>, i: int)
    requires
        0 <= i < s.len(),
    ensures
        lower_all(s).len() == s.len() && upper_all(s).len() == s.len(),
        65 <= s[i] <= 90 ==> lower_all(s)[i] == s[i] + 32 && upper_all(s)[i] == s[i],
        97 <= s[i] <= 122 ==> upper_all(s)[i] == s[i] - 32 && lower_all(s)[i] == s[i],
        !(65 <= s[i] <= 90) && !(97 <= s[i] <= 122) ==> lower_all(s)[i] == s[i] && upper_all(s)[i]
            == s[i],
{
}

/// A byte that is neither white space nor part of it.
pub open spec fn is_plain(b: u8) -> bool {
    33 <= b <= 126
}

/// What was read of a word and the plain bytes behind it make one word.
proof fn plain_bytes_make_a_word(word: Seq<u8>, w: Seq<u8>, rest: Seq<u8>)
    requires
        forall|i: int| 0 <= i < w.len() ==> is_plain(#[trigger] w[i]),
    ensures
        words_from(word, w + rest) == words_from(word + w, rest),
    decreases w.len(),
{
    if w.len() == 0 {
        assert(w + rest =~= rest);
        assert(word + w =~= word);
    } else {
        let s = w + rest;
        assert(s[0] == w[0]);
        assert(is_plain(w[0]));
        assert(s.skip(1) =~= w.skip(1) + rest);
        assert forall|i: int| 0 <= i < w.skip(1).len() implies is_plain(
            #[trigger] w.skip(1)[i],
        ) by {
            assert(is_plain(w[i + 1]));
        }
        plain_bytes_make_a_word(word.push(w[0]), w.skip(1), rest);
        assert(word.push(w[0]) + w.skip(1) =~= word + w);
    }
}

/// White space sets words apart: before a text it is passed over, and a word of plain bytes with
/// white space behind it, or nothing, is the first of the text's words.
pub proof fn white_space_sets_words_apart(w: Seq<u8>, white: u8, rest: Seq<u8>)
    requires
        w.len() > 0,
        forall|i: int| 0 <= i < w.len() ==> is_plain(#[trigger] w[i]),
        white == 32 || 9 <= white <= 13,
    ensures
        words(Seq::empty()) == Seq::<Seq<u8>>::empty(),
        words(w) == seq![w],
        words(seq![white] + rest) == words(rest),
        words(w + seq![white] + rest) == seq![w] + words(rest),
{
    assert((seq![white] + rest).skip(1) =~= rest);
    assert(Seq::<Seq<u8>>::empty() + words(rest) =~= words(rest));
    plain_bytes_make_a_word(Seq::empty(), w, Seq::empty());
    assert(w + Seq::<u8>::empty() =~= w);
    assert(Seq::<u8>::empty() + w =~= w);
    let tail = seq![white] + rest;
    plain_bytes_make_a_word(Seq::empty(), w, tail);
    assert(w + seq![white] + rest =~= w + tail);
}

/// The white space of Unicode beyond ASCII, in UTF-8: the next line and the no-break space, the
/// Ogham space mark, the spaces of different widths, the line and paragraph separators, the narrow
/// no-break space, the mathematical space and the ideographic space.
pub open spec fn is_wide_space(w: Seq<u8>) -> bool {
    ||| w == seq![0xc2u8, 0x85] || w == seq![0xc2u8, 0xa0]
    ||| w == seq![0xe1u8, 0x9a, 0x80]
    ||| w.len() == 3 && w[0] == 0xe2 && w[1] == 0x80 && (0x80 <= w[2] <= 0x8a || w[2] == 0xa8
        || w[2] == 0xa9 || w[2] == 0xaf)
    ||| w == seq![0xe2u8, 0x81, 0x9f] || w == seq![0xe3u8, 0x80, 0x80]
}

/// White space beyond ASCII sets words apart too, and nothing else does.
pub proof fn wide_spaces_set_words_apart(w: Seq<u8>, space: Seq<u8>, rest: Seq<u8>, s: Seq<u8>)
    requires
        w.len() > 0,
        forall|i: int| 0 <= i < w.len() ==> is_plain(#[trigger] w[i]),
        is_wide_space(space),
    ensures
        words(space + rest) == words(rest),
        words(w + space + rest) == seq![w] + words(rest),
        s.len() > 0 && s[0] != 32 && !(9 <= s[0] <= 13) && (s.len() < 2 || !is_wide_space(
            s.take(2),
        )) && (s.len() < 3 || !is_wide_space(s.take(3))) ==> white_at(s) == 0,
{
    let tail = space + rest;
    assert(white_at(tail) == space.len());
    assert(tail.skip(space.len() as int) =~= rest);
    assert(Seq::<Seq<u8>>::empty() + words(rest) =~= words(rest));
    plain_bytes_make_a_word(Seq::empty(), w, tail);
    assert(w + space + rest =~= w + tail);
    assert(Seq::<u8>::empty() + w =~= w);
    if s.len() >= 2 {
        assert(s.take(2) =~= seq![s[0], s[1]]);
    }
    if s.len() >= 3 {
        assert(s.take(3) =~= seq![s[0], s[1], s[2]]);
    }
}

/// An integer reads back with white space on both sides of it, and as it is.
pub proof fn integers_are_trimmed(n: i64, before: u8, after: u8)
    requires
        before == 32 || 9 <= before <= 13,
        after == 32 || 9 <= after <= 13,
    ensures
        trimmed_int(decimal(n as int)) == Some(n),
        trimmed_int(seq![before] + decimal(n as int) + seq![after]) == Some(n),
{
    let d = decimal(n as int);
    decimal_reads_back(n);
    crate::text::decimal_is_short(n as int);
    assert forall|i: int| 0 <= i < d.len() implies is_plain(#[trigger] d[i]) by {
        assert(is_digit(d[i]) || d[i] == 45);
    }
    white_space_sets_words_apart(d, after, Seq::empty());
    white_space_sets_words_apart(d, before, d + seq![after]);
    assert(d + seq![after] + Seq::<u8>::empty() =~= d + seq![after]);
    assert(seq![before] + d + seq![after] =~= seq![before] + (d + seq![after]));
    assert(seq![d] + Seq::<Seq<u8>>::empty() =~= seq![d]);
}

} // verus!
