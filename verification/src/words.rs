//! Words of UTF-8 text: what stands between white space.
use vstd::prelude::*;

use crate::text::{int_value, read_int};

verus! {

/// How many bytes the white-space character takes that `s` starts with, zero where it starts with
/// none: the ASCII ones, U+0085, U+00A0, U+1680, U+2000 to U+200A, U+2028, U+2029, U+202F, U+205F
/// and U+3000, in UTF-8.
pub open spec fn white_at(s: Seq<u8>) -> nat {
    if s.len() >= 1 && (9 <= s[0] <= 13 || s[0] == 32) {
        1
    } else if s.len() >= 2 && s[0] == 0xc2 && (s[1] == 0x85 || s[1] == 0xa0) {
        2
    } else if s.len() >= 3 && (s[0] == 0xe1 && s[1] == 0x9a && s[2] == 0x80 || s[0] == 0xe2 && s[1]
        == 0x80 && (0x80 <= s[2] <= 0x8a || s[2] == 0xa8 || s[2] == 0xa9 || s[2] == 0xaf) || s[0]
        == 0xe2 && s[1] == 0x81 && s[2] == 0x9f || s[0] == 0xe3 && s[1] == 0x80 && s[2] == 0x80) {
        3
    } else {
        0
    }
}

/// The words of `s`, where `word` is what was read of the first one.
pub open spec fn words_from(word: Seq<u8>, s: Seq<u8>) -> Seq<Seq<u8>>
    decreases s.len(),
{
    if s.len() == 0 {
        ended(word)
    } else if white_at(s) > 0 {
        ended(word) + words_from(Seq::empty(), s.skip(white_at(s) as int))
    } else {
        words_from(word.push(s[0]), s.skip(1))
    }
}

/// A word that was read, unless nothing was.
pub open spec fn ended(word: Seq<u8>) -> Seq<Seq<u8>> {
    if word.len() == 0 {
        Seq::empty()
    } else {
        seq![word]
    }
}

/// The words of UTF-8 text.
pub open spec fn words(s: Seq<u8>) -> Seq<Seq<u8>> {
    words_from(Seq::empty(), s)
}

/// The integer that UTF-8 text spells with white space around it.
pub open spec fn trimmed_int(s: Seq<u8>) -> Option<i64> {
    if words(s).len() == 1 {
        int_value(words(s)[0])
    } else {
        None
    }
}

/// How many bytes the white-space character takes that stands at `i`.
fn white_len(s: &[u8], i: usize) -> (r: usize)
    requires
        i <= s@.len(),
    ensures
        r == white_at(s@.skip(i as int)),
        r <= s@.len() - i,
{
    let ghost t = s@.skip(i as int);
    let left: usize = s.len() - i;
    if left >= 1 && (9 <= s[i] && s[i] <= 13 || s[i] == 32) {
        assert(t[0] == s@[i as int]);
        return 1;
    }
    if left >= 1 {
        assert(t[0] == s@[i as int]);
    }
    if left >= 2 {
        assert(t[1] == s@[i + 1]);
        if s[i] == 0xc2 && (s[i + 1] == 0x85 || s[i + 1] == 0xa0) {
            return 2;
        }
    }
    if left >= 3 {
        assert(t[2] == s@[i + 2]);
        let (a, b, c): (u8, u8, u8) = (s[i], s[i + 1], s[i + 2]);
        if a == 0xe1 && b == 0x9a && c == 0x80 || a == 0xe2 && b == 0x80 && (0x80 <= c && c <= 0x8a
            || c == 0xa8 || c == 0xa9 || c == 0xaf) || a == 0xe2 && b == 0x81 && c == 0x9f || a
            == 0xe3 && b == 0x80 && c == 0x80 {
            return 3;
        }
    }
    0
}

/// The words of UTF-8 text.
pub fn split_words(s: &[u8]) -> (r: Vec<Vec<u8>>)
    ensures
        r@.map_values(|w: Vec<u8>| w@) == words(s@),
{
    let mut out: Vec<Vec<u8>> = Vec::new();
    let mut word: Vec<u8> = Vec::new();
    let mut i: usize = 0;
    let ghost view = |w: Vec<u8>| w@;
    assert(out@.map_values(view) =~= Seq::empty());
    assert(s@.skip(0) =~= s@);
    assert(Seq::<Seq<u8>>::empty() + words(s@) =~= words(s@));
    while i < s.len()
        invariant
            i <= s@.len(),
            view == |w: Vec<u8>| w@,
            words(s@) == out@.map_values(view) + words_from(word@, s@.skip(i as int)),
        decreases s@.len() - i,
    {
        let ghost rest = s@.skip(i as int);
        let ghost was = out@.map_values(view);
        let ghost read = word@;
        let n = white_len(s, i);
        if n > 0 {
            if word.len() > 0 {
                out.push(word);
                word = Vec::new();
            }
            proof {
                assert(out@.map_values(view) =~= was + ended(read));
                assert(word@ =~= Seq::<u8>::empty());
                assert(rest.skip(n as int) =~= s@.skip(i + n));
                assert(was + (ended(read) + words_from(Seq::empty(), s@.skip(i + n))) =~= (was
                    + ended(read)) + words_from(Seq::empty(), s@.skip(i + n)));
            }
            i += n;
        } else {
            word.push(s[i]);
            proof {
                assert(rest[0] == s@[i as int]);
                assert(rest.skip(1) =~= s@.skip(i + 1));
            }
            i += 1;
        }
    }
    let ghost was = out@.map_values(view);
    let ghost read = word@;
    if word.len() > 0 {
        out.push(word);
    }
    proof {
        assert(s@.skip(i as int) =~= Seq::<u8>::empty());
        assert(out@.map_values(view) =~= was + ended(read));
    }
    out
}

/// The integer that UTF-8 text spells with white space around it.
pub fn read_trimmed_int(s: &[u8]) -> (r: Option<i64>)
    ensures
        r == trimmed_int(s@),
{
    let found = split_words(s);
    assert(found@.map_values(|w: Vec<u8>| w@).len() == found@.len());
    if found.len() == 1 {
        assert(words(s@)[0] == found@[0]@);
        read_int(&found[0])
    } else {
        None
    }
}

} // verus!
