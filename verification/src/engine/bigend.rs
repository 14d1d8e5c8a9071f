//! Unsigned integers as big-endian bytes.
use vstd::prelude::*;

use crate::order::{before, before_by_front};

verus! {

/// The low `width` bytes of `v`, the most significant first.
pub open spec fn be(v: nat, width: nat) -> Seq<u8>
    decreases width,
{
    if width == 0 {
        Seq::empty()
    } else {
        be(v / 256, (width - 1) as nat).push((v % 256) as u8)
    }
}

/// The number that big-endian bytes denote.
pub open spec fn be_value(s: Seq<u8>) -> nat
    decreases s.len(),
{
    if s.len() == 0 {
        0
    } else {
        256 * be_value(s.drop_last()) + s.last() as nat
    }
}

/// How many numbers `width` bytes can denote.
pub open spec fn be_range(width: nat) -> nat
    decreases width,
{
    if width == 0 {
        1
    } else {
        256 * be_range((width - 1) as nat)
    }
}

/// The ranges of the widths that are in use.
pub proof fn be_ranges()
    ensures
        be_range(4) == 0x1_0000_0000,
        be_range(8) == 0x1_0000_0000_0000_0000,
{
    assert(be_range(4) == 0x1_0000_0000) by {
        reveal_with_fuel(be_range, 5);
    }
    assert(be_range(8) == 0x1_0000_0000_0000_0000) by {
        reveal_with_fuel(be_range, 5);
    }
}

/// A narrower width has no greater range.
proof fn be_range_grows(a: nat, b: nat)
    requires
        a <= b,
    ensures
        be_range(a) <= be_range(b),
    decreases b,
{
    if a < b {
        be_range_grows(a, (b - 1) as nat);
    }
}

/// Big-endian bytes are as many as asked for.
pub proof fn be_len(v: nat, width: nat)
    ensures
        be(v, width).len() == width,
    decreases width,
{
    if width > 0 {
        be_len(v / 256, (width - 1) as nat);
    }
}

/// What is written in big-endian bytes reads back.
pub proof fn be_reads_back(v: nat, width: nat)
    requires
        v < be_range(width),
    ensures
        be(v, width).len() == width,
        be_value(be(v, width)) == v,
    decreases width,
{
    if width > 0 {
        be_reads_back(v / 256, (width - 1) as nat);
        assert(be(v, width).drop_last() =~= be(v / 256, (width - 1) as nat));
    }
}

/// Big-endian bytes denote a number within their range, which is written as those bytes.
pub proof fn be_value_writes_back(s: Seq<u8>)
    ensures
        be_value(s) < be_range(s.len()),
        be(be_value(s), s.len()) == s,
    decreases s.len(),
{
    if s.len() > 0 {
        be_value_writes_back(s.drop_last());
        assert(be_value(s) / 256 == be_value(s.drop_last()));
        assert(be_value(s) % 256 == s.last());
        assert(s.drop_last().push(s.last()) =~= s);
    } else {
        assert(be(be_value(s), s.len()) =~= s);
    }
}

/// Big-endian bytes of one width stand in the order of the numbers.
pub proof fn be_ordered(a: nat, b: nat, width: nat)
    requires
        a < be_range(width),
        b < be_range(width),
    ensures
        before(be(a, width), be(b, width)) == (a < b),
    decreases width,
{
    if width > 0 {
        let w = (width - 1) as nat;
        be_ordered(a / 256, b / 256, w);
        be_reads_back(a / 256, w);
        be_reads_back(b / 256, w);
        let s = seq![(a % 256) as u8];
        let t = seq![(b % 256) as u8];
        assert(be(a, width) =~= be(a / 256, w) + s);
        assert(be(b, width) =~= be(b / 256, w) + t);
        before_by_front(be(a / 256, w), be(b / 256, w), s, t);
        assert(before(s, t) == (s[0] < t[0])) by {
            reveal_with_fuel(before, 2);
        }
    }
}

/// The eight big-endian bytes of `v`.
pub(crate) fn be_u64(v: u64) -> (r: [u8; 8])
    ensures
        r@ == be(v as nat, 8),
{
    let v1: u64 = v / 256;
    let v2: u64 = v1 / 256;
    let v3: u64 = v2 / 256;
    let v4: u64 = v3 / 256;
    let v5: u64 = v4 / 256;
    let v6: u64 = v5 / 256;
    let v7: u64 = v6 / 256;
    let r: [u8; 8] = [
        (v7 % 256) as u8,
        (v6 % 256) as u8,
        (v5 % 256) as u8,
        (v4 % 256) as u8,
        (v3 % 256) as u8,
        (v2 % 256) as u8,
        (v1 % 256) as u8,
        (v % 256) as u8,
    ];
    proof {
        reveal_with_fuel(be, 9);
        assert(r@ =~= be(v as nat, 8));
    }
    r
}

/// The four big-endian bytes of `v`.
pub(crate) fn be_u32(v: u32) -> (r: [u8; 4])
    ensures
        r@ == be(v as nat, 4),
{
    let v1: u32 = v / 256;
    let v2: u32 = v1 / 256;
    let v3: u32 = v2 / 256;
    let r: [u8; 4] = [(v3 % 256) as u8, (v2 % 256) as u8, (v1 % 256) as u8, (v % 256) as u8];
    proof {
        reveal_with_fuel(be, 5);
        assert(r@ =~= be(v as nat, 4));
    }
    r
}

/// The number that at most eight big-endian bytes denote.
pub(crate) fn read_be(s: &[u8]) -> (r: u64)
    requires
        s@.len() <= 8,
    ensures
        r == be_value(s@),
        r < be_range(s@.len()),
{
    proof {
        be_ranges();
        be_range_grows(s@.len(), 8);
    }
    let mut v: u64 = 0;
    let mut i: usize = 0;
    while i < s.len()
        invariant
            i <= s@.len() <= 8,
            be_range(8) == 0x1_0000_0000_0000_0000,
            v == be_value(s@.take(i as int)),
            v < be_range(i as nat),
        decreases s@.len() - i,
    {
        proof {
            be_range_grows((i + 1) as nat, 8);
            assert(s@.take(i + 1).drop_last() =~= s@.take(i as int));
            assert(be_range((i + 1) as nat) == 256 * be_range(i as nat));
        }
        v = 256 * v + s[i] as u64;
        i += 1;
    }
    assert(s@.take(i as int) =~= s@);
    v
}

} // verus!
