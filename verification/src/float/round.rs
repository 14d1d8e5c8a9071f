//! Which double is nearest to a decimal number.
//!
//! A double without its sign is given by its magnitude, the lower 63 of its bits. Magnitudes
//! are ordered as the numbers that they stand for. All numbers here are fractions over powers of
//! two and of ten, so that every comparison is one of whole numbers.
use vstd::prelude::*;

use crate::float::big::{two_to, two_to_32, two_to_adds, two_to_grows, two_to_positive, Big};
use crate::text::{digits_value, is_digit, ten_to};

verus! {

/// The magnitude of infinity, the first one that stands for no number.
pub const INFINITE: u64 = 0x7ff0_0000_0000_0000;

/// The significand of a magnitude, with the leading bit that normal numbers leave out.
pub open spec fn significand(b: nat) -> nat {
    if b < 0x10_0000_0000_0000 {
        b
    } else {
        0x10_0000_0000_0000 + b % 0x10_0000_0000_0000
    }
}

/// By how many bits the significand of a magnitude is shifted.
pub open spec fn scale(b: nat) -> nat {
    if b < 0x10_0000_0000_0000 {
        0
    } else {
        (b / 0x10_0000_0000_0000 - 1) as nat
    }
}

/// The number that a magnitude stands for, in units of two to the power -1074.
pub open spec fn units(b: nat) -> nat {
    significand(b) * two_to(scale(b))
}

/// The number halfway between a magnitude and the next one, in units of two to the power -1075.
pub open spec fn middle(b: nat) -> nat {
    units(b) + units(b + 1)
}

/// `b` is the magnitude nearest to the fraction `num / den`; of two that are equally near, the
/// even one. Whatever lies beyond the largest number by half its last place or more is infinite.
pub open spec fn rounds_to(num: nat, den: nat, b: nat) -> bool {
    let x = num * two_to(1075);
    &&& b <= INFINITE
    &&& b > 0 ==> {
        let low = middle((b - 1) as nat) * den;
        x > low || x == low && b % 2 == 0
    }
    &&& b < INFINITE ==> {
        let high = middle(b) * den;
        x < high || x == high && b % 2 == 0
    }
}

/// The numerator of `d` times ten to the power `k`.
pub open spec fn numerator(d: nat, k: int) -> nat {
    if k >= 0 {
        d * ten_to(k as nat)
    } else {
        d
    }
}

/// The denominator of a number times ten to the power `k`.
pub open spec fn denominator(k: int) -> nat {
    if k >= 0 {
        1
    } else {
        ten_to((-k) as nat)
    }
}

/// `d` times ten to the power `k` is nearest to the magnitude `b`.
pub open spec fn reads_as(d: nat, k: int, b: nat) -> bool {
    rounds_to(numerator(d, k), denominator(k), b)
}

/// The magnitude nearest to `d` times ten to the power `k`.
pub open spec fn nearest(d: nat, k: int) -> nat {
    choose|b: nat| reads_as(d, k, b)
}

/// The next magnitude is one more in the last place of the significand.
pub proof fn next_units(b: nat)
    ensures
        units(b + 1) == (significand(b) + 1) * two_to(scale(b)),
        middle(b) == (2 * significand(b) + 1) * two_to(scale(b)),
        units(b + 1) == units(b) + two_to(scale(b)),
        two_to(scale(b)) >= 1,
{
    let s = significand(b);
    let w = two_to(scale(b));
    two_to_positive(scale(b));
    if b + 1 < 0x10_0000_0000_0000 {
    } else if b + 1 == 0x10_0000_0000_0000 {
    } else if (b + 1) % 0x10_0000_0000_0000 != 0 {
        assert((b + 1) % 0x10_0000_0000_0000 == b % 0x10_0000_0000_0000 + 1);
        assert((b + 1) / 0x10_0000_0000_0000 == b / 0x10_0000_0000_0000);
    } else {
        assert(b % 0x10_0000_0000_0000 == 0xf_ffff_ffff_ffff);
        assert((b + 1) / 0x10_0000_0000_0000 == b / 0x10_0000_0000_0000 + 1);
        assert(scale(b + 1) == scale(b) + 1);
        assert(two_to(scale(b + 1)) == 2 * w);
        assert(significand(b + 1) == 0x10_0000_0000_0000);
        assert(s + 1 == 0x20_0000_0000_0000);
        assert(0x10_0000_0000_0000 * (2 * w) == 0x20_0000_0000_0000 * w) by (nonlinear_arith);
    }
    assert((s + 1) * w == s * w + w) by (nonlinear_arith);
    assert((2 * s + 1) * w == 2 * (s * w) + w) by (nonlinear_arith);
}

/// Greater magnitudes stand for greater numbers, and so do the numbers halfway to the next.
pub proof fn middle_grows(a: nat, b: nat)
    requires
        a < b,
    ensures
        middle(a) < middle(b),
        units(a) < units(b),
    decreases b,
{
    let c = (b - 1) as nat;
    next_units(c);
    next_units(b);
    if a < c {
        middle_grows(a, c);
    }
}

/// No fraction is nearest to two magnitudes.
pub proof fn rounds_to_one(num: nat, den: nat, a: nat, b: nat)
    requires
        den > 0,
        rounds_to(num, den, a),
        rounds_to(num, den, b),
    ensures
        a == b,
{
    if a < b {
        rounds_to_no_other(num, den, a, b);
    } else if b < a {
        rounds_to_no_other(num, den, b, a);
    }
}

/// A fraction that is nearest to a magnitude is not nearest to a greater one.
proof fn rounds_to_no_other(num: nat, den: nat, a: nat, b: nat)
    requires
        den > 0,
        a < b,
        rounds_to(num, den, a),
    ensures
        !rounds_to(num, den, b),
{
    let c = (b - 1) as nat;
    if a < c {
        middle_grows(a, c);
        let p = middle(a);
        let q = middle(c);
        assert(p * den < q * den) by (nonlinear_arith)
            requires
                p < q,
                den > 0,
        ;
    }
}

// ---------------------------------------------------------------------------
// Powers of five and ten
// ---------------------------------------------------------------------------
/// Five to the power `n`.
pub open spec fn five_to(n: nat) -> nat
    decreases n,
{
    if n == 0 {
        1
    } else {
        5 * five_to((n - 1) as nat)
    }
}

/// No power of five is zero.
pub proof fn five_to_positive(n: nat)
    ensures
        five_to(n) >= 1,
    decreases n,
{
    if n > 0 {
        five_to_positive((n - 1) as nat);
    }
}

/// Powers of five multiply by adding exponents.
pub proof fn five_to_adds(a: nat, b: nat)
    ensures
        five_to(a + b) == five_to(a) * five_to(b),
    decreases b,
{
    if b > 0 {
        five_to_adds(a, (b - 1) as nat);
        let x = five_to(a);
        let y = five_to((b - 1) as nat);
        assert(a + b - 1 == a + (b - 1) as nat);
        assert(five_to(a + b) == 5 * five_to((a + b - 1) as nat));
        assert(5 * (x * y) == x * (5 * y)) by (nonlinear_arith);
    } else {
        assert(five_to(a) * five_to(b) == five_to(a)) by (nonlinear_arith)
            requires
                five_to(b) == 1,
        ;
    }
}

/// Powers of ten multiply by adding exponents.
pub proof fn ten_to_adds(a: nat, b: nat)
    ensures
        ten_to(a + b) == ten_to(a) * ten_to(b),
    decreases b,
{
    if b > 0 {
        ten_to_adds(a, (b - 1) as nat);
        let x = ten_to(a);
        let y = ten_to((b - 1) as nat);
        assert(a + b - 1 == a + (b - 1) as nat);
        assert(ten_to(a + b) == 10 * ten_to((a + b - 1) as nat));
        assert(10 * (x * y) == x * (10 * y)) by (nonlinear_arith);
    } else {
        assert(ten_to(a) * ten_to(b) == ten_to(a)) by (nonlinear_arith)
            requires
                ten_to(b) == 1,
        ;
    }
}

/// No power of ten is zero.
pub proof fn ten_to_positive(n: nat)
    ensures
        ten_to(n) >= 1,
    decreases n,
{
    if n > 0 {
        ten_to_positive((n - 1) as nat);
    }
}

/// A power of ten is one of five times one of two.
pub proof fn ten_to_splits(n: nat)
    ensures
        ten_to(n) == five_to(n) * two_to(n),
    decreases n,
{
    if n > 0 {
        let m = (n - 1) as nat;
        ten_to_splits(m);
        let f = five_to(m);
        let t = two_to(m);
        assert(10 * (f * t) == (5 * f) * (2 * t)) by (nonlinear_arith);
    } else {
        assert(five_to(n) * two_to(n) == 1) by (nonlinear_arith)
            requires
                five_to(n) == 1,
                two_to(n) == 1,
        ;
    }
}

/// A power of ten is at least the power of two with three times its exponent.
pub proof fn ten_to_exceeds(n: nat)
    ensures
        ten_to(n) >= two_to(3 * n),
    decreases n,
{
    if n > 0 {
        let m = (n - 1) as nat;
        ten_to_exceeds(m);
        assert(3 * n == 3 * m + 3);
        two_to_adds(3 * m, 3);
        assert(two_to(3) == 8) by {
            reveal_with_fuel(two_to, 4);
        }
        let x = two_to(3 * m);
        assert(x * two_to(3) == 8 * x) by (nonlinear_arith)
            requires
                two_to(3) == 8,
        ;
    }
}

/// Appending digits multiplies by a power of ten and adds what they denote.
pub proof fn digits_value_appends(a: Seq<u8>, b: Seq<u8>)
    ensures
        digits_value(a + b) == digits_value(a) * ten_to(b.len()) + digits_value(b),
    decreases b.len(),
{
    let x = digits_value(a);
    if b.len() == 0 {
        assert(a + b =~= a);
        assert(x * ten_to(0) == x) by (nonlinear_arith)
            requires
                ten_to(0) == 1,
        ;
    } else {
        digits_value_appends(a, b.drop_last());
        assert((a + b).drop_last() =~= a + b.drop_last());
        assert((a + b).last() == b.last());
        let y = ten_to((b.len() - 1) as nat);
        assert(10 * (x * y) == x * (10 * y)) by (nonlinear_arith);
    }
}

/// As many digits denote less than the power of ten with that exponent.
pub proof fn digits_value_bounded(s: Seq<u8>)
    requires
        forall|i: int| 0 <= i < s.len() ==> is_digit(#[trigger] s[i]),
    ensures
        digits_value(s) < ten_to(s.len()),
    decreases s.len(),
{
    if s.len() > 0 {
        assert(forall|i: int| 0 <= i < s.len() - 1 ==> #[trigger] s.drop_last()[i] == s[i]);
        digits_value_bounded(s.drop_last());
        assert(is_digit(s[s.len() - 1]));
    }
}

// ---------------------------------------------------------------------------
// Rounding
// ---------------------------------------------------------------------------
/// What `num / den` is in units of ten to the power -1080: `n` and a fraction, which is zero
/// where `exact` says so. Every number halfway between two magnitudes is whole in these units.
spec fn on_grid(num: nat, den: nat, n: nat, exact: bool) -> bool {
    &&& den >= 1
    &&& n * den <= num * ten_to(1080) < (n + 1) * den
    &&& exact == (n * den == num * ten_to(1080))
}

/// How many units of ten to the power -1080 make up one of two to the power -1075.
spec fn grid_unit() -> nat {
    five_to(1080) * 32
}

/// That many, times two to the power 1075, is ten to the power 1080.
proof fn grid_unit_fits()
    ensures
        grid_unit() * two_to(1075) == ten_to(1080),
{
    ten_to_splits(1080);
    two_to_adds(5, 1075);
    assert(two_to(5) == 32) by {
        reveal_with_fuel(two_to, 6);
    }
    let f = five_to(1080);
    let t = two_to(1075);
    assert((f * 32) * t == f * (32 * t)) by (nonlinear_arith);
}

/// Comparing a fraction with a number halfway between two magnitudes is comparing whole numbers.
proof fn grid_compares(num: nat, den: nat, n: nat, exact: bool, m: nat)
    requires
        on_grid(num, den, n, exact),
    ensures
        (num * two_to(1075) > m * den) == (n > m * grid_unit() || n == m * grid_unit() && !exact),
        (num * two_to(1075) == m * den) == (n == m * grid_unit() && exact),
{
    let k = grid_unit();
    let p = two_to(1075);
    let t = ten_to(1080);
    let h = m * k;
    grid_unit_fits();
    two_to_positive(1075);
    ten_to_positive(1080);
    let a = num * p;
    let b = m * den;
    let x = num * t;
    let y = h * den;
    assert(k >= 1) by (nonlinear_arith)
        requires
            k * p >= 1,
    ;
    // Scaled by the grid unit, the two sides are `x` and `y`.
    assert(a * k == x) by (nonlinear_arith)
        requires
            a == num * p,
            x == num * t,
            k * p == t,
    ;
    assert(b * k == y) by (nonlinear_arith)
        requires
            b == m * den,
            h == m * k,
            y == h * den,
    ;
    assert((a > b) == (x > y)) by (nonlinear_arith)
        requires
            a * k == x,
            b * k == y,
            k >= 1,
    ;
    assert((a == b) == (x == y)) by (nonlinear_arith)
        requires
            a * k == x,
            b * k == y,
            k >= 1,
    ;
    assert(n > h ==> n * den >= y + den) by (nonlinear_arith)
        requires
            y == h * den,
    ;
    assert(n < h ==> (n + 1) * den <= y) by (nonlinear_arith)
        requires
            y == h * den,
    ;
}

/// The digits of `d` times ten to the power `k`, on the grid, where none is cut off.
proof fn shifted_on_grid(d: nat, k: int, n: nat)
    requires
        k + 1080 >= 0,
        n == d * ten_to((k + 1080) as nat),
    ensures
        on_grid(numerator(d, k), denominator(k), n, true),
{
    if k >= 0 {
        ten_to_adds(k as nat, 1080);
        let a = ten_to(k as nat);
        let t = ten_to(1080);
        assert(d * (a * t) == (d * a) * t) by (nonlinear_arith);
    } else {
        let den = ten_to((-k) as nat);
        ten_to_positive((-k) as nat);
        ten_to_adds((k + 1080) as nat, (-k) as nat);
        let a = ten_to((k + 1080) as nat);
        assert((d * a) * den == d * (a * den)) by (nonlinear_arith);
        assert((n + 1) * den == n * den + den) by (nonlinear_arith);
    }
}

/// The same where the last digits fall below the grid: `d` is `n` followed by `cut` digits that
/// denote `r`.
proof fn truncated_on_grid(d: nat, k: int, n: nat, cut: nat, r: nat)
    requires
        k + 1080 == -cut,
        d == n * ten_to(cut) + r,
        r < ten_to(cut),
    ensures
        on_grid(numerator(d, k), denominator(k), n, r == 0),
{
    let t = ten_to(1080);
    let c = ten_to(cut);
    ten_to_adds(1080, cut);
    ten_to_positive(1080);
    ten_to_positive((-k) as nat);
    if k >= 0 {
        assert(cut == 0 && k == 0 - 1080);
    }
    assert((-k) as nat == 1080 + cut);
    let den = ten_to((-k) as nat);
    assert(den == t * c);
    assert(d * t == n * den + r * t) by (nonlinear_arith)
        requires
            d == n * c + r,
            den == t * c,
    ;
    assert(r * t < den) by (nonlinear_arith)
        requires
            r < c,
            den == t * c,
            t >= 1,
    ;
    assert((n + 1) * den == n * den + den) by (nonlinear_arith);
    assert((r * t == 0) == (r == 0)) by (nonlinear_arith)
        requires
            t >= 1,
    ;
}

/// Ten to the power 400 lies beyond every number halfway between two magnitudes.
pub proof fn beyond_middle(b: nat)
    requires
        b < INFINITE,
    ensures
        ten_to(400) * two_to(1075) > middle(b),
{
    let p = two_to(1075);
    ten_to_exceeds(400);
    two_to_adds(1200, 1075);
    let last = (INFINITE - 1) as nat;
    next_units(last);
    assert(scale(last) == 2045);
    assert(significand(last) == 0x1f_ffff_ffff_ffff);
    let w = two_to(2045);
    two_to_adds(2045, 64);
    assert(two_to(64) == 0x1_0000_0000_0000_0000) by {
        two_to_32();
        two_to_adds(32, 32);
        assert(0x1_0000_0000nat * 0x1_0000_0000nat == 0x1_0000_0000_0000_0000) by (nonlinear_arith);
    }
    two_to_grows(2109, 2275);
    assert(0x3f_ffff_ffff_ffff * w < w * 0x1_0000_0000_0000_0000) by (nonlinear_arith)
        requires
            w >= 1,
    ;
    assert(ten_to(400) * p >= two_to(1200) * p) by (nonlinear_arith)
        requires
            ten_to(400) >= two_to(1200),
    ;
    if b < last {
        middle_grows(b, last);
    }
}

/// Ten to the power 400 and more is infinite.
pub proof fn beyond_is_infinite(d: nat, k: int)
    requires
        numerator(d, k) >= ten_to(400) * denominator(k),
    ensures
        reads_as(d, k, INFINITE as nat),
{
    let num = numerator(d, k);
    let den = denominator(k);
    let p = two_to(1075);
    let last = (INFINITE - 1) as nat;
    beyond_middle(last);
    if k < 0 {
        ten_to_positive((-k) as nat);
    }
    let n = ten_to(400);
    let m = middle(last);
    assert(num * p >= (n * p) * den) by (nonlinear_arith)
        requires
            num >= n * den,
    ;
    assert((n * p) * den > m * den) by (nonlinear_arith)
        requires
            n * p > m,
            den >= 1,
    ;
}

/// The grid unit.
fn grid_unit_big() -> (r: Big)
    ensures
        r@ == grid_unit(),
{
    let mut n = Big::from_u64(32);
    let mut i: usize = 0;
    assert(five_to(27) == 7450580596923828125) by {
        reveal_with_fuel(five_to, 28);
    }
    assert(five_to(0) * 32 == 32);
    while i < 40
        invariant
            i <= 40,
            n@ == five_to(27 * i as nat) * 32,
            five_to(27) == 7450580596923828125,
        decreases 40 - i,
    {
        proof {
            five_to_adds(27 * i as nat, 27);
            assert(27 * (i + 1) as nat == 27 * i as nat + 27);
            let f = five_to(27 * i as nat);
            assert((f * 32) * 7450580596923828125 == (f * 7450580596923828125) * 32)
                by (nonlinear_arith);
        }
        n = n.times_plus(7450580596923828125, 0);
        i += 1;
    }
    n
}

/// The significand of a magnitude.
pub(crate) fn significand_of(b: u64) -> (r: u64)
    ensures
        r == significand(b as nat),
        r < 0x20_0000_0000_0000,
{
    if b < 0x10_0000_0000_0000 {
        b
    } else {
        0x10_0000_0000_0000 + b % 0x10_0000_0000_0000
    }
}

/// The scale of a magnitude.
pub(crate) fn scale_of(b: u64) -> (r: u32)
    requires
        b <= INFINITE,
    ensures
        r == scale(b as nat),
        r <= 2046,
{
    if b < 0x10_0000_0000_0000 {
        0
    } else {
        (b / 0x10_0000_0000_0000 - 1) as u32
    }
}

/// Whether a fraction that is given on the grid lies above the number halfway between `b` and
/// the next magnitude, or on it with `b` odd: whether it is nearer to a magnitude above `b`.
fn lies_above(unit: &Big, n: &Big, exact: bool, b: u64, Ghost(num): Ghost<nat>, Ghost(den): Ghost<nat>) -> (r: bool)
    requires
        b < INFINITE,
        unit@ == grid_unit(),
        on_grid(num, den, n@, exact),
    ensures
        r == (num * two_to(1075) > middle(b as nat) * den || num * two_to(1075) == middle(b as nat)
            * den && b % 2 == 1),
{
    let s = significand_of(b);
    let e = scale_of(b);
    let half = unit.times_plus(2 * s + 1, 0).shifted(e);
    proof {
        next_units(b as nat);
        let w = two_to(e as nat);
        let u = unit@;
        let f = 2 * significand(b as nat) + 1;
        assert((u * f) * w == (f * w) * u) by (nonlinear_arith);
        grid_compares(num, den, n@, exact, middle(b as nat));
    }
    let (less, same) = half.compared(n);
    less || same && (!exact || b % 2 == 1)
}

/// The magnitude nearest to a fraction that is given on the grid.
fn nearest_on_grid(n: &Big, exact: bool, Ghost(num): Ghost<nat>, Ghost(den): Ghost<nat>) -> (r: u64)
    requires
        on_grid(num, den, n@, exact),
    ensures
        rounds_to(num, den, r as nat),
{
    let unit = grid_unit_big();
    let mut lo: u64 = 0;
    let mut hi: u64 = INFINITE;
    while lo < hi
        invariant
            lo <= hi <= INFINITE,
            unit@ == grid_unit(),
            on_grid(num, den, n@, exact),
            lo > 0 ==> num * two_to(1075) > middle((lo - 1) as nat) * den || num * two_to(1075)
                == middle((lo - 1) as nat) * den && lo % 2 == 0,
            hi < INFINITE ==> num * two_to(1075) < middle(hi as nat) * den || num * two_to(1075)
                == middle(hi as nat) * den && hi % 2 == 0,
        decreases hi - lo,
    {
        let mid: u64 = lo + (hi - lo) / 2;
        if lies_above(&unit, n, exact, mid, Ghost(num), Ghost(den)) {
            lo = mid + 1;
        } else {
            hi = mid;
        }
    }
    lo
}

/// Digits that are all zero denote zero, and others do not.
pub proof fn zero_digits(s: Seq<u8>)
    requires
        forall|i: int| 0 <= i < s.len() ==> is_digit(#[trigger] s[i]),
    ensures
        (digits_value(s) == 0) == (forall|i: int| 0 <= i < s.len() ==> #[trigger] s[i] == 48),
    decreases s.len(),
{
    if s.len() > 0 {
        let front = s.drop_last();
        assert(forall|i: int| 0 <= i < front.len() ==> #[trigger] front[i] == s[i]);
        zero_digits(front);
        assert(is_digit(s[s.len() - 1]));
        if forall|i: int| 0 <= i < front.len() ==> #[trigger] front[i] == 48 {
            assert forall|i: int| 0 <= i < s.len() && s[s.len() - 1] == 48 implies #[trigger] s[i]
                == 48 by {
                if i < front.len() {
                    assert(front[i] == 48);
                }
            }
        } else {
            let i = choose|i: int| 0 <= i < front.len() && #[trigger] front[i] != 48;
            assert(s[i] != 48);
        }
    }
}

/// Digits that start with one above zero denote at least a power of ten.
proof fn leading_digit(s: Seq<u8>)
    requires
        s.len() > 0,
        forall|i: int| 0 <= i < s.len() ==> is_digit(#[trigger] s[i]),
        s[0] != 48,
    ensures
        digits_value(s) >= ten_to((s.len() - 1) as nat),
    decreases s.len(),
{
    assert(is_digit(s[0]));
    if s.len() > 1 {
        let front = s.drop_last();
        assert(forall|i: int| 0 <= i < front.len() ==> #[trigger] front[i] == s[i]);
        leading_digit(front);
        assert(is_digit(s[s.len() - 1]));
    } else {
        assert(s.drop_last() =~= Seq::<u8>::empty());
    }
}

/// The number that the digits from `from` up to `to` denote.
fn digits_big(digits: &[u8], from: usize, to: usize) -> (r: Big)
    requires
        from <= to <= digits@.len(),
        forall|i: int| 0 <= i < digits@.len() ==> is_digit(#[trigger] digits@[i]),
    ensures
        r@ == digits_value(digits@.subrange(from as int, to as int)),
{
    let mut n = Big::from_u64(0);
    let mut i: usize = from;
    while i < to
        invariant
            from <= i <= to <= digits@.len(),
            forall|j: int| 0 <= j < digits@.len() ==> is_digit(#[trigger] digits@[j]),
            n@ == digits_value(digits@.subrange(from as int, i as int)),
        decreases to - i,
    {
        let ghost next = digits@.subrange(from as int, i + 1);
        assert(next.drop_last() =~= digits@.subrange(from as int, i as int));
        assert(is_digit(digits@[i as int]));
        n = n.times_plus(10, (digits[i] - 48) as u64);
        i += 1;
    }
    n
}

/// `n` times ten to the power `k`.
pub(crate) fn times_ten_to(n: &Big, k: usize) -> (r: Big)
    ensures
        r@ == n@ * ten_to(k as nat),
{
    let mut r = n.times_plus(1, 0);
    let mut left: usize = k;
    assert(n@ * ten_to(0) == n@) by (nonlinear_arith)
        requires
            ten_to(0) == 1,
    ;
    assert(ten_to(18) == 1_000_000_000_000_000_000) by {
        reveal_with_fuel(ten_to, 19);
    }
    while left > 0
        invariant
            left <= k,
            r@ == n@ * ten_to((k - left) as nat),
            ten_to(18) == 1_000_000_000_000_000_000,
        decreases left,
    {
        let ghost done = (k - left) as nat;
        let ghost x = n@;
        let ghost y = ten_to(done);
        if left >= 18 {
            proof {
                ten_to_adds(done, 18);
                assert((x * y) * 1_000_000_000_000_000_000 == x * (y * 1_000_000_000_000_000_000))
                    by (nonlinear_arith);
            }
            r = r.times_plus(1_000_000_000_000_000_000, 0);
            left -= 18;
        } else {
            proof {
                assert(ten_to(done + 1) == 10 * y);
                assert((x * y) * 10 == x * (10 * y)) by (nonlinear_arith);
            }
            r = r.times_plus(10, 0);
            left -= 1;
        }
    }
    r
}

/// The magnitude nearest to what `digits` denote times ten to the power `exponent`.
pub fn nearest_to(digits: &[u8], exponent: i128) -> (r: u64)
    requires
        forall|i: int| 0 <= i < digits@.len() ==> is_digit(#[trigger] digits@[i]),
        -0x1_0000_0000_0000_0000_0000 <= exponent <= 0x1_0000_0000_0000_0000_0000,
    ensures
        reads_as(digits_value(digits@), exponent as int, r as nat),
        r == nearest(digits_value(digits@), exponent as int),
        r <= INFINITE,
{
    let ghost d = digits_value(digits@);
    let ghost k = exponent as int;
    let r = nearest_read(digits, exponent);
    proof {
        if k < 0 {
            ten_to_positive((-k) as nat);
        }
        rounds_to_one(numerator(d, k), denominator(k), nearest(d, k), r as nat);
    }
    r
}

/// A magnitude nearest to what `digits` denote times ten to the power `exponent`.
fn nearest_read(digits: &[u8], exponent: i128) -> (r: u64)
    requires
        forall|i: int| 0 <= i < digits@.len() ==> is_digit(#[trigger] digits@[i]),
        -0x1_0000_0000_0000_0000_0000 <= exponent <= 0x1_0000_0000_0000_0000_0000,
    ensures
        reads_as(digits_value(digits@), exponent as int, r as nat),
{
    let n: usize = digits.len();
    let ghost d = digits_value(digits@);
    let ghost k = exponent as int;
    let mut start: usize = 0;
    while start < n && digits[start] == 48
        invariant
            start <= n == digits@.len(),
            forall|i: int| 0 <= i < start ==> #[trigger] digits@[i] == 48,
        decreases n - start,
    {
        start += 1;
    }
    let ghost zeros = digits@.take(start as int);
    let ghost rest = digits@.skip(start as int);
    proof {
        zero_digits(zeros);
        digits_value_appends(zeros, rest);
        assert(zeros + rest =~= digits@);
        assert(digits_value(zeros) * ten_to(rest.len()) == 0) by (nonlinear_arith)
            requires
                digits_value(zeros) == 0,
        ;
        assert(d == digits_value(rest));
    }
    if start == n {
        proof {
            assert(rest =~= Seq::<u8>::empty());
            zero_rounds_to_zero(k);
        }
        return 0;
    }
    assert(rest[0] == digits@[start as int]);
    assert forall|i: int| 0 <= i < rest.len() implies is_digit(#[trigger] rest[i]) by {
        assert(rest[i] == digits@[i + start]);
    }
    let count: i128 = (n - start) as i128;
    let shift: i128 = exponent + 1080;
    if count + shift > 1480 {
        proof {
            leading_digit(rest);
            large_is_infinite(d, k, (rest.len() - 1) as nat);
        }
        return INFINITE;
    }
    if shift >= 0 {
        let whole = digits_big(digits, start, n);
        assert(digits@.subrange(start as int, n as int) =~= rest);
        let grid = times_ten_to(&whole, shift as usize);
        proof {
            shifted_on_grid(d, k, grid@);
        }
        return nearest_on_grid(&grid, true, Ghost(numerator(d, k)), Ghost(denominator(k)));
    }
    let cut: i128 = -shift;
    if cut >= count {
        let grid = Big::from_u64(0);
        proof {
            digits_value_bounded(rest);
            ten_to_grows(rest.len(), cut as nat);
            zero_digits(rest);
            assert(0 * ten_to(cut as nat) == 0) by (nonlinear_arith);
            truncated_on_grid(d, k, 0, cut as nat, d);
        }
        return nearest_on_grid(&grid, false, Ghost(numerator(d, k)), Ghost(denominator(k)));
    }
    let end: usize = n - cut as usize;
    let grid = digits_big(digits, start, end);
    let mut exact = true;
    let mut i: usize = end;
    while i < n
        invariant
            end <= i <= n == digits@.len(),
            exact == (forall|j: int| end <= j < i ==> #[trigger] digits@[j] == 48),
        decreases n - i,
    {
        if digits[i] != 48 {
            exact = false;
        }
        i += 1;
    }
    proof {
        let kept = digits@.subrange(start as int, end as int);
        let tail = digits@.skip(end as int);
        assert(kept + tail =~= rest);
        digits_value_appends(kept, tail);
        assert forall|j: int| 0 <= j < tail.len() implies is_digit(#[trigger] tail[j]) by {
            assert(tail[j] == digits@[j + end]);
        }
        digits_value_bounded(tail);
        zero_digits(tail);
        if exact {
            assert forall|j: int| 0 <= j < tail.len() implies #[trigger] tail[j] == 48 by {
                assert(tail[j] == digits@[j + end]);
            }
        } else {
            let j = choose|j: int| end <= j < n && #[trigger] digits@[j] != 48;
            assert(tail[j - end] != 48);
        }
        truncated_on_grid(d, k, grid@, cut as nat, digits_value(tail));
    }
    nearest_on_grid(&grid, exact, Ghost(numerator(d, k)), Ghost(denominator(k)))
}

/// Zero is nearest to zero.
pub proof fn zero_rounds_to_zero(k: int)
    ensures
        reads_as(0, k, 0),
{
    let den = denominator(k);
    if k >= 0 {
        assert(0 * ten_to(k as nat) == 0) by (nonlinear_arith);
    } else {
        ten_to_positive((-k) as nat);
    }
    next_units(0);
    assert(0 * two_to(1075) == 0) by (nonlinear_arith);
    assert(middle(0) * den > 0) by (nonlinear_arith)
        requires
            middle(0) >= 1,
            den >= 1,
    ;
}

/// A number of at least ten to the power `low`, times ten to the power `k`, is infinite where
/// the two exponents add up to 400 or more.
pub proof fn large_is_infinite(d: nat, k: int, low: nat)
    requires
        d >= ten_to(low),
        low + k >= 400,
    ensures
        reads_as(d, k, INFINITE as nat),
{
    if k >= 0 {
        let a = ten_to(k as nat);
        ten_to_adds(low, k as nat);
        ten_to_grows(400, (low + k) as nat);
        ten_to_positive(k as nat);
        assert(d * a >= ten_to(low) * a) by (nonlinear_arith)
            requires
                d >= ten_to(low),
        ;
    } else {
        ten_to_adds(400, (-k) as nat);
        ten_to_grows((400 - k) as nat, low);
    }
    assert(k >= 0 ==> ten_to(400) * denominator(k) == ten_to(400)) by (nonlinear_arith)
        requires
            k >= 0 ==> denominator(k) == 1,
    ;
    beyond_is_infinite(d, k);
}

/// A greater exponent has no smaller power.
pub proof fn ten_to_grows(a: nat, b: nat)
    requires
        a <= b,
    ensures
        ten_to(a) <= ten_to(b),
    decreases b,
{
    if a < b {
        ten_to_grows(a, (b - 1) as nat);
    }
}

} // verus!
