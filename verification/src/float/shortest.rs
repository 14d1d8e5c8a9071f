//! The shortest decimal number that reads back as a given double.
use vstd::prelude::*;

use crate::float::big::{two_to, two_to_positive, Big};
use crate::float::round::{
    beyond_middle, denominator, five_to, middle, next_units, numerator, reads_as, rounds_to, scale,
    scale_of, significand, significand_of, ten_to_adds, ten_to_positive, ten_to_splits,
    times_ten_to, units, INFINITE,
};
use crate::text::{nat_digits, ten_to};

verus! {

/// How far `d` times ten to the power `k` is from what the magnitude `b` stands for, in units that
/// depend on `k` alone.
pub open spec fn gap(d: nat, k: int, b: nat) -> int {
    let x = numerator(d, k) * two_to(1074) - units(b) * denominator(k);
    if x < 0 {
        -x
    } else {
        x
    }
}

/// `d` times ten to the power `k` is the shortest decimal form of the magnitude `b`: it reads
/// back as `b`, no multiple of a greater power of ten does, and of the multiples of this power
/// that do it is the closest to `b`, the greater one where two are equally close.
pub open spec fn shortest(b: nat, d: nat, k: int) -> bool {
    &&& reads_as(d, k, b)
    &&& forall|e: nat, j: int| j > k ==> !#[trigger] reads_as(e, j, b)
    &&& forall|e: nat| #[trigger]
        reads_as(e, k, b) ==> gap(d, k, b) < gap(e, k, b) || gap(d, k, b) == gap(e, k, b) && d >= e
}

/// A magnitude has no two shortest decimal forms.
pub proof fn shortest_is_one(b: nat, d: nat, k: int, e: nat, j: int)
    requires
        shortest(b, d, k),
        shortest(b, e, j),
    ensures
        d == e,
        k == j,
{
    assert(reads_as(d, k, b));
    assert(reads_as(e, j, b));
}

/// By what both sides of a comparison are multiplied to be whole.
spec fn factor(k: int) -> nat {
    if k >= 0 {
        ten_to((400 - k) as nat)
    } else {
        ten_to(400)
    }
}

/// What a comparison's sides are when multiplied.
proof fn multiplied(d: nat, k: int)
    requires
        k <= 400,
    ensures
        factor(k) >= 1,
        numerator(d, k) * factor(k) == d * ten_to(400),
        denominator(k) * factor(k) == ten_to((400 - k) as nat),
{
    let f = factor(k);
    if k >= 0 {
        ten_to_positive((400 - k) as nat);
        ten_to_adds(k as nat, (400 - k) as nat);
        let a = ten_to(k as nat);
        assert((d * a) * f == d * (a * f)) by (nonlinear_arith);
        assert(denominator(k) * f == f) by (nonlinear_arith)
            requires
                denominator(k) == 1,
        ;
    } else {
        ten_to_positive(400);
        ten_to_adds((-k) as nat, 400);
        assert((-k) as nat + 400 == (400 - k) as nat);
    }
}

/// The unit that the multiples of a power of ten are counted in.
spec fn whole() -> nat {
    ten_to(400) * two_to(1075)
}

/// Whether `p` lies between `low` and `high`, which count as inside where `even` says so.
spec fn within(p: int, low: int, high: int, even: bool) -> bool {
    (low < p || low == p && even) && (p < high || p == high && even)
}

/// Reading back as a magnitude, with both sides multiplied.
proof fn reads_multiplied(d: nat, k: int, b: nat)
    requires
        k <= 400,
        0 < b < INFINITE,
    ensures
        reads_as(d, k, b) == within(
            (d * whole()) as int,
            (middle((b - 1) as nat) * ten_to((400 - k) as nat)) as int,
            (middle(b) * ten_to((400 - k) as nat)) as int,
            b % 2 == 0,
        ),
{
    side_multiplied(d, k, middle((b - 1) as nat));
    side_multiplied(d, k, middle(b));
}

/// One comparison with both sides multiplied.
proof fn side_multiplied(d: nat, k: int, m: nat)
    requires
        k <= 400,
    ensures
        ({
            let x = numerator(d, k) * two_to(1075);
            let y = m * denominator(k);
            let p = d * whole();
            let q = m * ten_to((400 - k) as nat);
            (x < y) == (p < q) && (x == y) == (p == q)
        }),
{
    multiplied(d, k);
    let f = factor(k);
    let num = numerator(d, k);
    let den = denominator(k);
    let t = two_to(1075);
    let x = num * t;
    let y = m * den;
    let p = d * whole();
    let q = m * ten_to((400 - k) as nat);
    let n = ten_to(400);
    assert(x * f == p) by (nonlinear_arith)
        requires
            x == num * t,
            num * f == d * n,
            p == d * (n * t),
    ;
    assert(y * f == q) by (nonlinear_arith)
        requires
            y == m * den,
            q == m * (den * f),
    ;
    assert((x < y) == (p < q)) by (nonlinear_arith)
        requires
            x * f == p,
            y * f == q,
            f >= 1,
    ;
    assert((x == y) == (p == q)) by (nonlinear_arith)
        requires
            x * f == p,
            y * f == q,
            f >= 1,
    ;
}

/// The distance to a magnitude, multiplied.
spec fn far(d: nat, k: int, b: nat) -> int {
    let x = d * whole() - 2 * units(b) * ten_to((400 - k) as nat);
    if x < 0 {
        -x
    } else {
        x
    }
}

/// Distances compare as their multiples do.
proof fn gaps_multiplied(d: nat, e: nat, k: int, b: nat)
    requires
        k <= 400,
    ensures
        (gap(d, k, b) < gap(e, k, b)) == (far(d, k, b) < far(e, k, b)),
        (gap(d, k, b) == gap(e, k, b)) == (far(d, k, b) == far(e, k, b)),
{
    gap_multiplied(d, k, b);
    gap_multiplied(e, k, b);
    multiplied(d, k);
    let f = 2 * factor(k);
    let x = gap(d, k, b);
    let y = gap(e, k, b);
    assert((x < y) == (x * f < y * f)) by (nonlinear_arith)
        requires
            f >= 1,
    ;
    assert((x == y) == (x * f == y * f)) by (nonlinear_arith)
        requires
            f >= 1,
    ;
}

/// One distance, multiplied.
proof fn gap_multiplied(d: nat, k: int, b: nat)
    requires
        k <= 400,
    ensures
        far(d, k, b) == gap(d, k, b) * (2 * factor(k)),
{
    multiplied(d, k);
    let f = factor(k);
    let num = numerator(d, k);
    let den = denominator(k);
    let h = two_to(1074);
    let u = units(b);
    let n = ten_to(400);
    let t = ten_to((400 - k) as nat);
    assert(two_to(1075) == 2 * h);
    let x = num * h - u * den;
    assert((num * h) * (2 * f) == d * (n * (2 * h))) by (nonlinear_arith)
        requires
            num * f == d * n,
    ;
    assert((u * den) * (2 * f) == 2 * u * t) by (nonlinear_arith)
        requires
            den * f == t,
    ;
    assert(x * (2 * f) == (num * h) * (2 * f) - (u * den) * (2 * f)) by (nonlinear_arith)
        requires
            x == num * h - u * den,
    ;
    assert((-x) * (2 * f) == -(x * (2 * f))) by (nonlinear_arith);
    assert((x < 0) == (x * (2 * f) < 0)) by (nonlinear_arith)
        requires
            f >= 1,
    ;
}

/// Multiplying numerator and denominator changes nothing.
proof fn rounds_multiplied(num: nat, den: nat, f: nat, b: nat)
    requires
        f >= 1,
    ensures
        rounds_to(num * f, den * f, b) == rounds_to(num, den, b),
{
    if b > 0 {
        comparison_multiplied(num, den, f, middle((b - 1) as nat));
    }
    comparison_multiplied(num, den, f, middle(b));
}

/// One comparison with numerator and denominator multiplied.
proof fn comparison_multiplied(num: nat, den: nat, f: nat, m: nat)
    requires
        f >= 1,
    ensures
        ((num * f) * two_to(1075) < m * (den * f)) == (num * two_to(1075) < m * den),
        ((num * f) * two_to(1075) == m * (den * f)) == (num * two_to(1075) == m * den),
{
    let t = two_to(1075);
    let x = num * t;
    let y = m * den;
    let p = (num * f) * t;
    let q = m * (den * f);
    assert(p == x * f) by (nonlinear_arith)
        requires
            p == (num * f) * t,
            x == num * t,
    ;
    assert(q == y * f) by (nonlinear_arith)
        requires
            q == m * (den * f),
            y == m * den,
    ;
    assert((x < y) == (p < q)) by (nonlinear_arith)
        requires
            p == x * f,
            q == y * f,
            f >= 1,
    ;
    assert((x == y) == (p == q)) by (nonlinear_arith)
        requires
            p == x * f,
            q == y * f,
            f >= 1,
    ;
}

/// A multiple of a power of ten is a multiple of every smaller one.
proof fn finer(e: nat, j: int, i: int, b: nat)
    requires
        i <= j,
        reads_as(e, j, b),
    ensures
        reads_as(e * ten_to((j - i) as nat), i, b),
{
    let step = ten_to((j - i) as nat);
    ten_to_positive((j - i) as nat);
    if i >= 0 {
        ten_to_adds((j - i) as nat, i as nat);
        let a = ten_to(i as nat);
        assert((e * step) * a == e * (step * a)) by (nonlinear_arith);
    } else if j >= 0 {
        let f = ten_to((-i) as nat);
        ten_to_positive((-i) as nat);
        ten_to_adds(j as nat, (-i) as nat);
        let a = ten_to(j as nat);
        assert((e * a) * f == e * (a * f)) by (nonlinear_arith);
        assert(1 * f == f) by (nonlinear_arith);
        rounds_multiplied(e * a, 1, f, b);
    } else {
        ten_to_adds((-j) as nat, (j - i) as nat);
        assert((-j) as nat + (j - i) as nat == (-i) as nat);
        rounds_multiplied(e, ten_to((-j) as nat), step, b);
    }
}

/// Where no multiple of a power of ten reads back as a magnitude, none of a greater one does.
proof fn none_coarser(k: int, b: nat)
    requires
        forall|e: nat| !#[trigger] reads_as(e, k, b),
    ensures
        forall|e: nat, j: int| j >= k ==> !#[trigger] reads_as(e, j, b),
{
    assert forall|e: nat, j: int| j >= k implies !#[trigger] reads_as(e, j, b) by {
        if reads_as(e, j, b) {
            finer(e, j, k, b);
        }
    }
}

/// The state of the search for the digits of a magnitude `b`: `d` units are the most that it holds
/// at ten to the power `400 - t`, and `rem` is left over.
spec fn searching(b: nat, t: nat, d: nat, rem: nat, low: nat, high: nat) -> bool {
    &&& 0 < b < INFINITE
    &&& d * whole() + rem == 2 * units(b) * ten_to(t)
    &&& rem < whole()
    &&& low == two_to(scale((b - 1) as nat)) * ten_to(t)
    &&& high == two_to(scale(b)) * ten_to(t)
}

/// Which of the two multiples next to the magnitude read back as it, in terms of the search.
proof fn candidates(b: nat, t: nat, d: nat, rem: nat, low: nat, high: nat, e: nat)
    requires
        searching(b, t, d, rem, low, high),
    ensures
        reads_as(d, 400 - t, b) == (rem < low || rem == low && b % 2 == 0),
        reads_as(d + 1, 400 - t, b) == (whole() < rem + high || whole() == rem + high && b % 2
            == 0),
        e < d && reads_as(e, 400 - t, b) ==> reads_as(d, 400 - t, b),
        e > d + 1 && reads_as(e, 400 - t, b) ==> reads_as(d + 1, 400 - t, b),
        far(d, 400 - t, b) == rem,
        far(d + 1, 400 - t, b) == whole() - rem,
        e < d ==> far(e, 400 - t, b) > rem,
        e > d + 1 ==> far(e, 400 - t, b) > whole() - rem,
{
    let k = 400 - t;
    let c = (b - 1) as nat;
    let w = whole();
    let p = ten_to(t);
    let g = 2 * units(b) * p;
    let even = b % 2 == 0;
    assert((400 - k) as nat == t);
    next_units(b);
    next_units(c);
    let lo = middle(c) * p;
    let hi = middle(b) * p;
    assert(lo == g - low) by (nonlinear_arith)
        requires
            lo == middle(c) * p,
            g == 2 * units(b) * p,
            low == two_to(scale(c)) * p,
            middle(c) == 2 * units(b) - two_to(scale(c)),
    ;
    assert(hi == g + high) by (nonlinear_arith)
        requires
            hi == middle(b) * p,
            g == 2 * units(b) * p,
            high == two_to(scale(b)) * p,
            middle(b) == 2 * units(b) + two_to(scale(b)),
    ;
    ten_to_positive(t);
    two_to_positive(scale(c));
    two_to_positive(scale(b));
    assert(low >= 1) by (nonlinear_arith)
        requires
            low == two_to(scale(c)) * p,
            two_to(scale(c)) >= 1,
            p >= 1,
    ;
    assert(high >= 1) by (nonlinear_arith)
        requires
            high == two_to(scale(b)) * p,
            two_to(scale(b)) >= 1,
            p >= 1,
    ;
    reads_multiplied(d, k, b);
    reads_multiplied(d + 1, k, b);
    reads_multiplied(e, k, b);
    assert((d + 1) * w == d * w + w) by (nonlinear_arith);
    assert(e < d ==> e * w + w <= d * w) by (nonlinear_arith);
    assert(e > d + 1 ==> (d + 1) * w + w <= e * w) by (nonlinear_arith);
}

/// At ten to the power -1075 nothing is left over.
proof fn nothing_left(b: nat, d: nat, rem: nat, low: nat, high: nat)
    requires
        searching(b, 1475, d, rem, low, high),
    ensures
        rem == 0,
        low >= 1,
{
    let w = whole();
    let g = 2 * units(b);
    ten_to_adds(400, 1075);
    ten_to_splits(1075);
    ten_to_positive(1475);
    two_to_positive(scale((b - 1) as nat));
    let n = ten_to(400);
    let f = five_to(1075);
    let t = two_to(1075);
    let q = g * f;
    assert(g * (n * (f * t)) == (g * f) * (n * t)) by (nonlinear_arith);
    assert(g * ten_to(1475) == q * w);
    assert(rem == 0) by (nonlinear_arith)
        requires
            d * w + rem == q * w,
            rem < w,
            rem >= 0,
    ;
    let l = two_to(scale((b - 1) as nat));
    assert(low >= 1) by (nonlinear_arith)
        requires
            low == l * ten_to(1475),
            l >= 1,
            ten_to(1475) >= 1,
    ;
}

/// The digits of `n`, none where it is zero.
spec fn digits_or_none(n: nat) -> Seq<u8> {
    if n == 0 {
        Seq::empty()
    } else {
        nat_digits(n)
    }
}

/// The digits of the next number.
fn increment(digits: Vec<u8>, Ghost(n): Ghost<nat>) -> (r: Vec<u8>)
    requires
        digits@ == digits_or_none(n),
    ensures
        r@ == nat_digits(n + 1),
    decreases digits@.len(),
{
    let mut digits = digits;
    proof {
        if n > 0 {
            nat_digits_shape(n);
        }
    }
    match digits.pop() {
        None => {
            let mut one: Vec<u8> = Vec::new();
            one.push(49);
            assert(one@ =~= nat_digits(1));
            one
        },
        Some(last) => {
            assert(digits@ =~= digits_or_none(n / 10));
            assert(last == 48 + n % 10);
            if last < 57 {
                digits.push(last + 1);
                assert((n + 1) / 10 == n / 10);
                assert((n + 1) % 10 == n % 10 + 1);
                assert(digits@ =~= nat_digits(n + 1));
                digits
            } else {
                assert((n + 1) / 10 == n / 10 + 1);
                assert((n + 1) % 10 == 0);
                let mut carried = increment(digits, Ghost(n / 10));
                carried.push(48);
                assert(carried@ =~= nat_digits(n + 1));
                carried
            }
        },
    }
}

/// The last digit of a number and the digits before it.
proof fn nat_digits_shape(n: nat)
    requires
        n > 0,
    ensures
        nat_digits(n).len() >= 1,
        nat_digits(n).last() == 48 + n % 10,
        nat_digits(n).drop_last() == digits_or_none(n / 10),
{
    if n < 10 {
        assert(nat_digits(n).drop_last() =~= Seq::<u8>::empty());
    } else {
        assert(nat_digits(n).drop_last() =~= nat_digits(n / 10));
    }
}

/// Starting the search where not even one unit reads back as the magnitude.
proof fn search_starts(b: nat, t: nat, rem: nat, low: nat, high: nat)
    requires
        0 < b < INFINITE,
        rem == 2 * units(b) * ten_to(t),
        low == two_to(scale((b - 1) as nat)) * ten_to(t),
        high == two_to(scale(b)) * ten_to(t),
        rem + high < whole(),
    ensures
        searching(b, t, 0, rem, low, high),
        forall|e: nat| !#[trigger] reads_as(e, 400 - t, b),
{
    let k = 400 - t;
    let w = whole();
    assert(0 * w == 0) by (nonlinear_arith);
    two_to_positive(scale(b));
    ten_to_positive(t);
    let p = ten_to(t);
    let c = (b - 1) as nat;
    next_units(c);
    assert(rem > low) by (nonlinear_arith)
        requires
            rem == 2 * units(b) * p,
            low == two_to(scale(c)) * p,
            2 * units(b) > two_to(scale(c)),
            p >= 1,
    ;
    assert forall|e: nat| !#[trigger] reads_as(e, k, b) by {
        candidates(b, t, 0, rem, low, high, e);
    }
}

/// One digit further, before the digit is taken off.
proof fn search_advances(b: nat, t: nat, d: nat, rem: nat, low: nat, high: nat)
    requires
        searching(b, t, d, rem, low, high),
    ensures
        (10 * d) * whole() + 10 * rem == 2 * units(b) * ten_to(t + 1),
        10 * low == two_to(scale((b - 1) as nat)) * ten_to(t + 1),
        10 * high == two_to(scale(b)) * ten_to(t + 1),
{
    let p = ten_to(t);
    assert(ten_to(t + 1) == 10 * p);
    let w = whole();
    let g = 2 * units(b);
    let l = two_to(scale((b - 1) as nat));
    let h = two_to(scale(b));
    assert((10 * d) * w + 10 * rem == 10 * (d * w + rem)) by (nonlinear_arith);
    assert(10 * (g * p) == g * (10 * p)) by (nonlinear_arith);
    assert(10 * (l * p) == l * (10 * p)) by (nonlinear_arith);
    assert(10 * (h * p) == h * (10 * p)) by (nonlinear_arith);
}

/// What the search ends with is the shortest decimal form.
proof fn search_ends(b: nat, t: nat, d: nat, rem: nat, low: nat, high: nat, up: bool)
    requires
        searching(b, t, d, rem, low, high),
        t > 0,
        forall|e: nat| !#[trigger] reads_as(e, 400 - t + 1, b),
        ({
            let floor = rem < low || rem == low && b % 2 == 0;
            let ceil = whole() < rem + high || whole() == rem + high && b % 2 == 0;
            (floor || ceil) && up == (ceil && (!floor || whole() <= 2 * rem))
        }),
    ensures
        shortest(
            b,
            if up {
                d + 1
            } else {
                d
            },
            400 - t,
        ),
{
    let k = 400 - t;
    let best = if up {
        d + 1
    } else {
        d
    };
    none_coarser(k + 1, b);
    candidates(b, t, d, rem, low, high, d);
    assert forall|e: nat| #[trigger] reads_as(e, k, b) implies gap(best, k, b) < gap(e, k, b) || gap(
        best,
        k,
        b,
    ) == gap(e, k, b) && best >= e by {
        candidates(b, t, d, rem, low, high, e);
        gaps_multiplied(best, e, k, b);
    }
}

/// Where neither neighbour reads back as the magnitude, no multiple does.
proof fn search_goes_on(b: nat, t: nat, d: nat, rem: nat, low: nat, high: nat)
    requires
        searching(b, t, d, rem, low, high),
        !(rem < low || rem == low && b % 2 == 0),
        !(whole() < rem + high || whole() == rem + high && b % 2 == 0),
    ensures
        forall|e: nat| !#[trigger] reads_as(e, 400 - t, b),
{
    assert forall|e: nat| !#[trigger] reads_as(e, 400 - t, b) by {
        candidates(b, t, d, rem, low, high, e);
    }
}

/// Where to start the search for the digits of a magnitude, with twice its units, the distance to
/// the number halfway to the one below, and to the one above, all times a power of ten.
struct Start {
    t: usize,
    rem: Big,
    low: Big,
    high: Big,
}

/// Starts the search at ten to the power `400 - t`.
fn start_at(b: u64, t: usize) -> (r: Start)
    requires
        0 < b < INFINITE,
    ensures
        r.t == t,
        r.rem@ == 2 * units(b as nat) * ten_to(t as nat),
        r.low@ == two_to(scale((b - 1) as nat)) * ten_to(t as nat),
        r.high@ == two_to(scale(b as nat)) * ten_to(t as nat),
{
    let one = Big::from_u64(1);
    let twice = Big::from_u64(significand_of(b)).times_plus(2, 0).shifted(scale_of(b));
    proof {
        let s = significand(b as nat);
        let w = two_to(scale(b as nat));
        assert((s * 2) * w == 2 * (s * w)) by (nonlinear_arith);
    }
    let low = one.shifted(scale_of(b - 1));
    let high = one.shifted(scale_of(b));
    Start {
        t,
        rem: times_ten_to(&twice, t),
        low: times_ten_to(&low, t),
        high: times_ten_to(&high, t),
    }
}

/// Starts the search close above the magnitude.
fn start(b: u64, unit: &Big) -> (r: Start)
    requires
        0 < b < INFINITE,
        unit@ == whole(),
    ensures
        r.t < 1475,
        searching(b as nat, r.t as nat, 0, r.rem@, r.low@, r.high@),
        forall|e: nat| !#[trigger] reads_as(e, 400 - r.t, b as nat),
{
    let e = scale_of(b) as usize;
    let close = start_at(b, 705 - e * 30103 / 100000);
    let (less, _) = close.rem.plus(&close.high).compared(unit);
    if less {
        proof {
            search_starts(b as nat, close.t as nat, close.rem@, close.low@, close.high@);
        }
        close
    } else {
        let far = start_at(b, 0);
        proof {
            let g = 2 * units(b as nat);
            let h = two_to(scale(b as nat));
            assert(g * ten_to(0) == g) by (nonlinear_arith)
                requires
                    ten_to(0) == 1,
            ;
            assert(h * ten_to(0) == h) by (nonlinear_arith)
                requires
                    ten_to(0) == 1,
            ;
            next_units(b as nat);
            beyond_middle(b as nat);
            search_starts(b as nat, 0, far.rem@, far.low@, far.high@);
        }
        far
    }
}

/// How often `unit` goes into `n`, at most nine times, and what is left over.
fn take_digit(n: Big, unit: &Big) -> (r: (u8, Big))
    requires
        n@ < 10 * unit@,
        unit@ >= 1,
    ensures
        r.0 <= 9,
        n@ == r.0 * unit@ + r.1@,
        r.1@ < unit@,
{
    let ghost whole = n@;
    let mut n = n;
    let mut digit: u8 = 0;
    assert(0 * unit@ == 0) by (nonlinear_arith);
    loop
        invariant
            digit <= 9,
            whole == digit * unit@ + n@,
            whole < 10 * unit@,
        ensures
            digit <= 9,
            whole == digit * unit@ + n@,
            n@ < unit@,
        decreases n@,
    {
        let (less, _) = n.compared(unit);
        if less {
            break;
        }
        proof {
            let u = unit@;
            let d = digit as nat;
            assert((d + 1) * u == d * u + u) by (nonlinear_arith);
            assert(d >= 9 ==> d * u >= 9 * u) by (nonlinear_arith);
        }
        n = n.minus(unit);
        digit = digit + 1;
    }
    (digit, n)
}

/// The shortest decimal form of a magnitude: the digits of a number and a power of ten.
pub fn shortest_digits(b: u64) -> (r: (Vec<u8>, i64))
    requires
        0 < b < INFINITE,
    ensures
        exists|d: nat|
            #![trigger nat_digits(d)]
            r.0@ == nat_digits(d) && shortest(b as nat, d, r.1 as int),
        -1075 <= r.1 <= 400,
{
    let unit = times_ten_to(&Big::from_u64(1), 400).shifted(1075);
    assert(1 * ten_to(400) == ten_to(400)) by (nonlinear_arith);
    let first = start(b, &unit);
    let mut t: usize = first.t;
    let mut rem = first.rem;
    let mut low = first.low;
    let mut high = first.high;
    let mut digits: Vec<u8> = Vec::new();
    let ghost mut d: nat = 0;
    let even = b % 2 == 0;
    loop
        invariant
            t < 1475,
            even == (b % 2 == 0),
            unit@ == whole(),
            searching(b as nat, t as nat, d, rem@, low@, high@),
            digits@ == digits_or_none(d),
            forall|e: nat| !#[trigger] reads_as(e, 400 - t, b as nat),
        decreases 1475 - t,
    {
        proof {
            search_advances(b as nat, t as nat, d, rem@, low@, high@);
        }
        let (digit, left) = take_digit(rem.times_plus(10, 0), &unit);
        rem = left;
        low = low.times_plus(10, 0);
        high = high.times_plus(10, 0);
        let ghost before = d;
        proof {
            d = 10 * before + digit as nat;
            let w = whole();
            assert((10 * before + digit) * w == (10 * before) * w + digit * w) by (nonlinear_arith);
            assert(d / 10 == before && d % 10 == digit);
        }
        if digits.len() > 0 || digit > 0 {
            digits.push(48 + digit);
        }
        proof {
            if before > 0 {
                nat_digits_shape(before);
            }
            assert(digits@ =~= digits_or_none(d));
        }
        t = t + 1;
        assert(searching(b as nat, t as nat, d, rem@, low@, high@));
        let (below, at_low) = rem.compared(&low);
        let (above, at_high) = unit.compared(&rem.plus(&high));
        let floor = below || at_low && even;
        let ceil = above || at_high && even;
        if floor || ceil {
            let (half, _) = rem.times_plus(2, 0).compared(&unit);
            let up = ceil && (!floor || !half);
            proof {
                assert(400 - t + 1 == 400 - (t - 1));
                search_ends(b as nat, t as nat, d, rem@, low@, high@, up);
            }
            if up {
                let next = increment(digits, Ghost(d));
                assert(shortest(b as nat, d + 1, 400 - t));
                return (next, 400 - t as i64);
            }
            proof {
                assert(shortest(b as nat, d, 400 - t));
                if d == 0 {
                    zero_reads_as_zero(b as nat, 400 - t);
                }
            }
            return (digits, 400 - t as i64);
        }
        proof {
            search_goes_on(b as nat, t as nat, d, rem@, low@, high@);
            if t == 1475 {
                nothing_left(b as nat, d, rem@, low@, high@);
            }
        }
    }
}

/// Zero does not read back as any other number.
proof fn zero_reads_as_zero(b: nat, k: int)
    requires
        b > 0,
        k <= 400,
        b < INFINITE,
    ensures
        !reads_as(0, k, b),
{
    reads_multiplied(0, k, b);
    let c = (b - 1) as nat;
    let p = ten_to((400 - k) as nat);
    ten_to_positive((400 - k) as nat);
    next_units(c);
    assert(0 * whole() == 0) by (nonlinear_arith);
    let m = middle(c);
    assert(m >= 1) by {
        let s = significand(c);
        let w = two_to(scale(c));
        assert((2 * s + 1) * w >= 1) by (nonlinear_arith)
            requires
                w >= 1,
        ;
    }
    assert(m * p > 0) by (nonlinear_arith)
        requires
            m >= 1,
            p >= 1,
    ;
}

/// Every magnitude that is finite and not zero has a shortest decimal form.
pub proof fn shortest_exists(b: nat)
    requires
        0 < b < INFINITE,
    ensures
        exists|d: nat, k: int| #[trigger] shortest(b, d, k),
{
    let g = 2 * units(b);
    let l = two_to(scale((b - 1) as nat));
    let h = two_to(scale(b));
    assert(g * ten_to(0) == g) by (nonlinear_arith)
        requires
            ten_to(0) == 1,
    ;
    assert(h * ten_to(0) == h) by (nonlinear_arith)
        requires
            ten_to(0) == 1,
    ;
    next_units(b);
    beyond_middle(b);
    search_starts(b, 0, g * ten_to(0), l * ten_to(0), h * ten_to(0));
    exists_from(b, 0);
}

/// It is found among the multiples of smaller powers of ten where none of this one will do.
proof fn exists_from(b: nat, t: nat)
    requires
        0 < b < INFINITE,
        t < 1475,
        forall|e: nat| !#[trigger] reads_as(e, 400 - t, b),
    ensures
        exists|d: nat, k: int| #[trigger] shortest(b, d, k),
    decreases 1475 - t,
{
    let next = t + 1;
    let n = 2 * units(b) * ten_to(next);
    let w = whole();
    ten_to_positive(400);
    two_to_positive(1075);
    assert(w >= 1) by (nonlinear_arith)
        requires
            w == ten_to(400) * two_to(1075),
            ten_to(400) >= 1,
            two_to(1075) >= 1,
    ;
    let d = n / w;
    let rem = n % w;
    assert(n == w * d + rem) by (nonlinear_arith)
        requires
            d == n / w,
            rem == n % w,
            w >= 1,
    ;
    assert(w * d == d * w) by (nonlinear_arith);
    assert(rem < w) by (nonlinear_arith)
        requires
            rem == n % w,
            w >= 1,
    ;
    let low = two_to(scale((b - 1) as nat)) * ten_to(next);
    let high = two_to(scale(b)) * ten_to(next);
    assert(searching(b, next, d, rem, low, high));
    let floor = rem < low || rem == low && b % 2 == 0;
    let ceil = w < rem + high || w == rem + high && b % 2 == 0;
    if floor || ceil {
        let up = ceil && (!floor || w <= 2 * rem);
        assert(400 - next + 1 == 400 - t);
        search_ends(b, next, d, rem, low, high, up);
    } else {
        search_goes_on(b, next, d, rem, low, high);
        if next == 1475 {
            nothing_left(b, d, rem, low, high);
        } else {
            exists_from(b, next);
        }
    }
}

} // verus!
