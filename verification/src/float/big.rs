//! Natural numbers of any size, as far as reading and writing doubles needs them.
use vstd::prelude::*;

verus! {

/// Two to the power `n`.
pub open spec fn two_to(n: nat) -> nat
    decreases n,
{
    if n == 0 {
        1
    } else {
        2 * two_to((n - 1) as nat)
    }
}

/// Powers of two multiply by adding exponents.
pub proof fn two_to_adds(a: nat, b: nat)
    ensures
        two_to(a + b) == two_to(a) * two_to(b),
    decreases b,
{
    if b > 0 {
        two_to_adds(a, (b - 1) as nat);
        let x = two_to(a);
        let y = two_to((b - 1) as nat);
        assert(a + b - 1 == a + (b - 1) as nat);
        assert(two_to(a + b) == 2 * two_to((a + b - 1) as nat));
        assert(2 * (x * y) == x * (2 * y)) by (nonlinear_arith);
    } else {
        assert(two_to(a) * two_to(b) == two_to(a)) by (nonlinear_arith)
            requires
                two_to(b) == 1,
        ;
    }
}

/// No power of two is zero.
pub proof fn two_to_positive(n: nat)
    ensures
        two_to(n) >= 1,
    decreases n,
{
    if n > 0 {
        two_to_positive((n - 1) as nat);
    }
}

/// Two to the power thirty-two.
pub proof fn two_to_32()
    ensures
        two_to(32) == 0x1_0000_0000,
{
    assert(two_to(8) == 256) by {
        reveal_with_fuel(two_to, 9);
    }
    two_to_adds(8, 8);
    two_to_adds(16, 16);
    assert(256nat * 256nat == 65536) by (nonlinear_arith);
    assert(65536nat * 65536nat == 0x1_0000_0000) by (nonlinear_arith);
}

/// The limb at position `i`, zero beyond the last one.
pub open spec fn limb(s: Seq<u32>, i: int) -> nat {
    if 0 <= i < s.len() {
        s[i] as nat
    } else {
        0
    }
}

/// The number that the lowest `n` limbs make up.
pub open spec fn low(s: Seq<u32>, n: nat) -> nat
    decreases n,
{
    if n == 0 {
        0
    } else {
        low(s, (n - 1) as nat) + limb(s, n - 1) * two_to(32 * (n - 1) as nat)
    }
}

/// The number that limbs make up, the lowest first.
pub open spec fn limbs_value(s: Seq<u32>) -> nat {
    low(s, s.len())
}

/// The weight of the next limb.
proof fn next_weight(i: nat)
    ensures
        two_to(32 * (i + 1)) == 0x1_0000_0000 * two_to(32 * i),
{
    two_to_32();
    two_to_adds(32 * i, 32);
    assert(32 * (i + 1) == 32 * i + 32);
    assert(two_to(32 * i) * 0x1_0000_0000 == 0x1_0000_0000 * two_to(32 * i)) by (nonlinear_arith);
}

/// The lowest limbs stay below the weight of the next one.
proof fn low_bounded(s: Seq<u32>, n: nat)
    ensures
        low(s, n) < two_to(32 * n),
    decreases n,
{
    if n > 0 {
        let i = (n - 1) as nat;
        low_bounded(s, i);
        next_weight(i);
        let w = two_to(32 * i);
        let d = limb(s, i as int);
        assert(d * w + w <= 0x1_0000_0000 * w) by (nonlinear_arith)
            requires
                d <= 0xffff_ffff,
        ;
    }
}

/// Limbs beyond the last one add nothing.
proof fn low_padded(s: Seq<u32>, n: nat)
    requires
        n >= s.len(),
    ensures
        low(s, n) == limbs_value(s),
    decreases n,
{
    if n > s.len() {
        low_padded(s, (n - 1) as nat);
        assert(0 * two_to(32 * (n - 1) as nat) == 0) by (nonlinear_arith);
    }
}

/// Only the limbs below `n` matter to the lowest `n`.
proof fn low_depends(s: Seq<u32>, t: Seq<u32>, n: nat)
    requires
        forall|i: int| 0 <= i < n ==> limb(s, i) == limb(t, i),
    ensures
        low(s, n) == low(t, n),
    decreases n,
{
    if n > 0 {
        low_depends(s, t, (n - 1) as nat);
    }
}

/// One more limb at the top.
proof fn low_pushed(s: Seq<u32>, x: u32)
    ensures
        limbs_value(s.push(x)) == limbs_value(s) + x * two_to(32 * s.len()),
{
    let t = s.push(x);
    low_depends(s, t, s.len());
    assert(limb(t, s.len() as int) == x);
}

/// A natural number.
#[derive(Debug)]
pub struct Big {
    limbs: Vec<u32>,
}

impl View for Big {
    type V = nat;

    closed spec fn view(&self) -> nat {
        limbs_value(self.limbs@)
    }
}

impl Big {
    /// The number `n`.
    pub fn from_u64(n: u64) -> (r: Big)
        ensures
            r@ == n,
    {
        let lo: u32 = (n % 0x1_0000_0000) as u32;
        let hi: u32 = (n / 0x1_0000_0000) as u32;
        let mut limbs: Vec<u32> = Vec::new();
        proof {
            low_pushed(limbs@, lo);
            low_pushed(limbs@.push(lo), hi);
            two_to_32();
            assert(two_to(0) == 1);
            assert(lo * two_to(0) == lo) by (nonlinear_arith)
                requires
                    two_to(0) == 1,
            ;
            assert(hi * two_to(32) == hi * 0x1_0000_0000) by (nonlinear_arith)
                requires
                    two_to(32) == 0x1_0000_0000,
            ;
        }
        limbs.push(lo);
        limbs.push(hi);
        Big { limbs }
    }

    /// The limb at position `i`, zero beyond the last one.
    fn at(&self, i: usize) -> (r: u32)
        ensures
            r == limb(self.limbs@, i as int),
    {
        if i < self.limbs.len() {
            self.limbs[i]
        } else {
            0
        }
    }

    /// The number times `m`, plus `a`.
    pub fn times_plus(&self, m: u64, a: u64) -> (r: Big)
        ensures
            r@ == self@ * m + a,
    {
        let mut limbs: Vec<u32> = Vec::new();
        let mut carry: u64 = a;
        let mut i: usize = 0;
        proof {
            assert(low(self.limbs@, 0) * m == 0) by (nonlinear_arith)
                requires
                    low(self.limbs@, 0) == 0,
            ;
            assert(carry * two_to(0) == carry) by (nonlinear_arith)
                requires
                    two_to(0) == 1,
            ;
        }
        while i < self.limbs.len()
            invariant
                i <= self.limbs@.len(),
                limbs@.len() == i,
                limbs_value(limbs@) + carry * two_to(32 * i as nat) == low(self.limbs@, i as nat) * m
                    + a,
            decreases self.limbs@.len() - i,
        {
            let d: u32 = self.limbs[i];
            proof {
                assert(d * m + carry <= 0xffff_ffff * 0xffff_ffff_ffff_ffff + 0xffff_ffff_ffff_ffff)
                    by (nonlinear_arith)
                    requires
                        d <= 0xffff_ffff,
                        m <= 0xffff_ffff_ffff_ffff,
                        carry <= 0xffff_ffff_ffff_ffff,
                ;
                assert(d as u128 * m as u128 <= 0xffff_ffff * 0xffff_ffff_ffff_ffff)
                    by (nonlinear_arith)
                    requires
                        d <= 0xffff_ffff,
                        m <= 0xffff_ffff_ffff_ffff,
                ;
            }
            let t: u128 = d as u128 * m as u128 + carry as u128;
            let x: u32 = (t % 0x1_0000_0000) as u32;
            let next: u64 = (t / 0x1_0000_0000) as u64;
            proof {
                let w = two_to(32 * i as nat);
                let was = low(self.limbs@, i as nat);
                low_pushed(limbs@, x);
                next_weight(i as nat);
                assert(low(self.limbs@, (i + 1) as nat) == was + d * w);
                assert(t == x + 0x1_0000_0000 * next);
                assert(limbs_value(limbs@) + x * w + next * (0x1_0000_0000 * w) == (was + d * w) * m
                    + a) by (nonlinear_arith)
                    requires
                        limbs_value(limbs@) + carry * w == was * m + a,
                        d * m + carry == x + 0x1_0000_0000 * next,
                ;
            }
            limbs.push(x);
            carry = next;
            i += 1;
        }
        let x: u32 = (carry % 0x1_0000_0000) as u32;
        let y: u32 = (carry / 0x1_0000_0000) as u32;
        proof {
            let w = two_to(32 * i as nat);
            low_pushed(limbs@, x);
            low_pushed(limbs@.push(x), y);
            next_weight(i as nat);
            assert(x * w + y * (0x1_0000_0000 * w) == carry * w) by (nonlinear_arith)
                requires
                    carry == x + 0x1_0000_0000 * y,
            ;
        }
        limbs.push(x);
        limbs.push(y);
        Big { limbs }
    }

    /// The number times two to the power `n`.
    pub fn shifted(&self, n: u32) -> (r: Big)
        ensures
            r@ == self@ * two_to(n as nat),
    {
        let words: usize = (n / 32) as usize;
        let bits: u32 = n % 32;
        let factor = two_power(bits);
        let scaled = self.times_plus(factor, 0);
        let mut limbs: Vec<u32> = Vec::new();
        let mut k: usize = 0;
        while k < words
            invariant
                k <= words,
                limbs@.len() == k,
                limbs_value(limbs@) == 0,
            decreases words - k,
        {
            proof {
                low_pushed(limbs@, 0);
                assert(0 * two_to(32 * k as nat) == 0) by (nonlinear_arith);
            }
            limbs.push(0);
            k += 1;
        }
        let mut i: usize = 0;
        assert(0 * two_to(32 * words as nat) == 0) by (nonlinear_arith);
        while i < scaled.limbs.len()
            invariant
                i <= scaled.limbs@.len(),
                limbs@.len() == words + i,
                limbs_value(limbs@) == low(scaled.limbs@, i as nat) * two_to(32 * words as nat),
            decreases scaled.limbs@.len() - i,
        {
            let x = scaled.limbs[i];
            proof {
                let w = two_to(32 * words as nat);
                let v = two_to(32 * i as nat);
                low_pushed(limbs@, x);
                two_to_adds(32 * words as nat, 32 * i as nat);
                assert(32 * (words + i) as nat == 32 * words as nat + 32 * i as nat);
                assert(low(scaled.limbs@, i as nat) * w + x * (w * v) == (low(
                    scaled.limbs@,
                    i as nat,
                ) + x * v) * w) by (nonlinear_arith);
            }
            limbs.push(x);
            i += 1;
        }
        proof {
            two_to_adds(bits as nat, 32 * words as nat);
            assert(n as nat == bits as nat + 32 * words as nat);
            assert(self@ * factor * two_to(32 * words as nat) == self@ * (factor * two_to(
                32 * words as nat,
            ))) by (nonlinear_arith);
        }
        Big { limbs }
    }

    /// The sum of two numbers.
    pub fn plus(&self, other: &Big) -> (r: Big)
        ensures
            r@ == self@ + other@,
    {
        let n: usize = if self.limbs.len() > other.limbs.len() {
            self.limbs.len()
        } else {
            other.limbs.len()
        };
        let mut limbs: Vec<u32> = Vec::new();
        let mut carry: u32 = 0;
        let mut i: usize = 0;
        assert(0 * two_to(0) == 0) by (nonlinear_arith);
        while i < n
            invariant
                i <= n,
                limbs@.len() == i,
                carry <= 1,
                limbs_value(limbs@) + carry * two_to(32 * i as nat) == low(self.limbs@, i as nat)
                    + low(other.limbs@, i as nat),
            decreases n - i,
        {
            let a = self.at(i);
            let b = other.at(i);
            let t: u64 = a as u64 + b as u64 + carry as u64;
            let x: u32 = (t % 0x1_0000_0000) as u32;
            let next: u32 = (t / 0x1_0000_0000) as u32;
            proof {
                let w = two_to(32 * i as nat);
                low_pushed(limbs@, x);
                next_weight(i as nat);
                assert(x * w + next * (0x1_0000_0000 * w) == a * w + b * w + carry * w)
                    by (nonlinear_arith)
                    requires
                        a + b + carry == x + 0x1_0000_0000 * next,
                ;
            }
            limbs.push(x);
            carry = next;
            i += 1;
        }
        proof {
            low_pushed(limbs@, carry);
            low_padded(self.limbs@, n as nat);
            low_padded(other.limbs@, n as nat);
        }
        limbs.push(carry);
        Big { limbs }
    }

    /// The number less another one that is no greater.
    pub fn minus(&self, other: &Big) -> (r: Big)
        requires
            other@ <= self@,
        ensures
            r@ == self@ - other@,
    {
        let n: usize = if self.limbs.len() > other.limbs.len() {
            self.limbs.len()
        } else {
            other.limbs.len()
        };
        let mut limbs: Vec<u32> = Vec::new();
        let mut borrow: u32 = 0;
        let mut i: usize = 0;
        assert(0 * two_to(0) == 0) by (nonlinear_arith);
        while i < n
            invariant
                i <= n,
                limbs@.len() == i,
                borrow <= 1,
                limbs_value(limbs@) + low(other.limbs@, i as nat) == low(self.limbs@, i as nat)
                    + borrow * two_to(32 * i as nat),
            decreases n - i,
        {
            let a = self.at(i);
            let b = other.at(i);
            let need: u64 = b as u64 + borrow as u64;
            let (x, next): (u32, u32) = if (a as u64) < need {
                ((a as u64 + 0x1_0000_0000 - need) as u32, 1)
            } else {
                ((a as u64 - need) as u32, 0)
            };
            proof {
                let w = two_to(32 * i as nat);
                low_pushed(limbs@, x);
                next_weight(i as nat);
                assert(x * w + b * w + borrow * w == a * w + next * (0x1_0000_0000 * w))
                    by (nonlinear_arith)
                    requires
                        x + b + borrow == a + 0x1_0000_0000 * next,
                ;
            }
            limbs.push(x);
            borrow = next;
            i += 1;
        }
        proof {
            low_padded(self.limbs@, n as nat);
            low_padded(other.limbs@, n as nat);
            low_bounded(limbs@, n as nat);
            let w = two_to(32 * n as nat);
            assert(borrow == 1 ==> borrow * w == w) by (nonlinear_arith);
            assert(borrow == 0 ==> borrow * w == 0) by (nonlinear_arith);
        }
        Big { limbs }
    }

    /// Whether the number is less than, and whether it is the same as, another one.
    pub fn compared(&self, other: &Big) -> (r: (bool, bool))
        ensures
            r.0 == (self@ < other@),
            r.1 == (self@ == other@),
    {
        let n: usize = if self.limbs.len() > other.limbs.len() {
            self.limbs.len()
        } else {
            other.limbs.len()
        };
        let mut i: usize = n;
        proof {
            low_padded(self.limbs@, n as nat);
            low_padded(other.limbs@, n as nat);
        }
        while i > 0
            invariant
                i <= n,
                self@ - other@ == low(self.limbs@, i as nat) - low(other.limbs@, i as nat),
            decreases i,
        {
            let a = self.at(i - 1);
            let b = other.at(i - 1);
            proof {
                let k = (i - 1) as nat;
                let w = two_to(32 * k);
                low_bounded(self.limbs@, k);
                low_bounded(other.limbs@, k);
                assert(a < b ==> a * w + w <= b * w) by (nonlinear_arith);
                assert(b < a ==> b * w + w <= a * w) by (nonlinear_arith);
            }
            if a < b {
                return (true, false);
            }
            if b < a {
                return (false, false);
            }
            i -= 1;
        }
        (false, true)
    }
}

/// Two to a power below thirty-two.
fn two_power(bits: u32) -> (r: u64)
    requires
        bits < 32,
    ensures
        r == two_to(bits as nat),
{
    let mut r: u64 = 1;
    let mut i: u32 = 0;
    while i < bits
        invariant
            i <= bits < 32,
            r == two_to(i as nat),
            r < 0x1_0000_0000,
        decreases bits - i,
    {
        proof {
            two_to_32();
            two_to_grows((i + 1) as nat, 31);
            assert(two_to(32) == 2 * two_to(31));
        }
        r = 2 * r;
        i += 1;
    }
    r
}

/// A greater exponent has no smaller power.
pub proof fn two_to_grows(a: nat, b: nat)
    requires
        a <= b,
    ensures
        two_to(a) <= two_to(b),
    decreases b,
{
    if a < b {
        two_to_grows(a, (b - 1) as nat);
    }
}

} // verus!
