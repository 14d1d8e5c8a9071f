//! Which doubles are whole numbers.
use vstd::arithmetic::div_mod::lemma_fundamental_div_mod_converse;
use vstd::prelude::*;

use crate::float::big::{two_to, two_to_32, two_to_adds, two_to_grows, two_to_positive};
use crate::float::round::{scale, scale_of, significand, significand_of, units, INFINITE};

verus! {

/// A magnitude stands for a whole number.
pub open spec fn is_whole(b: nat) -> bool {
    b < INFINITE && units(b) % two_to(1074) == 0
}

/// The whole number that a magnitude stands for, without a fraction where it has one.
pub open spec fn whole_part(b: nat) -> nat {
    units(b) / two_to(1074)
}

/// Whole numbers from here on are written as any other double is.
pub const WHOLE_LIMIT: u64 = 100_000_000_000_000_000;

/// The bits of the significand that stand behind the point.
proof fn split_at_point(b: nat, s: nat)
    requires
        scale(b) + s == 1074,
    ensures
        whole_part(b) == significand(b) / two_to(s),
        (units(b) % two_to(1074) == 0) == (significand(b) % two_to(s) == 0),
{
    let m = significand(b);
    let p = two_to(scale(b));
    let q = two_to(s);
    two_to_positive(scale(b));
    two_to_positive(s);
    two_to_adds(scale(b), s);
    let d = m / q;
    let r = m % q;
    assert(m == q * d + r && 0 <= r < q) by (nonlinear_arith)
        requires
            d == m / q,
            r == m % q,
            q >= 1,
    ;
    assert(m * p == (p * q) * d + r * p) by (nonlinear_arith)
        requires
            m == q * d + r,
    ;
    assert(0 <= r * p < p * q) by (nonlinear_arith)
        requires
            0 <= r < q,
            p >= 1,
    ;
    assert((r * p == 0) == (r == 0)) by (nonlinear_arith)
        requires
            p >= 1,
    ;
    lemma_fundamental_div_mod_converse(
        (m * p) as int,
        (p * q) as int,
        d as int,
        (r * p) as int,
    );
}

/// A significand that is shifted beyond the point.
proof fn beyond_point(b: nat, k: nat)
    requires
        scale(b) == 1074 + k,
    ensures
        whole_part(b) == significand(b) * two_to(k),
        units(b) % two_to(1074) == 0,
{
    let m = significand(b);
    let p = two_to(1074);
    let q = two_to(k);
    two_to_positive(1074);
    two_to_adds(1074, k);
    assert(m * (p * q) == p * (m * q) + 0) by (nonlinear_arith);
    lemma_fundamental_div_mod_converse((m * (p * q)) as int, p as int, (m * q) as int, 0);
}

/// Two to a power of at most 53.
fn small_power(n: u32) -> (r: u64)
    requires
        n <= 53,
    ensures
        r == two_to(n as nat),
        r <= 0x20_0000_0000_0000,
{
    let mut r: u64 = 1;
    let mut i: u32 = 0;
    proof {
        power_53();
    }
    while i < n
        invariant
            i <= n <= 53,
            r == two_to(i as nat),
            two_to(53) == 0x20_0000_0000_0000,
        decreases n - i,
    {
        proof {
            two_to_grows((i + 1) as nat, 53);
        }
        r = 2 * r;
        i += 1;
    }
    proof {
        two_to_grows(n as nat, 53);
    }
    r
}

/// Two to the power 53.
proof fn power_53()
    ensures
        two_to(53) == 0x20_0000_0000_0000,
{
    two_to_32();
    assert(two_to(21) == 0x20_0000) by {
        assert(two_to(10) == 1024) by {
            reveal_with_fuel(two_to, 11);
        }
        two_to_adds(10, 10);
        assert(1024nat * 1024nat == 0x10_0000) by (nonlinear_arith);
        assert(two_to(21) == 2 * two_to(20));
    }
    two_to_adds(32, 21);
    assert(0x1_0000_0000nat * 0x20_0000nat == 0x20_0000_0000_0000) by (nonlinear_arith);
}

/// The whole number that a magnitude stands for, if it is one below the limit.
pub fn small_whole(b: u64) -> (r: Option<u64>)
    ensures
        match r {
            Some(n) => is_whole(b as nat) && n == whole_part(b as nat) && n < WHOLE_LIMIT,
            None => !(is_whole(b as nat) && whole_part(b as nat) < WHOLE_LIMIT),
        },
{
    if b >= INFINITE {
        return None;
    }
    let m = significand_of(b);
    let e = scale_of(b);
    if e >= 1074 {
        let k: u32 = e - 1074;
        proof {
            beyond_point(b as nat, k as nat);
        }
        if k > 10 {
            proof {
                assert(b >= 0x10_0000_0000_0000);
                two_to_grows(10, k as nat);
                assert(two_to(10) == 1024) by {
                    reveal_with_fuel(two_to, 11);
                }
                let q = two_to(k as nat);
                assert(m * q >= WHOLE_LIMIT) by (nonlinear_arith)
                    requires
                        m >= 0x10_0000_0000_0000,
                        q >= 1024,
                ;
            }
            return None;
        }
        let q = small_power(k);
        proof {
            two_to_grows(k as nat, 10);
            assert(two_to(10) == 1024) by {
                reveal_with_fuel(two_to, 11);
            }
            assert(m * q <= 0x20_0000_0000_0000 * 1024) by (nonlinear_arith)
                requires
                    m <= 0x20_0000_0000_0000,
                    q <= 1024,
            ;
        }
        let n: u64 = m * q;
        return if n < WHOLE_LIMIT {
            Some(n)
        } else {
            None
        };
    }
    let s: u32 = 1074 - e;
    proof {
        split_at_point(b as nat, s as nat);
    }
    if m == 0 {
        proof {
            two_to_positive(s as nat);
            assert(0nat / two_to(s as nat) == 0 && 0nat % two_to(s as nat) == 0) by (nonlinear_arith)
                requires
                    two_to(s as nat) >= 1,
            ;
        }
        return Some(0);
    }
    if s > 53 {
        proof {
            power_53();
            two_to_grows(53, s as nat);
            let q = two_to(s as nat);
            assert(m as nat % q == m) by (nonlinear_arith)
                requires
                    m < q,
            ;
        }
        return None;
    }
    let q = small_power(s);
    proof {
        two_to_positive(s as nat);
        assert(m as nat / q as nat <= m) by (nonlinear_arith)
            requires
                q >= 1,
        ;
    }
    if m % q == 0 {
        Some(m / q)
    } else {
        None
    }
}

} // verus!
