//! Probabilities and thresholds of the game rules arrive as IEEE-754
//! double-precision numbers. The library keeps each one as its bit pattern
//! (`f64::to_bits`), which holds it exactly, and compares random draws with
//! it exactly. A draw is a whole number `k` below 2^53 standing for the
//! number `k / 2^53`.
//!
//! For bit patterns of non-negative numbers, the order of the patterns as
//! integers is the order of the numbers, so range checks on the patterns are
//! exact.

use vstd::prelude::*;

verus! {

/// The bit pattern of `1.0`.
pub const ONE_BITS: u64 = 0x3ff0_0000_0000_0000;

/// The bit pattern of `1.0 + f64::EPSILON`.
pub const ONE_PLUS_EPSILON_BITS: u64 = 0x3ff0_0000_0000_0001;

/// The bit pattern of positive infinity.
pub const INFINITY_BITS: u64 = 0x7ff0_0000_0000_0000;

/// The bit pattern of `-0.0`; every pattern from here on is negative.
pub const NEG_ZERO_BITS: u64 = 0x8000_0000_0000_0000;

/// The bit pattern of `0.05`.
pub const FIVE_PERCENT_BITS: u64 = 0x3fa9_9999_9999_999a;

/// 2^53: a draw is a whole number below this.
pub const UNITS_PER_ONE: u64 = 0x20_0000_0000_0000;

/// 2^52, the weight of the implicit leading bit of a normal number.
pub const IMPLICIT_BIT: u64 = 0x10_0000_0000_0000;

/// Two to the power `n`.
pub open spec fn two_pow(n: nat) -> nat
    decreases n,
{
    if n == 0 {
        1
    } else {
        2 * two_pow((n - 1) as nat)
    }
}

/// Whether `bits` is the pattern of a number in `0.0..=1.0` (both zeros
/// included, NaN excluded).
pub open spec fn in_unit_interval(bits: u64) -> bool {
    bits <= ONE_BITS || bits == NEG_ZERO_BITS
}

/// Whether `bits` is the pattern of a number in `0.05..=1.0`.
pub open spec fn in_threshold_range(bits: u64) -> bool {
    FIVE_PERCENT_BITS <= bits <= ONE_BITS
}

/// Whether `bits` is the pattern of a number above `1.0 + f64::EPSILON`
/// (infinity included, NaN excluded).
pub open spec fn exceeds_one_plus_epsilon(bits: u64) -> bool {
    ONE_PLUS_EPSILON_BITS < bits <= INFINITY_BITS
}

/// The biased exponent field of a pattern.
pub open spec fn exponent_field(bits: u64) -> nat {
    ((bits as nat) / (IMPLICIT_BIT as nat)) % 2048
}

/// The fraction field of a pattern.
pub open spec fn fraction_field(bits: u64) -> nat {
    (bits as nat) % (IMPLICIT_BIT as nat)
}

/// Whether draw `rng` (standing for `rng / 2^53`) is below the number that
/// `bits` encodes, as `f64` comparison `<` decides it: never below a
/// negative number, a zero or NaN; always below positive infinity. A normal
/// number with exponent field `e` and fraction `f` is `(2^52 + f) * 2^(e -
/// 1075)`, a subnormal one `f * 2^-1074`; the comparison is made exactly.
pub open spec fn draw_below(rng: nat, bits: u64) -> bool {
    let e = exponent_field(bits);
    let f = fraction_field(bits);
    let m = (IMPLICIT_BIT as nat) + f;
    if bits >= NEG_ZERO_BITS {
        false
    } else if e == 2047 {
        f == 0
    } else if e == 0 {
        rng * two_pow(1021) < f
    } else if e <= 1022 {
        rng * two_pow((1022 - e) as nat) < m
    } else {
        rng < m * two_pow((e - 1022) as nat)
    }
}

/// Two to the 52nd.
proof fn lemma_two_pow_52()
    ensures
        two_pow(52) == IMPLICIT_BIT,
{
    reveal_with_fuel(two_pow, 53);
}

/// Two to the 11th.
proof fn lemma_two_pow_11()
    ensures
        two_pow(11) == 2048,
{
    reveal_with_fuel(two_pow, 12);
}

/// Two to the 12th.
proof fn lemma_two_pow_12()
    ensures
        two_pow(12) == 4096,
{
    reveal_with_fuel(two_pow, 13);
}

/// Powers of two are positive.
proof fn lemma_two_pow_positive(n: nat)
    ensures
        two_pow(n) >= 1,
    decreases n,
{
    if n > 0 {
        lemma_two_pow_positive((n - 1) as nat);
    }
}

/// Powers of two grow with the exponent.
pub proof fn lemma_two_pow_monotonic(n: nat, k: nat)
    requires
        n <= k,
    ensures
        two_pow(n) <= two_pow(k),
    decreases k - n,
{
    if n < k {
        lemma_two_pow_monotonic(n, (k - 1) as nat);
        lemma_two_pow_positive((k - 1) as nat);
    }
}

/// Two to the power `k`, for `k` up to 52.
fn pow2(k: u64) -> (p: u64)
    requires
        k <= 52,
    ensures
        p == two_pow(k as nat),
        1 <= p <= IMPLICIT_BIT,
{
    let mut p: u64 = 1;
    let mut i: u64 = 0;
    while i < k
        invariant
            i <= k <= 52,
            p == two_pow(i as nat),
            1 <= p <= IMPLICIT_BIT,
        decreases k - i,
    {
        proof {
            lemma_two_pow_52();
            lemma_two_pow_monotonic((i + 1) as nat, 52);
        }
        p = p * 2;
        i = i + 1;
    }
    proof {
        lemma_two_pow_52();
        lemma_two_pow_monotonic(k as nat, 52);
    }
    p
}

/// The least whole number that no draw below the number `bits` encodes
/// reaches: a draw `rng` is below that number exactly when `rng < t`. It is
/// the number times 2^53 rounded up, capped at 2^64.
pub fn threshold_of(bits: u64) -> (t: u128)
    ensures
        t <= 0x1_0000_0000_0000_0000,
        forall|rng: u64| (rng as u128) < t <==> #[trigger] draw_below(rng as nat, bits),
{
    let e = (bits / IMPLICIT_BIT) % 2048;
    let f = bits % IMPLICIT_BIT;
    let m = IMPLICIT_BIT + f;
    assert(e == exponent_field(bits) && f == fraction_field(bits));
    if bits >= NEG_ZERO_BITS {
        return 0;
    }
    if e == 2047 {
        return if f == 0 { 0x1_0000_0000_0000_0000 } else { 0 };
    }
    if e == 0 {
        proof {
            lemma_two_pow_52();
            lemma_two_pow_monotonic(52, 1021);
            assert forall|rng: u64| (rng as u128) < (if f > 0 { 1u128 } else { 0u128 }) <==> #[trigger] draw_below(rng as nat, bits) by {
                let p = two_pow(1021);
                assert(draw_below(rng as nat, bits) == ((rng as nat) * p < f as nat));
                if rng >= 1 {
                    assert((rng as nat) * p >= p) by (nonlinear_arith)
                        requires rng >= 1, p >= 1;
                }
            }
        }
        return if f > 0 { 1 } else { 0 };
    }
    if e <= 1022 {
        let s = 1022 - e;
        if s >= 53 {
            proof {
                lemma_two_pow_52();
                lemma_two_pow_monotonic(53, s as nat);
                assert forall|rng: u64| (rng as u128) < 1u128 <==> #[trigger] draw_below(rng as nat, bits) by {
                    let p = two_pow(s as nat);
                    assert(draw_below(rng as nat, bits) == ((rng as nat) * p < m as nat));
                    if rng >= 1 {
                        assert((rng as nat) * p >= p) by (nonlinear_arith)
                            requires rng >= 1, p >= 1;
                    }
                }
            }
            return 1;
        }
        let p = pow2(s);
        let q = (m + p - 1) / p;
        proof {
            let mi = m as int;
            let pi = p as int;
            let qi = q as int;
            let r = (mi + pi - 1) % pi;
            assert(mi + pi - 1 == qi * pi + r && 0 <= r < pi) by (nonlinear_arith)
                requires pi >= 1, qi == (mi + pi - 1) / pi, r == (mi + pi - 1) % pi;
            assert forall|rng: u64| (rng as u128) < (q as u128) <==> #[trigger] draw_below(rng as nat, bits) by {
                let x = rng as int;
                if x < qi {
                    assert(x * pi < mi) by (nonlinear_arith)
                        requires x + 1 <= qi, mi + pi - 1 == qi * pi + r, 0 <= r < pi, pi >= 1;
                } else {
                    assert(x * pi >= mi) by (nonlinear_arith)
                        requires x >= qi, mi + pi - 1 == qi * pi + r, 0 <= r < pi, pi >= 1;
                }
            }
        }
        return q as u128;
    }
    let s = e - 1022;
    if s >= 12 {
        proof {
            lemma_two_pow_12();
            lemma_two_pow_monotonic(12, s as nat);
            assert forall|rng: u64| (rng as u128) < 0x1_0000_0000_0000_0000u128 <==> #[trigger] draw_below(rng as nat, bits) by {
                let p = two_pow(s as nat);
                assert((m as nat) * p >= 0x1_0000_0000_0000_0000) by (nonlinear_arith)
                    requires m >= 0x10_0000_0000_0000, p >= 4096;
            }
        }
        return 0x1_0000_0000_0000_0000;
    }
    let p = pow2(s);
    proof {
        lemma_two_pow_11();
        lemma_two_pow_monotonic(s as nat, 11);
        assert((m as nat) * (p as nat) <= 0x1_0000_0000_0000_0000) by (nonlinear_arith)
            requires m < 0x20_0000_0000_0000, p <= 2048;
    }
    let t = (m as u128) * (p as u128);
    t
}

} // verus!
