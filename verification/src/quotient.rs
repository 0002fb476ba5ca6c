//! Quotients of positive 32-bit integers, rounded as binary64 division
//! rounds them, computed with integers alone.
//!
//! Two aspect ratios are compared after each has been rounded to the nearest
//! double-precision number (ties to even). A positive double is ordered like
//! its bit pattern, so the pattern is what this module produces.

use vstd::prelude::*;
use vstd::arithmetic::power2::{
    pow2,
    lemma2_to64,
    lemma2_to64_rest,
    lemma_pow2_adds,
    lemma_pow2_unfold,
};

verus! {

/// 2^52, the weight of the leading bit of a 53-bit significand.
pub const HIDDEN_BIT: u64 = 0x10_0000_0000_0000;

/// The first shift at or after `k`, and no greater than 84, that brings
/// `a * 2^k` up to `2^52 * b`.
pub open spec fn shift_above(a: nat, b: nat, k: nat) -> nat
    decreases 84 - k,
{
    if k >= 84 || pow2(52) * b <= a * pow2(k) {
        k
    } else {
        shift_above(a, b, k + 1)
    }
}

/// The shift `k` that places `a / b * 2^k` in `[2^52, 2^53)`. For operands
/// of 32 bits it lies between 21 and 84: `2^32 * 2^20` is below `2^53`, and
/// `2^84` is at least `2^52` times any divisor.
pub open spec fn binade_shift(a: nat, b: nat) -> nat {
    shift_above(a, b, 21)
}

/// `n / d` rounded to the nearest integer, ties to the even neighbour.
pub open spec fn round_half_even(n: nat, d: nat) -> nat {
    let q = n / d;
    let r = n % d;
    if 2 * r < d || (2 * r == d && q % 2 == 0) {
        q
    } else {
        q + 1
    }
}

/// The 53-bit significand of the double nearest to `a / b`; it is `2^53`
/// when rounding carries into the next binade.
pub open spec fn significand(a: nat, b: nat) -> nat {
    round_half_even(a * pow2(binade_shift(a, b)), b)
}

/// Bit pattern of the binary64 number nearest to `a / b`, for `a` and `b`
/// in `1 ..= u32::MAX`: biased exponent `1075 - k` in the upper bits and the
/// significand without its leading bit below. A carry out of the significand
/// lands in the exponent, as the format intends.
pub open spec fn binary64_quotient(a: nat, b: nat) -> nat {
    ((1074 - binade_shift(a, b)) * pow2(52) + significand(a, b)) as nat
}

/// Whether both operands are positive and fit in 32 bits.
pub open spec fn operands_ok(a: nat, b: nat) -> bool {
    0 < a <= u32::MAX && 0 < b <= u32::MAX
}

proof fn lemma_pow2_84()
    ensures
        pow2(21) == 0x20_0000,
        pow2(52) == 0x10_0000_0000_0000,
        pow2(53) == 0x20_0000_0000_0000,
        pow2(84) == 0x10_0000_0000_0000 * 0x1_0000_0000,
{
    lemma2_to64();
    lemma2_to64_rest();
    lemma_pow2_adds(52, 32);
}

proof fn lemma_shift_above(a: nat, b: nat, k: nat)
    requires
        operands_ok(a, b),
        21 <= k <= 84,
        a * pow2(k) < pow2(53) * b,
    ensures
        k <= shift_above(a, b, k) <= 84,
        pow2(52) * b <= a * pow2(shift_above(a, b, k)) < pow2(53) * b,
    decreases 84 - k,
{
    lemma_pow2_84();
    if k >= 84 {
        assert(pow2(52) * b <= a * pow2(84)) by (nonlinear_arith)
            requires
                0 < a,
                0 < b <= 0xffff_ffff,
                pow2(52) == 0x10_0000_0000_0000,
                pow2(84) == 0x10_0000_0000_0000 * 0x1_0000_0000,
        ;
    } else if pow2(52) * b <= a * pow2(k) {
    } else {
        lemma_pow2_unfold(k + 1);
        assert(a * pow2(k + 1) < pow2(53) * b) by (nonlinear_arith)
            requires
                a * pow2(k) < pow2(52) * b,
                pow2(k + 1) == 2 * pow2(k),
                pow2(53) == 2 * pow2(52),
        ;
        lemma_shift_above(a, b, k + 1);
    }
}

/// The shift is between 21 and 84 and places the scaled quotient in
/// `[2^52, 2^53)`.
pub proof fn lemma_binade_shift(a: nat, b: nat)
    requires
        operands_ok(a, b),
    ensures
        21 <= binade_shift(a, b) <= 84,
        pow2(52) * b <= a * pow2(binade_shift(a, b)) < pow2(53) * b,
{
    lemma_pow2_84();
    assert(a * pow2(21) < pow2(53) * b) by (nonlinear_arith)
        requires
            0 < a <= 0xffff_ffff,
            0 < b,
            pow2(21) == 0x20_0000,
            pow2(53) == 0x20_0000_0000_0000,
    ;
    lemma_shift_above(a, b, 21);
}

/// Rounding moves a quotient by at most one half.
pub proof fn lemma_round_half_even_near(n: nat, d: nat)
    requires
        d > 0,
    ensures
        2 * n - d <= 2 * round_half_even(n, d) * d <= 2 * n + d,
        2 * round_half_even(n, d) * d == 2 * n + d ==> round_half_even(n, d) % 2 == 0,
        2 * round_half_even(n, d) * d == 2 * n - d ==> round_half_even(n, d) % 2 == 0,
{
    let q = n / d;
    let r = n % d;
    assert(n == q * d + r && 0 <= r < d) by (nonlinear_arith)
        requires
            q == n / d,
            r == n % d,
            d > 0,
    ;
    let m = round_half_even(n, d);
    if m == q {
        assert(2 * m * d == 2 * n - 2 * r) by (nonlinear_arith)
            requires
                m == q,
                n == q * d + r,
        ;
    } else {
        assert(m == q + 1);
        assert(2 * m * d == 2 * n - 2 * r + 2 * d) by (nonlinear_arith)
            requires
                m == q + 1,
                n == q * d + r,
        ;
    }
}

/// A scaled quotient in `[2^52, 2^53)` rounds to a significand in
/// `[2^52, 2^53]`.
pub proof fn lemma_significand_range(a: nat, b: nat)
    requires
        operands_ok(a, b),
    ensures
        pow2(52) <= significand(a, b) <= pow2(53),
{
    lemma_binade_shift(a, b);
    lemma_pow2_84();
    let n = a * pow2(binade_shift(a, b));
    let q = n / b;
    assert(pow2(52) <= q < pow2(53)) by (nonlinear_arith)
        requires
            q == n / b,
            b > 0,
            pow2(52) * b <= n < pow2(53) * b,
    ;
}

/// Bit pattern of the double nearest to `a / b`.
pub fn quotient_bits(a: u32, b: u32) -> (bits: u64)
    requires
        a > 0,
        b > 0,
    ensures
        bits == binary64_quotient(a as nat, b as nat),
{
    proof {
        lemma_pow2_84();
        lemma_binade_shift(a as nat, b as nat);
        lemma_significand_range(a as nat, b as nat);
    }
    let bound: u128 = (b as u128) * (HIDDEN_BIT as u128);
    let mut k: u32 = 21;
    let mut n: u128 = (a as u128) * 0x20_0000;
    assert(n < 2 * bound) by (nonlinear_arith)
        requires
            n == a * 0x20_0000,
            bound == b * 0x10_0000_0000_0000,
            a <= 0xffff_ffff,
            b >= 1,
    ;
    while n < bound
        invariant
            a > 0,
            b > 0,
            21 <= k <= 84,
            n == a * pow2(k as nat),
            bound == pow2(52) * b,
            n < 2 * bound,
            shift_above(a as nat, b as nat, k as nat) == binade_shift(a as nat, b as nat),
            pow2(84) == 0x10_0000_0000_0000 * 0x1_0000_0000,
            pow2(52) == 0x10_0000_0000_0000,
        decreases 84 - k,
    {
        proof {
            if k == 84 {
                assert(a * pow2(84) >= pow2(52) * b) by (nonlinear_arith)
                    requires
                        0 < a,
                        0 < b <= 0xffff_ffff,
                        pow2(52) == 0x10_0000_0000_0000,
                        pow2(84) == 0x10_0000_0000_0000 * 0x1_0000_0000,
                ;
            }
            lemma_pow2_unfold((k + 1) as nat);
            assert(a * pow2((k + 1) as nat) == 2 * n) by (nonlinear_arith)
                requires
                    n == a * pow2(k as nat),
                    pow2((k + 1) as nat) == 2 * pow2(k as nat),
            ;
        }
        n = 2 * n;
        k = k + 1;
    }
    let q: u128 = n / (b as u128);
    let r: u128 = n % (b as u128);
    let round_up: bool = 2 * r > b as u128 || (2 * r == b as u128 && q % 2 == 1);
    let m: u128 = if round_up {
        q + 1
    } else {
        q
    };
    assert(m == significand(a as nat, b as nat));
    let exponent: u64 = (1074 - k) as u64;
    assert(exponent * HIDDEN_BIT <= 1053 * 0x10_0000_0000_0000) by (nonlinear_arith)
        requires
            exponent <= 1053,
            HIDDEN_BIT == 0x10_0000_0000_0000,
    ;
    exponent * HIDDEN_BIT + (m as u64)
}

} // verus!
