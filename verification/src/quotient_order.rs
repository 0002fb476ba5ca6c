//! How rounded quotients are ordered, compared with the exact fractions
//! they stand for.

use vstd::prelude::*;
use vstd::arithmetic::power2::{
    pow2,
    lemma2_to64_rest,
    lemma_pow2_pos,
    lemma_pow2_strictly_increases,
    lemma_pow2_unfold,
};
use crate::quotient::{
    binade_shift,
    binary64_quotient,
    lemma_binade_shift,
    lemma_round_half_even_near,
    lemma_significand_range,
    operands_ok,
    round_half_even,
    significand,
};

verus! {

/// Rounding to nearest, ties to even, never reverses the order of two
/// fractions.
pub proof fn lemma_round_half_even_monotone(n1: nat, d1: nat, n2: nat, d2: nat)
    requires
        d1 > 0,
        d2 > 0,
        n1 * d2 <= n2 * d1,
    ensures
        round_half_even(n1, d1) <= round_half_even(n2, d2),
{
    lemma_round_half_even_near(n1, d1);
    lemma_round_half_even_near(n2, d2);
    let m1 = round_half_even(n1, d1) as int;
    let m2 = round_half_even(n2, d2) as int;
    if m1 > m2 {
        let over = (2 * n1 + d1) - 2 * m1 * d1;
        let under = 2 * m2 * d2 - (2 * n2 - d2);
        let slack = n2 * d1 - n1 * d2;
        assert(2 * (m1 - m2) * (d1 * d2) == 2 * (d1 * d2) - over * d2 - under * d1 - 2 * slack)
            by (nonlinear_arith)
            requires
                over == (2 * n1 + d1) - 2 * m1 * d1,
                under == 2 * m2 * d2 - (2 * n2 - d2),
                slack == n2 * d1 - n1 * d2,
        ;
        assert(2 * (m1 - m2) * (d1 * d2) >= 2 * (d1 * d2)) by (nonlinear_arith)
            requires
                m1 - m2 >= 1,
                d1 > 0,
                d2 > 0,
        ;
        assert(over * d2 >= 0 && under * d1 >= 0) by (nonlinear_arith)
            requires
                over >= 0,
                under >= 0,
                d1 > 0,
                d2 > 0,
        ;
        assert(over == 0 && under == 0) by (nonlinear_arith)
            requires
                over * d2 + under * d1 <= 0,
                over >= 0,
                under >= 0,
                d1 > 0,
                d2 > 0,
        ;
        assert(2 * (m1 - m2) * (d1 * d2) == 2 * (d1 * d2) - 2 * slack) by (nonlinear_arith)
            requires
                2 * (m1 - m2) * (d1 * d2) == 2 * (d1 * d2) - over * d2 - under * d1 - 2 * slack,
                over == 0,
                under == 0,
        ;
        assert(m1 - m2 <= 1) by (nonlinear_arith)
            requires
                2 * (m1 - m2) * (d1 * d2) <= 2 * (d1 * d2),
                d1 > 0,
                d2 > 0,
        ;
        assert(m1 % 2 == 0);
        assert(m2 % 2 == 0);
        assert(false);
    }
}

/// A larger fraction never needs a larger shift.
pub proof fn lemma_shift_antitone(a: nat, b: nat, c: nat, d: nat)
    requires
        operands_ok(a, b),
        operands_ok(c, d),
        a * d <= c * b,
    ensures
        binade_shift(c, d) <= binade_shift(a, b),
{
    lemma_binade_shift(a, b);
    lemma_binade_shift(c, d);
    let kx = binade_shift(a, b);
    let ky = binade_shift(c, d);
    if ky > kx {
        let p = pow2(52) as int;
        let px = pow2(kx) as int;
        let py = pow2(ky) as int;
        lemma_pow2_pos(kx);
        lemma_pow2_unfold(kx + 1);
        if ky > kx + 1 {
            lemma_pow2_strictly_increases(kx + 1, ky);
        }
        assert(py >= 2 * px);
        lemma2_to64_rest();
        assert(pow2(53) == 2 * p);
        assert(c * (2 * px) <= c * py) by (nonlinear_arith)
            requires
                py >= 2 * px,
                c >= 0,
        ;
        assert(2 * (c * px) < 2 * (p * d)) by (nonlinear_arith)
            requires
                c * (2 * px) <= c * py,
                c * py < (2 * p) * d,
        ;
        assert((c * px) * b < (p * d) * b) by (nonlinear_arith)
            requires
                c * px < p * d,
                b > 0,
        ;
        assert((a * px) * d >= (p * b) * d) by (nonlinear_arith)
            requires
                a * px >= p * b,
                d > 0,
        ;
        assert((a * d) * px > (c * b) * px) by (nonlinear_arith)
            requires
                (c * px) * b < (p * d) * b,
                (a * px) * d >= (p * b) * d,
        ;
        assert((a * d) * px <= (c * b) * px) by (nonlinear_arith)
            requires
                a * d <= c * b,
                px > 0,
        ;
        assert(false);
    }
}

/// The rounded quotient of the smaller fraction is never the larger one:
/// `a / b <= c / d` gives `binary64_quotient(a, b) <= binary64_quotient(c, d)`.
pub proof fn lemma_quotient_monotone(a: nat, b: nat, c: nat, d: nat)
    requires
        operands_ok(a, b),
        operands_ok(c, d),
        a * d <= c * b,
    ensures
        binary64_quotient(a, b) <= binary64_quotient(c, d),
{
    lemma_binade_shift(a, b);
    lemma_binade_shift(c, d);
    lemma_significand_range(a, b);
    lemma_significand_range(c, d);
    lemma_shift_antitone(a, b, c, d);
    lemma2_to64_rest();
    let kx = binade_shift(a, b) as int;
    let ky = binade_shift(c, d) as int;
    let p = pow2(52) as int;
    let m1 = significand(a, b) as int;
    let m2 = significand(c, d) as int;
    assert(pow2(53) == 2 * p);
    if ky == kx {
        let px = pow2(kx as nat);
        assert((a * px) * d <= (c * px) * b) by (nonlinear_arith)
            requires
                a * d <= c * b,
                px >= 0,
        ;
        lemma_round_half_even_monotone(a * px, b, c * px, d);
    } else {
        assert((1074 - kx) * p + 2 * p <= (1074 - ky) * p + p) by (nonlinear_arith)
            requires
                ky + 1 <= kx,
                p >= 0,
        ;
    }
    assert((1074 - ky) * p >= 0) by (nonlinear_arith)
        requires
            ky <= 84,
            p >= 0,
    ;
    assert((1074 - kx) * p >= 0) by (nonlinear_arith)
        requires
            kx <= 84,
            p >= 0,
    ;
}

/// Whether `a / b` exceeds `c / d` by more than `2^-52` of `c / d`, which is
/// more than rounding can hide.
pub open spec fn clearly_above(a: nat, b: nat, c: nat, d: nat) -> bool {
    (a * d - c * b) * pow2(52) > c * b
}

/// A fraction that is clearly above another keeps a strictly larger rounded
/// quotient.
pub proof fn lemma_quotient_separates(a: nat, b: nat, c: nat, d: nat)
    requires
        operands_ok(a, b),
        operands_ok(c, d),
        clearly_above(a, b, c, d),
    ensures
        binary64_quotient(a, b) > binary64_quotient(c, d),
{
    lemma_binade_shift(a, b);
    lemma_binade_shift(c, d);
    lemma_significand_range(a, b);
    lemma_significand_range(c, d);
    lemma2_to64_rest();
    let kx = binade_shift(a, b) as int;
    let ky = binade_shift(c, d) as int;
    let p = pow2(52) as int;
    let px = pow2(kx as nat) as int;
    let py = pow2(ky as nat) as int;
    let m1 = significand(a, b) as int;
    let m2 = significand(c, d) as int;
    let gap = a * d - c * b;
    assert(pow2(53) == 2 * p);
    assert(p > 0);
    assert(gap > 0) by (nonlinear_arith)
        requires
            gap * p > c * b,
            c > 0,
            b > 0,
            p > 0,
    ;
    assert(c * b <= a * d);
    lemma_shift_antitone(c, d, a, b);
    assert(kx <= ky);
    lemma_round_half_even_near(a * pow2(kx as nat), b);
    lemma_round_half_even_near(c * pow2(ky as nat), d);
    assert(2 * m1 * b >= 2 * (a * px) - b);
    assert(2 * m2 * d <= 2 * (c * py) + d);
    lemma_pow2_pos(ky as nat);
    assert(py * gap == (a * py) * d - (c * py) * b) by (nonlinear_arith)
        requires
            gap == a * d - c * b,
    ;
    assert((gap * py) * c > (d * b) * c) by (nonlinear_arith)
        requires
            gap * p > c * b,
            c * py >= p * d,
            gap > 0,
            d > 0,
            py > 0,
    ;
    assert(gap * py > d * b) by (nonlinear_arith)
        requires
            (gap * py) * c > (d * b) * c,
            c > 0,
    ;
    if kx == ky {
        assert(2 * (m1 - m2) * (b * d) >= 2 * (py * gap) - 2 * (b * d)) by (nonlinear_arith)
            requires
                2 * m1 * b >= 2 * (a * py) - b,
                2 * m2 * d <= 2 * (c * py) + d,
                py * gap == (a * py) * d - (c * py) * b,
                b > 0,
                d > 0,
        ;
        assert(m1 > m2) by (nonlinear_arith)
            requires
                2 * (m1 - m2) * (b * d) > 0,
                b > 0,
                d > 0,
        ;
    } else {
        lemma_pow2_pos(kx as nat);
        lemma_pow2_unfold((kx + 1) as nat);
        if ky > kx + 1 {
            lemma_pow2_strictly_increases((kx + 1) as nat, ky as nat);
        }
        assert(py >= 2 * px);
        assert((1074 - kx) * p >= (1074 - ky) * p + (ky - kx) * p) by (nonlinear_arith);
        assert((ky - kx) * p >= p) by (nonlinear_arith)
            requires
                ky - kx >= 1,
                p > 0,
        ;
        if ky == kx + 1 && m1 == p && m2 == 2 * p {
            assert(py == 2 * px);
            assert(a * py == 2 * (a * px)) by (nonlinear_arith)
                requires
                    py == 2 * px,
            ;
            assert(2 * (py * gap) <= 3 * (b * d)) by (nonlinear_arith)
                requires
                    py * gap == (a * py) * d - (c * py) * b,
                    a * py == 2 * (a * px),
                    2 * p * b >= 2 * (a * px) - b,
                    2 * (2 * p) * d <= 2 * (c * py) + d,
                    b > 0,
                    d > 0,
            ;
            assert(2 * (c * py) >= (4 * p - 1) * d) by (nonlinear_arith)
                requires
                    2 * m2 * d <= 2 * (c * py) + d,
                    m2 == 2 * p,
            ;
            assert(2 * ((gap * p) * py) > (4 * p - 1) * (d * b)) by (nonlinear_arith)
                requires
                    gap * p > c * b,
                    py > 0,
                    2 * (c * py) >= (4 * p - 1) * d,
                    b > 0,
            ;
            assert(2 * ((gap * p) * py) <= 3 * (b * d) * p) by (nonlinear_arith)
                requires
                    2 * (py * gap) <= 3 * (b * d),
                    p > 0,
            ;
            assert(false) by (nonlinear_arith)
                requires
                    3 * (b * d) * p > (4 * p - 1) * (d * b),
                    p >= 1,
                    b > 0,
                    d > 0,
            ;
        }
    }
    assert((1074 - ky) * p >= 0) by (nonlinear_arith)
        requires
            ky <= 84,
            p >= 0,
    ;
}

} // verus!
