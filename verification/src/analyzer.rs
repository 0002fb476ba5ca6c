//! Chooses how the parasite is scaled: which of its dimensions is anchored
//! to the host, and the bounding box handed to the scaler.

use vstd::prelude::*;
use vstd::arithmetic::power2::pow2;
use crate::quotient::{binary64_quotient, operands_ok, quotient_bits};
use crate::quotient_order::{clearly_above, lemma_quotient_monotone, lemma_quotient_separates};

verus! {

/// The host is relatively wider than the parasite: its aspect ratio,
/// rounded to double precision, is strictly greater than the parasite's,
/// rounded likewise.
pub open spec fn is_wide(hostx: nat, hosty: nat, parax: nat, paray: nat) -> bool {
    binary64_quotient(hostx, hosty) > binary64_quotient(parax, paray)
}

/// Decides the scaling branch from the two pairs of dimensions.
pub fn wide_branch(hostx: u32, hosty: u32, parax: u32, paray: u32) -> (wide: bool)
    requires
        hostx > 0,
        hosty > 0,
        parax > 0,
        paray > 0,
    ensures
        wide == is_wide(hostx as nat, hosty as nat, parax as nat, paray as nat),
{
    quotient_bits(hostx, hosty) > quotient_bits(parax, paray)
}

/// The wide branch is taken only when the host's exact aspect ratio is
/// strictly greater than the parasite's; equal ratios never select it.
pub proof fn lemma_wide_only_if_wider(hostx: nat, hosty: nat, parax: nat, paray: nat)
    requires
        operands_ok(hostx, hosty),
        operands_ok(parax, paray),
    ensures
        is_wide(hostx, hosty, parax, paray) ==> hostx * paray > parax * hosty,
        hostx * paray == parax * hosty ==> !is_wide(hostx, hosty, parax, paray),
{
    if hostx * paray <= parax * hosty {
        lemma_quotient_monotone(hostx, hosty, parax, paray);
    }
}

/// The branch is decided by the exact aspect ratios, wide if and only if the
/// host's is strictly the greater, except where two different ratios round
/// to the same double.
pub proof fn lemma_wide_iff_wider_unless_rounded_together(
    hostx: nat,
    hosty: nat,
    parax: nat,
    paray: nat,
)
    requires
        operands_ok(hostx, hosty),
        operands_ok(parax, paray),
        hostx * paray > parax * hosty ==> binary64_quotient(hostx, hosty) != binary64_quotient(
            parax,
            paray,
        ),
    ensures
        is_wide(hostx, hosty, parax, paray) <==> hostx * paray > parax * hosty,
{
    lemma_wide_only_if_wider(hostx, hosty, parax, paray);
    if hostx * paray > parax * hosty {
        lemma_quotient_monotone(parax, paray, hostx, hosty);
    }
}

/// The wide branch is taken whenever the host's aspect ratio exceeds the
/// parasite's by more than rounding to double precision can hide.
pub proof fn lemma_wide_if_clearly_wider(hostx: nat, hosty: nat, parax: nat, paray: nat)
    requires
        operands_ok(hostx, hosty),
        operands_ok(parax, paray),
        clearly_above(hostx, hosty, parax, paray),
    ensures
        is_wide(hostx, hosty, parax, paray),
{
    lemma_quotient_separates(hostx, hosty, parax, paray);
}

/// While the parasite's width times the host's height stays below `2^52`,
/// the branch is decided by the exact aspect ratios: wide if and only if
/// the host's ratio is strictly the greater.
pub proof fn lemma_wide_iff_wider(hostx: nat, hosty: nat, parax: nat, paray: nat)
    requires
        operands_ok(hostx, hosty),
        operands_ok(parax, paray),
        parax * hosty < pow2(52),
    ensures
        is_wide(hostx, hosty, parax, paray) <==> hostx * paray > parax * hosty,
{
    lemma_wide_only_if_wider(hostx, hosty, parax, paray);
    if hostx * paray > parax * hosty {
        let gap = hostx * paray - parax * hosty;
        assert(gap * pow2(52) >= pow2(52)) by (nonlinear_arith)
            requires
                gap >= 1,
        ;
        lemma_quotient_separates(hostx, hosty, parax, paray);
    }
}

/// Width of the box the parasite is fitted into.
pub open spec fn box_width(wide: bool, hostx: nat, hosty: nat, parax: nat, paray: nat) -> nat {
    if wide {
        hostx
    } else {
        parax * paray / hosty
    }
}

/// Height of the box the parasite is fitted into.
pub open spec fn box_height(wide: bool, hostx: nat, hosty: nat, parax: nat, paray: nat) -> nat {
    if wide {
        paray * parax / hostx
    } else {
        hosty
    }
}

/// The bounding box for the chosen branch, or `None` when one of its sides
/// does not fit in 32 bits.
pub fn target_box(wide: bool, hostx: u32, hosty: u32, parax: u32, paray: u32) -> (fitted: Option<
    (u32, u32),
>)
    requires
        hostx > 0,
        hosty > 0,
    ensures
        fitted is Some <==> {
            &&& box_width(wide, hostx as nat, hosty as nat, parax as nat, paray as nat) <= u32::MAX
            &&& box_height(wide, hostx as nat, hosty as nat, parax as nat, paray as nat)
                <= u32::MAX
        },
        fitted is Some ==> fitted == Some(
            (
                box_width(wide, hostx as nat, hosty as nat, parax as nat, paray as nat) as u32,
                box_height(wide, hostx as nat, hosty as nat, parax as nat, paray as nat) as u32,
            ),
        ),
{
    assert(parax * paray <= 0xffff_ffff * 0xffff_ffff) by (nonlinear_arith)
        requires
            0 <= parax <= 0xffff_ffff,
            0 <= paray <= 0xffff_ffff,
    ;
    assert(parax * paray == paray * parax) by (nonlinear_arith);
    let area: u64 = (parax as u64) * (paray as u64);
    if wide {
        let side: u64 = area / (hostx as u64);
        if side <= u32::MAX as u64 {
            Some((hostx, side as u32))
        } else {
            None
        }
    } else {
        let side: u64 = area / (hosty as u64);
        if side <= u32::MAX as u64 {
            Some((side as u32, hosty))
        } else {
            None
        }
    }
}

/// The box never has more pixels than the parasite it is computed from.
pub proof fn lemma_box_within_area(wide: bool, hostx: nat, hosty: nat, parax: nat, paray: nat)
    requires
        hostx > 0,
        hosty > 0,
    ensures
        box_width(wide, hostx, hosty, parax, paray) * box_height(wide, hostx, hosty, parax, paray)
            <= parax * paray,
{
    let area = parax * paray;
    assert(paray * parax == area) by (nonlinear_arith)
        requires
            area == parax * paray,
    ;
    if wide {
        assert(hostx * (area / hostx) <= area) by (nonlinear_arith)
            requires
                hostx > 0,
                area >= 0,
        ;
    } else {
        assert((area / hosty) * hosty <= area) by (nonlinear_arith)
            requires
                hosty > 0,
                area >= 0,
        ;
    }
}

/// A box computed from a parasite of fewer than `2^32` pixels has sides
/// that fit in 32 bits.
pub proof fn lemma_box_fits(wide: bool, hostx: nat, hosty: nat, parax: nat, paray: nat)
    requires
        0 < hostx <= u32::MAX,
        0 < hosty <= u32::MAX,
        parax * paray <= u32::MAX,
    ensures
        box_width(wide, hostx, hosty, parax, paray) <= u32::MAX,
        box_height(wide, hostx, hosty, parax, paray) <= u32::MAX,
{
    let area = parax * paray;
    assert(paray * parax == area) by (nonlinear_arith)
        requires
            area == parax * paray,
    ;
    assert(area / hostx <= area) by (nonlinear_arith)
        requires
            hostx > 0,
            area >= 0,
    ;
    assert(area / hosty <= area) by (nonlinear_arith)
        requires
            hosty > 0,
            area >= 0,
    ;
}

} // verus!
