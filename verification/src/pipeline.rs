//! The run from two decoded images to one composite.

use vstd::prelude::*;
use vstd::arithmetic::power2::{pow2, lemma2_to64_rest};
use crate::analyzer::{
    box_height,
    box_width,
    is_wide,
    lemma_box_fits,
    lemma_box_within_area,
    lemma_wide_iff_wider,
    lemma_wide_only_if_wider,
    target_box,
    wide_branch,
};
use crate::compositor::{
    branch_offset,
    composite,
    composite_outcome,
    drawable,
    lemma_composite_deterministic,
    lemma_covering_parasite_drawable,
    lemma_transparent_host_drawable,
    outcome_view,
    sample_x,
    sample_y,
};
use crate::failure::Failure;
use crate::pixel::Pixel;
use crate::raster::{Image, ImageView};
use crate::scaler::{fit_inside, fits_box, scalable, thumbnail_of};

verus! {

/// The branch chosen for a host and a parasite.
pub open spec fn branch_of(host: ImageView, parasite: ImageView) -> bool {
    is_wide(host.width, host.height, parasite.width, parasite.height)
}

/// The parasite as the scaler returns it for the box of the chosen branch.
pub open spec fn scaled_parasite(host: ImageView, parasite: ImageView) -> ImageView {
    let wide = branch_of(host, parasite);
    thumbnail_of(
        parasite,
        box_width(wide, host.width, host.height, parasite.width, parasite.height) as u32,
        box_height(wide, host.width, host.height, parasite.width, parasite.height) as u32,
    )
}

/// What processing two decoded images must return.
pub open spec fn process_outcome(
    host: ImageView,
    parasite: ImageView,
    outcome: Result<ImageView, Failure>,
) -> bool {
    if host.is_degenerate() || parasite.is_degenerate() {
        outcome == Err::<ImageView, Failure>(
            Failure::DegenerateDimension {
                host: host.is_degenerate(),
                parasite: parasite.is_degenerate(),
            },
        )
    } else if !scalable(parasite) {
        outcome == Err::<ImageView, Failure>(Failure::ParasiteTooLarge)
    } else {
        composite_outcome(
            host,
            scaled_parasite(host, parasite),
            branch_of(host, parasite),
            outcome,
        )
    }
}

/// The parasite's pixel that fills host pixel `(x, y)`.
pub open spec fn sampled_pixel(
    host: ImageView,
    scaled: ImageView,
    wide: bool,
    x: int,
    y: int,
) -> Pixel {
    scaled.pixel(
        sample_x(wide, branch_offset(host, scaled, wide), x),
        sample_y(wide, branch_offset(host, scaled, wide), y),
    )
}

/// The view of an image that may be missing.
pub open spec fn decoded_view(decoded: Option<Image>) -> Option<ImageView> {
    match decoded {
        Some(image) => Some(image@),
        None => None,
    }
}

/// What a run must return for the two decoding results: a decode failure
/// that names every input that is missing, or else whatever processing the
/// two images returns.
pub open spec fn run_outcome(
    host: Option<ImageView>,
    parasite: Option<ImageView>,
    outcome: Result<ImageView, Failure>,
) -> bool {
    match (host, parasite) {
        (Some(h), Some(p)) => process_outcome(h, p, outcome),
        _ => outcome == Err::<ImageView, Failure>(
            Failure::DecodeFailure { host: host is None, parasite: parasite is None },
        ),
    }
}

/// The parasite is at least as large as the host along the dimension that
/// the branch anchors: as wide in the wide branch, as high otherwise.
pub open spec fn reaches(host: ImageView, parasite: ImageView) -> bool {
    if branch_of(host, parasite) {
        parasite.width >= host.width
    } else {
        parasite.height >= host.height
    }
}

/// A parasite that reaches the host in the anchored dimension covers it
/// once fitted into the branch's box: the fitted image is at least as wide
/// and as high as the host, so every host pixel can be drawn.
pub proof fn lemma_reaching_parasite_covers(host: ImageView, parasite: ImageView, scaled: ImageView)
    requires
        !host.is_degenerate(),
        host.width <= u32::MAX,
        host.height <= u32::MAX,
        scalable(parasite),
        reaches(host, parasite),
        fits_box(
            parasite,
            box_width(
                branch_of(host, parasite),
                host.width,
                host.height,
                parasite.width,
                parasite.height,
            ),
            box_height(
                branch_of(host, parasite),
                host.width,
                host.height,
                parasite.width,
                parasite.height,
            ),
            scaled,
        ),
    ensures
        scaled.width >= host.width,
        scaled.height >= host.height,
        drawable(host, scaled, branch_of(host, parasite)),
{
    let hx = host.width as int;
    let hy = host.height as int;
    let w = parasite.width as int;
    let h = parasite.height as int;
    let wide = branch_of(host, parasite);
    let bw = box_width(wide, host.width, host.height, parasite.width, parasite.height) as int;
    let bh = box_height(wide, host.width, host.height, parasite.width, parasite.height) as int;
    let nw = scaled.width as int;
    let nh = scaled.height as int;
    let area = w * h;
    assert(w <= area && h <= area) by (nonlinear_arith)
        requires
            area == w * h,
            w >= 1,
            h >= 1,
    ;
    assert(h * w == area) by (nonlinear_arith)
        requires
            area == w * h,
    ;
    lemma_wide_only_if_wider(host.width, host.height, parasite.width, parasite.height);
    if wide {
        // Box: the host's width by at least the parasite's height.
        assert(hx * h > w * hy);
        assert(bh >= h) by (nonlinear_arith)
            requires
                bh == area / hx,
                area == w * h,
                w >= hx,
                hx >= 1,
                h >= 1,
        ;
        assert(bw * h <= bh * w) by (nonlinear_arith)
            requires
                bw == hx,
                bh >= h,
                w >= hx,
                h >= 1,
                hx >= 1,
        ;
        assert(nw == hx);
        assert(2 * nh * w + w >= 2 * (h * hx));
        assert(nh >= hy) by (nonlinear_arith)
            requires
                2 * nh * w + w >= 2 * (h * hx),
                hx * h > w * hy,
                w >= 1,
        ;
    } else {
        // Box: at least the parasite's width by the host's height.
        assert(w * hy < pow2(52)) by {
            lemma2_to64_rest();
            assert(w * hy <= w * h) by (nonlinear_arith)
                requires
                    hy <= h,
                    w >= 0,
            ;
        }
        lemma_wide_iff_wider(host.width, host.height, parasite.width, parasite.height);
        assert(hx * h <= w * hy);
        assert(hx <= w) by (nonlinear_arith)
            requires
                hx * h <= w * hy,
                hy <= h,
                h >= 1,
                w >= 1,
                hx >= 0,
        ;
        assert(bw >= w) by (nonlinear_arith)
            requires
                bw == area / hy,
                area == w * h,
                h >= hy,
                hy >= 1,
                w >= 1,
        ;
        if bw * h <= bh * w {
            assert(nw == bw);
            assert(2 * nh * w + w >= 2 * (h * bw));
            assert(h * bw >= h * w) by (nonlinear_arith)
                requires
                    bw >= w,
                    h >= 0,
            ;
            assert(nh >= h) by (nonlinear_arith)
                requires
                    2 * nh * w + w >= 2 * (h * w),
                    w >= 1,
            ;
        } else {
            assert(nh == hy);
            assert(2 * nw * h + h >= 2 * (w * hy));
            assert(nw >= hx) by (nonlinear_arith)
                requires
                    2 * nw * h + h >= 2 * (w * hy),
                    hx * h <= w * hy,
                    h >= 1,
            ;
        }
    }
    lemma_covering_parasite_drawable(host, scaled, wide);
}

/// Scales the parasite for the host and composites it into the host's
/// silhouette.
///
/// An image without width or height is reported before anything else, then
/// a parasite too large to scale. Otherwise the branch is chosen, the
/// parasite is fitted into the branch's box, and the composite is the
/// result, or the first opaque host pixel that the scaled parasite does not
/// reach.
pub fn process(host: &Image, parasite: &Image) -> (outcome: Result<Image, Failure>)
    ensures
        process_outcome(host@, parasite@, outcome_view(outcome)),
        outcome is Ok <==> {
            &&& !host@.is_degenerate()
            &&& scalable(parasite@)
            &&& drawable(host@, scaled_parasite(host@, parasite@), branch_of(host@, parasite@))
        },
        !host@.is_degenerate() && scalable(parasite@) && reaches(host@, parasite@)
            ==> outcome is Ok,
        !host@.is_degenerate() && scalable(parasite@) && (forall|x: int, y: int|
            host@.contains(x, y) ==> host@.pixel(x, y).alpha == 0) ==> outcome is Ok,
        outcome matches Ok(out) ==> out@.width == host@.width && out@.height == host@.height,
        outcome matches Ok(out) ==> forall|x: int, y: int|
            host@.contains(x, y) && host@.pixel(x, y).alpha == 0 ==> #[trigger] out@.pixel(x, y)
                == Pixel::clear(),
        outcome matches Ok(out) ==> forall|x: int, y: int|
            host@.contains(x, y) && host@.pixel(x, y).alpha != 0 ==> #[trigger] out@.pixel(x, y)
                == sampled_pixel(
                host@,
                scaled_parasite(host@, parasite@),
                branch_of(host@, parasite@),
                x,
                y,
            ),
{
    let hostx = host.width();
    let hosty = host.height();
    let parax = parasite.width();
    let paray = parasite.height();
    let host_empty = hostx == 0 || hosty == 0;
    let parasite_empty = parax == 0 || paray == 0;
    if host_empty || parasite_empty {
        return Err(Failure::DegenerateDimension { host: host_empty, parasite: parasite_empty });
    }
    let wide = wide_branch(hostx, hosty, parax, paray);
    proof {
        lemma_box_within_area(wide, hostx as nat, hosty as nat, parax as nat, paray as nat);
        if scalable(parasite@) {
            lemma_box_fits(wide, hostx as nat, hosty as nat, parax as nat, paray as nat);
        }
    }
    let fitted = match target_box(wide, hostx, hosty, parax, paray) {
        Some((box_w, box_h)) => fit_inside(parasite, box_w, box_h),
        None => None,
    };
    match fitted {
        Some(scaled) => {
            proof {
                if reaches(host@, parasite@) {
                    lemma_reaching_parasite_covers(host@, parasite@, scaled@);
                }
                if forall|x: int, y: int| host@.contains(x, y) ==> host@.pixel(x, y).alpha == 0 {
                    lemma_transparent_host_drawable(host@, scaled@, wide);
                }
            }
            composite(host, &scaled, wide)
        },
        None => Err(Failure::ParasiteTooLarge),
    }
}

/// Gathers the two decoding results. Both are looked at even when the first
/// is missing, so that one failure names every input that could not be
/// decoded; the images come back only when both are there.
pub fn open_images(host: Option<Image>, parasite: Option<Image>) -> (loaded: Result<
    (Image, Image),
    Failure,
>)
    ensures
        loaded is Ok <==> host is Some && parasite is Some,
        match loaded {
            Ok(pair) => host == Some(pair.0) && parasite == Some(pair.1),
            Err(failure) => failure == (Failure::DecodeFailure {
                host: host is None,
                parasite: parasite is None,
            }),
        },
{
    match (host, parasite) {
        (Some(h), Some(p)) => Ok((h, p)),
        (Some(_), None) => Err(Failure::DecodeFailure { host: false, parasite: true }),
        (None, Some(_)) => Err(Failure::DecodeFailure { host: true, parasite: false }),
        (None, None) => Err(Failure::DecodeFailure { host: true, parasite: true }),
    }
}

/// One whole run on the two decoding results. Without both images nothing
/// is scaled or composited and no image comes back.
pub fn run(host: Option<Image>, parasite: Option<Image>) -> (outcome: Result<Image, Failure>)
    ensures
        run_outcome(decoded_view(host), decoded_view(parasite), outcome_view(outcome)),
        host is None || parasite is None ==> outcome == Err::<Image, Failure>(
            Failure::DecodeFailure { host: host is None, parasite: parasite is None },
        ),
{
    match open_images(host, parasite) {
        Ok(pair) => process(&pair.0, &pair.1),
        Err(failure) => Err(failure),
    }
}

/// Processing has one outcome: two results that both meet its contract on
/// the same pair of images are the same image, byte for byte, or the same
/// failure.
pub proof fn lemma_process_deterministic(
    host: ImageView,
    parasite: ImageView,
    first: Result<ImageView, Failure>,
    second: Result<ImageView, Failure>,
)
    requires
        process_outcome(host, parasite, first),
        process_outcome(host, parasite, second),
    ensures
        first == second,
{
    if !host.is_degenerate() && scalable(parasite) {
        lemma_composite_deterministic(
            host,
            scaled_parasite(host, parasite),
            branch_of(host, parasite),
            first,
            second,
        );
    }
}

/// A run has one outcome: running twice on the same decoding results gives
/// the same image, byte for byte, or the same failure.
pub proof fn lemma_run_deterministic(
    host: Option<ImageView>,
    parasite: Option<ImageView>,
    first: Result<ImageView, Failure>,
    second: Result<ImageView, Failure>,
)
    requires
        run_outcome(host, parasite, first),
        run_outcome(host, parasite, second),
    ensures
        first == second,
{
    match (host, parasite) {
        (Some(h), Some(p)) => {
            lemma_process_deterministic(h, p, first, second);
        },
        _ => {},
    }
}

} // verus!
