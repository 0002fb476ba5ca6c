//! Aspect-preserving reduction of the parasite, done by the `image` crate.

use vstd::prelude::*;
use crate::raster::{Image, ImageView};

verus! {

/// Most pixels a source may have for the scaler to average it. Each output
/// pixel is the mean of a block of source pixels whose channel values are
/// summed in 32 bits; no block is larger than the whole source, and
/// `255 * 2^24 + 2^23` is still below `2^32`.
pub const MAX_SCALABLE_PIXELS: u64 = 0x100_0000;

/// The image that `image::DynamicImage::thumbnail` returns for an RGBA8
/// source and a bounding box. Its colours come out of the crate's block
/// averaging, which is not restated here.
pub uninterp spec fn thumbnail_of(source: ImageView, box_width: u32, box_height: u32) -> ImageView;

/// Whether the scaler can be handed this source: it has pixels, and few
/// enough of them.
pub open spec fn scalable(source: ImageView) -> bool {
    &&& !source.is_degenerate()
    &&& source.width * source.height <= MAX_SCALABLE_PIXELS
}

/// Whether the box asks for no more pixels than the source has, so that the
/// result needs no larger a buffer than the source already occupies.
pub open spec fn box_within(source: ImageView, box_width: u32, box_height: u32) -> bool {
    box_width == 0 || box_height == 0 || box_width * box_height <= source.width * source.height
}

/// `side` is `n / d` rounded to the nearest integer and raised to at least
/// one. A quotient exactly halfway between two integers may go to either.
pub open spec fn rounded_side(n: nat, d: nat, side: nat) -> bool {
    &&& side >= 1
    &&& 2 * side * d + d >= 2 * n
    &&& side == 1 || 2 * side * d <= 2 * n + d
}

/// `scaled` has the extent of `source` fitted inside the box with its
/// aspect ratio kept: the side that the box binds is the box's, the other
/// is proportional, rounded to the nearest pixel and never zero. A box
/// without width or height is answered with a single pixel.
pub open spec fn fits_box(
    source: ImageView,
    box_width: nat,
    box_height: nat,
    scaled: ImageView,
) -> bool {
    if box_width == 0 || box_height == 0 {
        scaled.width == 1 && scaled.height == 1
    } else if box_width * source.height <= box_height * source.width {
        &&& scaled.width == box_width
        &&& rounded_side(source.height * box_width, source.width, scaled.height)
    } else {
        &&& scaled.height == box_height
        &&& rounded_side(source.width * box_height, source.height, scaled.width)
    }
}

/// A fitted image lies inside a box that has pixels, and touches it along
/// one side.
pub proof fn lemma_fitted_inside(
    source: ImageView,
    box_width: nat,
    box_height: nat,
    scaled: ImageView,
)
    requires
        !source.is_degenerate(),
        box_width >= 1,
        box_height >= 1,
        fits_box(source, box_width, box_height, scaled),
    ensures
        1 <= scaled.width <= box_width,
        1 <= scaled.height <= box_height,
        scaled.width == box_width || scaled.height == box_height,
{
    let w = source.width as int;
    let h = source.height as int;
    let bw = box_width as int;
    let bh = box_height as int;
    if bw * h <= bh * w {
        let side = scaled.height as int;
        if side != 1 {
            assert(side <= bh) by (nonlinear_arith)
                requires
                    2 * side * w <= 2 * (h * bw) + w,
                    bw * h <= bh * w,
                    w >= 1,
            ;
        }
    } else {
        let side = scaled.width as int;
        if side != 1 {
            assert(side <= bw) by (nonlinear_arith)
                requires
                    2 * side * h <= 2 * (w * bh) + h,
                    bh * w < bw * h,
                    h >= 1,
            ;
        }
    }
}

/// Calls `image::DynamicImage::thumbnail` on the source as an RGBA8 image.
///
/// Trusted, not proved:
/// - the result is the one image that the call yields for this source and
///   box, and it holds four bytes for each of its pixels;
/// - its extent is the source's fitted inside the box. The crate takes the
///   smaller of the two ratios of box to source, multiplies both source
///   extents by it, rounds each product to the nearest integer and raises
///   it to at least one. It computes in double precision; on the extents
///   admitted here, none above `2^24`, the error of that is below `2^-27`
///   while a product that is not a half-integer stays `2^-25` away from
///   one, so each side is rounded as the exact quotient would be.
///
/// The preconditions keep the crate clear of its own limits: an empty
/// source has no ratio, the sums over a block of source pixels are 32 bits
/// wide, and the result is allocated in one buffer.
#[verifier::external_body]
pub(crate) fn thumbnail(source: &Image, box_width: u32, box_height: u32) -> (scaled: Image)
    requires
        scalable(source@),
        box_within(source@, box_width, box_height),
    ensures
        scaled@ == thumbnail_of(source@, box_width, box_height),
        scaled@.wf(),
        fits_box(source@, box_width as nat, box_height as nat, scaled@),
{
    let buffer = image::RgbaImage::from_raw(source.width, source.height, source.data.clone())
        .expect("an image holds four bytes for each pixel");
    let small =
        image::DynamicImage::ImageRgba8(buffer).thumbnail(box_width, box_height).into_rgba8();
    Image { width: small.width(), height: small.height(), data: small.into_raw() }
}

/// Fits the source inside a box, keeping its aspect ratio. `None` when the
/// source is empty or has more than `MAX_SCALABLE_PIXELS` pixels, or when
/// the box asks for more pixels than the source has.
pub fn fit_inside(source: &Image, box_width: u32, box_height: u32) -> (fitted: Option<Image>)
    ensures
        fitted is Some <==> scalable(source@) && box_within(source@, box_width, box_height),
        fitted matches Some(scaled) ==> {
            &&& scaled@ == thumbnail_of(source@, box_width, box_height)
            &&& scaled@.wf()
            &&& fits_box(source@, box_width as nat, box_height as nat, scaled@)
        },
{
    let width = source.width();
    let height = source.height();
    if width == 0 || height == 0 {
        return None;
    }
    assert(width * height <= 0xffff_ffff * 0xffff_ffff) by (nonlinear_arith)
        requires
            0 <= width <= 0xffff_ffff,
            0 <= height <= 0xffff_ffff,
    ;
    assert(box_width * box_height <= 0xffff_ffff * 0xffff_ffff) by (nonlinear_arith)
        requires
            0 <= box_width <= 0xffff_ffff,
            0 <= box_height <= 0xffff_ffff,
    ;
    let area: u64 = (width as u64) * (height as u64);
    if area > MAX_SCALABLE_PIXELS {
        return None;
    }
    if box_width != 0 && box_height != 0 && (box_width as u64) * (box_height as u64) > area {
        return None;
    }
    Some(thumbnail(source, box_width, box_height))
}

} // verus!
