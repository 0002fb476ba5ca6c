//! Fills the host's silhouette with pixels of the scaled parasite.

use vstd::prelude::*;
use crate::failure::Failure;
use crate::pixel::Pixel;
use crate::raster::{lemma_same_pixels_same_image, Image, ImageView};

verus! {

/// Half the surplus of the scaled parasite over the host along the
/// dimension that the branch centres, rounded towards negative infinity.
pub open spec fn branch_offset(host: ImageView, scaled: ImageView, wide: bool) -> int {
    if wide {
        (scaled.height - host.height) / 2
    } else {
        (scaled.width - host.width) / 2
    }
}

/// Column of the parasite sampled for host column `x`.
pub open spec fn sample_x(wide: bool, offset: int, x: int) -> int {
    if wide {
        x
    } else {
        x + offset
    }
}

/// Row of the parasite sampled for host row `y`.
pub open spec fn sample_y(wide: bool, offset: int, y: int) -> int {
    if wide {
        y + offset
    } else {
        y
    }
}

/// The output pixel at `(x, y)`: transparent black where the host is
/// transparent, otherwise the parasite's pixel at the sample coordinate, or
/// nothing when that coordinate lies outside the parasite.
pub open spec fn drawn(
    host: ImageView,
    scaled: ImageView,
    wide: bool,
    offset: int,
    x: int,
    y: int,
) -> Option<Pixel> {
    if !host.pixel(x, y).is_opaque() {
        Some(Pixel::clear())
    } else if scaled.contains(sample_x(wide, offset, x), sample_y(wide, offset, y)) {
        Some(scaled.pixel(sample_x(wide, offset, x), sample_y(wide, offset, y)))
    } else {
        None
    }
}

/// `out` is the composite: it has the host's extent and every one of its
/// pixels is the drawn one.
pub open spec fn renders(host: ImageView, scaled: ImageView, wide: bool, out: ImageView) -> bool {
    &&& out.wf()
    &&& out.width == host.width
    &&& out.height == host.height
    &&& forall|x: int, y: int| #[trigger]
        host.contains(x, y) ==> drawn(host, scaled, wide, branch_offset(host, scaled, wide), x, y)
            == Some(out.pixel(x, y))
}

/// Whether `(x2, y2)` comes before `(x, y)` when pixels are visited row by
/// row, each row from left to right.
pub open spec fn precedes(x2: int, y2: int, x: int, y: int) -> bool {
    y2 < y || (y2 == y && x2 < x)
}

/// `(x, y)` is the first host pixel, in row-major order, that cannot be
/// drawn.
pub open spec fn first_blocked(
    host: ImageView,
    scaled: ImageView,
    wide: bool,
    x: int,
    y: int,
) -> bool {
    &&& host.contains(x, y)
    &&& drawn(host, scaled, wide, branch_offset(host, scaled, wide), x, y) is None
    &&& forall|x2: int, y2: int| #[trigger]
        host.contains(x2, y2) && precedes(x2, y2, x, y) ==> drawn(
            host,
            scaled,
            wide,
            branch_offset(host, scaled, wide),
            x2,
            y2,
        ) is Some
}

/// Every host pixel can be drawn.
pub open spec fn drawable(host: ImageView, scaled: ImageView, wide: bool) -> bool {
    forall|x: int, y: int| #[trigger]
        host.contains(x, y) ==> drawn(host, scaled, wide, branch_offset(host, scaled, wide), x, y)
            is Some
}

/// What compositing must return for these inputs.
pub open spec fn composite_outcome(
    host: ImageView,
    scaled: ImageView,
    wide: bool,
    outcome: Result<ImageView, Failure>,
) -> bool {
    match outcome {
        Ok(out) => renders(host, scaled, wide, out),
        Err(Failure::OutOfBoundsSample { x, y }) => first_blocked(
            host,
            scaled,
            wide,
            x as int,
            y as int,
        ),
        Err(_) => false,
    }
}

/// The view of a result that carries an image.
pub open spec fn outcome_view(outcome: Result<Image, Failure>) -> Result<ImageView, Failure> {
    match outcome {
        Ok(out) => Ok(out@),
        Err(e) => Err(e),
    }
}

/// Half the surplus of `scaled_extent` over `host_extent`, rounded towards
/// negative infinity.
pub fn half_surplus(scaled_extent: u32, host_extent: u32) -> (half: i64)
    ensures
        half == (scaled_extent - host_extent) / 2,
{
    if scaled_extent >= host_extent {
        ((scaled_extent - host_extent) / 2) as i64
    } else {
        let deficit: u32 = host_extent - scaled_extent;
        let up: i64 = ((deficit as i64) + 1) / 2;
        -up
    }
}

/// The centring offset for the chosen branch.
pub fn centring_offset(host: &Image, scaled: &Image, wide: bool) -> (offset: i64)
    ensures
        offset == branch_offset(host@, scaled@, wide),
{
    if wide {
        half_surplus(scaled.height(), host.height())
    } else {
        half_surplus(scaled.width(), host.width())
    }
}

/// Reads the parasite at `(x, y)`, or gives `None` when the coordinate lies
/// outside it.
pub fn sample(scaled: &Image, x: i64, y: i64) -> (p: Option<Pixel>)
    ensures
        scaled@.contains(x as int, y as int) ==> p == Some(scaled@.pixel(x as int, y as int)),
        !scaled@.contains(x as int, y as int) ==> p is None,
{
    if 0 <= x && x < scaled.width() as i64 && 0 <= y && y < scaled.height() as i64 {
        Some(scaled.pixel_at(x as u32, y as u32))
    } else {
        None
    }
}

/// Computes one output pixel from the host, the scaled parasite, the branch
/// and the centring offset.
pub fn draw(
    host: &Image,
    scaled: &Image,
    wide: bool,
    offset: i64,
    x: u32,
    y: u32,
) -> (p: Option<Pixel>)
    requires
        host@.contains(x as int, y as int),
    ensures
        p == drawn(host@, scaled@, wide, offset as int, x as int, y as int),
{
    let mask = host.pixel_at(x, y);
    if mask.alpha == 0 {
        return Some(Pixel::transparent());
    }
    proof {
        scaled.lemma_extent_fits();
    }
    if wide {
        match (y as i64).checked_add(offset) {
            Some(row) => sample(scaled, x as i64, row),
            None => None,
        }
    } else {
        match (x as i64).checked_add(offset) {
            Some(column) => sample(scaled, column, y as i64),
            None => None,
        }
    }
}

/// In row-major order an earlier pixel has the smaller index.
pub proof fn lemma_row_major(width: int, x2: int, y2: int, x: int, y: int)
    requires
        0 <= x2 < width,
        0 <= x <= width,
        0 <= y2,
        precedes(x2, y2, x, y),
    ensures
        0 <= y2 * width + x2 < y * width + x,
{
    assert(0 <= y2 * width) by (nonlinear_arith)
        requires
            0 <= y2,
            0 <= width,
    ;
    if y2 < y {
        assert(y2 * width + width <= y * width) by (nonlinear_arith)
            requires
                y2 + 1 <= y,
                0 <= width,
        ;
    }
}

/// Composites the scaled parasite into the host's silhouette. The result
/// has the host's extent; a host pixel with zero alpha becomes transparent
/// black and any other takes the parasite's pixel at the centred sample
/// coordinate. The run fails at the first opaque host pixel, in row-major
/// order, whose sample coordinate lies outside the parasite.
pub fn composite(host: &Image, scaled: &Image, wide: bool) -> (outcome: Result<Image, Failure>)
    ensures
        composite_outcome(host@, scaled@, wide, outcome_view(outcome)),
        outcome is Ok <==> drawable(host@, scaled@, wide),
        outcome matches Ok(out) ==> out@.width == host@.width && out@.height == host@.height,
        outcome matches Ok(out) ==> forall|x: int, y: int|
            host@.contains(x, y) && host@.pixel(x, y).alpha == 0 ==> #[trigger] out@.pixel(x, y)
                == Pixel::clear(),
        outcome matches Ok(out) ==> forall|x: int, y: int|
            host@.contains(x, y) && host@.pixel(x, y).alpha != 0 ==> #[trigger] out@.pixel(x, y)
                == scaled@.pixel(
                sample_x(wide, branch_offset(host@, scaled@, wide), x),
                sample_y(wide, branch_offset(host@, scaled@, wide), y),
            ),
{
    let width = host.width();
    let height = host.height();
    let offset = centring_offset(host, scaled, wide);
    let ghost shift = branch_offset(host@, scaled@, wide);
    let mut data: Vec<u8> = Vec::new();
    let mut y: u32 = 0;
    while y < height
        invariant
            host@.wf(),
            width == host@.width,
            height == host@.height,
            offset == shift,
            shift == branch_offset(host@, scaled@, wide),
            y <= height,
            data@.len() == 4 * (y * width),
            forall|x2: int, y2: int| #[trigger]
                host@.contains(x2, y2) && y2 < y ==> drawn(host@, scaled@, wide, shift, x2, y2)
                    == Some(
                    (ImageView {
                        width: width as nat,
                        height: height as nat,
                        bytes: data@,
                    }).pixel(x2, y2),
                ),
        decreases height - y,
    {
        let mut x: u32 = 0;
        while x < width
            invariant
                host@.wf(),
                width == host@.width,
                height == host@.height,
                offset == shift,
                shift == branch_offset(host@, scaled@, wide),
                y < height,
                x <= width,
                data@.len() == 4 * (y * width + x),
                forall|x2: int, y2: int| #[trigger]
                    host@.contains(x2, y2) && precedes(x2, y2, x as int, y as int) ==> drawn(
                        host@,
                        scaled@,
                        wide,
                        shift,
                        x2,
                        y2,
                    ) == Some(
                        (ImageView {
                            width: width as nat,
                            height: height as nat,
                            bytes: data@,
                        }).pixel(x2, y2),
                    ),
            decreases width - x,
        {
            let ghost before = data@;
            match draw(host, scaled, wide, offset, x, y) {
                None => {
                    return Err(Failure::OutOfBoundsSample { x, y });
                },
                Some(p) => {
                    data.push(p.red);
                    data.push(p.green);
                    data.push(p.blue);
                    data.push(p.alpha);
                    proof {
                        let partial = ImageView {
                            width: width as nat,
                            height: height as nat,
                            bytes: data@,
                        };
                        let earlier = ImageView {
                            width: width as nat,
                            height: height as nat,
                            bytes: before,
                        };
                        assert forall|x2: int, y2: int| #[trigger]
                            host@.contains(x2, y2) && precedes(
                                x2,
                                y2,
                                x as int + 1,
                                y as int,
                            ) implies drawn(host@, scaled@, wide, shift, x2, y2) == Some(
                            partial.pixel(x2, y2),
                        ) by {
                            if precedes(x2, y2, x as int, y as int) {
                                lemma_row_major(width as int, x2, y2, x as int, y as int);
                                assert(partial.pixel(x2, y2) == earlier.pixel(x2, y2));
                            } else {
                                assert(x2 == x && y2 == y);
                                assert(partial.pixel(x2, y2) == p);
                            }
                        }
                    }
                },
            }
            x = x + 1;
        }
        proof {
            assert((y + 1) * width == y * width + width) by (nonlinear_arith);
            assert forall|x2: int, y2: int| #[trigger]
                host@.contains(x2, y2) && y2 < y + 1 implies precedes(
                x2,
                y2,
                width as int,
                y as int,
            ) by {}
        }
        y = y + 1;
    }
    proof {
        assert(4 * width * height == 4 * (height * width)) by (nonlinear_arith);
    }
    let out = Image::assemble(width, height, data);
    proof {
        assert forall|x2: int, y2: int| #[trigger] host@.contains(x2, y2) implies drawn(
            host@,
            scaled@,
            wide,
            shift,
            x2,
            y2,
        ) is Some by {
            assert(host@.contains(x2, y2) && y2 < height);
        }
    }
    proof {
        lemma_masked_and_sampled(host@, scaled@, wide, out@);
    }
    Ok(out)
}

/// In a composite, every pixel under a transparent host pixel is
/// transparent black, and every pixel under an opaque host pixel is the
/// parasite's pixel at the sample coordinate, which lies inside the
/// parasite.
pub proof fn lemma_masked_and_sampled(
    host: ImageView,
    scaled: ImageView,
    wide: bool,
    out: ImageView,
)
    requires
        renders(host, scaled, wide, out),
    ensures
        forall|x: int, y: int|
            host.contains(x, y) && host.pixel(x, y).alpha == 0 ==> #[trigger] out.pixel(x, y)
                == Pixel::clear(),
        forall|x: int, y: int|
            host.contains(x, y) && host.pixel(x, y).alpha != 0 ==> {
                &&& scaled.contains(
                    sample_x(wide, branch_offset(host, scaled, wide), x),
                    sample_y(wide, branch_offset(host, scaled, wide), y),
                )
                &&& #[trigger] out.pixel(x, y) == scaled.pixel(
                    sample_x(wide, branch_offset(host, scaled, wide), x),
                    sample_y(wide, branch_offset(host, scaled, wide), y),
                )
            },
{
    let offset = branch_offset(host, scaled, wide);
    assert forall|x: int, y: int| host.contains(x, y) implies drawn(
        host,
        scaled,
        wide,
        offset,
        x,
        y,
    ) == Some(#[trigger] out.pixel(x, y)) by {
        assert(host.contains(x, y));
    }
}

/// A host without an opaque pixel can always be composited, whatever the
/// parasite.
pub proof fn lemma_transparent_host_drawable(host: ImageView, scaled: ImageView, wide: bool)
    requires
        forall|x: int, y: int| host.contains(x, y) ==> host.pixel(x, y).alpha == 0,
    ensures
        drawable(host, scaled, wide),
{
}

/// A scaled parasite that is at least as wide and as high as the host
/// covers it: every host pixel can be drawn.
pub proof fn lemma_covering_parasite_drawable(host: ImageView, scaled: ImageView, wide: bool)
    requires
        scaled.width >= host.width,
        scaled.height >= host.height,
    ensures
        drawable(host, scaled, wide),
{
    let offset = branch_offset(host, scaled, wide);
    assert forall|x: int, y: int| #[trigger] host.contains(x, y) implies drawn(
        host,
        scaled,
        wide,
        offset,
        x,
        y,
    ) is Some by {
        assert(scaled.contains(sample_x(wide, offset, x), sample_y(wide, offset, y)));
    }
}

/// Compositing has one outcome: two results that both meet its contract on
/// the same inputs are the same image, byte for byte, or the same failure.
pub proof fn lemma_composite_deterministic(
    host: ImageView,
    scaled: ImageView,
    wide: bool,
    first: Result<ImageView, Failure>,
    second: Result<ImageView, Failure>,
)
    requires
        composite_outcome(host, scaled, wide, first),
        composite_outcome(host, scaled, wide, second),
    ensures
        first == second,
{
    let offset = branch_offset(host, scaled, wide);
    match (first, second) {
        (Ok(a), Ok(b)) => {
            assert forall|x: int, y: int| a.contains(x, y) implies a.pixel(x, y) == b.pixel(
                x,
                y,
            ) by {
                assert(host.contains(x, y));
            }
            lemma_same_pixels_same_image(a, b);
        },
        (Ok(a), Err(Failure::OutOfBoundsSample { x, y })) => {
            assert(host.contains(x as int, y as int));
        },
        (Err(Failure::OutOfBoundsSample { x, y }), Ok(b)) => {
            assert(host.contains(x as int, y as int));
        },
        (
            Err(Failure::OutOfBoundsSample { x: x1, y: y1 }),
            Err(Failure::OutOfBoundsSample { x: x2, y: y2 }),
        ) => {
            if precedes(x1 as int, y1 as int, x2 as int, y2 as int) {
                assert(host.contains(x1 as int, y1 as int));
            } else if precedes(x2 as int, y2 as int, x1 as int, y1 as int) {
                assert(host.contains(x2 as int, y2 as int));
            }
        },
        _ => {},
    }
}

} // verus!
