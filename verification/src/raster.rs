//! Rectangular grids of RGBA pixels, stored row by row.

use vstd::prelude::*;
use crate::pixel::Pixel;

verus! {

/// The mathematical content of an image: its extent and its channel bytes in
/// row-major order, four per pixel (red, green, blue, alpha).
pub struct ImageView {
    pub width: nat,
    pub height: nat,
    pub bytes: Seq<u8>,
}

impl ImageView {
    /// The byte sequence holds exactly four channels for each pixel.
    pub open spec fn wf(self) -> bool {
        self.bytes.len() == 4 * self.width * self.height
    }

    /// Whether `(x, y)` names a pixel of this image.
    pub open spec fn contains(self, x: int, y: int) -> bool {
        0 <= x < self.width && 0 <= y < self.height
    }

    /// Position of the red channel of pixel `(x, y)` in `bytes`.
    pub open spec fn offset_of(self, x: int, y: int) -> int {
        4 * (y * self.width + x)
    }

    /// The pixel at column `x` of row `y`.
    pub open spec fn pixel(self, x: int, y: int) -> Pixel {
        let at = self.offset_of(x, y);
        Pixel {
            red: self.bytes[at],
            green: self.bytes[at + 1],
            blue: self.bytes[at + 2],
            alpha: self.bytes[at + 3],
        }
    }

    /// Either extent is zero, so the image has no aspect ratio.
    pub open spec fn is_degenerate(self) -> bool {
        self.width == 0 || self.height == 0
    }
}

/// Every pixel of a well-formed image lies wholly inside its byte sequence.
pub proof fn lemma_pixel_in_bytes(v: ImageView, x: int, y: int)
    requires
        v.wf(),
        v.contains(x, y),
    ensures
        0 <= v.offset_of(x, y),
        v.offset_of(x, y) + 4 <= v.bytes.len(),
        0 <= y * v.width + x < v.width * v.height,
{
    let w = v.width as int;
    let h = v.height as int;
    assert(0 <= y * w) by (nonlinear_arith)
        requires
            0 <= y,
            0 <= w,
    ;
    assert(y * w + w <= h * w) by (nonlinear_arith)
        requires
            y + 1 <= h,
            0 <= w,
    ;
    assert(h * w == w * h) by (nonlinear_arith);
    assert(4 * v.width * v.height == 4 * (w * h)) by (nonlinear_arith)
        requires
            w == v.width,
            h == v.height,
    ;
}

/// Two well-formed images of the same extent that agree on every pixel hold
/// the same bytes.
pub proof fn lemma_same_pixels_same_image(a: ImageView, b: ImageView)
    requires
        a.wf(),
        b.wf(),
        a.width == b.width,
        a.height == b.height,
        forall|x: int, y: int| a.contains(x, y) ==> a.pixel(x, y) == b.pixel(x, y),
    ensures
        a == b,
{
    let w = a.width as int;
    let h = a.height as int;
    assert(a.bytes.len() == b.bytes.len());
    assert forall|i: int| 0 <= i < a.bytes.len() implies a.bytes[i] == b.bytes[i] by {
        let j = i / 4;
        let c = i % 4;
        assert(4 * a.width * a.height == 4 * (w * h)) by (nonlinear_arith)
            requires
                w == a.width,
                h == a.height,
        ;
        assert(0 <= j < w * h);
        assert(w > 0) by (nonlinear_arith)
            requires
                0 <= j < w * h,
                0 <= w,
        ;
        let x = j % w;
        let y = j / w;
        assert(j == y * w + x && 0 <= x < w && 0 <= y) by (nonlinear_arith)
            requires
                x == j % w,
                y == j / w,
                w > 0,
                0 <= j,
        ;
        assert(y < h) by (nonlinear_arith)
            requires
                j == y * w + x,
                0 <= x,
                j < w * h,
                w > 0,
        ;
        assert(a.contains(x, y));
        assert(a.pixel(x, y) == b.pixel(x, y));
        assert(a.offset_of(x, y) == 4 * j);
        assert(b.offset_of(x, y) == 4 * j);
        assert(i == 4 * j + c);
    }
    assert(a.bytes =~= b.bytes);
}

/// Number of bytes that an image of the given extent occupies.
pub fn byte_count(width: u32, height: u32) -> (n: u128)
    ensures
        n == 4 * width * height,
{
    assert(width * height <= 0xffff_ffff * 0xffff_ffff) by (nonlinear_arith)
        requires
            0 <= width <= 0xffff_ffff,
            0 <= height <= 0xffff_ffff,
    ;
    assert(4 * width * height == 4 * (width * height)) by (nonlinear_arith);
    let pixels: u128 = (width as u128) * (height as u128);
    4 * pixels
}

/// An owned RGBA image. Its buffer always holds four bytes for each pixel.
#[derive(Debug, PartialEq, Eq)]
pub struct Image {
    pub(crate) width: u32,
    pub(crate) height: u32,
    pub(crate) data: Vec<u8>,
}

impl View for Image {
    type V = ImageView;

    closed spec fn view(&self) -> ImageView {
        ImageView { width: self.width as nat, height: self.height as nat, bytes: self.data@ }
    }
}

impl Clone for Image {
    /// A copy with the same extent and the same bytes.
    fn clone(&self) -> (copy: Image)
        ensures
            copy@ == self@,
    {
        proof {
            use_type_invariant(self);
        }
        let data = self.data.clone();
        assert(data@ =~= self.data@);
        Image { width: self.width, height: self.height, data }
    }
}

impl Image {
    #[verifier::type_invariant]
    spec fn inv(self) -> bool {
        self.data@.len() == 4 * self.width * self.height
    }

    /// Wraps a row-major RGBA byte buffer. The buffer is accepted exactly
    /// when it holds four bytes for each of the `width * height` pixels.
    pub fn from_raw(width: u32, height: u32, data: Vec<u8>) -> (made: Option<Image>)
        ensures
            made is Some <==> data@.len() == 4 * width * height,
            made is Some ==> made->0@ == (ImageView {
                width: width as nat,
                height: height as nat,
                bytes: data@,
            }),
            made is Some ==> made->0@.wf(),
    {
        let needed: u128 = byte_count(width, height);
        if data.len() as u128 == needed {
            Some(Image { width, height, data })
        } else {
            None
        }
    }

    /// Wraps a buffer already known to hold four bytes for each pixel.
    pub(crate) fn assemble(width: u32, height: u32, data: Vec<u8>) -> (made: Image)
        requires
            data@.len() == 4 * width * height,
        ensures
            made@ == (ImageView { width: width as nat, height: height as nat, bytes: data@ }),
            made@.wf(),
    {
        Image { width, height, data }
    }

    /// An image of one colour. `None` when the buffer for it could not be
    /// addressed on this machine.
    pub fn filled(width: u32, height: u32, colour: Pixel) -> (made: Option<Image>)
        ensures
            made is Some <==> 4 * width * height <= usize::MAX,
            made is Some ==> {
                &&& made->0@.wf()
                &&& made->0@.width == width
                &&& made->0@.height == height
                &&& forall|x: int, y: int| #[trigger]
                    made->0@.contains(x, y) ==> made->0@.pixel(x, y) == colour
            },
    {
        let needed: u128 = byte_count(width, height);
        if needed > usize::MAX as u128 {
            return None;
        }
        let count: usize = (needed / 4) as usize;
        assert(4 * width * height == 4 * (width * height)) by (nonlinear_arith);
        let mut data: Vec<u8> = Vec::new();
        let mut done: usize = 0;
        while done < count
            invariant
                done <= count,
                4 * count == needed,
                needed <= usize::MAX,
                data@.len() == 4 * done,
                forall|j: int|
                    0 <= j < done ==> {
                        &&& #[trigger] data@[4 * j] == colour.red
                        &&& data@[4 * j + 1] == colour.green
                        &&& data@[4 * j + 2] == colour.blue
                        &&& data@[4 * j + 3] == colour.alpha
                    },
            decreases count - done,
        {
            data.push(colour.red);
            data.push(colour.green);
            data.push(colour.blue);
            data.push(colour.alpha);
            proof {
                assert forall|j: int| 0 <= j < done + 1 implies {
                    &&& #[trigger] data@[4 * j] == colour.red
                    &&& data@[4 * j + 1] == colour.green
                    &&& data@[4 * j + 2] == colour.blue
                    &&& data@[4 * j + 3] == colour.alpha
                } by {
                    if j < done {
                        assert(data@[4 * j] == colour.red);
                    }
                }
            }
            done = done + 1;
        }
        let made = Image { width, height, data };
        proof {
            assert forall|x: int, y: int| #[trigger] made@.contains(x, y) implies made@.pixel(x, y)
                == colour by {
                lemma_pixel_in_bytes(made@, x, y);
                let j = y * made@.width + x;
                assert(made@.offset_of(x, y) == 4 * j);
                assert(0 <= j < done);
                assert(data@[4 * j] == colour.red);
            }
        }
        Some(made)
    }

    /// Both extents of an image fit in 32 bits.
    pub proof fn lemma_extent_fits(&self)
        ensures
            self@.width <= u32::MAX,
            self@.height <= u32::MAX,
    {
    }

    /// Number of columns.
    pub fn width(&self) -> (w: u32)
        ensures
            w == self@.width,
            self@.wf(),
    {
        proof {
            use_type_invariant(self);
        }
        self.width
    }

    /// Number of rows.
    pub fn height(&self) -> (h: u32)
        ensures
            h == self@.height,
            self@.wf(),
    {
        proof {
            use_type_invariant(self);
        }
        self.height
    }

    /// The pixel at column `x` of row `y`.
    pub fn pixel_at(&self, x: u32, y: u32) -> (p: Pixel)
        requires
            self@.contains(x as int, y as int),
        ensures
            p == self@.pixel(x as int, y as int),
    {
        proof {
            use_type_invariant(self);
            lemma_pixel_in_bytes(self@, x as int, y as int);
        }
        let total: usize = self.data.len();
        proof {
            let w = self.width as int;
            let h = self.height as int;
            assert(self@.width == w && self@.height == h);
            assert(y * w + x < w * h);
            assert(0 <= y * w) by (nonlinear_arith)
                requires
                    0 <= y,
                    0 <= w,
            ;
            assert(4 * self.width * self.height == 4 * (w * h)) by (nonlinear_arith)
                requires
                    w == self.width,
                    h == self.height,
            ;
            assert(total == 4 * (w * h));
        }
        let at: usize = 4 * ((y as usize) * (self.width as usize) + (x as usize));
        Pixel {
            red: self.data[at],
            green: self.data[at + 1],
            blue: self.data[at + 2],
            alpha: self.data[at + 3],
        }
    }

    /// The row-major RGBA bytes of the image.
    pub fn as_raw(&self) -> (data: &Vec<u8>)
        ensures
            data@ == self@.bytes,
            self@.wf(),
    {
        proof {
            use_type_invariant(self);
        }
        &self.data
    }

    /// Gives up the image and returns its row-major RGBA bytes.
    pub fn into_raw(self) -> (data: Vec<u8>)
        ensures
            data@ == self@.bytes,
            self@.wf(),
    {
        proof {
            use_type_invariant(&self);
        }
        self.data
    }
}

} // verus!
