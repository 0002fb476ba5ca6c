//! A single RGBA colour sample.

use vstd::prelude::*;

verus! {

/// Four 8-bit channels. An alpha of zero means fully transparent; any other
/// alpha is treated as fully opaque.
#[derive(Clone, Copy, Debug, PartialEq, Eq, Structural)]
pub struct Pixel {
    pub red: u8,
    pub green: u8,
    pub blue: u8,
    pub alpha: u8,
}

impl Pixel {
    /// Transparent black, the colour written wherever the mask is clear.
    pub open spec fn clear() -> Pixel {
        Pixel { red: 0, green: 0, blue: 0, alpha: 0 }
    }

    /// Whether this sample counts as part of the silhouette.
    pub open spec fn is_opaque(self) -> bool {
        self.alpha != 0
    }

    /// Builds a pixel from its four channels.
    pub fn new(red: u8, green: u8, blue: u8, alpha: u8) -> (p: Pixel)
        ensures
            p == (Pixel { red, green, blue, alpha }),
    {
        Pixel { red, green, blue, alpha }
    }

    /// Transparent black.
    pub fn transparent() -> (p: Pixel)
        ensures
            p == Pixel::clear(),
    {
        Pixel { red: 0, green: 0, blue: 0, alpha: 0 }
    }
}

} // verus!
