//! Lengths. A length is a whole number of layout units, held in an `i64`;
//! 64 units make a pixel, so that halves, quarters and smaller binary
//! fractions of a pixel are exact. Sums are formed exactly in a wider type
//! and brought back into range only when a result is stored, so that no
//! computation can overflow.

use vstd::prelude::*;

verus! {

/// The number of layout units in a pixel.
pub const UNITS_PER_PX: i64 = 64;

/// The length of `pixels` whole pixels, in layout units.
pub open spec fn px(pixels: int) -> int {
    pixels * 64
}

/// One pixel is as many layout units as `UNITS_PER_PX` says.
pub proof fn lemma_one_pixel()
    ensures
        px(1) == UNITS_PER_PX,
{
}

/// The pixel that a coordinate in layout units lies in: the coordinate in
/// pixels, rounded down.
pub open spec fn pixel_of(v: int) -> int {
    v / 64
}

/// A length of whole pixels, and any length less than a pixel beyond it,
/// lies in the pixel of that number.
pub proof fn lemma_pixel_of_px(pixels: int, beyond: int)
    requires
        0 <= beyond < 64,
    ensures
        pixel_of(px(pixels)) == pixels,
        pixel_of(px(pixels) + beyond) == pixels,
{
}

/// The value of `v` once it is stored as a length: `v` itself when it
/// fits, else the nearest bound of `i64`.
pub open spec fn clamp_px(v: int) -> int {
    if v < i64::MIN as int {
        i64::MIN as int
    } else if v > i64::MAX as int {
        i64::MAX as int
    } else {
        v
    }
}

/// Brings an exact intermediate result back into the range of a length.
pub fn saturate(v: i128) -> (r: i64)
    ensures
        r as int == clamp_px(v as int),
{
    if v < i64::MIN as i128 {
        i64::MIN
    } else if v > i64::MAX as i128 {
        i64::MAX
    } else {
        v as i64
    }
}

/// The length of `pixels` whole pixels, in layout units; the nearest bound
/// of `i64` where that does not fit.
pub fn from_pixels(pixels: i64) -> (r: i64)
    ensures
        r as int == clamp_px(px(pixels as int)),
{
    saturate(pixels as i128 * 64)
}

/// A length is modest when it is so far from the bounds of `i64` that the
/// sums which the layout forms of such lengths all stay in range.
pub open spec fn modest(v: int) -> bool {
    -0x0800_0000_0000_0000 <= v <= 0x0800_0000_0000_0000
}

} // verus!
