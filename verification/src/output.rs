//! Rendered pixels.

use vstd::prelude::*;
use crate::scalar::Scalar;
use crate::vec::Vector3;

verus! {

/// The result for one pixel: the sum of the colours of its samples, and the
/// pixel's place in the raster.
#[derive(Clone, Copy, Debug, PartialEq, Eq, Structural)]
pub struct Pixel {
    pub color: Vector3,
    pub x: u32,
    pub y: u32,
}

impl Pixel {
    /// The pixel's place in a raster `width` pixels wide that is read row
    /// after row.
    pub open spec fn raster_index(self, width: u32) -> int {
        self.y * width + self.x
    }

    pub fn new(color: Vector3, x: u32, y: u32) -> (p: Pixel)
        ensures
            p == (Pixel { color, x, y }),
    {
        Pixel { color, x, y }
    }

    /// The pixel's place in a raster `width` pixels wide that is read row
    /// after row.
    pub fn index(&self, width: u32) -> (k: u32)
        requires
            self.raster_index(width) <= u32::MAX,
        ensures
            k == self.raster_index(width),
    {
        assert(self.y * width <= self.y * width + self.x);
        self.y * width + self.x
    }
}

/// Appends one pixel to an image buffer: its red, green and blue channel,
/// one byte each and in that order. Each channel is given on the scale of
/// a byte and is cut down to its whole part; a channel beyond the range of
/// a byte stops at the end of the range.
pub fn push_rgb(r: Scalar, g: Scalar, b: Scalar, data: &mut Vec<u8>)
    ensures
        final(data)@ == old(data)@ + seq![r.byte() as u8, g.byte() as u8, b.byte() as u8],
{
    data.push(r.to_byte());
    data.push(g.to_byte());
    data.push(b.to_byte());
}

/// Appends one pixel to an image buffer, its three channels given as the
/// components of a colour on the scale of a byte.
pub fn push_vector(color: Vector3, data: &mut Vec<u8>)
    ensures
        final(data)@ == old(data)@ + seq![
            color.x.byte() as u8,
            color.y.byte() as u8,
            color.z.byte() as u8,
        ],
{
    push_rgb(color.x, color.y, color.z, data)
}

} // verus!
