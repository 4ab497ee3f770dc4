//! Pixel geometry: points, sizes and rectangles on an integer pixel grid.
//!
//! All arithmetic saturates at the top of the `u32` range, so every
//! operation is total: an out-of-range layout request is clamped rather
//! than propagated as an error.

use vstd::prelude::*;

verus! {

/// The largest pixel coordinate.
pub const MAX_PIXEL: u32 = 0xffff_ffff;

/// Saturating addition on pixel values, as a specification.
pub open spec fn sat_add(a: u32, b: u32) -> u32 {
    if a + b > MAX_PIXEL { MAX_PIXEL } else { (a + b) as u32 }
}

/// Saturating addition on pixel values.
pub fn pixel_add(a: u32, b: u32) -> (r: u32)
    ensures
        r == sat_add(a, b),
{
    match a.checked_add(b) {
        Some(s) => s,
        None => MAX_PIXEL,
    }
}

/// A point on the pixel grid.
#[derive(Clone, Copy, PartialEq, Eq, Structural, Debug)]
pub struct Point {
    pub x: u32,
    pub y: u32,
}

/// An axis-aligned rectangle: origin plus extent.
#[derive(Clone, Copy, PartialEq, Eq, Structural, Debug)]
pub struct Rect {
    pub x: u32,
    pub y: u32,
    pub width: u32,
    pub height: u32,
}

/// Whether `r` contains the point `(px, py)`; the right and bottom edges
/// are exclusive, and extents saturate at the edge of the grid.
pub open spec fn rect_contains(r: Rect, px: u32, py: u32) -> bool {
    &&& r.x <= px < sat_add(r.x, r.width)
    &&& r.y <= py < sat_add(r.y, r.height)
}

impl Rect {
    /// Containment test for hit-testing.
    pub fn contains(&self, px: u32, py: u32) -> (b: bool)
        ensures
            b == rect_contains(*self, px, py),
    {
        let right = pixel_add(self.x, self.width);
        let bottom = pixel_add(self.y, self.height);
        self.x <= px && px < right && self.y <= py && py < bottom
    }
}

} // verus!
