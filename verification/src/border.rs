//! Style primitives: colors, pixel lengths, corner radii and borders.
//!
//! Pure value types with builder-style transformations: each `with_`
//! method returns a new value. A radius is four independent corner values
//! in the order top-left, top-right, bottom-right, bottom-left; the
//! uniform conversion broadcasts one value to all four corners. All
//! conversions are total.

use vstd::prelude::*;

verus! {

/// An sRGB color with alpha.
#[derive(Clone, Copy, PartialEq, Eq, Structural, Debug)]
pub struct Color {
    pub r: u8,
    pub g: u8,
    pub b: u8,
    pub a: u8,
}

impl Color {
    /// Opaque black, the default border color.
    pub fn black() -> (c: Color)
        ensures
            c == (Color { r: 0u8, g: 0u8, b: 0u8, a: 255u8 }),
    {
        Color { r: 0, g: 0, b: 0, a: 255 }
    }
}

/// A length in whole pixels.
#[derive(Clone, Copy, PartialEq, Eq, Structural, Debug)]
pub struct Pixels(pub u32);

/// The border radii for the corners of a graphics primitive in the order:
/// top-left, top-right, bottom-right, bottom-left.
#[derive(Clone, Copy, PartialEq, Eq, Structural, Debug)]
pub struct Radius {
    pub top_left: u32,
    pub top_right: u32,
    pub bottom_right: u32,
    pub bottom_left: u32,
}

impl Radius {
    /// Broadcasts one value to all four corners.
    pub fn uniform(v: u32) -> (r: Radius)
        ensures
            r == (Radius { top_left: v, top_right: v, bottom_right: v, bottom_left: v }),
    {
        Radius { top_left: v, top_right: v, bottom_right: v, bottom_left: v }
    }

    /// A sharp corner radius of zero.
    pub fn zero() -> (r: Radius)
        ensures
            r == (Radius { top_left: 0u32, top_right: 0u32, bottom_right: 0u32, bottom_left: 0u32 }),
    {
        Radius::uniform(0)
    }
}

/// A border drawn around a container.
#[derive(Clone, Copy, PartialEq, Eq, Structural, Debug)]
pub struct Border {
    /// The color of the border.
    pub color: Color,
    /// The width of the border.
    pub width: u32,
    /// The radius of the border.
    pub radius: Radius,
}

impl Border {
    /// The default border: black, no width, sharp corners.
    pub fn new() -> (b: Border)
        ensures
            b == (Border {
                color: Color { r: 0u8, g: 0u8, b: 0u8, a: 255u8 },
                width: 0u32,
                radius: Radius { top_left: 0u32, top_right: 0u32, bottom_right: 0u32, bottom_left: 0u32 },
            }),
    {
        Border { color: Color::black(), width: 0, radius: Radius::zero() }
    }

    /// A default border rounded uniformly by `radius`.
    pub fn rounded(radius: u32) -> (b: Border)
        ensures
            b == Border::new_spec().with_radius_spec(radius),
    {
        Border::new().with_radius(radius)
    }

    /// The default border, as a specification.
    pub open spec fn new_spec() -> Border {
        Border {
            color: Color { r: 0u8, g: 0u8, b: 0u8, a: 255u8 },
            width: 0u32,
            radius: Radius { top_left: 0u32, top_right: 0u32, bottom_right: 0u32, bottom_left: 0u32 },
        }
    }

    /// A uniform rounding of this border, as a specification.
    pub open spec fn with_radius_spec(self, radius: u32) -> Border {
        Border {
            radius: Radius {
                top_left: radius,
                top_right: radius,
                bottom_right: radius,
                bottom_left: radius,
            },
            ..self
        }
    }

    /// Updates the color of the border.
    pub fn with_color(self, color: Color) -> (b: Border)
        ensures
            b == (Border { color, ..self }),
    {
        Border { color, ..self }
    }

    /// Rounds every corner of the border by `radius`.
    pub fn with_radius(self, radius: u32) -> (b: Border)
        ensures
            b == self.with_radius_spec(radius),
    {
        Border { radius: Radius::uniform(radius), ..self }
    }

    /// Updates the width of the border.
    pub fn with_width(self, width: Pixels) -> (b: Border)
        ensures
            b == (Border { width: width.0, ..self }),
    {
        Border { width: width.0, ..self }
    }
}

} // verus!
