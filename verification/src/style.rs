//! Per-node styling: colours, sizing policies and box-model spacing.

use crate::math::{
    clamp, clamp_u64_to_i64, min_int, scale_length, scale_units, Axis, SizeRect,
};
use vstd::prelude::*;

verus! {

/// A colour with eight bits per channel.
#[derive(Debug, Copy, Clone, Eq, PartialEq, Hash, Structural)]
pub struct Color {
    pub r: u8,
    pub g: u8,
    pub b: u8,
    pub a: u8,
}

impl Color {
    pub fn black() -> (c: Color)
        ensures
            c == (Color { r: 0, g: 0, b: 0, a: 255 }),
    {
        Color { r: 0, g: 0, b: 0, a: 255 }
    }

    pub fn dark_gray() -> (c: Color)
        ensures
            c == (Color { r: 105, g: 105, b: 105, a: 255 }),
    {
        Color { r: 105, g: 105, b: 105, a: 255 }
    }

    pub fn gray() -> (c: Color)
        ensures
            c == (Color { r: 128, g: 128, b: 128, a: 255 }),
    {
        Color { r: 128, g: 128, b: 128, a: 255 }
    }

    pub fn light_gray() -> (c: Color)
        ensures
            c == (Color { r: 211, g: 211, b: 211, a: 255 }),
    {
        Color { r: 211, g: 211, b: 211, a: 255 }
    }

    pub fn white() -> (c: Color)
        ensures
            c == (Color { r: 255, g: 255, b: 255, a: 255 }),
    {
        Color { r: 255, g: 255, b: 255, a: 255 }
    }

    pub fn red() -> (c: Color)
        ensures
            c == (Color { r: 255, g: 0, b: 0, a: 255 }),
    {
        Color { r: 255, g: 0, b: 0, a: 255 }
    }

    pub fn green() -> (c: Color)
        ensures
            c == (Color { r: 0, g: 255, b: 0, a: 255 }),
    {
        Color { r: 0, g: 255, b: 0, a: 255 }
    }

    pub fn blue() -> (c: Color)
        ensures
            c == (Color { r: 0, g: 0, b: 255, a: 255 }),
    {
        Color { r: 0, g: 0, b: 255, a: 255 }
    }

    /// The opaque colour with the given channels.
    pub fn from_rgb8(r: u8, g: u8, b: u8) -> (c: Color)
        ensures
            c == (Color { r, g, b, a: 255 }),
    {
        Color::from_rgba8(r, g, b, 255)
    }

    pub fn from_rgba8(r: u8, g: u8, b: u8, a: u8) -> (c: Color)
        ensures
            c == (Color { r, g, b, a }),
    {
        Color { r, g, b, a }
    }

    /// The colour with its red and blue channels exchanged, as a surface
    /// that stores blue first wants it.
    pub fn swapped_red_blue(self) -> (c: Color)
        ensures
            c == (Color { r: self.b, g: self.g, b: self.r, a: self.a }),
    {
        Color { r: self.b, g: self.g, b: self.r, a: self.a }
    }
}

/// How a node's extent along one axis is decided.
#[derive(Debug, Copy, Clone, PartialEq, Eq, Structural)]
pub enum Sizing {
    /// A share of the space that the siblings leave.
    Expand,
    /// The extent of the content.
    Fit,
    /// This many unscaled units.
    Fixed(u64),
}

impl Sizing {
    /// The extent that the policy fixes at scale factor `scale_factor`, if it
    /// fixes one.
    pub open spec fn spec_as_definite(&self, scale_factor: u32) -> Option<i64> {
        match self {
            Sizing::Expand => None,
            Sizing::Fit => None,
            Sizing::Fixed(size) => Some(
                clamp(scale_units(*size as int, scale_factor as int)) as i64,
            ),
        }
    }

    /// The extent that the policy fixes at scale factor `scale_factor`, if it
    /// fixes one.
    #[verifier::when_used_as_spec(spec_as_definite)]
    pub fn as_definite(&self, scale_factor: u32) -> (r: Option<i64>)
        ensures
            r == self.spec_as_definite(scale_factor),
    {
        match self {
            Sizing::Expand => None,
            Sizing::Fit => None,
            Sizing::Fixed(size) => Some(
                clamp_u64_to_i64(scale_length(*size as u128, scale_factor)),
            ),
        }
    }
}

/// Where the slack goes along an axis.
#[derive(Debug, Copy, Clone, Eq, PartialEq, Structural)]
pub enum Justify {
    Min,
    Max,
    Center,
}

/// The order in which a container walks its main axis.
#[derive(Debug, Copy, Clone, Eq, PartialEq, Structural)]
pub enum Direction {
    Positive,
    Negative,
}

/// The box-model attributes of a node, in unscaled units.
#[derive(Debug, Copy, Clone, PartialEq, Eq, Structural)]
pub struct LayoutStyle {
    pub border_size: u64,
    pub padding: SizeRect,
    pub margin: SizeRect,
    pub width: Sizing,
    pub height: Sizing,
}

impl LayoutStyle {
    /// The unscaled space around the content on each side: margin, border
    /// and padding together.
    pub open spec fn spec_spacing_size(&self) -> SizeRect {
        SizeRect {
            left: min_int(
                self.margin.left + self.border_size + self.padding.left,
                0xffff_ffff_ffff_ffff,
            ) as u64,
            right: min_int(
                self.margin.right + self.border_size + self.padding.right,
                0xffff_ffff_ffff_ffff,
            ) as u64,
            top: min_int(
                self.margin.top + self.border_size + self.padding.top,
                0xffff_ffff_ffff_ffff,
            ) as u64,
            bottom: min_int(
                self.margin.bottom + self.border_size + self.padding.bottom,
                0xffff_ffff_ffff_ffff,
            ) as u64,
        }
    }

    /// The unscaled space around the content on each side: margin, border
    /// and padding together.
    #[verifier::when_used_as_spec(spec_spacing_size)]
    pub fn spacing_size(&self) -> (r: SizeRect)
        ensures
            r == self.spec_spacing_size(),
    {
        self.margin.plus(SizeRect::from_border(self.border_size)).plus(self.padding)
    }

    /// The space around the content on each side at scale factor
    /// `scale_factor`: the sum of margin, border and padding, scaled.
    pub open spec fn spec_spacing(&self, scale_factor: u32) -> SizeRect {
        SizeRect {
            left: min_int(
                scale_units(
                    self.margin.left + self.border_size + self.padding.left,
                    scale_factor as int,
                ),
                0xffff_ffff_ffff_ffff,
            ) as u64,
            right: min_int(
                scale_units(
                    self.margin.right + self.border_size + self.padding.right,
                    scale_factor as int,
                ),
                0xffff_ffff_ffff_ffff,
            ) as u64,
            top: min_int(
                scale_units(
                    self.margin.top + self.border_size + self.padding.top,
                    scale_factor as int,
                ),
                0xffff_ffff_ffff_ffff,
            ) as u64,
            bottom: min_int(
                scale_units(
                    self.margin.bottom + self.border_size + self.padding.bottom,
                    scale_factor as int,
                ),
                0xffff_ffff_ffff_ffff,
            ) as u64,
        }
    }

    /// The space around the content on each side at scale factor
    /// `scale_factor`: the sum of margin, border and padding, scaled.
    #[verifier::when_used_as_spec(spec_spacing)]
    pub fn spacing(&self, scale_factor: u32) -> (r: SizeRect)
        ensures
            r == self.spec_spacing(scale_factor),
    {
        let border: u128 = self.border_size as u128;
        SizeRect {
            left: scale_length(
                self.margin.left as u128 + border + self.padding.left as u128,
                scale_factor,
            ),
            right: scale_length(
                self.margin.right as u128 + border + self.padding.right as u128,
                scale_factor,
            ),
            top: scale_length(
                self.margin.top as u128 + border + self.padding.top as u128,
                scale_factor,
            ),
            bottom: scale_length(
                self.margin.bottom as u128 + border + self.padding.bottom as u128,
                scale_factor,
            ),
        }
    }

    /// The sizing policy along `axis`.
    pub open spec fn spec_sizing(&self, axis: Axis) -> Sizing {
        match axis {
            Axis::Horizontal => self.width,
            Axis::Vertical => self.height,
        }
    }

    /// The sizing policy along `axis`.
    #[verifier::when_used_as_spec(spec_sizing)]
    pub fn sizing(&self, axis: Axis) -> (r: Sizing)
        ensures
            r == self.spec_sizing(axis),
    {
        match axis {
            Axis::Horizontal => self.width,
            Axis::Vertical => self.height,
        }
    }
}

/// The attributes of a node that arranges children.
#[derive(Debug, Copy, Clone, PartialEq, Eq, Structural)]
pub struct ContainerLayoutStyle {
    pub layout_style: LayoutStyle,
    pub main_axis: Axis,
    pub main_direction: Direction,
    pub main_justify: Justify,
    pub cross_justify: Justify,
}

} // verus!
