//! Layout requests, layout results, and the decomposition of a node's margin
//! box into its border, padding and content boxes.

use crate::math::{
    lemma_scale_monotone, min_int, scale_half_length, scale_half_units, scale_length, scale_units,
    Point, Rect, Size, SizeRect,
};
use crate::style::LayoutStyle;
use vstd::prelude::*;

pub mod container;
pub mod leaf;

verus! {

/// A request to measure a node within `available` space.
#[derive(Copy, Clone, PartialEq, Eq, Debug, Structural)]
pub struct PrelayoutInput {
    pub available: Size,
    pub scale_factor: u32,
}

/// What a measurement tells the parent: the node's style and the size of its
/// margin box.
#[derive(Copy, Clone, PartialEq, Eq, Debug, Structural)]
pub struct LayoutCharacteristics {
    pub layout_style: LayoutStyle,
    pub min_size: Size,
}

/// A request to lay a node out.
#[derive(Copy, Clone, PartialEq, Eq, Debug, Structural)]
pub enum LayoutInput {
    /// Measure: how large would the node be within `available`? Either extent
    /// of `available` may be unbounded.
    ComputeSize { available: Size, scale_factor: u32 },
    /// Arrange: the node is given the rectangle `allocated`.
    FinalLayout { allocated: Rect, scale_factor: u32 },
}

/// The three kinds of request that a node answers from separate cache slots.
#[derive(Copy, Clone, PartialEq, Eq, Debug, Structural)]
pub enum Shape {
    /// A measurement with an unbounded extent.
    Unconstrained,
    /// A measurement within a bounded size.
    Bounded,
    /// An arrangement.
    Final,
}

impl LayoutInput {
    /// The scale factor that the request carries.
    pub open spec fn spec_scale_factor(&self) -> u32 {
        match self {
            LayoutInput::ComputeSize { scale_factor, .. } => *scale_factor,
            LayoutInput::FinalLayout { scale_factor, .. } => *scale_factor,
        }
    }

    /// The scale factor that the request carries.
    #[verifier::when_used_as_spec(spec_scale_factor)]
    pub fn scale_factor(&self) -> (r: u32)
        ensures
            r == self.spec_scale_factor(),
    {
        match self {
            LayoutInput::ComputeSize { scale_factor, .. } => *scale_factor,
            LayoutInput::FinalLayout { scale_factor, .. } => *scale_factor,
        }
    }

    /// The size that the request offers: the available size, or the size of
    /// the allocated rectangle.
    pub open spec fn spec_offered(&self) -> Size {
        match self {
            LayoutInput::ComputeSize { available, .. } => *available,
            LayoutInput::FinalLayout { allocated, .. } => Size {
                horizontal: allocated.w,
                vertical: allocated.h,
            },
        }
    }

    /// The size that the request offers: the available size, or the size of
    /// the allocated rectangle.
    #[verifier::when_used_as_spec(spec_offered)]
    pub fn offered(&self) -> (r: Size)
        ensures
            r == self.spec_offered(),
    {
        match self {
            LayoutInput::ComputeSize { available, .. } => *available,
            LayoutInput::FinalLayout { allocated, .. } => allocated.size(),
        }
    }

    /// Where the request puts the node's top-left corner: the origin for a
    /// measurement, the allocated rectangle's corner for an arrangement.
    pub open spec fn spec_anchor(&self) -> Point {
        match self {
            LayoutInput::ComputeSize { .. } => Point { x: 0, y: 0 },
            LayoutInput::FinalLayout { allocated, .. } => Point { x: allocated.x, y: allocated.y },
        }
    }

    /// Where the request puts the node's top-left corner: the origin for a
    /// measurement, the allocated rectangle's corner for an arrangement.
    #[verifier::when_used_as_spec(spec_anchor)]
    pub fn anchor(&self) -> (r: Point)
        ensures
            r == self.spec_anchor(),
    {
        match self {
            LayoutInput::ComputeSize { .. } => Point::new(0, 0),
            LayoutInput::FinalLayout { allocated, .. } => allocated.top_left(),
        }
    }

    /// The kind of the request, which selects the cache slot.
    pub open spec fn spec_shape(&self) -> Shape {
        match self {
            LayoutInput::ComputeSize { available, .. } => if available.spec_is_unbounded() {
                Shape::Unconstrained
            } else {
                Shape::Bounded
            },
            LayoutInput::FinalLayout { .. } => Shape::Final,
        }
    }

    /// The kind of the request, which selects the cache slot.
    #[verifier::when_used_as_spec(spec_shape)]
    pub fn shape(&self) -> (r: Shape)
        ensures
            r == self.spec_shape(),
    {
        match self {
            LayoutInput::ComputeSize { available, .. } => if available.is_unbounded() {
                Shape::Unconstrained
            } else {
                Shape::Bounded
            },
            LayoutInput::FinalLayout { .. } => Shape::Final,
        }
    }
}

/// The answer to a layout request: the node's margin box.
#[derive(Copy, Clone, PartialEq, Eq, Debug, Structural)]
pub struct ComputedLayout {
    pub margin_box: Rect,
}

/// The four nested boxes of a node, in device units.
#[derive(Debug, Copy, Clone, PartialEq, Eq, Structural)]
pub struct Layout {
    pub margin_box: Rect,
    /// The margin box less the margin and half the border: the line along
    /// which the border is stroked, and the area that takes a click.
    pub border_box: Rect,
    pub padding_box: Rect,
    pub content_box: Rect,
    pub scale_factor: u32,
}

/// The distance from the margin box to the border box on each side: the
/// margin and half the border, scaled.
pub open spec fn border_inset(style: LayoutStyle, scale_factor: u32) -> SizeRect {
    SizeRect {
        left: min_int(
            scale_half_units(2 * style.margin.left + style.border_size, scale_factor as int),
            0xffff_ffff_ffff_ffff,
        ) as u64,
        right: min_int(
            scale_half_units(2 * style.margin.right + style.border_size, scale_factor as int),
            0xffff_ffff_ffff_ffff,
        ) as u64,
        top: min_int(
            scale_half_units(2 * style.margin.top + style.border_size, scale_factor as int),
            0xffff_ffff_ffff_ffff,
        ) as u64,
        bottom: min_int(
            scale_half_units(2 * style.margin.bottom + style.border_size, scale_factor as int),
            0xffff_ffff_ffff_ffff,
        ) as u64,
    }
}

/// The distance from the margin box to the padding box on each side: the
/// margin and the border, scaled.
pub open spec fn padding_inset(style: LayoutStyle, scale_factor: u32) -> SizeRect {
    SizeRect {
        left: min_int(
            scale_units(style.margin.left + style.border_size, scale_factor as int),
            0xffff_ffff_ffff_ffff,
        ) as u64,
        right: min_int(
            scale_units(style.margin.right + style.border_size, scale_factor as int),
            0xffff_ffff_ffff_ffff,
        ) as u64,
        top: min_int(
            scale_units(style.margin.top + style.border_size, scale_factor as int),
            0xffff_ffff_ffff_ffff,
        ) as u64,
        bottom: min_int(
            scale_units(style.margin.bottom + style.border_size, scale_factor as int),
            0xffff_ffff_ffff_ffff,
        ) as u64,
    }
}

/// The distance from the margin box to the content box on each side: margin,
/// border and padding, scaled.
pub open spec fn content_inset(style: LayoutStyle, scale_factor: u32) -> SizeRect {
    style.spec_spacing(scale_factor)
}

fn border_inset_of(style: &LayoutStyle, scale_factor: u32) -> (r: SizeRect)
    ensures
        r == border_inset(*style, scale_factor),
{
    let border: u128 = style.border_size as u128;
    SizeRect {
        left: scale_half_length(2 * (style.margin.left as u128) + border, scale_factor),
        right: scale_half_length(2 * (style.margin.right as u128) + border, scale_factor),
        top: scale_half_length(2 * (style.margin.top as u128) + border, scale_factor),
        bottom: scale_half_length(2 * (style.margin.bottom as u128) + border, scale_factor),
    }
}

fn padding_inset_of(style: &LayoutStyle, scale_factor: u32) -> (r: SizeRect)
    ensures
        r == padding_inset(*style, scale_factor),
{
    let border: u128 = style.border_size as u128;
    SizeRect {
        left: scale_length(style.margin.left as u128 + border, scale_factor),
        right: scale_length(style.margin.right as u128 + border, scale_factor),
        top: scale_length(style.margin.top as u128 + border, scale_factor),
        bottom: scale_length(style.margin.bottom as u128 + border, scale_factor),
    }
}

impl Layout {
    /// The boxes of a node with style `style` whose margin box is
    /// `margin_box`: each inner box is the margin box shrunk by its inset,
    /// and every box has its extents raised to zero where they are negative.
    pub open spec fn spec_from_margin_box(
        style: LayoutStyle,
        scale_factor: u32,
        margin_box: Rect,
    ) -> Layout {
        Layout {
            margin_box: margin_box.spec_clamp_positive(),
            border_box: margin_box.spec_shrink_by(
                border_inset(style, scale_factor),
            ).spec_clamp_positive(),
            padding_box: margin_box.spec_shrink_by(
                padding_inset(style, scale_factor),
            ).spec_clamp_positive(),
            content_box: margin_box.spec_shrink_by(
                content_inset(style, scale_factor),
            ).spec_clamp_positive(),
            scale_factor,
        }
    }

    /// The boxes of a node with style `style` whose margin box is
    /// `margin_box`.
    pub fn from_margin_box(style: &LayoutStyle, scale_factor: u32, margin_box: Rect) -> (r: Layout)
        ensures
            r == Layout::spec_from_margin_box(*style, scale_factor, margin_box),
    {
        let border_box = margin_box.shrink_by(border_inset_of(style, scale_factor));
        let padding_box = margin_box.shrink_by(padding_inset_of(style, scale_factor));
        let content_box = margin_box.shrink_by(style.spacing(scale_factor));
        Layout {
            margin_box: margin_box.clamp_positive(),
            border_box: border_box.clamp_positive(),
            padding_box: padding_box.clamp_positive(),
            content_box: content_box.clamp_positive(),
            scale_factor,
        }
    }

    /// The boxes of a node that was handed the request `input`: those of the
    /// rectangle with the request's corner and offered size.
    pub fn from_layout_input(style: &LayoutStyle, input: LayoutInput) -> (r: Layout)
        ensures
            r == Layout::spec_from_margin_box(
                *style,
                input.spec_scale_factor(),
                Rect {
                    x: input.spec_anchor().x,
                    y: input.spec_anchor().y,
                    w: input.spec_offered().horizontal,
                    h: input.spec_offered().vertical,
                },
            ),
    {
        Layout::from_margin_box(
            style,
            input.scale_factor(),
            Rect::from_topleft_size(input.anchor(), input.offered()),
        )
    }

    /// The layout of a node that was never laid out: every box is the empty
    /// rectangle at the origin.
    pub fn unset() -> (r: Layout)
        ensures
            r == (Layout {
                margin_box: Rect { x: 0, y: 0, w: 0, h: 0 },
                border_box: Rect { x: 0, y: 0, w: 0, h: 0 },
                padding_box: Rect { x: 0, y: 0, w: 0, h: 0 },
                content_box: Rect { x: 0, y: 0, w: 0, h: 0 },
                scale_factor: 0,
            }),
    {
        let zero = Rect::from_xywh(0, 0, 0, 0);
        Layout {
            margin_box: zero,
            border_box: zero,
            padding_box: zero,
            content_box: zero,
            scale_factor: 0,
        }
    }
}

/// Shrinking a rectangle by more on every side gives a rectangle inside the
/// one that shrinking by less gives.
pub proof fn lemma_shrink_nests(outer: Rect, less: SizeRect, more: SizeRect)
    requires
        less.within(more),
    ensures
        outer.spec_shrink_by(less).spec_clamp_positive().encloses(
            outer.spec_shrink_by(more).spec_clamp_positive(),
        ),
{
}

/// The insets grow from the border box over the padding box to the content
/// box, side by side.
pub proof fn lemma_insets_ordered(style: LayoutStyle, scale_factor: u32)
    ensures
        border_inset(style, scale_factor).within(padding_inset(style, scale_factor)),
        padding_inset(style, scale_factor).within(content_inset(style, scale_factor)),
{
    let b = style.border_size as int;
    let s = scale_factor as int;
    lemma_scale_monotone(style.margin.left + b, style.margin.left + b + style.padding.left, s);
    lemma_scale_monotone(style.margin.right + b, style.margin.right + b + style.padding.right, s);
    lemma_scale_monotone(style.margin.top + b, style.margin.top + b + style.padding.top, s);
    lemma_scale_monotone(
        style.margin.bottom + b,
        style.margin.bottom + b + style.padding.bottom,
        s,
    );
    lemma_scale_monotone(2 * style.margin.left + b, 2 * (style.margin.left + b), s);
    lemma_scale_monotone(2 * style.margin.right + b, 2 * (style.margin.right + b), s);
    lemma_scale_monotone(2 * style.margin.top + b, 2 * (style.margin.top + b), s);
    lemma_scale_monotone(2 * style.margin.bottom + b, 2 * (style.margin.bottom + b), s);
    lemma_scale_monotone(style.margin.left + b, style.margin.left + b, s);
    lemma_scale_monotone(style.margin.right + b, style.margin.right + b, s);
    lemma_scale_monotone(style.margin.top + b, style.margin.top + b, s);
    lemma_scale_monotone(style.margin.bottom + b, style.margin.bottom + b, s);
}

/// The boxes of a layout nest: the content box lies in the padding box, the
/// padding box in the border box, and the border box in the margin box.
pub proof fn lemma_boxes_nest(style: LayoutStyle, scale_factor: u32, margin_box: Rect)
    ensures
        ({
            let layout = Layout::spec_from_margin_box(style, scale_factor, margin_box);
            &&& layout.margin_box.encloses(layout.border_box)
            &&& layout.border_box.encloses(layout.padding_box)
            &&& layout.padding_box.encloses(layout.content_box)
        }),
{
    let none = SizeRect { left: 0, right: 0, top: 0, bottom: 0 };
    lemma_insets_ordered(style, scale_factor);
    assert(margin_box.spec_shrink_by(none) == margin_box);
    lemma_shrink_nests(margin_box, none, border_inset(style, scale_factor));
    lemma_shrink_nests(
        margin_box,
        border_inset(style, scale_factor),
        padding_inset(style, scale_factor),
    );
    lemma_shrink_nests(
        margin_box,
        padding_inset(style, scale_factor),
        content_inset(style, scale_factor),
    );
}

} // verus!
