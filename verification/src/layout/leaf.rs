//! Layout of a node without children: its content is measured by the
//! caller's function, and the spacing of its style is laid around it.

use crate::layout::{ComputedLayout, LayoutCharacteristics, LayoutInput, PrelayoutInput};
use crate::math::{Rect, Size};
use crate::style::LayoutStyle;
use vstd::prelude::*;

verus! {

/// The size that a request leaves for the content of a node with style
/// `style`: the offered size less the spacing on both axes. An unbounded
/// extent stays unbounded.
pub open spec fn content_budget(style: LayoutStyle, input: LayoutInput) -> Size {
    input.spec_offered().spec_minus(
        style.spec_spacing(input.spec_scale_factor()).spec_sum_axes(),
    )
}

/// The size of the margin box of a node whose content measures `measured`:
/// the content with the spacing added back on both axes.
pub open spec fn margin_size(style: LayoutStyle, scale_factor: u32, measured: Size) -> Size {
    measured.spec_plus(style.spec_spacing(scale_factor).spec_sum_axes())
}

/// The answer of a node without children to the request `input`, when its
/// content measures `measured`: a margin box of size
/// [`margin_size`], at the origin for a measurement and at the corner of the
/// allocated rectangle for an arrangement.
pub open spec fn placed(style: LayoutStyle, input: LayoutInput, measured: Size) -> ComputedLayout {
    let size = margin_size(style, input.spec_scale_factor(), measured);
    ComputedLayout {
        margin_box: Rect {
            x: input.spec_anchor().x,
            y: input.spec_anchor().y,
            w: size.horizontal,
            h: size.vertical,
        },
    }
}

/// The size that the request `input` leaves for the content, see
/// [`content_budget`].
pub fn budget(style: &LayoutStyle, input: LayoutInput) -> (r: Size)
    ensures
        r == content_budget(*style, input),
{
    let spacing = style.spacing(input.scale_factor());
    input.offered().minus(spacing.sum_axes())
}

/// The answer to the request `input` when the content measures `measured`,
/// see [`placed`].
pub fn place(style: &LayoutStyle, input: LayoutInput, measured: Size) -> (r: ComputedLayout)
    ensures
        r == placed(*style, input, measured),
{
    let spacing = style.spacing(input.scale_factor());
    let size = measured.plus(spacing.sum_axes());
    ComputedLayout { margin_box: Rect::from_topleft_size(input.anchor(), size) }
}

/// Measures a node without children: hands the content budget and the scale
/// factor to `measure`, and reports the style with the size of the margin
/// box around what `measure` returned.
pub fn do_prelayout<F: FnOnce(Size, u32) -> Size>(
    style: &LayoutStyle,
    input: PrelayoutInput,
    measure: F,
) -> (r: LayoutCharacteristics)
    requires
        call_requires(
            measure,
            (
                content_budget(
                    *style,
                    LayoutInput::ComputeSize {
                        available: input.available,
                        scale_factor: input.scale_factor,
                    },
                ),
                input.scale_factor,
            ),
        ),
    ensures
        r.layout_style == *style,
        exists|measured: Size|
            {
                &&& call_ensures(
                    measure,
                    (
                        content_budget(
                            *style,
                            LayoutInput::ComputeSize {
                                available: input.available,
                                scale_factor: input.scale_factor,
                            },
                        ),
                        input.scale_factor,
                    ),
                    measured,
                )
                &&& r.min_size == margin_size(*style, input.scale_factor, measured)
            },
{
    let request = LayoutInput::ComputeSize {
        available: input.available,
        scale_factor: input.scale_factor,
    };
    let content = budget(style, request);
    let measured = measure(content, input.scale_factor);
    let answer = place(style, request, measured);
    LayoutCharacteristics { layout_style: *style, min_size: answer.margin_box.size() }
}

/// Answers the request `input` for a node without children: hands the
/// content budget and the scale factor to `measure`, and places the margin
/// box around what `measure` returned.
pub fn do_layout<F: FnOnce(Size, u32) -> Size>(
    style: &LayoutStyle,
    input: LayoutInput,
    measure: F,
) -> (r: ComputedLayout)
    requires
        call_requires(measure, (content_budget(*style, input), input.spec_scale_factor())),
    ensures
        exists|measured: Size|
            {
                &&& call_ensures(
                    measure,
                    (content_budget(*style, input), input.spec_scale_factor()),
                    measured,
                )
                &&& r == placed(*style, input, measured)
            },
{
    let content = budget(style, input);
    let measured = measure(content, input.scale_factor());
    place(style, input, measured)
}

} // verus!
