//! Layout of a node that arranges children along a main axis: the measure
//! pass adds up what the children ask for, the arrange pass hands each child
//! its rectangle.

use crate::layout::{LayoutCharacteristics, LayoutInput, PrelayoutInput};
use crate::math::{
    clamp, clamp_to_i64, clamp_to_u64, div_toward_zero, max_int, min_int, Axis, Rect, Size,
    SizeRect, UNBOUNDED,
};
use crate::style::{ContainerLayoutStyle, Direction, Justify, Sizing};
use vstd::prelude::*;

verus! {

/// What the measure pass found.
#[derive(Copy, Clone, PartialEq, Eq, Debug, Structural)]
pub struct MeasuredChildren {
    /// The size of the container's content.
    pub content_size: Size,
    /// What the children take along the main axis.
    pub total_main_space: i64,
    /// The largest extent of a child across the main axis.
    pub max_cross_space: i64,
    /// How many children expand along the main axis.
    pub total_expand_factor: u64,
    /// The largest main-axis extent that an expanding child asked for.
    pub max_space_per_expand: i64,
}

/// The extent of a measured child along `axis`.
pub open spec fn child_extent(axis: Axis, child: LayoutCharacteristics) -> int {
    child.min_size.spec_axis(axis) as int
}

/// Whether a child expands along `axis`.
pub open spec fn child_expands(axis: Axis, child: LayoutCharacteristics) -> bool {
    child.layout_style.spec_sizing(axis) == Sizing::Expand
}

/// How many of `children` expand along `axis`.
pub open spec fn expand_count(axis: Axis, children: Seq<LayoutCharacteristics>) -> nat
    decreases children.len(),
{
    if children.len() == 0 {
        0
    } else {
        expand_count(axis, children.drop_last()) + if child_expands(axis, children.last()) {
            1nat
        } else {
            0nat
        }
    }
}

/// The extents along `axis` of the children that do not expand along it,
/// added up.
pub open spec fn fixed_total(axis: Axis, children: Seq<LayoutCharacteristics>) -> int
    decreases children.len(),
{
    if children.len() == 0 {
        0
    } else {
        fixed_total(axis, children.drop_last()) + if child_expands(axis, children.last()) {
            0
        } else {
            child_extent(axis, children.last())
        }
    }
}

/// The largest extent along `axis` of a child that expands along it, and at
/// least zero.
pub open spec fn max_expand_extent(axis: Axis, children: Seq<LayoutCharacteristics>) -> int
    decreases children.len(),
{
    if children.len() == 0 {
        0
    } else if child_expands(axis, children.last()) {
        max_int(max_expand_extent(axis, children.drop_last()), child_extent(axis, children.last()))
    } else {
        max_expand_extent(axis, children.drop_last())
    }
}

/// The largest extent of a child along `axis`, and at least zero.
pub open spec fn max_extent(axis: Axis, children: Seq<LayoutCharacteristics>) -> int
    decreases children.len(),
{
    if children.len() == 0 {
        0
    } else {
        max_int(max_extent(axis, children.drop_last()), child_extent(axis, children.last()))
    }
}

/// What the children take along the main axis `axis`: the extents of those
/// that do not expand, and for each one that expands the largest extent that
/// any of them asked for.
pub open spec fn main_total(axis: Axis, children: Seq<LayoutCharacteristics>) -> int {
    fixed_total(axis, children) + expand_count(axis, children) * max_expand_extent(axis, children)
}

/// The result of the measure pass over `children`, for a container with
/// style `style` at scale factor `scale_factor`. A definite sizing of the
/// container decides its content size along that axis; otherwise the
/// children do.
pub open spec fn measured(
    style: ContainerLayoutStyle,
    scale_factor: u32,
    children: Seq<LayoutCharacteristics>,
) -> MeasuredChildren {
    let main = style.main_axis;
    let cross = main.spec_cross();
    let total_main_space = clamp(main_total(main, children)) as i64;
    let max_cross_space = max_extent(cross, children) as i64;
    let main_size = match style.layout_style.spec_sizing(main).spec_as_definite(scale_factor) {
        Some(size) => size,
        None => total_main_space,
    };
    let cross_size = match style.layout_style.spec_sizing(cross).spec_as_definite(scale_factor) {
        Some(size) => size,
        None => max_cross_space,
    };
    MeasuredChildren {
        content_size: Size::spec_from_axes(main, main_size, cross_size),
        total_main_space,
        max_cross_space,
        total_expand_factor: min_int(expand_count(main, children) as int, 0xffff_ffff_ffff_ffff) as u64,
        max_space_per_expand: max_expand_extent(main, children) as i64,
    }
}

/// The measurement request that a container hands to each child when it is
/// itself offered `offered`: unbounded along the main axis, and across it
/// what the container's spacing leaves.
pub open spec fn child_request(
    style: ContainerLayoutStyle,
    offered: Size,
    scale_factor: u32,
) -> LayoutInput {
    let budget = offered.spec_minus(style.layout_style.spec_spacing(scale_factor).spec_sum_axes());
    LayoutInput::ComputeSize {
        available: Size::spec_from_axes(
            style.main_axis,
            UNBOUNDED,
            budget.spec_axis(style.main_axis.spec_cross()),
        ),
        scale_factor,
    }
}

/// The measurement request for each child, see [`child_request`].
pub fn request_for_children(style: &ContainerLayoutStyle, offered: Size, scale_factor: u32) -> (r:
    LayoutInput)
    ensures
        r == child_request(*style, offered, scale_factor),
{
    let spacing = style.layout_style.spacing(scale_factor);
    let budget = offered.minus(spacing.sum_axes());
    LayoutInput::ComputeSize {
        available: Size::from_axes(style.main_axis, UNBOUNDED, budget.axis(style.main_axis.cross())),
        scale_factor,
    }
}

proof fn lemma_measure_bounds(axis: Axis, children: Seq<LayoutCharacteristics>)
    ensures
        expand_count(axis, children) <= children.len(),
        0 <= max_expand_extent(axis, children) <= 0x7fff_ffff_ffff_ffff,
        0 <= max_extent(axis, children) <= 0x7fff_ffff_ffff_ffff,
        -0x8000_0000_0000_0000 * (children.len() - expand_count(axis, children)) <= fixed_total(
            axis,
            children,
        ) <= 0x7fff_ffff_ffff_ffff * (children.len() - expand_count(axis, children)),
    decreases children.len(),
{
    if children.len() > 0 {
        lemma_measure_bounds(axis, children.drop_last());
    }
}

/// The measure pass: adds up what the measured `children` ask for, see
/// [`measured`].
pub fn measure_children(
    style: &ContainerLayoutStyle,
    scale_factor: u32,
    children: &[LayoutCharacteristics],
) -> (r: MeasuredChildren)
    ensures
        r == measured(*style, scale_factor, children@),
{
    let main_axis = style.main_axis;
    let cross_axis = main_axis.cross();
    let main_sizing = style.layout_style.sizing(main_axis);
    let cross_sizing = style.layout_style.sizing(cross_axis);

    let mut fixed_main_space: i128 = 0;
    let mut max_cross_space: i64 = 0;
    let mut total_expand_factor: u64 = 0;
    let mut max_space_per_expand: i64 = 0;
    let mut i: usize = 0;
    assert(children@.take(0) =~= Seq::<LayoutCharacteristics>::empty());
    while i < children.len()
        invariant
            i <= children.len(),
            main_axis == style.main_axis,
            cross_axis == main_axis.spec_cross(),
            fixed_main_space == fixed_total(main_axis, children@.take(i as int)),
            max_cross_space == max_extent(cross_axis, children@.take(i as int)),
            total_expand_factor == expand_count(main_axis, children@.take(i as int)),
            max_space_per_expand == max_expand_extent(main_axis, children@.take(i as int)),
        decreases children.len() - i,
    {
        let child = children[i];
        proof {
            let next = children@.take(i as int + 1);
            assert(next.drop_last() =~= children@.take(i as int));
            assert(next.last() == child);
            lemma_measure_bounds(main_axis, children@.take(i as int));
            lemma_measure_bounds(main_axis, next);
        }
        let child_main_space = child.min_size.axis(main_axis);
        let child_cross_space = child.min_size.axis(cross_axis);
        match child.layout_style.sizing(main_axis) {
            Sizing::Expand => {
                total_expand_factor = total_expand_factor + 1;
                if child_main_space > max_space_per_expand {
                    max_space_per_expand = child_main_space;
                }
            },
            _ => {
                fixed_main_space = fixed_main_space + child_main_space as i128;
            },
        }
        if child_cross_space > max_cross_space {
            max_cross_space = child_cross_space;
        }
        i = i + 1;
    }
    assert(children@.take(i as int) =~= children@);
    proof {
        lemma_measure_bounds(main_axis, children@);
        let count = expand_count(main_axis, children@) as int;
        let most = max_expand_extent(main_axis, children@);
        assert(0 <= count * most <= count * 0x7fff_ffff_ffff_ffff) by (nonlinear_arith)
            requires
                0 <= count,
                0 <= most <= 0x7fff_ffff_ffff_ffff,
        ;
    }
    let expand_space: i128 = (total_expand_factor as i128) * (max_space_per_expand as i128);
    let total_main_space = clamp_to_i64(fixed_main_space + expand_space);

    let main_content_size = match main_sizing.as_definite(scale_factor) {
        Some(size) => size,
        None => total_main_space,
    };
    let cross_content_size = match cross_sizing.as_definite(scale_factor) {
        Some(size) => size,
        None => max_cross_space,
    };
    MeasuredChildren {
        content_size: Size::from_axes(main_axis, main_content_size, cross_content_size),
        total_main_space,
        max_cross_space,
        total_expand_factor,
        max_space_per_expand,
    }
}

/// Measures a container from its measured children: the content size of
/// [`measured`] with the container's spacing added on both axes.
pub fn do_prelayout(
    style: &ContainerLayoutStyle,
    input: PrelayoutInput,
    children: &[LayoutCharacteristics],
) -> (r: LayoutCharacteristics)
    ensures
        r.layout_style == style.layout_style,
        r.min_size == measured(*style, input.scale_factor, children@).content_size.spec_plus(
            style.layout_style.spec_spacing(input.scale_factor).spec_sum_axes(),
        ),
{
    let spacing = style.layout_style.spacing(input.scale_factor);
    let found = measure_children(style, input.scale_factor, children);
    LayoutCharacteristics {
        layout_style: style.layout_style,
        min_size: found.content_size.plus(spacing.sum_axes()),
    }
}

/// How the arrange pass divides the main axis of a container that was
/// allocated `allocated`.
pub struct Division {
    /// The space that the allocation leaves beyond the content.
    pub remaining: int,
    /// What is trimmed off the allocation before the first child.
    pub trim_start: int,
    /// What is trimmed off the allocation after the last child.
    pub trim_end: int,
    /// The main-axis extent of each child that expands.
    pub space_per_expand: int,
}

/// The division of the main axis: where space remains and no child expands,
/// the slack is trimmed off according to `main_justify` (`Min`: all after,
/// `Max`: all before, `Center`: half each); where a child expands, the slack
/// is shared evenly among the children that expand.
pub open spec fn division(
    style: ContainerLayoutStyle,
    allocated: Rect,
    scale_factor: u32,
    children: Seq<LayoutCharacteristics>,
) -> Division {
    let main = style.main_axis;
    let found = measured(style, scale_factor, children);
    let inner = allocated.spec_shrink_by(style.layout_style.spec_spacing(scale_factor));
    let remaining = inner.spec_size().spec_axis(main) - found.content_size.spec_axis(main);
    if remaining > 0 {
        if found.total_expand_factor == 0 {
            match style.main_justify {
                Justify::Min => Division {
                    remaining,
                    trim_start: 0,
                    trim_end: remaining,
                    space_per_expand: 0,
                },
                Justify::Max => Division {
                    remaining,
                    trim_start: remaining,
                    trim_end: 0,
                    space_per_expand: 0,
                },
                Justify::Center => Division {
                    remaining,
                    trim_start: remaining / 2,
                    trim_end: remaining / 2,
                    space_per_expand: 0,
                },
            }
        } else {
            Division {
                remaining,
                trim_start: 0,
                trim_end: 0,
                space_per_expand: remaining / (found.total_expand_factor as int),
            }
        }
    } else {
        Division { remaining, trim_start: 0, trim_end: 0, space_per_expand: 0 }
    }
}

/// The content box within which the children are arranged: the allocation,
/// trimmed as [`division`] says, less the container's spacing.
pub open spec fn arranged_content_box(
    style: ContainerLayoutStyle,
    allocated: Rect,
    scale_factor: u32,
    children: Seq<LayoutCharacteristics>,
) -> Rect {
    let d = division(style, allocated, scale_factor, children);
    allocated.spec_shrink_by(
        SizeRect::spec_from_axis(style.main_axis, d.trim_start as u64, d.trim_end as u64),
    ).spec_shrink_by(style.layout_style.spec_spacing(scale_factor))
}

/// The main-axis extent that the arrange pass gives a child: the share of
/// the slack if it expands, else what it measured.
pub open spec fn main_amount(axis: Axis, space_per_expand: int, child: LayoutCharacteristics) -> int {
    if child_expands(axis, child) {
        space_per_expand
    } else {
        child_extent(axis, child)
    }
}

/// The main-axis extents of the first `upto` children, added up.
pub open spec fn main_before(
    axis: Axis,
    space_per_expand: int,
    children: Seq<LayoutCharacteristics>,
    upto: int,
) -> int
    decreases upto,
{
    if upto <= 0 {
        0
    } else {
        main_before(axis, space_per_expand, children, upto - 1) + main_amount(
            axis,
            space_per_expand,
            children[upto - 1],
        )
    }
}

/// The extent across the main axis that the arrange pass gives a child: the
/// extent of the content box if it expands across, else what it measured.
pub open spec fn cross_amount(
    style: ContainerLayoutStyle,
    content_box: Rect,
    child: LayoutCharacteristics,
) -> int {
    let cross = style.main_axis.spec_cross();
    if child_expands(cross, child) {
        content_box.spec_size().spec_axis(cross) as int
    } else {
        child_extent(cross, child)
    }
}

/// Where a child of extent `extent` across the main axis starts across it:
/// `cross_justify` places it within the measured content extent
/// `content_cross`, counted from the start of the content box (`Min`: at the
/// start, `Max`: at the end, `Center`: in the middle).
pub open spec fn cross_start(
    style: ContainerLayoutStyle,
    content_box: Rect,
    content_cross: int,
    extent: int,
) -> int {
    let origin = match style.main_axis.spec_cross() {
        Axis::Horizontal => content_box.x,
        Axis::Vertical => content_box.y,
    };
    let slack = content_cross - extent;
    clamp(
        origin + match style.cross_justify {
            Justify::Min => 0,
            Justify::Max => slack,
            Justify::Center => div_toward_zero(slack, 2),
        },
    )
}

/// Where a child of main-axis extent `extent` starts along the main axis,
/// when the children before it take `before`: that far from the start of
/// the content box, or for `Negative` that far and its own extent back from
/// the end of the content box.
pub open spec fn main_start(
    style: ContainerLayoutStyle,
    content_box: Rect,
    before: int,
    extent: int,
) -> int {
    match (style.main_axis, style.main_direction) {
        (Axis::Horizontal, Direction::Positive) => clamp(content_box.x + before),
        (Axis::Horizontal, Direction::Negative) => clamp(
            content_box.spec_right() - before - extent,
        ),
        (Axis::Vertical, Direction::Positive) => clamp(content_box.y + before),
        (Axis::Vertical, Direction::Negative) => clamp(content_box.spec_bottom() - before - extent),
    }
}

/// The rectangle with the given start and extent along `main` and across
/// it.
pub open spec fn rect_along(
    main: Axis,
    main_start: int,
    cross_start: int,
    main_extent: int,
    cross_extent: int,
) -> Rect {
    match main {
        Axis::Horizontal => Rect {
            x: main_start as i64,
            y: cross_start as i64,
            w: main_extent as i64,
            h: cross_extent as i64,
        },
        Axis::Vertical => Rect {
            x: cross_start as i64,
            y: main_start as i64,
            w: cross_extent as i64,
            h: main_extent as i64,
        },
    }
}

/// The rectangle that the arrange pass allocates to child `i`. Along the
/// main axis the children follow one another within the content box, each
/// with its [`main_amount`], see [`main_start`]; across it each has its
/// [`cross_amount`] and starts at its [`cross_start`].
pub open spec fn child_rect(
    style: ContainerLayoutStyle,
    allocated: Rect,
    scale_factor: u32,
    children: Seq<LayoutCharacteristics>,
    i: int,
) -> Rect {
    let main = style.main_axis;
    let found = measured(style, scale_factor, children);
    let share = clamp(division(style, allocated, scale_factor, children).space_per_expand);
    let content_box = arranged_content_box(style, allocated, scale_factor, children);
    let main_extent = main_amount(main, share, children[i]);
    let cross_extent = cross_amount(style, content_box, children[i]);
    rect_along(
        main,
        main_start(style, content_box, main_before(main, share, children, i), main_extent),
        cross_start(
            style,
            content_box,
            found.content_size.spec_axis(main.spec_cross()) as int,
            cross_extent,
        ),
        main_extent,
        cross_extent,
    )
}

/// The children follow one another without gap or overlap: along the main
/// axis a child starts where the child before it ends, and for `Negative`
/// ends where the child before it starts, as long as no start is clamped.
pub proof fn lemma_children_adjoin(
    style: ContainerLayoutStyle,
    content_box: Rect,
    before: int,
    extent: int,
    next_extent: int,
)
    requires
        -0x8000_0000_0000_0000 <= content_box.x + before <= 0x7fff_ffff_ffff_ffff,
        -0x8000_0000_0000_0000 <= content_box.y + before <= 0x7fff_ffff_ffff_ffff,
        -0x8000_0000_0000_0000 <= content_box.x + before + extent <= 0x7fff_ffff_ffff_ffff,
        -0x8000_0000_0000_0000 <= content_box.y + before + extent <= 0x7fff_ffff_ffff_ffff,
        -0x8000_0000_0000_0000 <= content_box.spec_right() - before - extent - next_extent
            <= 0x7fff_ffff_ffff_ffff,
        -0x8000_0000_0000_0000 <= content_box.spec_bottom() - before - extent - next_extent
            <= 0x7fff_ffff_ffff_ffff,
        -0x8000_0000_0000_0000 <= content_box.spec_right() - before - extent
            <= 0x7fff_ffff_ffff_ffff,
        -0x8000_0000_0000_0000 <= content_box.spec_bottom() - before - extent
            <= 0x7fff_ffff_ffff_ffff,
    ensures
        style.main_direction == Direction::Positive ==> main_start(
            style,
            content_box,
            before + extent,
            next_extent,
        ) == main_start(style, content_box, before, extent) + extent,
        style.main_direction == Direction::Negative ==> main_start(
            style,
            content_box,
            before + extent,
            next_extent,
        ) + next_extent == main_start(style, content_box, before, extent),
{
}

/// The rectangles of the children adjoin: along the main axis the rectangle
/// of a child starts where that of the child before it ends, and for
/// `Negative` ends where that of the child before it starts, as long as no
/// start is clamped. So the rectangles follow one another in the order of
/// the children without gap or overlap.
pub proof fn lemma_child_rects_adjoin(
    style: ContainerLayoutStyle,
    allocated: Rect,
    scale_factor: u32,
    children: Seq<LayoutCharacteristics>,
    i: int,
)
    requires
        0 <= i,
        i + 1 < children.len(),
        ({
            let share = clamp(division(style, allocated, scale_factor, children).space_per_expand);
            let content_box = arranged_content_box(style, allocated, scale_factor, children);
            let before = main_before(style.main_axis, share, children, i);
            let extent = main_amount(style.main_axis, share, children[i]);
            let next = main_amount(style.main_axis, share, children[i + 1]);
            let start = match (style.main_axis, style.main_direction) {
                (Axis::Horizontal, Direction::Positive) => content_box.x as int,
                (Axis::Vertical, Direction::Positive) => content_box.y as int,
                (Axis::Horizontal, Direction::Negative) => content_box.spec_right() - extent
                    - next,
                (Axis::Vertical, Direction::Negative) => content_box.spec_bottom() - extent
                    - next,
            };
            match style.main_direction {
                Direction::Positive => -0x8000_0000_0000_0000 <= start + before && start + before
                    + extent <= 0x7fff_ffff_ffff_ffff && -0x8000_0000_0000_0000 <= start + before
                    + extent && start + before <= 0x7fff_ffff_ffff_ffff,
                Direction::Negative => -0x8000_0000_0000_0000 <= start - before && start - before
                    + next <= 0x7fff_ffff_ffff_ffff && -0x8000_0000_0000_0000 <= start - before
                    + next && start - before <= 0x7fff_ffff_ffff_ffff,
            }
        }),
    ensures
        ({
            let this = child_rect(style, allocated, scale_factor, children, i);
            let after = child_rect(style, allocated, scale_factor, children, i + 1);
            match (style.main_axis, style.main_direction) {
                (Axis::Horizontal, Direction::Positive) => after.x == this.x + this.w,
                (Axis::Vertical, Direction::Positive) => after.y == this.y + this.h,
                (Axis::Horizontal, Direction::Negative) => after.x + after.w == this.x,
                (Axis::Vertical, Direction::Negative) => after.y + after.h == this.y,
            }
        }),
{
    let share = clamp(division(style, allocated, scale_factor, children).space_per_expand);
    assert(main_before(style.main_axis, share, children, i + 1) == main_before(
        style.main_axis,
        share,
        children,
        i,
    ) + main_amount(style.main_axis, share, children[i]));
}

/// Whether an arrangement stays far from the limits of the numbers: the
/// allocated rectangle lies within 2^40 units of the origin and has no
/// negative extent, no side of the scaled spacing is more than 2^40, there
/// are at most 2^20 children, and every child measures between 0 and 2^40
/// on both axes.
pub open spec fn modest(
    style: ContainerLayoutStyle,
    allocated: Rect,
    scale_factor: u32,
    children: Seq<LayoutCharacteristics>,
) -> bool {
    let spacing = style.layout_style.spec_spacing(scale_factor);
    &&& -0x100_0000_0000 <= allocated.x <= 0x100_0000_0000
    &&& -0x100_0000_0000 <= allocated.y <= 0x100_0000_0000
    &&& 0 <= allocated.w <= 0x100_0000_0000
    &&& 0 <= allocated.h <= 0x100_0000_0000
    &&& spacing.left <= 0x100_0000_0000
    &&& spacing.right <= 0x100_0000_0000
    &&& spacing.top <= 0x100_0000_0000
    &&& spacing.bottom <= 0x100_0000_0000
    &&& children.len() <= 0x10_0000
    &&& forall|k: int|
        0 <= k < children.len() ==> 0 <= (#[trigger] children[k]).min_size.horizontal
            <= 0x100_0000_0000 && 0 <= children[k].min_size.vertical <= 0x100_0000_0000
}

proof fn lemma_totals_not_negative(axis: Axis, children: Seq<LayoutCharacteristics>)
    requires
        forall|k: int|
            0 <= k < children.len() ==> 0 <= (#[trigger] children[k]).min_size.horizontal && 0
                <= children[k].min_size.vertical,
    ensures
        0 <= fixed_total(axis, children),
        0 <= max_expand_extent(axis, children),
        0 <= main_total(axis, children),
    decreases children.len(),
{
    if children.len() > 0 {
        let rest = children.drop_last();
        assert forall|k: int| 0 <= k < rest.len() implies 0 <= (
        #[trigger] rest[k]).min_size.horizontal && 0 <= rest[k].min_size.vertical by {
            assert(rest[k] == children[k]);
        }
        lemma_totals_not_negative(axis, rest);
        assert(0 <= children[children.len() - 1].min_size.horizontal);
    }
    let count = expand_count(axis, children) as int;
    let most = max_expand_extent(axis, children);
    assert(0 <= count * most) by (nonlinear_arith)
        requires
            0 <= count,
            0 <= most,
    ;
}

proof fn lemma_main_before_modest(
    axis: Axis,
    share: int,
    children: Seq<LayoutCharacteristics>,
    upto: int,
)
    requires
        0 <= upto <= children.len(),
        0 <= share <= 0x100_0000_0000,
        forall|k: int|
            0 <= k < children.len() ==> 0 <= (#[trigger] children[k]).min_size.horizontal
                <= 0x100_0000_0000 && 0 <= children[k].min_size.vertical <= 0x100_0000_0000,
    ensures
        0 <= main_before(axis, share, children, upto) <= 0x100_0000_0000 * upto,
        upto < children.len() ==> 0 <= main_amount(axis, share, children[upto])
            <= 0x100_0000_0000,
    decreases upto,
{
    if upto > 0 {
        lemma_main_before_modest(axis, share, children, upto - 1);
        assert(0 <= children[upto - 1].min_size.horizontal <= 0x100_0000_0000);
    }
    if upto < children.len() {
        assert(0 <= children[upto].min_size.horizontal <= 0x100_0000_0000);
    }
}

proof fn lemma_content_not_negative(
    style: ContainerLayoutStyle,
    scale_factor: u32,
    children: Seq<LayoutCharacteristics>,
)
    requires
        forall|k: int|
            0 <= k < children.len() ==> 0 <= (#[trigger] children[k]).min_size.horizontal && 0
                <= children[k].min_size.vertical,
    ensures
        0 <= measured(style, scale_factor, children).content_size.spec_axis(style.main_axis),
{
    let main = style.main_axis;
    lemma_totals_not_negative(main, children);
    match style.layout_style.spec_sizing(main) {
        Sizing::Fixed(size) => {
            assert(0 <= size * scale_factor) by (nonlinear_arith)
                requires
                    0 <= size,
                    0 <= scale_factor,
            ;
        },
        _ => {},
    }
}

proof fn lemma_modest_division(
    style: ContainerLayoutStyle,
    allocated: Rect,
    scale_factor: u32,
    children: Seq<LayoutCharacteristics>,
)
    requires
        modest(style, allocated, scale_factor, children),
    ensures
        0 <= division(style, allocated, scale_factor, children).space_per_expand
            <= 0x100_0000_0000,
        0 <= division(style, allocated, scale_factor, children).trim_start <= 0x100_0000_0000,
        0 <= division(style, allocated, scale_factor, children).trim_end <= 0x100_0000_0000,
{
    let d = division(style, allocated, scale_factor, children);
    let found = measured(style, scale_factor, children);
    lemma_content_not_negative(style, scale_factor, children);
    let inner = allocated.spec_shrink_by(style.layout_style.spec_spacing(scale_factor));
    assert(inner.w <= 0x100_0000_0000 && inner.h <= 0x100_0000_0000);
    assert(d.remaining == inner.spec_size().spec_axis(style.main_axis)
        - found.content_size.spec_axis(style.main_axis));
    assert(d.remaining <= 0x100_0000_0000);
    let count = found.total_expand_factor as int;
    if d.remaining > 0 && count > 0 {
        assert(0 <= d.remaining / count <= d.remaining) by (nonlinear_arith)
            requires
                d.remaining > 0,
                count >= 1,
        ;
    }
}

proof fn lemma_shrunk_twice(area: Rect, first: SizeRect, second: SizeRect)
    requires
        -0x100_0000_0000 <= area.x <= 0x100_0000_0000,
        -0x100_0000_0000 <= area.y <= 0x100_0000_0000,
        0 <= area.w <= 0x100_0000_0000,
        0 <= area.h <= 0x100_0000_0000,
        first.left <= 0x100_0000_0000,
        first.right <= 0x100_0000_0000,
        first.top <= 0x100_0000_0000,
        first.bottom <= 0x100_0000_0000,
        second.left <= 0x100_0000_0000,
        second.right <= 0x100_0000_0000,
        second.top <= 0x100_0000_0000,
        second.bottom <= 0x100_0000_0000,
    ensures
        ({
            let shrunk = area.spec_shrink_by(first).spec_shrink_by(second);
            &&& -0x100_0000_0000 <= shrunk.x <= 0x300_0000_0000
            &&& -0x100_0000_0000 <= shrunk.y <= 0x300_0000_0000
            &&& -0x400_0000_0000 <= shrunk.w <= 0x100_0000_0000
            &&& -0x400_0000_0000 <= shrunk.h <= 0x100_0000_0000
            &&& -0x500_0000_0000 <= shrunk.spec_right() <= 0x400_0000_0000
            &&& -0x500_0000_0000 <= shrunk.spec_bottom() <= 0x400_0000_0000
        }),
{
}

/// In a modest arrangement the children are contiguous and do not overlap:
/// no child has a negative extent along the main axis, and the rectangle of
/// a child starts where that of the child before it ends, or for `Negative`
/// ends where that of the child before it starts.
pub proof fn lemma_children_contiguous(
    style: ContainerLayoutStyle,
    allocated: Rect,
    scale_factor: u32,
    children: Seq<LayoutCharacteristics>,
    i: int,
)
    requires
        modest(style, allocated, scale_factor, children),
        0 <= i,
        i + 1 < children.len(),
    ensures
        ({
            let this = child_rect(style, allocated, scale_factor, children, i);
            let after = child_rect(style, allocated, scale_factor, children, i + 1);
            match (style.main_axis, style.main_direction) {
                (Axis::Horizontal, Direction::Positive) => this.w >= 0 && after.w >= 0 && after.x
                    == this.x + this.w,
                (Axis::Vertical, Direction::Positive) => this.h >= 0 && after.h >= 0 && after.y
                    == this.y + this.h,
                (Axis::Horizontal, Direction::Negative) => this.w >= 0 && after.w >= 0 && after.x
                    + after.w == this.x,
                (Axis::Vertical, Direction::Negative) => this.h >= 0 && after.h >= 0 && after.y
                    + after.h == this.y,
            }
        }),
{
    let main = style.main_axis;
    let d = division(style, allocated, scale_factor, children);
    let share = clamp(d.space_per_expand);
    lemma_modest_division(style, allocated, scale_factor, children);
    lemma_main_before_modest(main, share, children, i);
    lemma_main_before_modest(main, share, children, i + 1);
    let trim = SizeRect::spec_from_axis(main, d.trim_start as u64, d.trim_end as u64);
    lemma_shrunk_twice(allocated, trim, style.layout_style.spec_spacing(scale_factor));
    let content_box = arranged_content_box(style, allocated, scale_factor, children);
    assert(content_box == allocated.spec_shrink_by(trim).spec_shrink_by(
        style.layout_style.spec_spacing(scale_factor),
    ));
    let before = main_before(main, share, children, i);
    let extent = main_amount(main, share, children[i]);
    let next = main_amount(main, share, children[i + 1]);
    assert(0 <= before <= 0x100_0000_0000 * 0x10_0000);
    assert(0 <= extent <= 0x100_0000_0000);
    assert(0 <= next <= 0x100_0000_0000);
    lemma_child_rects_adjoin(style, allocated, scale_factor, children, i);
    lemma_child_extents(style, allocated, scale_factor, children, i);
    lemma_child_extents(style, allocated, scale_factor, children, i + 1);
}

/// The extent of the rectangle of a child along the main axis is what the
/// arrange pass gives the child.
pub proof fn lemma_child_extents(
    style: ContainerLayoutStyle,
    allocated: Rect,
    scale_factor: u32,
    children: Seq<LayoutCharacteristics>,
    i: int,
)
    requires
        0 <= i < children.len(),
    ensures
        ({
            let share = clamp(division(style, allocated, scale_factor, children).space_per_expand);
            let this = child_rect(style, allocated, scale_factor, children, i);
            match style.main_axis {
                Axis::Horizontal => this.w == main_amount(style.main_axis, share, children[i]),
                Axis::Vertical => this.h == main_amount(style.main_axis, share, children[i]),
            }
        }),
{
}

/// The first child starts at the start of the content box, and for
/// `Negative` ends at its end, as long as the start is not clamped.
pub proof fn lemma_first_child_at_start(
    style: ContainerLayoutStyle,
    content_box: Rect,
    extent: int,
)
    requires
        -0x8000_0000_0000_0000 <= content_box.spec_right() - extent <= 0x7fff_ffff_ffff_ffff,
        -0x8000_0000_0000_0000 <= content_box.spec_bottom() - extent <= 0x7fff_ffff_ffff_ffff,
    ensures
        (style.main_axis, style.main_direction) == (Axis::Horizontal, Direction::Positive)
            ==> main_start(style, content_box, 0, extent) == content_box.x,
        (style.main_axis, style.main_direction) == (Axis::Vertical, Direction::Positive)
            ==> main_start(style, content_box, 0, extent) == content_box.y,
        (style.main_axis, style.main_direction) == (Axis::Horizontal, Direction::Negative)
            ==> main_start(style, content_box, 0, extent) + extent == content_box.spec_right(),
        (style.main_axis, style.main_direction) == (Axis::Vertical, Direction::Negative)
            ==> main_start(style, content_box, 0, extent) + extent == content_box.spec_bottom(),
{
}

/// Where space remains and a child expands, each expanding child gets the
/// remaining space divided by their number; where space remains and none
/// expands, what is trimmed before and after is the remaining space for
/// `Min` and `Max`, and all but a remainder of at most one for `Center`.
pub proof fn lemma_division_shares(
    style: ContainerLayoutStyle,
    allocated: Rect,
    scale_factor: u32,
    children: Seq<LayoutCharacteristics>,
)
    requires
        division(style, allocated, scale_factor, children).remaining > 0,
    ensures
        ({
            let d = division(style, allocated, scale_factor, children);
            let count = measured(style, scale_factor, children).total_expand_factor;
            &&& count > 0 ==> d.space_per_expand == d.remaining / (count as int) && d.trim_start
                == 0 && d.trim_end == 0
            &&& count == 0 ==> d.space_per_expand == 0 && d.remaining - 1 <= d.trim_start
                + d.trim_end <= d.remaining
            &&& count == 0 && style.main_justify == Justify::Min ==> d.trim_start == 0
            &&& count == 0 && style.main_justify == Justify::Max ==> d.trim_end == 0
            &&& count == 0 && style.main_justify == Justify::Center ==> d.trim_start == d.trim_end
        }),
{
}

proof fn lemma_main_before_bounds(
    axis: Axis,
    space_per_expand: int,
    children: Seq<LayoutCharacteristics>,
    upto: int,
)
    requires
        0 <= upto <= children.len(),
        -0x8000_0000_0000_0000 <= space_per_expand <= 0x7fff_ffff_ffff_ffff,
    ensures
        -0x8000_0000_0000_0000 * upto <= main_before(axis, space_per_expand, children, upto)
            <= 0x7fff_ffff_ffff_ffff * upto,
    decreases upto,
{
    if upto > 0 {
        lemma_main_before_bounds(axis, space_per_expand, children, upto - 1);
    }
}

/// The arrange pass: the request that each child is handed when the
/// container is allocated the rectangle of `input`, whose extent along the
/// main axis is bounded. Child `i` is allocated [`child_rect`] at the
/// container's scale factor.
pub fn do_layout(
    style: &ContainerLayoutStyle,
    input: LayoutInput,
    children: &[LayoutCharacteristics],
) -> (r: Vec<LayoutInput>)
    requires
        input is FinalLayout,
        input.spec_offered().spec_axis(style.main_axis) != UNBOUNDED,
    ensures
        r@.len() == children@.len(),
        forall|i: int|
            0 <= i < children@.len() ==> #[trigger] r@[i] == (LayoutInput::FinalLayout {
                allocated: child_rect(
                    *style,
                    input->allocated,
                    input.spec_scale_factor(),
                    children@,
                    i,
                ),
                scale_factor: input.spec_scale_factor(),
            }),
{
    match input {
        LayoutInput::FinalLayout { allocated, scale_factor } => arrange(
            style,
            allocated,
            scale_factor,
            children,
        ),
        LayoutInput::ComputeSize { .. } => Vec::new(),
    }
}

/// The arrange pass for a container that is allocated `allocated`: child `i`
/// is allocated [`child_rect`] at the container's scale factor.
pub fn arrange(
    style: &ContainerLayoutStyle,
    allocated: Rect,
    scale_factor: u32,
    children: &[LayoutCharacteristics],
) -> (r: Vec<LayoutInput>)
    ensures
        r@.len() == children@.len(),
        forall|i: int|
            0 <= i < children@.len() ==> #[trigger] r@[i] == (LayoutInput::FinalLayout {
                allocated: child_rect(*style, allocated, scale_factor, children@, i),
                scale_factor,
            }),
{
    let spacing = style.layout_style.spacing(scale_factor);
    let main_axis = style.main_axis;
    let cross_axis = main_axis.cross();
    let found = measure_children(style, scale_factor, children);
    let (trim_start, trim_end, share) = divide(style, allocated, scale_factor, &found, Ghost(children@));
    let content_box = allocated.shrink_by(
        SizeRect::from_axis(main_axis, trim_start, trim_end),
    ).shrink_by(spacing);
    let content_cross: i64 = found.content_size.axis(cross_axis);

    let mut before: i128 = 0;
    let mut child_layouts: Vec<LayoutInput> = Vec::new();
    let mut i: usize = 0;
    while i < children.len()
        invariant
            i <= children.len(),
            main_axis == style.main_axis,
            share == clamp(division(*style, allocated, scale_factor, children@).space_per_expand),
            content_box == arranged_content_box(*style, allocated, scale_factor, children@),
            content_cross == measured(*style, scale_factor, children@).content_size.spec_axis(
                main_axis.spec_cross(),
            ),
            before == main_before(main_axis, share as int, children@, i as int),
            child_layouts@.len() == i,
            forall|k: int|
                0 <= k < i ==> #[trigger] child_layouts@[k] == (LayoutInput::FinalLayout {
                    allocated: child_rect(*style, allocated, scale_factor, children@, k),
                    scale_factor,
                }),
        decreases children.len() - i,
    {
        let child = children[i];
        proof {
            lemma_main_before_bounds(main_axis, share as int, children@, i as int);
            lemma_main_before_bounds(main_axis, share as int, children@, i as int + 1);
        }
        let main_extent = main_amount_of(main_axis, share, &child);
        let cross_extent = cross_amount_of(style, &content_box, &child);
        let main_at = main_start_of(style, &content_box, before, main_extent);
        let cross_at = cross_start_of(style, &content_box, content_cross, cross_extent);
        let child_allocated = match main_axis {
            Axis::Horizontal => Rect::from_xywh(main_at, cross_at, main_extent, cross_extent),
            Axis::Vertical => Rect::from_xywh(cross_at, main_at, cross_extent, main_extent),
        };
        assert(child_allocated == rect_along(
            main_axis,
            main_at as int,
            cross_at as int,
            main_extent as int,
            cross_extent as int,
        ));
        before = before + main_extent as i128;
        child_layouts.push(LayoutInput::FinalLayout { allocated: child_allocated, scale_factor });
        i = i + 1;
    }
    child_layouts
}

/// Divides the main axis, see [`division`]: what to trim before and after,
/// and the share of each child that expands.
fn divide(
    style: &ContainerLayoutStyle,
    allocated: Rect,
    scale_factor: u32,
    found: &MeasuredChildren,
    Ghost(children): Ghost<Seq<LayoutCharacteristics>>,
) -> (r: (u64, u64, i64))
    requires
        *found == measured(*style, scale_factor, children),
    ensures
        r.0 == division(*style, allocated, scale_factor, children).trim_start,
        r.1 == division(*style, allocated, scale_factor, children).trim_end,
        r.2 == clamp(division(*style, allocated, scale_factor, children).space_per_expand),
{
    let spacing = style.layout_style.spacing(scale_factor);
    let remaining: i128 = allocated.shrink_by(spacing).size().axis(style.main_axis) as i128
        - found.content_size.axis(style.main_axis) as i128;
    if remaining > 0 {
        if found.total_expand_factor == 0 {
            let slack = clamp_to_u64(remaining as u128);
            match style.main_justify {
                Justify::Min => (0, slack, 0),
                Justify::Max => (slack, 0, 0),
                Justify::Center => (slack / 2, slack / 2, 0),
            }
        } else {
            (0, 0, clamp_to_i64(remaining / (found.total_expand_factor as i128)))
        }
    } else {
        (0, 0, 0)
    }
}

fn main_amount_of(axis: Axis, share: i64, child: &LayoutCharacteristics) -> (r: i64)
    ensures
        r == main_amount(axis, share as int, *child),
{
    match child.layout_style.sizing(axis) {
        Sizing::Expand => share,
        Sizing::Fixed(_) => child.min_size.axis(axis),
        Sizing::Fit => child.min_size.axis(axis),
    }
}

fn cross_amount_of(
    style: &ContainerLayoutStyle,
    content_box: &Rect,
    child: &LayoutCharacteristics,
) -> (r: i64)
    ensures
        r == cross_amount(*style, *content_box, *child),
{
    let cross_axis = style.main_axis.cross();
    match child.layout_style.sizing(cross_axis) {
        Sizing::Expand => content_box.size().axis(cross_axis),
        Sizing::Fixed(_) => child.min_size.axis(cross_axis),
        Sizing::Fit => child.min_size.axis(cross_axis),
    }
}

fn cross_start_of(
    style: &ContainerLayoutStyle,
    content_box: &Rect,
    content_cross: i64,
    extent: i64,
) -> (r: i64)
    ensures
        r == cross_start(*style, *content_box, content_cross as int, extent as int),
{
    let origin: i64 = match style.main_axis.cross() {
        Axis::Horizontal => content_box.left(),
        Axis::Vertical => content_box.top(),
    };
    let slack: i128 = content_cross as i128 - extent as i128;
    let offset: i128 = match style.cross_justify {
        Justify::Min => 0,
        Justify::Max => slack,
        Justify::Center => slack / 2,
    };
    clamp_to_i64(origin as i128 + offset)
}

fn main_start_of(
    style: &ContainerLayoutStyle,
    content_box: &Rect,
    before: i128,
    extent: i64,
) -> (r: i64)
    ensures
        r == main_start(*style, *content_box, before as int, extent as int),
{
    // Beyond this bound the start is clamped whatever `before` is.
    let near: i128 = if before > 0x4_0000_0000_0000_0000 {
        0x4_0000_0000_0000_0000
    } else if before < -0x4_0000_0000_0000_0000 {
        -0x4_0000_0000_0000_0000
    } else {
        before
    };
    match (style.main_axis, style.main_direction) {
        (Axis::Horizontal, Direction::Positive) => clamp_to_i64(content_box.left() as i128 + near),
        (Axis::Horizontal, Direction::Negative) => clamp_to_i64(
            content_box.right() as i128 - near - extent as i128,
        ),
        (Axis::Vertical, Direction::Positive) => clamp_to_i64(content_box.top() as i128 + near),
        (Axis::Vertical, Direction::Negative) => clamp_to_i64(
            content_box.bottom() as i128 - near - extent as i128,
        ),
    }
}

} // verus!
