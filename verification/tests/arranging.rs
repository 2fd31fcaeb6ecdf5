use yoru::layout::container::{
    arrange, do_layout, do_prelayout, measure_children, request_for_children,
};
use yoru::layout::leaf;
use yoru::layout::{ComputedLayout, LayoutCharacteristics, LayoutInput, PrelayoutInput};
use yoru::math::{Axis, Rect, Size, SizeRect, SCALE_ONE, UNBOUNDED};
use yoru::style::{ContainerLayoutStyle, Direction, Justify, LayoutStyle, Sizing};

fn plain(width: Sizing, height: Sizing) -> LayoutStyle {
    LayoutStyle {
        border_size: 0,
        padding: SizeRect::from_border(0),
        margin: SizeRect::from_border(0),
        width,
        height,
    }
}

fn row(main_justify: Justify, cross_justify: Justify) -> ContainerLayoutStyle {
    ContainerLayoutStyle {
        layout_style: plain(Sizing::Fit, Sizing::Fit),
        main_axis: Axis::Horizontal,
        main_direction: Direction::Positive,
        main_justify,
        cross_justify,
    }
}

fn child(width: Sizing, height: Sizing, w: i64, h: i64) -> LayoutCharacteristics {
    LayoutCharacteristics { layout_style: plain(width, height), min_size: Size::new(w, h) }
}

fn allocated(input: &LayoutInput) -> Rect {
    match input {
        LayoutInput::FinalLayout { allocated, .. } => *allocated,
        LayoutInput::ComputeSize { .. } => panic!("a measurement where an arrangement is due"),
    }
}

fn arrangement(x: i64, y: i64, w: i64, h: i64) -> LayoutInput {
    LayoutInput::FinalLayout { allocated: Rect::from_xywh(x, y, w, h), scale_factor: SCALE_ONE }
}

#[test]
fn leaf_budget_is_the_offer_less_the_spacing() {
    let style = LayoutStyle {
        border_size: 2,
        padding: SizeRect::from_border(3),
        margin: SizeRect::new(1, 2, 3, 4),
        width: Sizing::Fit,
        height: Sizing::Fit,
    };
    let input = LayoutInput::ComputeSize { available: Size::new(100, UNBOUNDED), scale_factor: SCALE_ONE };
    // left 1 + 2 + 3, right 2 + 2 + 3
    assert_eq!(leaf::budget(&style, input), Size::new(87, UNBOUNDED));
    assert_eq!(
        leaf::place(&style, input, Size::new(40, 10)),
        ComputedLayout { margin_box: Rect::from_xywh(0, 0, 53, 27) }
    );
    let at = LayoutInput::FinalLayout { allocated: Rect::from_xywh(7, 9, 100, 50), scale_factor: 2048 };
    assert_eq!(leaf::budget(&style, at), Size::new(74, 16));
    assert_eq!(
        leaf::place(&style, at, Size::new(40, 10)),
        ComputedLayout { margin_box: Rect::from_xywh(7, 9, 66, 44) }
    );
}

#[test]
fn leaf_measures_within_the_budget() {
    let style = LayoutStyle {
        border_size: 1,
        padding: SizeRect::from_border(0),
        margin: SizeRect::from_border(4),
        width: Sizing::Fit,
        height: Sizing::Fit,
    };
    let characteristics = leaf::do_prelayout(
        &style,
        PrelayoutInput { available: Size::new(50, 60), scale_factor: SCALE_ONE },
        |budget, scale| {
            assert_eq!(budget, Size::new(40, 50));
            assert_eq!(scale, SCALE_ONE);
            Size::new(30, 8)
        },
    );
    assert_eq!(characteristics.min_size, Size::new(40, 18));
    assert_eq!(characteristics.layout_style, style);
    let computed = leaf::do_layout(
        &style,
        LayoutInput::FinalLayout { allocated: Rect::from_xywh(3, 4, 50, 60), scale_factor: SCALE_ONE },
        |_, _| Size::new(30, 8),
    );
    assert_eq!(computed.margin_box, Rect::from_xywh(3, 4, 40, 18));
}

#[test]
fn children_are_asked_without_limit_along_the_main_axis() {
    let mut style = row(Justify::Min, Justify::Min);
    style.layout_style.margin = SizeRect::from_border(5);
    assert_eq!(
        request_for_children(&style, Size::new(100, 40), SCALE_ONE),
        LayoutInput::ComputeSize { available: Size::new(UNBOUNDED, 30), scale_factor: SCALE_ONE }
    );
    style.main_axis = Axis::Vertical;
    assert_eq!(
        request_for_children(&style, Size::new(100, 40), SCALE_ONE),
        LayoutInput::ComputeSize { available: Size::new(90, UNBOUNDED), scale_factor: SCALE_ONE }
    );
}

#[test]
fn measure_pass_adds_up_the_children() {
    let style = row(Justify::Min, Justify::Min);
    let children = [
        child(Sizing::Fit, Sizing::Fit, 10, 5),
        child(Sizing::Expand, Sizing::Fit, 7, 9),
        child(Sizing::Fixed(3), Sizing::Fit, 3, 2),
        child(Sizing::Expand, Sizing::Fit, 4, 1),
    ];
    let found = measure_children(&style, SCALE_ONE, &children);
    assert_eq!(found.total_expand_factor, 2);
    assert_eq!(found.max_space_per_expand, 7);
    // 10 + 3 for those that do not expand, 2 * 7 for those that do
    assert_eq!(found.total_main_space, 27);
    assert_eq!(found.max_cross_space, 9);
    assert_eq!(found.content_size, Size::new(27, 9));
    let none = measure_children(&style, SCALE_ONE, &[]);
    assert_eq!(none.content_size, Size::new(0, 0));
    assert_eq!(none.total_expand_factor, 0);
}

#[test]
fn definite_sizing_overrides_the_children() {
    let mut style = row(Justify::Min, Justify::Min);
    style.layout_style.width = Sizing::Fixed(40);
    style.layout_style.margin = SizeRect::from_border(1);
    let children = [child(Sizing::Fit, Sizing::Fit, 10, 5)];
    let found = measure_children(&style, 2048, &children);
    assert_eq!(found.content_size, Size::new(80, 5));
    assert_eq!(found.total_main_space, 10);
    let characteristics = do_prelayout(
        &style,
        PrelayoutInput { available: Size::new(UNBOUNDED, UNBOUNDED), scale_factor: 2048 },
        &children,
    );
    assert_eq!(characteristics.min_size, Size::new(84, 9));
    assert_eq!(characteristics.layout_style, style.layout_style);
}

#[test]
fn expanding_children_share_the_slack_evenly() {
    let style = row(Justify::Min, Justify::Min);
    let children = [
        child(Sizing::Expand, Sizing::Fit, 0, 10),
        child(Sizing::Expand, Sizing::Fit, 0, 10),
    ];
    let rects = do_layout(&style, arrangement(0, 0, 100, 10), &children);
    assert_eq!(rects.len(), 2);
    let first = allocated(&rects[0]);
    let second = allocated(&rects[1]);
    assert_eq!(first, Rect::from_xywh(0, 0, 50, 10));
    assert_eq!(second, Rect::from_xywh(50, 0, 50, 10));
    assert_eq!(first.right(), second.left());
    assert_eq!(rects[0].scale_factor(), SCALE_ONE);
}

#[test]
fn slack_without_expanding_child_is_trimmed_by_justification() {
    let children = [child(Sizing::Fixed(20), Sizing::Fit, 20, 10)];
    let centered = do_layout(&row(Justify::Center, Justify::Min), arrangement(0, 0, 100, 10), &children);
    assert_eq!(allocated(&centered[0]), Rect::from_xywh(40, 0, 20, 10));
    let at_start = do_layout(&row(Justify::Min, Justify::Min), arrangement(0, 0, 100, 10), &children);
    assert_eq!(allocated(&at_start[0]), Rect::from_xywh(0, 0, 20, 10));
    let at_end = do_layout(&row(Justify::Max, Justify::Min), arrangement(0, 0, 100, 10), &children);
    assert_eq!(allocated(&at_end[0]), Rect::from_xywh(80, 0, 20, 10));
}

#[test]
fn children_follow_one_another_in_the_main_direction() {
    let children = [
        child(Sizing::Fit, Sizing::Fit, 10, 5),
        child(Sizing::Fit, Sizing::Fit, 20, 8),
        child(Sizing::Fit, Sizing::Fit, 30, 2),
    ];
    let mut style = row(Justify::Min, Justify::Min);
    let forward = arrange(&style, Rect::from_xywh(100, 50, 60, 8), SCALE_ONE, &children);
    assert_eq!(allocated(&forward[0]), Rect::from_xywh(100, 50, 10, 5));
    assert_eq!(allocated(&forward[1]), Rect::from_xywh(110, 50, 20, 8));
    assert_eq!(allocated(&forward[2]), Rect::from_xywh(130, 50, 30, 2));
    style.main_direction = Direction::Negative;
    let backward = arrange(&style, Rect::from_xywh(100, 50, 60, 8), SCALE_ONE, &children);
    assert_eq!(allocated(&backward[0]), Rect::from_xywh(150, 50, 10, 5));
    assert_eq!(allocated(&backward[1]), Rect::from_xywh(130, 50, 20, 8));
    assert_eq!(allocated(&backward[2]), Rect::from_xywh(100, 50, 30, 2));
    style.main_axis = Axis::Vertical;
    style.main_direction = Direction::Positive;
    let downward = arrange(&style, Rect::from_xywh(0, 0, 30, 15), SCALE_ONE, &children);
    assert_eq!(allocated(&downward[0]), Rect::from_xywh(0, 0, 10, 5));
    assert_eq!(allocated(&downward[1]), Rect::from_xywh(0, 5, 20, 8));
    assert_eq!(allocated(&downward[2]), Rect::from_xywh(0, 13, 30, 2));
}

#[test]
fn cross_justification_places_within_the_measured_content() {
    let children = [
        child(Sizing::Fit, Sizing::Fit, 10, 4),
        child(Sizing::Fit, Sizing::Fit, 10, 10),
        child(Sizing::Fit, Sizing::Expand, 10, 3),
    ];
    let at_end = arrange(&row(Justify::Min, Justify::Max), Rect::from_xywh(0, 0, 30, 20), SCALE_ONE, &children);
    assert_eq!(allocated(&at_end[0]), Rect::from_xywh(0, 6, 10, 4));
    assert_eq!(allocated(&at_end[1]), Rect::from_xywh(10, 0, 10, 10));
    // expands across: takes the extent of the content box
    assert_eq!(allocated(&at_end[2]), Rect::from_xywh(20, -10, 10, 20));
    let centered = arrange(&row(Justify::Min, Justify::Center), Rect::from_xywh(0, 0, 30, 20), SCALE_ONE, &children);
    assert_eq!(allocated(&centered[0]), Rect::from_xywh(0, 3, 10, 4));
    assert_eq!(allocated(&centered[1]), Rect::from_xywh(10, 0, 10, 10));
    assert_eq!(allocated(&centered[2]), Rect::from_xywh(20, -5, 10, 20));
}

#[test]
fn spacing_is_scaled_before_it_is_taken_off() {
    let mut style = row(Justify::Min, Justify::Min);
    style.layout_style.margin = SizeRect::from_border(10);
    let children = [child(Sizing::Expand, Sizing::Fit, 0, 0)];
    let rects = arrange(&style, Rect::from_xywh(0, 0, 100, 40), 1536, &children);
    assert_eq!(allocated(&rects[0]), Rect::from_xywh(15, 15, 70, 0));
}

#[test]
fn no_slack_leaves_expanding_children_empty() {
    let children = [
        child(Sizing::Fit, Sizing::Fit, 80, 5),
        child(Sizing::Expand, Sizing::Fit, 0, 5),
        child(Sizing::Fit, Sizing::Fit, 40, 5),
    ];
    let rects = arrange(&row(Justify::Center, Justify::Min), Rect::from_xywh(0, 0, 100, 5), SCALE_ONE, &children);
    assert_eq!(allocated(&rects[0]), Rect::from_xywh(0, 0, 80, 5));
    assert_eq!(allocated(&rects[1]), Rect::from_xywh(80, 0, 0, 5));
    assert_eq!(allocated(&rects[2]), Rect::from_xywh(80, 0, 40, 5));
}
