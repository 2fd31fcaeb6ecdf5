use yoru::layout::{Layout, LayoutInput, Shape};
use yoru::math::{Axis, Point, Rect, Size, SizeRect, SCALE_ONE, UNBOUNDED};
use yoru::style::{Color, LayoutStyle, Sizing};

fn style(margin: u64, border: u64, padding: u64) -> LayoutStyle {
    LayoutStyle {
        border_size: border,
        padding: SizeRect::from_border(padding),
        margin: SizeRect::from_border(margin),
        width: Sizing::Fit,
        height: Sizing::Fit,
    }
}

fn encloses(outer: Rect, inner: Rect) -> bool {
    inner.width() <= 0
        || inner.height() <= 0
        || (outer.left() <= inner.left()
            && inner.right() <= outer.right()
            && outer.top() <= inner.top()
            && inner.bottom() <= outer.bottom())
}

#[test]
fn colors_have_their_channels() {
    assert_eq!(Color::from_rgb8(1, 2, 3), Color { r: 1, g: 2, b: 3, a: 255 });
    assert_eq!(Color::from_rgba8(1, 2, 3, 4), Color { r: 1, g: 2, b: 3, a: 4 });
    assert_eq!(Color::black(), Color::from_rgb8(0, 0, 0));
    assert_eq!(Color::dark_gray(), Color::from_rgb8(105, 105, 105));
    assert_eq!(Color::gray(), Color::from_rgb8(128, 128, 128));
    assert_eq!(Color::light_gray(), Color::from_rgb8(211, 211, 211));
    assert_eq!(Color::white(), Color::from_rgb8(255, 255, 255));
    assert_eq!(Color::red(), Color::from_rgb8(255, 0, 0));
    assert_eq!(Color::green(), Color::from_rgb8(0, 255, 0));
    assert_eq!(Color::blue(), Color::from_rgb8(0, 0, 255));
    assert_eq!(Color::from_rgba8(1, 2, 3, 4).swapped_red_blue(), Color::from_rgba8(3, 2, 1, 4));
}

#[test]
fn only_fixed_sizing_is_definite() {
    assert_eq!(Sizing::Expand.as_definite(SCALE_ONE), None);
    assert_eq!(Sizing::Fit.as_definite(SCALE_ONE), None);
    assert_eq!(Sizing::Fixed(20).as_definite(SCALE_ONE), Some(20));
    assert_eq!(Sizing::Fixed(20).as_definite(1536), Some(30));
}

#[test]
fn spacing_adds_margin_border_and_padding() {
    let s = LayoutStyle {
        border_size: 2,
        padding: SizeRect::new(1, 2, 3, 4),
        margin: SizeRect::new(10, 20, 30, 40),
        width: Sizing::Fit,
        height: Sizing::Expand,
    };
    assert_eq!(s.spacing_size(), SizeRect::new(13, 24, 35, 46));
    assert_eq!(s.spacing(SCALE_ONE), SizeRect::new(13, 24, 35, 46));
    assert_eq!(s.spacing(2048), SizeRect::new(26, 48, 70, 92));
    assert_eq!(s.sizing(Axis::Horizontal), Sizing::Fit);
    assert_eq!(s.sizing(Axis::Vertical), Sizing::Expand);
}

#[test]
fn request_shape_follows_the_available_size() {
    let unconstrained = LayoutInput::ComputeSize {
        available: Size::new(UNBOUNDED, 40),
        scale_factor: SCALE_ONE,
    };
    let bounded = LayoutInput::ComputeSize { available: Size::new(30, 40), scale_factor: 2048 };
    let arrange = LayoutInput::FinalLayout {
        allocated: Rect::from_xywh(5, 6, 30, 40),
        scale_factor: SCALE_ONE,
    };
    assert_eq!(unconstrained.shape(), Shape::Unconstrained);
    assert_eq!(bounded.shape(), Shape::Bounded);
    assert_eq!(arrange.shape(), Shape::Final);
    assert_eq!(bounded.scale_factor(), 2048);
    assert_eq!(bounded.offered(), Size::new(30, 40));
    assert_eq!(arrange.offered(), Size::new(30, 40));
    assert_eq!(bounded.anchor(), Point::new(0, 0));
    assert_eq!(arrange.anchor(), Point::new(5, 6));
}

#[test]
fn boxes_shrink_by_the_scaled_attributes() {
    let layout = Layout::from_margin_box(&style(10, 4, 3), 1536, Rect::from_xywh(100, 200, 300, 400));
    assert_eq!(layout.margin_box, Rect::from_xywh(100, 200, 300, 400));
    // margin 10 and half of border 4, times 1.5
    assert_eq!(layout.border_box, Rect::from_xywh(118, 218, 264, 364));
    // margin 10 and border 4, times 1.5
    assert_eq!(layout.padding_box, Rect::from_xywh(121, 221, 258, 358));
    // margin 10, border 4 and padding 3, times 1.5 and rounded down
    assert_eq!(layout.content_box, Rect::from_xywh(125, 225, 250, 350));
    assert_eq!(layout.scale_factor, 1536);
}

#[test]
fn boxes_nest() {
    let boxes = [
        Rect::from_xywh(100, 200, 300, 400),
        Rect::from_xywh(-50, -50, 20, 20),
        Rect::from_xywh(0, 0, 10, 10),
        Rect::from_xywh(0, 0, 0, 0),
        Rect::from_xywh(7, 7, -3, 100),
    ];
    for margin_box in boxes {
        for scale in [0u32, 512, SCALE_ONE, 1536, 4096] {
            let layout = Layout::from_margin_box(&style(10, 5, 3), scale, margin_box);
            assert!(encloses(layout.margin_box, layout.border_box));
            assert!(encloses(layout.border_box, layout.padding_box));
            assert!(encloses(layout.padding_box, layout.content_box));
            assert!(layout.content_box.width() >= 0 && layout.content_box.height() >= 0);
        }
    }
}

#[test]
fn boxes_of_a_tight_margin_box_are_empty() {
    let layout = Layout::from_margin_box(&style(20, 0, 0), SCALE_ONE, Rect::from_xywh(0, 0, 10, 10));
    assert_eq!(layout.border_box, Rect::from_xywh(20, 20, 0, 0));
    assert_eq!(layout.content_box, Rect::from_xywh(20, 20, 0, 0));
}

#[test]
fn layout_from_request_uses_corner_and_offered_size() {
    let input = LayoutInput::FinalLayout {
        allocated: Rect::from_xywh(5, 6, 30, 40),
        scale_factor: SCALE_ONE,
    };
    assert_eq!(
        Layout::from_layout_input(&style(1, 0, 0), input),
        Layout::from_margin_box(&style(1, 0, 0), SCALE_ONE, Rect::from_xywh(5, 6, 30, 40))
    );
    assert_eq!(Layout::unset().margin_box, Rect::from_xywh(0, 0, 0, 0));
    assert_eq!(Layout::unset().content_box, Rect::from_xywh(0, 0, 0, 0));
}
