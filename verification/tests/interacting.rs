use std::cell::RefCell;
use yoru::element::{selection_change, Root};
use yoru::interact::{
    ElementState, InteractSet, Interaction, InteractionState, MouseButton, PointerEvent,
};
use yoru::math::{Axis, Point, Rect, Size, SizeRect, SCALE_ONE};
use yoru::style::{ContainerLayoutStyle, Direction, Justify, LayoutStyle, Sizing};
use yoru::tracking::{RwSignal, ReadableSignal, Tracker, WritableSignal};

fn plain(width: Sizing, height: Sizing) -> LayoutStyle {
    LayoutStyle {
        border_size: 0,
        padding: SizeRect::from_border(0),
        margin: SizeRect::from_border(0),
        width,
        height,
    }
}

fn column() -> ContainerLayoutStyle {
    ContainerLayoutStyle {
        layout_style: plain(Sizing::Fit, Sizing::Fit),
        main_axis: Axis::Vertical,
        main_direction: Direction::Positive,
        main_justify: Justify::Min,
        cross_justify: Justify::Min,
    }
}

fn button() -> ContainerLayoutStyle {
    let mut style = column();
    style.layout_style.border_size = 2;
    style.layout_style.margin = SizeRect::from_border(1);
    style.layout_style.padding = SizeRect::from_border(2);
    style
}

fn click(x: i64, y: i64) -> Interaction {
    Interaction::Click(Point::new(x, y))
}

#[test]
fn empty_set_accepts_nothing() {
    let empty = InteractSet::empty();
    assert!(!empty.click);
    assert_eq!(empty.click_area, Rect::from_xywh(0, 0, 0, 0));
    assert_eq!(InteractSet::default(), empty);
    assert!(!empty.accepts(&click(0, 0)));
}

#[test]
fn set_accepts_clicks_in_its_area() {
    let set = InteractSet::clickable(Rect::from_xywh(10, 10, 5, 5));
    assert!(set.accepts(&click(10, 10)));
    assert!(set.accepts(&click(14, 14)));
    assert!(!set.accepts(&click(15, 10)));
    let deaf = InteractSet { click: false, click_area: Rect::from_xywh(10, 10, 5, 5) };
    assert!(!deaf.accepts(&click(12, 12)));
}

#[test]
fn union_takes_the_hull_of_the_areas() {
    let a = InteractSet::clickable(Rect::from_xywh(10, 10, 5, 5));
    let b = InteractSet::clickable(Rect::from_xywh(-5, 12, 3, 20));
    let both = a | b;
    assert!(both.click);
    assert_eq!(both.click_area, Rect::from_lrtb(-5, 15, 10, 32));
    assert_eq!(b | a, both);
    assert!(both.accepts(&click(0, 11)));
    assert!(both.accepts(&click(12, 12)));
}

#[test]
fn only_the_empty_set_adds_nothing() {
    let a = InteractSet::clickable(Rect::from_xywh(10, 0, 10, 10));
    let deaf = InteractSet { click: false, click_area: Rect::from_xywh(0, 0, 5, 10) };
    let flat = InteractSet::clickable(Rect::from_xywh(100, 100, 0, 7));
    assert!(!a.is_empty());
    assert!(!deaf.is_empty());
    assert!(!flat.is_empty());
    assert!(InteractSet::empty().is_empty());
    // the area of a set that accepts no click is joined in like any other
    assert_eq!(a | deaf, InteractSet::clickable(Rect::from_xywh(0, 0, 20, 10)));
    assert_eq!(deaf | a, a | deaf);
    // and so is an area without extent
    assert_eq!((a | flat).click_area, Rect::from_lrtb(10, 100, 0, 107));
    assert_eq!(flat | a, a | flat);
    assert_eq!(deaf | deaf, deaf);
    assert_eq!(a | InteractSet::empty(), a);
}

#[test]
fn empty_set_is_neutral() {
    let sets = [
        InteractSet::clickable(Rect::from_xywh(10, 10, 5, 5)),
        InteractSet::clickable(Rect::from_xywh(-3, -4, 10, 20)),
        InteractSet::clickable(Rect::from_xywh(0, 0, 7, 7)),
        InteractSet::clickable(Rect::from_xywh(5, 5, 0, 0)),
        InteractSet::clickable(Rect::from_xywh(5, 5, -1, 3)),
        InteractSet { click: false, click_area: Rect::from_xywh(10, 10, 5, 5) },
        InteractSet { click: false, click_area: Rect::from_xywh(5, 5, 0, 0) },
        InteractSet::empty(),
    ];
    for x in sets {
        assert_eq!(InteractSet::default() | x, x);
        assert_eq!(x | InteractSet::default(), x);
    }
}

#[test]
fn left_release_is_a_click_at_the_cursor() {
    let mut state = InteractionState::new();
    assert_eq!(state.cursor_position(), Point::new(0, 0));
    assert_eq!(
        state.interpret(PointerEvent::CursorMoved { position: Point::new(30, 40) }),
        (true, None)
    );
    assert_eq!(state.cursor_position(), Point::new(30, 40));
    assert_eq!(
        state.interpret(PointerEvent::MouseInput { button: MouseButton::Left, state: ElementState::Pressed }),
        (false, None)
    );
    assert_eq!(
        state.interpret(PointerEvent::MouseInput { button: MouseButton::Right, state: ElementState::Released }),
        (false, None)
    );
    assert_eq!(state.interpret(PointerEvent::Other), (false, None));
    assert_eq!(
        state.interpret(PointerEvent::MouseInput { button: MouseButton::Left, state: ElementState::Released }),
        (true, Some(click(30, 40)))
    );
    let sent = RefCell::new(Vec::new());
    let handled = state.handle_window_event(
        PointerEvent::MouseInput { button: MouseButton::Left, state: ElementState::Released },
        |interaction| sent.borrow_mut().push(interaction),
    );
    assert!(handled);
    assert_eq!(sent.borrow().as_slice(), &[click(30, 40)]);
    let handled = state.handle_window_event(PointerEvent::Other, |interaction| {
        sent.borrow_mut().push(interaction)
    });
    assert!(!handled);
    assert_eq!(sent.borrow().len(), 1);
}

struct Scene {
    tracker: Tracker,
    root: Root,
    outer: usize,
    first: usize,
    second: usize,
    label: usize,
}

fn scene() -> Scene {
    let mut tracker = Tracker::new();
    let mut root = Root::new(&mut tracker);
    let outer = root.add_container(&mut tracker, column(), false);
    let first = root.add_container(&mut tracker, button(), true);
    let second = root.add_container(&mut tracker, button(), true);
    let label = root.add_leaf(&mut tracker, plain(Sizing::Fit, Sizing::Fit), false);
    root.add_child(&mut tracker, outer, first);
    root.add_child(&mut tracker, outer, second);
    root.add_child(&mut tracker, first, label);
    root.set_root(outer);
    Scene { tracker, root, outer, first, second, label }
}

fn measure(_: usize, _: Size, _: u32) -> Size {
    Size::new(40, 10)
}

#[test]
fn interactions_are_gathered_from_the_subtree() {
    let mut s = scene();
    s.root.layout(&mut s.tracker, Size::new(200, 100), SCALE_ONE, &measure);
    assert_eq!(s.root.get_final_layout(s.first).margin_box, Rect::from_xywh(0, 0, 50, 20));
    assert_eq!(s.root.get_final_layout(s.first).border_box, Rect::from_xywh(2, 2, 46, 16));
    assert_eq!(s.root.get_final_layout(s.second).margin_box, Rect::from_xywh(0, 20, 10, 10));
    let set = s.root.interactions(&mut s.tracker);
    assert!(set.click);
    // the hull of the border boxes of the two buttons
    assert_eq!(set.click_area, Rect::from_lrtb(2, 48, 2, 28));
    assert_eq!(s.root.interactions_of(&mut s.tracker, s.first).click_area, Rect::from_xywh(2, 2, 46, 16));
    assert_eq!(s.root.interactions_of(&mut s.tracker, s.label), InteractSet::empty());
    assert_eq!(s.root.tree().len(), 4);
    assert_eq!(s.root.root(), s.outer);
}

#[test]
fn interactions_are_gathered_again_after_the_layout_changed() {
    let mut s = scene();
    s.root.layout(&mut s.tracker, Size::new(200, 100), SCALE_ONE, &measure);
    let before = s.root.interactions(&mut s.tracker);
    assert_eq!(s.root.interactions(&mut s.tracker), before);
    // a wider label moves nothing but widens the first button
    s.root.invalidate(s.label);
    let wide = |_: usize, _: Size, _: u32| Size::new(80, 10);
    s.root.layout(&mut s.tracker, Size::new(200, 100), SCALE_ONE, &wide);
    let after = s.root.interactions(&mut s.tracker);
    assert_eq!(after.click_area, Rect::from_lrtb(2, 88, 2, 28));
    s.root.invalidate_interactions(&mut s.tracker, s.second);
    assert_eq!(s.root.interactions(&mut s.tracker), after);
}

#[test]
fn click_goes_to_the_innermost_node_first() {
    let mut tracker = Tracker::new();
    let mut root = Root::new(&mut tracker);
    let outer = root.add_container(&mut tracker, button(), true);
    let inner = root.add_container(&mut tracker, button(), true);
    let beside = root.add_container(&mut tracker, button(), true);
    root.add_child(&mut tracker, outer, inner);
    root.add_child(&mut tracker, outer, beside);
    root.set_root(outer);
    let mut fixed = button();
    fixed.layout_style.width = Sizing::Fixed(30);
    fixed.layout_style.height = Sizing::Fixed(30);
    root.layout(&mut tracker, Size::new(200, 200), SCALE_ONE, &measure);
    root.interactions(&mut tracker);
    // outer border box: (2, 2) to (198, 198); inner margin box at the
    // content box of the outer one: (5, 5), its border box from (7, 7)
    assert_eq!(root.get_final_layout(inner).border_box, Rect::from_xywh(7, 7, 6, 6));
    assert_eq!(root.handle_interaction(&click(8, 8)), vec![inner, outer]);
    assert_eq!(root.handle_interaction(&click(100, 100)), vec![outer]);
    assert_eq!(root.handle_interaction(&click(1, 1)), Vec::<usize>::new());
    assert_eq!(root.handle_interaction(&click(8, 18)), vec![beside, outer]);
    let mut targets = vec![99];
    root.collect_targets(inner, &click(8, 8), &mut targets);
    assert_eq!(targets, vec![99, inner]);
}

#[test]
fn selecting_a_child_invalidates_the_ancestors() {
    let mut tracker = Tracker::new();
    let mut root = Root::new(&mut tracker);
    let top = root.add_container(&mut tracker, column(), false);
    let select = root.add_container(&mut tracker, column(), false);
    let plain_option = root.add_leaf(&mut tracker, plain(Sizing::Fit, Sizing::Fit), false);
    let clickable_option = root.add_container(&mut tracker, button(), true);
    root.add_child(&mut tracker, top, select);
    root.add_child(&mut tracker, select, plain_option);
    root.set_root(top);
    root.layout(&mut tracker, Size::new(200, 100), SCALE_ONE, &measure);
    assert!(!root.interactions(&mut tracker).click);
    root.select(&mut tracker, plain_option, clickable_option);
    assert!(!root.tree().cache(top).any_valid());
    assert!(!root.tree().cache(select).any_valid());
    assert_eq!(root.tree().parent(plain_option), None);
    assert_eq!(root.tree().parent(clickable_option), Some(select));
    root.layout(&mut tracker, Size::new(200, 100), SCALE_ONE, &measure);
    let set = root.interactions(&mut tracker);
    assert!(set.click);
    assert_eq!(set.click_area, Rect::from_lrtb(2, 8, 2, 8));
    root.remove_child(&mut tracker, clickable_option);
    assert_eq!(root.tree().child_count(select), 0);
}

#[test]
fn redraw_is_needed_after_a_change_of_what_the_update_read() {
    let mut tracker = Tracker::new();
    let mut root = Root::new(&mut tracker);
    let mut text = RwSignal::new(&mut tracker, 7);
    let mut other = RwSignal::new(&mut tracker, 0);
    assert!(root.needs_redraw(&tracker));
    let seen = RefCell::new(Vec::new());
    root.update(&mut tracker, |t: &mut Tracker| seen.borrow_mut().push(text.get(t)));
    assert!(!root.needs_redraw(&tracker));
    root.update(&mut tracker, |t: &mut Tracker| seen.borrow_mut().push(text.get(t)));
    assert_eq!(seen.borrow().as_slice(), &[7]);
    other.set(&mut tracker, 1);
    assert!(!root.needs_redraw(&tracker));
    text.set(&mut tracker, 8);
    assert!(root.needs_redraw(&tracker));
    root.update(&mut tracker, |t: &mut Tracker| seen.borrow_mut().push(text.get(t)));
    assert_eq!(seen.borrow().as_slice(), &[7, 8]);
}

#[test]
fn added_child_is_gathered_with_the_next_interactions() {
    let mut tracker = Tracker::new();
    let mut root = Root::new(&mut tracker);
    let outer = root.add_container(&mut tracker, column(), false);
    let first = root.add_container(&mut tracker, button(), true);
    let second = root.add_container(&mut tracker, button(), true);
    root.add_child(&mut tracker, outer, first);
    root.set_root(outer);
    root.layout(&mut tracker, Size::new(200, 100), SCALE_ONE, &measure);
    assert_eq!(root.interactions(&mut tracker).click_area, Rect::from_xywh(2, 2, 6, 6));
    root.add_child(&mut tracker, outer, second);
    assert!(!root.tree().cache(outer).any_valid());
    root.layout(&mut tracker, Size::new(200, 100), SCALE_ONE, &measure);
    assert_eq!(root.get_final_layout(second).border_box, Rect::from_xywh(2, 12, 6, 6));
    assert_eq!(root.interactions(&mut tracker).click_area, Rect::from_lrtb(2, 8, 2, 18));
    root.remove_child(&mut tracker, first);
    root.layout(&mut tracker, Size::new(200, 100), SCALE_ONE, &measure);
    assert_eq!(root.interactions(&mut tracker).click_area, Rect::from_xywh(2, 2, 6, 6));
    assert_eq!(root.handle_interaction(&click(3, 3)), vec![second]);
}

#[test]
fn selection_changes_between_two_options_only() {
    let options = [7, 8, 9];
    assert_eq!(selection_change(0, 2, &options), Some((7, 9)));
    assert_eq!(selection_change(2, 1, &options), Some((9, 8)));
    assert_eq!(selection_change(1, 1, &options), None);
    assert_eq!(selection_change(0, 3, &options), None);
    assert_eq!(selection_change(3, 0, &options), None);
    assert_eq!(selection_change(0, 1, &[]), None);
}
