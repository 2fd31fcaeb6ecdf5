use yoru::math::{
    add_extents, clamp_to_i64, clamp_to_u64, scale_half_length, scale_length, sub_extents, Axis,
    Point, Rect, Size, SizeRect, Vector, SCALE_ONE, UNBOUNDED,
};

#[test]
fn cross_of_horizontal_is_vertical() {
    assert_eq!(Axis::Horizontal.cross(), Axis::Vertical);
    assert_eq!(Axis::Vertical.cross(), Axis::Horizontal);
    assert_eq!(Axis::default(), Axis::Vertical);
}

#[test]
fn clamping_stops_at_the_ends_of_the_range() {
    assert_eq!(clamp_to_i64(5), 5);
    assert_eq!(clamp_to_i64(i64::MAX as i128 + 1), i64::MAX);
    assert_eq!(clamp_to_i64(i64::MIN as i128 - 7), i64::MIN);
    assert_eq!(clamp_to_u64(u64::MAX as u128 + 1), u64::MAX);
    assert_eq!(clamp_to_u64(12), 12);
}

#[test]
fn unbounded_extent_stays_unbounded() {
    assert_eq!(sub_extents(UNBOUNDED, 30), UNBOUNDED);
    assert_eq!(add_extents(UNBOUNDED, -30), UNBOUNDED);
    assert_eq!(add_extents(4, UNBOUNDED), UNBOUNDED);
    assert_eq!(sub_extents(100, 30), 70);
    assert_eq!(add_extents(100, 30), 130);
    let available = Size::new(UNBOUNDED, 200);
    assert!(available.is_unbounded());
    assert_eq!(available.minus(Size::new(10, 20)), Size::new(UNBOUNDED, 180));
    assert!(!Size::new(3, 4).is_unbounded());
}

#[test]
fn scaling_rounds_down() {
    assert_eq!(SCALE_ONE, 1024);
    assert_eq!(scale_length(10, SCALE_ONE), 10);
    assert_eq!(scale_length(10, 1536), 15);
    assert_eq!(scale_length(3, 1536), 4);
    assert_eq!(scale_half_length(5, SCALE_ONE), 2);
    assert_eq!(scale_half_length(6, 2048), 6);
    assert_eq!(
        SizeRect::new(1, 2, 3, 4).scaled(2048),
        SizeRect::new(2, 4, 6, 8)
    );
}

#[test]
fn points_and_vectors_add_up() {
    let p = Point::new(3, 4);
    let q = Point::new(10, 1);
    assert_eq!(q.minus(p), Vector::new(7, -3));
    assert_eq!(p.offset(Vector::new(7, -3)), q);
    assert_eq!(Vector::new(1, 2).plus(Vector::new(3, 4)), Vector::new(4, 6));
    assert_eq!(Vector::new(1, 2).minus(Vector::new(3, 4)), Vector::new(-2, -2));
    assert_eq!(Point::zeroed(), Point::new(0, 0));
}

#[test]
fn size_is_assembled_by_axis() {
    assert_eq!(Size::from_axes(Axis::Horizontal, 7, 9), Size::new(7, 9));
    assert_eq!(Size::from_axes(Axis::Vertical, 7, 9), Size::new(9, 7));
    let s = Size::new(7, 9);
    assert_eq!(s.width(), 7);
    assert_eq!(s.height(), 9);
    assert_eq!(s.axis(Axis::Horizontal), 7);
    assert_eq!(s.axis(Axis::Vertical), 9);
    assert_eq!(s.as_vector(), Vector::new(7, 9));
    assert_eq!(Size::from_border(3), Size::new(6, 6));
    assert_eq!(Size::new(-2, 5).clamp_positive(), Size::new(0, 5));
    assert_eq!(s.plus(Size::new(1, 1)), Size::new(8, 10));
}

#[test]
fn spacing_is_assembled_by_axis() {
    assert_eq!(SizeRect::from_axis(Axis::Horizontal, 1, 2), SizeRect::new(1, 2, 0, 0));
    assert_eq!(SizeRect::from_axis(Axis::Vertical, 1, 2), SizeRect::new(0, 0, 1, 2));
    assert_eq!(SizeRect::from_axes(5, 6), SizeRect::new(5, 5, 6, 6));
    assert_eq!(SizeRect::from_border(4), SizeRect::new(4, 4, 4, 4));
    let s = SizeRect::new(1, 2, 3, 4);
    assert_eq!(s.sum_axis(Axis::Horizontal), 3);
    assert_eq!(s.sum_axis(Axis::Vertical), 7);
    assert_eq!(s.sum_axes(), Size::new(3, 7));
    assert_eq!(s.plus(SizeRect::from_border(1)), SizeRect::new(2, 3, 4, 5));
    assert_eq!(s.minus(SizeRect::from_border(2)), SizeRect::new(0, 0, 1, 2));
}

#[test]
fn rect_edges_and_corners() {
    let r = Rect::from_lrtb(10, 110, 20, 70);
    assert_eq!(r, Rect::from_xywh(10, 20, 100, 50));
    assert_eq!(r.left(), 10);
    assert_eq!(r.right(), 110);
    assert_eq!(r.top(), 20);
    assert_eq!(r.bottom(), 70);
    assert_eq!(r.x(), 10);
    assert_eq!(r.y(), 20);
    assert_eq!(r.width(), 100);
    assert_eq!(r.height(), 50);
    assert_eq!(r.top_left(), Point::new(10, 20));
    assert_eq!(r.size(), Size::new(100, 50));
    assert_eq!(Rect::from_topleft_size(Point::new(10, 20), Size::new(100, 50)), r);
    assert_eq!(Rect::zeroed(), Rect::from_xywh(0, 0, 0, 0));
    assert_eq!(Rect::from_xywh(i64::MAX, 0, 5, 5).right(), i64::MAX);
}

#[test]
fn shrink_by_moves_each_edge_inwards() {
    let r = Rect::from_xywh(10, 20, 100, 50);
    let s = r.shrink_by(SizeRect::new(1, 2, 3, 4));
    assert_eq!(s, Rect::from_xywh(11, 23, 97, 43));
    assert_eq!(s.grow_by(SizeRect::new(1, 2, 3, 4)), r);
    let tight = Rect::from_xywh(0, 0, 10, 10).shrink_by(SizeRect::from_border(20));
    assert_eq!(tight, Rect::from_xywh(20, 20, -30, -30));
    assert_eq!(tight.clamp_positive(), Rect::from_xywh(20, 20, 0, 0));
}

#[test]
fn rect_contains_its_left_and_top_edge_only() {
    let r = Rect::from_xywh(10, 20, 100, 50);
    assert!(r.contains(Point::new(10, 20)));
    assert!(r.contains(Point::new(109, 69)));
    assert!(!r.contains(Point::new(110, 20)));
    assert!(!r.contains(Point::new(10, 70)));
    assert!(!r.contains(Point::new(9, 20)));
    assert!(!Rect::zeroed().contains(Point::new(0, 0)));
}

#[test]
fn bounding_box_is_the_hull() {
    assert_eq!(Rect::bounding_box(&[]), None);
    let a = Rect::from_xywh(10, 10, 5, 5);
    assert_eq!(Rect::bounding_box(&[a]), Some(a));
    let b = Rect::from_xywh(-5, 12, 3, 20);
    assert_eq!(
        Rect::bounding_box(&[a, b]),
        Some(Rect::from_lrtb(-5, 15, 10, 32))
    );
    // A later rectangle that reaches further left keeps the right edge of
    // the earlier ones.
    assert_eq!(
        Rect::bounding_box(&[b, a, Rect::from_xywh(-20, 0, 1, 1)]),
        Some(Rect::from_lrtb(-20, 15, 0, 32))
    );
}

#[test]
fn operators_agree_with_the_named_operations() {
    let p = Point::new(3, 4);
    let q = Point::new(10, 1);
    assert_eq!(q - p, q.minus(p));
    assert_eq!(p + Vector::new(7, -3), q);
    assert_eq!(Vector::new(7, -3) + p, q);
    assert_eq!(Vector::new(1, 2) + Vector::new(3, 4), Vector::new(4, 6));
    assert_eq!(Vector::new(1, 2) - Vector::new(3, 4), Vector::new(-2, -2));
    assert_eq!(Size::new(UNBOUNDED, 9) - Size::new(4, 4), Size::new(UNBOUNDED, 5));
    assert_eq!(Size::new(1, 9) + Size::new(4, 4), Size::new(5, 13));
    assert_eq!(SizeRect::new(1, 2, 3, 4) + SizeRect::from_border(1), SizeRect::new(2, 3, 4, 5));
    assert_eq!(SizeRect::new(1, 2, 3, 4) - SizeRect::from_border(2), SizeRect::new(0, 0, 1, 2));
    assert_eq!(Vector::new(i64::MAX, 0) + Vector::new(1, 0), Vector::new(i64::MAX, 0));
}

#[test]
fn conversions_fill_the_sides() {
    assert_eq!(Point::from((3, 4)), Point::new(3, 4));
    assert_eq!(SizeRect::from(5), SizeRect::new(5, 5, 5, 5));
    assert_eq!(SizeRect::from((5, 6)), SizeRect::new(5, 5, 6, 6));
    assert_eq!(SizeRect::from((1, 2, 3, 4)), SizeRect::new(1, 2, 3, 4));
}

#[test]
fn sizes_scale_towards_zero() {
    assert_eq!(Size::new(10, -3).scaled(1536), Size::new(15, -4));
    assert_eq!(Size::new(UNBOUNDED, 7).scaled(2048), Size::new(UNBOUNDED, 14));
    assert_eq!(Size::new(1, 1).scaled(512), Size::new(0, 0));
    assert_eq!(Size::new(10, -3) * 1536, Size::new(15, -4));
    assert_eq!(SizeRect::new(1, 2, 3, 4) * 2048, SizeRect::new(2, 4, 6, 8));
}
