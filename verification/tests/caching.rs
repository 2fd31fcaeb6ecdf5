use std::cell::Cell;
use yoru::cache::{compute_layout_leaf, LayoutCache};
use yoru::layout::{ComputedLayout, LayoutInput, Shape};
use yoru::math::{Axis, Rect, Size, SizeRect, SCALE_ONE, UNBOUNDED};
use yoru::style::{ContainerLayoutStyle, Direction, Justify, LayoutStyle, Sizing};
use yoru::tree::LayoutTree;

fn plain(width: Sizing, height: Sizing) -> LayoutStyle {
    LayoutStyle {
        border_size: 0,
        padding: SizeRect::from_border(0),
        margin: SizeRect::from_border(0),
        width,
        height,
    }
}

fn row(width: Sizing, main_justify: Justify) -> ContainerLayoutStyle {
    ContainerLayoutStyle {
        layout_style: plain(width, Sizing::Fit),
        main_axis: Axis::Horizontal,
        main_direction: Direction::Positive,
        main_justify,
        cross_justify: Justify::Min,
    }
}

fn arrangement(x: i64, y: i64, w: i64, h: i64) -> LayoutInput {
    LayoutInput::FinalLayout { allocated: Rect::from_xywh(x, y, w, h), scale_factor: SCALE_ONE }
}

fn measurement(w: i64, h: i64) -> LayoutInput {
    LayoutInput::ComputeSize { available: Size::new(w, h), scale_factor: SCALE_ONE }
}

#[test]
fn new_cache_answers_nothing() {
    let cache = LayoutCache::new();
    assert!(!cache.any_valid());
    assert_eq!(cache.lookup(measurement(0, 0)), None);
    assert_eq!(cache.lookup(arrangement(0, 0, 0, 0)), None);
    assert_eq!(cache.slot(Shape::Final).cached.margin_box, Rect::from_xywh(0, 0, 0, 0));
    let boxes = cache.get_final_layout(&plain(Sizing::Fit, Sizing::Fit));
    assert_eq!(boxes.margin_box, Rect::from_xywh(0, 0, 0, 0));
    assert_eq!(boxes.content_box, Rect::from_xywh(0, 0, 0, 0));
}

#[test]
fn each_kind_of_request_has_its_own_slot() {
    let mut cache = LayoutCache::new();
    let a = ComputedLayout { margin_box: Rect::from_xywh(0, 0, 1, 1) };
    let b = ComputedLayout { margin_box: Rect::from_xywh(0, 0, 2, 2) };
    let c = ComputedLayout { margin_box: Rect::from_xywh(5, 5, 3, 3) };
    cache.store(measurement(UNBOUNDED, 10), a);
    cache.store(measurement(20, 10), b);
    cache.store(arrangement(5, 5, 3, 3), c);
    assert_eq!(cache.lookup(measurement(UNBOUNDED, 10)), Some(a));
    assert_eq!(cache.lookup(measurement(20, 10)), Some(b));
    assert_eq!(cache.lookup(arrangement(5, 5, 3, 3)), Some(c));
    assert_eq!(cache.lookup(measurement(21, 10)), None);
    assert_eq!(cache.slot(Shape::Unconstrained).cached, a);
    assert_eq!(cache.slot(Shape::Bounded).cached, b);
    cache.store(measurement(21, 10), a);
    assert_eq!(cache.lookup(measurement(20, 10)), None);
    assert_eq!(cache.lookup(measurement(UNBOUNDED, 10)), Some(a));
    cache.invalidate();
    assert!(!cache.any_valid());
    assert_eq!(cache.lookup(arrangement(5, 5, 3, 3)), None);
    // the last arrangement is still what is drawn
    assert_eq!(cache.get_final_layout(&plain(Sizing::Fit, Sizing::Fit)).margin_box, Rect::from_xywh(5, 5, 3, 3));
}

#[test]
fn same_request_is_measured_once() {
    let calls = Cell::new(0u32);
    let style = plain(Sizing::Fit, Sizing::Fit);
    let mut cache = LayoutCache::new();
    let input = measurement(100, 50);
    let first = compute_layout_leaf(&mut cache, &style, input, |_, _| {
        calls.set(calls.get() + 1);
        Size::new(30, 10)
    });
    let second = compute_layout_leaf(&mut cache, &style, input, |_, _| {
        calls.set(calls.get() + 1);
        Size::new(99, 99)
    });
    assert_eq!(calls.get(), 1);
    assert_eq!(first, second);
    assert_eq!(first.margin_box, Rect::from_xywh(0, 0, 30, 10));
    // another request of the same kind is measured anew
    compute_layout_leaf(&mut cache, &style, measurement(100, 51), |_, _| {
        calls.set(calls.get() + 1);
        Size::new(30, 10)
    });
    assert_eq!(calls.get(), 2);
    cache.invalidate();
    let third = compute_layout_leaf(&mut cache, &style, measurement(100, 51), |_, _| {
        calls.set(calls.get() + 1);
        Size::new(31, 11)
    });
    assert_eq!(calls.get(), 3);
    assert_eq!(third.margin_box, Rect::from_xywh(0, 0, 31, 11));
}

#[test]
fn tree_measures_each_leaf_once_per_request() {
    let mut tree = LayoutTree::new();
    let root = tree.add_container(row(Sizing::Fit, Justify::Min));
    let a = tree.add_leaf(plain(Sizing::Fit, Sizing::Fit));
    let b = tree.add_leaf(plain(Sizing::Fit, Sizing::Fit));
    tree.add_child(root, a);
    tree.add_child(root, b);
    let calls = Cell::new(0u32);
    let measure = |leaf: usize, _: Size, _: u32| {
        calls.set(calls.get() + 1);
        if leaf == a {
            Size::new(10, 5)
        } else {
            Size::new(20, 8)
        }
    };
    let first = tree.compute_layout(root, arrangement(0, 0, 100, 20), &measure);
    assert_eq!(first.margin_box, Rect::from_xywh(0, 0, 100, 20));
    // each leaf once for the measurement and once for the arrangement
    assert_eq!(calls.get(), 4);
    let second = tree.compute_layout(root, arrangement(0, 0, 100, 20), &measure);
    assert_eq!(second, first);
    assert_eq!(calls.get(), 4);
    assert_eq!(tree.cache(a).arranged.with_input, arrangement(0, 0, 10, 5));
    assert_eq!(tree.cache(b).arranged.with_input, arrangement(10, 0, 20, 8));
    assert_eq!(tree.get_final_layout(b).margin_box, Rect::from_xywh(10, 0, 20, 8));
    // another rectangle: the measurements of the leaves are still cached
    tree.compute_layout(root, arrangement(0, 0, 200, 20), &measure);
    assert_eq!(calls.get(), 4);
    tree.compute_layout(root, arrangement(5, 0, 200, 20), &measure);
    assert_eq!(calls.get(), 6);
    assert_eq!(tree.cache(b).arranged.with_input, arrangement(15, 0, 20, 8));
}

#[test]
fn tree_measures_a_container_from_its_children() {
    let mut tree = LayoutTree::new();
    let mut style = row(Sizing::Fit, Justify::Min);
    style.layout_style.padding = SizeRect::from_border(2);
    let root = tree.add_container(style);
    let a = tree.add_leaf(plain(Sizing::Fit, Sizing::Fit));
    let b = tree.add_leaf(plain(Sizing::Fit, Sizing::Fit));
    tree.add_child(root, a);
    tree.add_child(root, b);
    let measure = |leaf: usize, budget: Size, _: u32| {
        assert_eq!(budget, Size::new(UNBOUNDED, 36));
        if leaf == a {
            Size::new(10, 5)
        } else {
            Size::new(20, 8)
        }
    };
    let size = tree.compute_layout(root, measurement(300, 40), &measure);
    assert_eq!(size.margin_box, Rect::from_xywh(0, 0, 34, 12));
    assert!(tree.cache(root).bounded.is_valid);
    assert!(!tree.cache(root).arranged.is_valid);
    assert!(tree.cache(a).unconstrained.is_valid);
    assert_eq!(tree.cache(a).unconstrained.cached.margin_box, Rect::from_xywh(0, 0, 10, 5));
}

#[test]
fn two_expanding_children_get_half_each() {
    let mut tree = LayoutTree::new();
    let root = tree.add_container(row(Sizing::Fit, Justify::Min));
    let a = tree.add_container(row(Sizing::Expand, Justify::Min));
    let b = tree.add_container(row(Sizing::Expand, Justify::Min));
    tree.add_child(root, a);
    tree.add_child(root, b);
    let measure = |_: usize, _: Size, _: u32| Size::new(0, 0);
    tree.compute_layout(root, arrangement(0, 0, 100, 10), &measure);
    let first = tree.get_final_layout(a).margin_box;
    let second = tree.get_final_layout(b).margin_box;
    assert_eq!(first.width(), 50);
    assert_eq!(second.width(), 50);
    assert_eq!(first.left(), 0);
    assert_eq!(first.right(), second.left());
    assert_eq!(second.right(), 100);
}

#[test]
fn fixed_child_is_centered_in_the_slack() {
    let mut tree = LayoutTree::new();
    let root = tree.add_container(row(Sizing::Fit, Justify::Center));
    let child = tree.add_container(row(Sizing::Fixed(20), Justify::Min));
    tree.add_child(root, child);
    let measure = |_: usize, _: Size, _: u32| Size::new(0, 0);
    tree.compute_layout(root, arrangement(0, 0, 100, 10), &measure);
    assert_eq!(tree.get_final_layout(child).margin_box.left(), 40);
    assert_eq!(tree.get_final_layout(child).margin_box.width(), 20);
}

#[test]
fn invalidation_reaches_ancestors_only() {
    let mut tree = LayoutTree::new();
    let root = tree.add_container(row(Sizing::Fit, Justify::Min));
    let left = tree.add_container(row(Sizing::Fit, Justify::Min));
    let right = tree.add_container(row(Sizing::Fit, Justify::Min));
    let leaf = tree.add_leaf(plain(Sizing::Fit, Sizing::Fit));
    let sibling = tree.add_leaf(plain(Sizing::Fit, Sizing::Fit));
    let cousin = tree.add_leaf(plain(Sizing::Fit, Sizing::Fit));
    tree.add_child(root, left);
    tree.add_child(root, right);
    tree.add_child(left, leaf);
    tree.add_child(left, sibling);
    tree.add_child(right, cousin);
    let measure = |_: usize, _: Size, _: u32| Size::new(10, 10);
    tree.compute_layout(root, arrangement(0, 0, 100, 10), &measure);
    for node in [root, left, right, leaf, sibling, cousin] {
        assert!(tree.cache(node).arranged.is_valid);
        assert!(tree.cache(node).any_valid());
    }
    tree.invalidate(leaf);
    for node in [leaf, left, root] {
        assert!(!tree.cache(node).any_valid());
    }
    for node in [sibling, right, cousin] {
        assert!(tree.cache(node).arranged.is_valid);
        assert!(tree.cache(node).unconstrained.is_valid);
    }
    assert!(tree.is_ancestor_or_self(root, leaf));
    assert!(tree.is_ancestor_or_self(leaf, leaf));
    assert!(!tree.is_ancestor_or_self(leaf, root));
    assert!(!tree.is_ancestor_or_self(right, leaf));
}

#[test]
fn invalidated_subtree_is_computed_again() {
    let mut tree = LayoutTree::new();
    let root = tree.add_container(row(Sizing::Fit, Justify::Min));
    let a = tree.add_leaf(plain(Sizing::Fit, Sizing::Fit));
    let b = tree.add_leaf(plain(Sizing::Fit, Sizing::Fit));
    tree.add_child(root, a);
    tree.add_child(root, b);
    let calls = Cell::new(0u32);
    let width_of_a = Cell::new(10i64);
    let measure = |leaf: usize, _: Size, _: u32| {
        calls.set(calls.get() + 1);
        if leaf == a {
            Size::new(width_of_a.get(), 5)
        } else {
            Size::new(20, 8)
        }
    };
    tree.compute_layout(root, arrangement(0, 0, 100, 20), &measure);
    assert_eq!(calls.get(), 4);
    width_of_a.set(30);
    tree.invalidate(a);
    tree.compute_layout(root, arrangement(0, 0, 100, 20), &measure);
    // only the invalidated leaf is measured again; its sibling moves
    assert_eq!(calls.get(), 7);
    assert_eq!(tree.get_final_layout(a).margin_box, Rect::from_xywh(0, 0, 30, 5));
    assert_eq!(tree.get_final_layout(b).margin_box, Rect::from_xywh(30, 0, 20, 8));
}

#[test]
fn swapping_a_child_moves_the_link() {
    let mut tree = LayoutTree::new();
    let root = tree.add_container(row(Sizing::Fit, Justify::Min));
    let select = tree.add_container(row(Sizing::Fit, Justify::Min));
    let first = tree.add_leaf(plain(Sizing::Fit, Sizing::Fit));
    let second = tree.add_leaf(plain(Sizing::Fit, Sizing::Fit));
    tree.add_child(root, select);
    tree.add_child(select, first);
    let measure = |_: usize, _: Size, _: u32| Size::new(10, 10);
    tree.compute_layout(root, arrangement(0, 0, 100, 10), &measure);
    assert!(tree.cache(root).arranged.is_valid);
    tree.swap_child(first, second);
    assert_eq!(tree.parent(first), None);
    assert_eq!(tree.parent(second), Some(select));
    assert_eq!(tree.child_count(select), 1);
    assert_eq!(tree.child(select, 0), second);
    tree.compute_layout(root, arrangement(0, 0, 100, 10), &measure);
    assert!(tree.cache(root).arranged.is_valid);
    assert!(tree.cache(select).arranged.is_valid);
    // the old child no longer reaches the ancestors
    tree.invalidate(first);
    assert!(!tree.cache(first).any_valid());
    assert!(tree.cache(select).arranged.is_valid);
    assert!(tree.cache(root).arranged.is_valid);
    // the new child does
    tree.invalidate(second);
    assert!(!tree.cache(select).any_valid());
    assert!(!tree.cache(root).any_valid());
}

#[test]
fn swap_child_invalidates_along_the_new_link() {
    let mut tree = LayoutTree::new();
    let root = tree.add_container(row(Sizing::Fit, Justify::Min));
    let select = tree.add_container(row(Sizing::Fit, Justify::Min));
    let other = tree.add_leaf(plain(Sizing::Fit, Sizing::Fit));
    let first = tree.add_leaf(plain(Sizing::Fit, Sizing::Fit));
    let second = tree.add_leaf(plain(Sizing::Fit, Sizing::Fit));
    tree.add_child(root, select);
    tree.add_child(root, other);
    tree.add_child(select, first);
    let measure = |leaf: usize, _: Size, _: u32| {
        if leaf == second {
            Size::new(33, 10)
        } else {
            Size::new(10, 10)
        }
    };
    tree.compute_layout(root, arrangement(0, 0, 100, 10), &measure);
    tree.swap_child(first, second);
    assert!(!tree.cache(select).any_valid());
    assert!(!tree.cache(root).any_valid());
    assert!(tree.cache(first).arranged.is_valid);
    assert!(tree.cache(other).arranged.is_valid);
    tree.compute_layout(root, arrangement(0, 0, 100, 10), &measure);
    assert_eq!(tree.get_final_layout(second).margin_box, Rect::from_xywh(0, 0, 33, 10));
    assert_eq!(tree.get_final_layout(other).margin_box, Rect::from_xywh(33, 0, 10, 10));
}

#[test]
fn removed_child_is_no_longer_arranged() {
    let mut tree = LayoutTree::new();
    let root = tree.add_container(row(Sizing::Fit, Justify::Min));
    let a = tree.add_leaf(plain(Sizing::Fit, Sizing::Fit));
    let b = tree.add_leaf(plain(Sizing::Fit, Sizing::Fit));
    let c = tree.add_leaf(plain(Sizing::Fit, Sizing::Fit));
    tree.add_child(root, a);
    tree.add_child(root, b);
    tree.add_child(root, c);
    assert_eq!(tree.len(), 4);
    assert!(tree.is_container(root));
    assert!(!tree.is_container(a));
    tree.remove_child(b);
    assert_eq!(tree.parent(b), None);
    assert_eq!(tree.child_count(root), 2);
    assert_eq!(tree.child(root, 0), a);
    assert_eq!(tree.child(root, 1), c);
    tree.remove_child(b);
    assert_eq!(tree.child_count(root), 2);
    tree.set_style(a, plain(Sizing::Fixed(3), Sizing::Fit));
    assert_eq!(tree.style(a).layout_style.width, Sizing::Fixed(3));
}

#[test]
fn adding_a_child_invalidates_the_parent_chain() {
    let mut tree = LayoutTree::new();
    let root = tree.add_container(row(Sizing::Fit, Justify::Min));
    let inner = tree.add_container(row(Sizing::Fit, Justify::Min));
    let beside = tree.add_leaf(plain(Sizing::Fit, Sizing::Fit));
    let a = tree.add_leaf(plain(Sizing::Fit, Sizing::Fit));
    let b = tree.add_leaf(plain(Sizing::Fit, Sizing::Fit));
    tree.add_child(root, inner);
    tree.add_child(root, beside);
    tree.add_child(inner, a);
    let measure = |_: usize, _: Size, _: u32| Size::new(10, 10);
    tree.compute_layout(root, arrangement(0, 0, 100, 10), &measure);
    assert_eq!(tree.get_final_layout(beside).margin_box, Rect::from_xywh(10, 0, 10, 10));
    tree.add_child(inner, b);
    assert!(!tree.cache(inner).any_valid());
    assert!(!tree.cache(root).any_valid());
    assert!(tree.cache(a).arranged.is_valid);
    assert!(tree.cache(beside).arranged.is_valid);
    assert!(!tree.cache(b).any_valid());
    // the same request measures and arranges the new child
    tree.compute_layout(root, arrangement(0, 0, 100, 10), &measure);
    assert_eq!(tree.get_final_layout(b).margin_box, Rect::from_xywh(10, 0, 10, 10));
    assert_eq!(tree.get_final_layout(beside).margin_box, Rect::from_xywh(20, 0, 10, 10));
    tree.remove_child(a);
    assert!(!tree.cache(inner).any_valid());
    assert!(!tree.cache(root).any_valid());
    assert!(tree.cache(a).arranged.is_valid);
    tree.compute_layout(root, arrangement(0, 0, 100, 10), &measure);
    assert_eq!(tree.get_final_layout(b).margin_box, Rect::from_xywh(0, 0, 10, 10));
    tree.set_style(b, plain(Sizing::Fit, Sizing::Fit));
    assert!(!tree.cache(b).any_valid());
    assert!(!tree.cache(inner).any_valid());
    assert!(!tree.cache(root).any_valid());
    assert!(tree.cache(beside).arranged.is_valid);
}

#[test]
fn subtree_lists_each_node_before_its_children() {
    let mut tree = LayoutTree::new();
    let root = tree.add_container(row(Sizing::Fit, Justify::Min));
    let left = tree.add_container(row(Sizing::Fit, Justify::Min));
    let right = tree.add_container(row(Sizing::Fit, Justify::Min));
    let a = tree.add_leaf(plain(Sizing::Fit, Sizing::Fit));
    let b = tree.add_leaf(plain(Sizing::Fit, Sizing::Fit));
    let c = tree.add_leaf(plain(Sizing::Fit, Sizing::Fit));
    let apart = tree.add_leaf(plain(Sizing::Fit, Sizing::Fit));
    tree.add_child(root, right);
    tree.add_child(root, left);
    tree.add_child(left, b);
    tree.add_child(left, a);
    tree.add_child(right, c);
    assert_eq!(tree.subtree(root), vec![root, right, c, left, b, a]);
    assert_eq!(tree.subtree(left), vec![left, b, a]);
    assert_eq!(tree.subtree(apart), vec![apart]);
}
