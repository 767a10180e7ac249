use luna::layout::rect::Rect;
use luna::units::{to_unit, Vec2};

fn rect(x: i32, y: i32, w: i32, h: i32) -> Rect {
    Rect::new(Vec2::new(x, y), Vec2::new(w, h))
}

#[test]
fn units_are_pinned_to_the_range() {
    assert_eq!(to_unit(0), 0);
    assert_eq!(to_unit(-17), -17);
    assert_eq!(to_unit(i32::MAX as i128), i32::MAX);
    assert_eq!(to_unit(i32::MAX as i128 + 1), i32::MAX);
    assert_eq!(to_unit(i32::MIN as i128 - 1), i32::MIN);
    assert_eq!(to_unit(i128::MAX), i32::MAX);
    assert_eq!(to_unit(i128::MIN), i32::MIN);
}

#[test]
fn vec2_arithmetic_is_exact_until_it_saturates() {
    assert_eq!(Vec2::new(3, 4).plus(Vec2::new(10, -20)), Vec2::new(13, -16));
    assert_eq!(Vec2::new(3, 4).minus(Vec2::new(10, -20)), Vec2::new(-7, 24));
    assert_eq!(Vec2::new(3, -4).scaled(2), Vec2::new(6, -8));
    assert_eq!(Vec2::splat(7), Vec2::new(7, 7));
    assert_eq!(Vec2::zero(), Vec2::new(0, 0));
    assert_eq!(Vec2::new(i32::MAX, i32::MIN).plus(Vec2::new(1, -1)), Vec2::new(i32::MAX, i32::MIN));
    assert_eq!(Vec2::new(i32::MIN, 0).minus(Vec2::new(1, 0)), Vec2::new(i32::MIN, 0));
    assert_eq!(Vec2::new(i32::MAX, i32::MIN).scaled(2), Vec2::new(i32::MAX, i32::MIN));
}

#[test]
fn rect_contains_its_edges() {
    let r = rect(10, 20, 30, 40);
    assert!(r.contains(Vec2::new(10, 20)));
    assert!(r.contains(Vec2::new(40, 60)));
    assert!(r.contains(Vec2::new(25, 30)));
    assert!(!r.contains(Vec2::new(9, 30)));
    assert!(!r.contains(Vec2::new(41, 30)));
    assert!(!r.contains(Vec2::new(25, 19)));
    assert!(!r.contains(Vec2::new(25, 61)));
}

#[test]
fn rect_contains_does_not_overflow_at_the_ends() {
    let r = rect(i32::MAX - 1, i32::MAX - 1, i32::MAX, i32::MAX);
    assert!(r.contains(Vec2::new(i32::MAX, i32::MAX)));
    assert!(!r.contains(Vec2::new(0, 0)));
}

#[test]
fn rects_that_only_touch_do_not_intersect() {
    let a = rect(0, 0, 10, 10);
    assert!(a.intersects(&rect(5, 5, 10, 10)));
    assert!(!a.intersects(&rect(10, 0, 10, 10)));
    assert!(!a.intersects(&rect(0, 10, 10, 10)));
    assert!(!a.intersects(&rect(20, 20, 5, 5)));
    assert!(a.intersects(&rect(9, 9, 1, 1)));
}

#[test]
fn intersection_is_the_common_part() {
    let a = rect(0, 0, 10, 10);
    assert_eq!(a.intersection(&rect(5, 6, 10, 10)), rect(5, 6, 5, 4));
    assert_eq!(a.intersection(&rect(2, 3, 4, 5)), rect(2, 3, 4, 5));
    assert_eq!(a.intersection(&a), a);
}

#[test]
fn intersection_of_disjoint_rects_has_no_extent() {
    let a = rect(0, 0, 10, 10);
    assert_eq!(a.intersection(&rect(20, 30, 5, 5)), rect(20, 30, 0, 0));
    assert_eq!(a.intersection(&rect(10, 0, 5, 5)), rect(10, 0, 0, 5));
}

#[test]
fn a_rectangle_without_extent_inside_another_intersects_it() {
    let a = rect(0, 0, 10, 10);
    let point = rect(5, 5, 0, 0);
    assert!(a.intersects(&point));
    assert!(point.intersects(&a));
    assert!(!a.intersects(&rect(10, 5, 0, 0)));
    assert!(!a.intersects(&rect(0, 5, 0, 0)));
}
