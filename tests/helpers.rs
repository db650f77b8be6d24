use std::cmp::Ordering;
use quadtree::{
    cmp_zorder, first_in, last_in, next_power_of_2, BinarySquare, Bound, GlobalNode, Overlaps, Point,
    Rect, XYGenerator,
};

fn point(x: i32, y: i32) -> Point {
    Point::new(x, y)
}

#[test]
fn utils_test_on_positive() {
    assert_eq!(next_power_of_2(3), 4);
    assert_eq!(next_power_of_2(5), 8);
    assert_eq!(next_power_of_2(12), 16);
}

#[test]
fn utils_test_on_negative() {
    assert_eq!(next_power_of_2(-3), 4);
    assert_eq!(next_power_of_2(-5), 8);
    assert_eq!(next_power_of_2(-12), 16);
}

#[test]
fn next_power_of_2_edges() {
    assert_eq!(next_power_of_2(0), 0);
    assert_eq!(next_power_of_2(1), 1);
    assert_eq!(next_power_of_2(-1), 1);
    assert_eq!(next_power_of_2(16), 16);
    assert_eq!(next_power_of_2(1 << 30), 1 << 30);
    assert_eq!(next_power_of_2(-(1 << 30)), 1 << 30);
}

#[test]
fn bounds_first_and_last() {
    assert_eq!(first_in(&(Bound::Included(3), Bound::Unbounded)), 3);
    assert_eq!(first_in(&(Bound::Excluded(3), Bound::Unbounded)), 4);
    assert_eq!(first_in(&(Bound::Unbounded, Bound::Unbounded)), i32::MIN);
    assert_eq!(last_in(&(Bound::Unbounded, Bound::Included(9))), 9);
    assert_eq!(last_in(&(Bound::Unbounded, Bound::Excluded(9))), 8);
    assert_eq!(last_in(&(Bound::Unbounded, Bound::Unbounded)), i32::MIN);
}

fn generator() -> XYGenerator {
    XYGenerator::within(&Rect::range_inclusive(point(0, 0), point(5, 5)))
}

#[test]
fn test_full_generation() {
    let generator = generator();

    assert_eq!(generator.next(&point(0, 0)), Some(point(0, 1)));
    assert_eq!(generator.next(&point(0, 1)), Some(point(0, 2)));
    assert_eq!(generator.next(&point(0, 2)), Some(point(0, 3)));
    assert_eq!(generator.next(&point(0, 3)), Some(point(0, 4)));
    assert_eq!(generator.next(&point(0, 4)), Some(point(0, 5)));
    assert_eq!(generator.next(&point(0, 5)), Some(point(1, 0)));
    assert_eq!(generator.next(&point(1, 0)), Some(point(1, 1)));
    assert_eq!(generator.next(&point(1, 1)), Some(point(1, 2)));
    assert_eq!(generator.next(&point(1, 2)), Some(point(1, 3)));
    assert_eq!(generator.next(&point(1, 3)), Some(point(1, 4)));
    assert_eq!(generator.next(&point(1, 4)), Some(point(1, 5)));
    assert_eq!(generator.next(&point(1, 5)), Some(point(2, 0)));
    assert_eq!(generator.next(&point(2, 0)), Some(point(2, 1)));
    assert_eq!(generator.next(&point(2, 1)), Some(point(2, 2)));
    assert_eq!(generator.next(&point(2, 2)), Some(point(2, 3)));
    assert_eq!(generator.next(&point(2, 3)), Some(point(2, 4)));
    assert_eq!(generator.next(&point(2, 4)), Some(point(2, 5)));
    assert_eq!(generator.next(&point(2, 5)), Some(point(3, 0)));
    assert_eq!(generator.next(&point(3, 0)), Some(point(3, 1)));
    assert_eq!(generator.next(&point(3, 1)), Some(point(3, 2)));
    assert_eq!(generator.next(&point(3, 2)), Some(point(3, 3)));
    assert_eq!(generator.next(&point(3, 3)), Some(point(3, 4)));
    assert_eq!(generator.next(&point(3, 4)), Some(point(3, 5)));
    assert_eq!(generator.next(&point(3, 5)), Some(point(4, 0)));
    assert_eq!(generator.next(&point(4, 0)), Some(point(4, 1)));
    assert_eq!(generator.next(&point(4, 1)), Some(point(4, 2)));
    assert_eq!(generator.next(&point(4, 2)), Some(point(4, 3)));
    assert_eq!(generator.next(&point(4, 3)), Some(point(4, 4)));
    assert_eq!(generator.next(&point(4, 4)), Some(point(4, 5)));
    assert_eq!(generator.next(&point(4, 5)), Some(point(5, 0)));
    assert_eq!(generator.next(&point(5, 1)), Some(point(5, 2)));
    assert_eq!(generator.next(&point(5, 2)), Some(point(5, 3)));
    assert_eq!(generator.next(&point(5, 3)), Some(point(5, 4)));
    assert_eq!(generator.next(&point(5, 4)), Some(point(5, 5)));
    assert_eq!(generator.next(&point(5, 5)), None);
}

#[test]
fn test_below_left_point() {
    assert_eq!(generator().next(&point(-2, -2)), Some(point(0, 0)));
}

#[test]
fn test_left_point() {
    assert_eq!(generator().next(&point(-2, 2)), Some(point(0, 0)));
}

#[test]
fn test_over_left_point() {
    assert_eq!(generator().next(&point(-2, 7)), Some(point(0, 0)));
}

#[test]
fn test_below_point() {
    assert_eq!(generator().next(&point(2, -2)), Some(point(2, 0)));
}

#[test]
fn test_over_point() {
    assert_eq!(generator().next(&point(2, 7)), Some(point(3, 0)));
}

#[test]
fn test_last_point() {
    assert_eq!(generator().next(&point(5, 5)), None);
}

#[test]
fn test_below_right_point() {
    assert_eq!(generator().next(&point(7, -2)), None);
}

#[test]
fn test_right_point() {
    assert_eq!(generator().next(&point(7, 2)), None);
}

#[test]
fn test_over_right_point() {
    assert_eq!(generator().next(&point(7, 7)), None);
}

#[test]
fn generator_ends() {
    let g = XYGenerator::within(&Rect::range(point(-3, 1), point(2, 4)));
    assert_eq!(g.first(), &point(-3, 1));
    assert_eq!(g.last(), &point(1, 3));
}

#[test]
fn zorder_compares_highest_differing_bit() {
    // Equal highest bits: x decides.
    assert_eq!(cmp_zorder(&point(0, 1), &point(1, 0)), Ordering::Less);
    assert_eq!(cmp_zorder(&point(1, 0), &point(0, 1)), Ordering::Greater);
    // x differs higher than y.
    assert_eq!(cmp_zorder(&point(3, 0), &point(0, 1)), Ordering::Greater);
    // y differs higher than x.
    assert_eq!(cmp_zorder(&point(0, 4), &point(3, 3)), Ordering::Greater);
    assert_eq!(cmp_zorder(&point(3, 3), &point(0, 4)), Ordering::Less);
    assert_eq!(cmp_zorder(&point(5, 7), &point(5, 7)), Ordering::Equal);
    // Only y differs.
    assert_eq!(cmp_zorder(&point(2, 9), &point(2, 8)), Ordering::Greater);
}

#[test]
fn rect_overlap_is_exact() {
    let s = BinarySquare { anchor: point(8, 8), size: 8 };
    // Touching corners only from outside.
    assert!(!Rect::range(point(0, 0), point(8, 8)).overlaps(&s));
    assert!(Rect::range_inclusive(point(0, 0), point(8, 8)).overlaps(&s));
    assert!(!Rect::new(Bound::Excluded(point(15, 0)), Bound::Unbounded).overlaps(&s));
    assert!(Rect::new(Bound::Excluded(point(14, 14)), Bound::Unbounded).overlaps(&s));
    // Overlap on x but not on y.
    assert!(!Rect::range(point(9, 20), point(12, 30)).overlaps(&s));
    // An empty rectangle overlaps nothing.
    assert!(!Rect::range(point(10, 10), point(10, 12)).overlaps(&s));
}

#[test]
fn global_node_no_op_changes() {
    let mut g = GlobalNode::new();
    g.insert(point(3, 1));
    g.insert(point(1, 3));
    g.insert(point(-4, 2));
    let snapshot = g.clone();
    g.insert(point(1, 3));
    assert_eq!(g, snapshot);
    g.remove(&point(9, 9));
    assert_eq!(g, snapshot);
    assert!(g.has(&point(-4, 2)));
}
