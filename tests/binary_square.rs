use quadtree::{global_quarter, BinarySquare, Holds, Overlaps, Point, Quarter, Rect, SquareNode, Tree};

fn point(x: i32, y: i32) -> Point {
    Point::new(x, y)
}

fn square(x: i32, y: i32, size: u32) -> BinarySquare {
    BinarySquare { anchor: point(x, y), size }
}

#[test]
fn binary_square_test_area_area() {
    // Positive
    assert_eq!(BinarySquare::common(&square(6, 6, 2), &square(4, 4, 1)), Ok(square(4, 4, 4)));
    assert_eq!(BinarySquare::common(&square(2, 4, 2), &square(6, 4, 1)), Ok(square(0, 0, 8)));
    assert_eq!(BinarySquare::common(&square(4, 2, 2), &square(4, 6, 1)), Ok(square(0, 0, 8)));

    // Negative
    assert_eq!(BinarySquare::common(&square(-2, -4, 2), &square(-6, -4, 1)), Ok(square(-8, -8, 8)));
    assert_eq!(BinarySquare::common(&square(-4, -2, 2), &square(-4, -6, 1)), Ok(square(-8, -8, 8)));

    // Different global quarter
    assert_eq!(
        BinarySquare::common(&square(-6, -6, 2), &square(8, 8, 1)),
        Err("given squares does not belong to the same global quarter")
    );
}

#[test]
fn binary_square_test_strange() {
    assert_eq!(
        BinarySquare::common(&square(130, 46, 2), &square(133, 47, 1)),
        Ok(square(128, 40, 8))
    );
}

#[test]
fn test_positive_points() {
    let area = square(0, 0, 4);

    assert_eq!(area.quarter(&point(3, 3)), Quarter::NorthEast);
    assert_eq!(area.quarter(&point(3, 1)), Quarter::SouthEast);
    assert_eq!(area.quarter(&point(1, 3)), Quarter::NorthWest);
    assert_eq!(area.quarter(&point(1, 1)), Quarter::SouthWest);
}

#[test]
fn test_negative_points() {
    let area = square(-4, -4, 4);

    assert_eq!(area.quarter(&point(-3, -3)), Quarter::SouthWest);
    assert_eq!(area.quarter(&point(-3, -1)), Quarter::NorthWest);
    assert_eq!(area.quarter(&point(-1, -3)), Quarter::SouthEast);
    assert_eq!(area.quarter(&point(-1, -1)), Quarter::NorthEast);
}

#[test]
fn test_positive_point() {
    let square = square(2, 2, 2);

    // Far outside
    assert!(!square.holds(&point(1, 1))); // below left
    assert!(!square.holds(&point(3, 1))); // left
    assert!(!square.holds(&point(5, 1))); // over left
    assert!(!square.holds(&point(1, 3))); // below
    assert!(!square.holds(&point(5, 3))); // over
    assert!(!square.holds(&point(1, 5))); // below right
    assert!(!square.holds(&point(3, 5))); // right
    assert!(!square.holds(&point(5, 5))); // over right

    // Border outside
    assert!(!square.holds(&point(2, 4)));
    assert!(!square.holds(&point(4, 4)));
    assert!(!square.holds(&point(4, 2)));

    // Inside
    assert!(square.holds(&point(2, 2)));
    assert!(square.holds(&point(3, 2)));
    assert!(square.holds(&point(2, 3)));
    assert!(square.holds(&point(3, 3)));
}

#[test]
fn test_negative_point() {
    let square = square(-4, -4, 2);

    // Far outside
    assert!(!square.holds(&point(-5, -5))); // below left
    assert!(!square.holds(&point(-3, -5))); // left
    assert!(!square.holds(&point(-1, -5))); // over left
    assert!(!square.holds(&point(-5, -3))); // below
    assert!(!square.holds(&point(-1, -3))); // over
    assert!(!square.holds(&point(-5, -1))); // below right
    assert!(!square.holds(&point(-3, -1))); // right
    assert!(!square.holds(&point(-1, -1))); // over right

    // Border outside
    assert!(!square.holds(&point(-4, -2)));
    assert!(!square.holds(&point(-2, -2)));
    assert!(!square.holds(&point(-2, -4)));

    // Inside
    assert!(square.holds(&point(-4, -4)));
    assert!(square.holds(&point(-3, -4)));
    assert!(square.holds(&point(-4, -3)));
    assert!(square.holds(&point(-3, -3)));
}

#[test]
fn quarter_test_global_quarter() {
    assert_eq!(global_quarter(&point(1, 1)), Quarter::NorthEast);
    assert_eq!(global_quarter(&point(1, -1)), Quarter::SouthEast);
    assert_eq!(global_quarter(&point(-1, 1)), Quarter::NorthWest);
    assert_eq!(global_quarter(&point(-1, -1)), Quarter::SouthWest);
}

#[test]
fn global_quarter_of_axes() {
    assert_eq!(global_quarter(&point(0, 0)), Quarter::NorthEast);
    assert_eq!(global_quarter(&point(0, -1)), Quarter::SouthEast);
    assert_eq!(global_quarter(&point(-1, 0)), Quarter::NorthWest);
    assert_eq!(Quarter::NorthEast.slot(), 3);
    assert_eq!(Quarter::NorthWest.slot(), 1);
    assert_eq!(Quarter::SouthEast.slot(), 2);
    assert_eq!(Quarter::SouthWest.slot(), 0);
}

#[test]
fn common_of_distant_points() {
    assert_eq!(
        BinarySquare::common(&square(0, 0, 1), &square(1 << 30, 1, 1)),
        Ok(square(0, 0, 1 << 31))
    );
    assert_eq!(
        BinarySquare::common(&square(-1, -1, 1), &square(i32::MIN, i32::MIN, 1)),
        Ok(square(i32::MIN, i32::MIN, 1 << 31))
    );
    assert_eq!(BinarySquare::common(&square(5, 5, 1), &square(5, 5, 1)), Ok(square(4, 4, 2)));
    assert!(BinarySquare::common(&square(0, 0, 1), &square(0, -1, 1)).is_err());
}

#[test]
fn wrapping_is_one_cell() {
    let s = BinarySquare::wrapping(point(-3, 7));
    assert_eq!(s, square(-3, 7, 1));
    assert!(s.holds(&point(-3, 7)));
    assert!(!s.holds(&point(-2, 7)));
}

#[test]
fn square_holds_square() {
    let area = square(2, 2, 2);
    assert!(area.holds(&square(2, 2, 1)));
    assert!(area.holds(&square(2, 2, 2)));
    assert!(area.holds(&square(3, 3, 1)));
    assert!(!area.holds(&square(0, 0, 4)));
    assert!(!area.holds(&square(4, 2, 1)));
}

#[test]
fn huge_square_holds() {
    let s = square(0, 0, 1 << 31);
    assert!(s.holds(&point(i32::MAX, 0)));
    assert!(!s.holds(&point(-1, 0)));
}

#[test]
fn rect_overlaps_square() {
    let s = square(4, 4, 4);
    assert!(Rect::range(point(0, 0), point(5, 5)).overlaps(&s));
    assert!(!Rect::range(point(0, 0), point(4, 4)).overlaps(&s));
    assert!(Rect::range_inclusive(point(0, 0), point(4, 4)).overlaps(&s));
    assert!(!Rect::range_inclusive(point(8, 0), point(9, 9)).overlaps(&s));
    assert!(Rect::full().overlaps(&s));
    assert!(!Rect::new(quadtree::Bound::Excluded(point(7, 0)), quadtree::Bound::Unbounded).overlaps(&s));
    assert!(Rect::range(point(2, 2), point(4, 4)).holds(&point(3, 3)));
    assert!(!Rect::range(point(2, 2), point(4, 4)).holds(&point(4, 3)));
}

#[test]
fn square_node_operations() {
    let mut n = SquareNode::new(square(0, 0, 8));
    n.insert(point(1, 1));
    n.insert(point(6, 6));
    n.insert(point(7, 6));
    assert!(n.has(&point(6, 6)));
    assert!(!n.has(&point(6, 7)));
    assert!(!n.has(&point(9, 9)));
    assert_eq!(n.children[0], Tree::Leaf(point(1, 1)));
    n.remove(&point(7, 6));
    assert_eq!(n.children[3], Tree::Leaf(point(6, 6)));
}
