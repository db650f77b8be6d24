use quadtree::life::{cell_state, fixed_pattern, next_alive, reframe, step_changes};
use std::cmp::Ordering;
use quadtree::{binary_query, cmp_xy_order, BinaryTree, Bound, Point, Quadtree, Rect, UpdateList};

fn point(x: i32, y: i32) -> Point {
    Point::new(x, y)
}

#[test]
fn binary_tree_keeps_sorted_set() {
    let mut tree = BinaryTree::new();
    for p in [point(3, 1), point(-2, 5), point(3, 0), point(3, 1), point(0, 0)] {
        tree.insert(p);
    }
    assert_eq!(tree.iter(), &[point(-2, 5), point(0, 0), point(3, 0), point(3, 1)]);
    assert!(tree.has(&point(3, 0)));
    assert!(!tree.has(&point(0, 3)));
    tree.remove(&point(0, 0));
    tree.remove(&point(7, 7));
    assert_eq!(tree.iter(), &[point(-2, 5), point(3, 0), point(3, 1)]);
    tree.clear();
    assert!(tree.iter().is_empty());
    assert!(!tree.has(&point(3, 0)));
}

#[test]
fn binary_tree_agrees_with_quadtree() {
    let mut sorted = BinaryTree::new();
    let mut tree = Quadtree::new();
    for k in 0..200i32 {
        let p = point((k * 37) % 23 - 11, (k * 11) % 17 - 8);
        if k % 5 == 0 {
            sorted.remove(&p);
            tree.remove(&p);
        } else {
            sorted.insert(p);
            tree.insert(p);
        }
    }
    let mut listed = tree.iter();
    listed.sort_by(|a, b| cmp_xy_order(a, b));
    assert_eq!(sorted.iter(), listed.as_slice());
}

#[test]
fn xy_order() {
    assert_eq!(cmp_xy_order(&point(1, 9), &point(2, 0)), Ordering::Less);
    assert_eq!(cmp_xy_order(&point(2, 1), &point(2, 0)), Ordering::Greater);
    assert_eq!(cmp_xy_order(&point(2, 0), &point(2, 0)), Ordering::Equal);
}

#[test]
fn update_list_registers_block_inside_area() {
    let mut updates = UpdateList::inside(Rect::range(point(0, 0), point(10, 10)));
    updates.register_with_neighbors(point(5, 5));
    assert_eq!(updates.iter().len(), 9);
    assert_eq!(updates.iter()[0], point(4, 4));
    assert_eq!(updates.iter()[8], point(6, 6));
    updates.register_with_neighbors(point(6, 5));
    assert_eq!(updates.iter().len(), 12);
    // Outside of the area nothing is registered.
    updates.register_with_neighbors(point(20, 20));
    assert_eq!(updates.iter().len(), 12);
    updates.register(point(20, 20));
    assert_eq!(updates.iter().len(), 13);
    let previous = updates.change_area(Rect::full());
    assert_eq!(previous, Rect::range(point(0, 0), point(10, 10)));
    assert_eq!(updates.area(), &Rect::full());
}

#[test]
fn life_rule() {
    assert!(!next_alive(true, 1));
    assert!(next_alive(true, 2));
    assert!(next_alive(true, 3));
    assert!(!next_alive(true, 4));
    assert!(!next_alive(false, 2));
    assert!(next_alive(false, 3));
    assert!(!next_alive(false, 4));
}

#[test]
fn neighbour_count() {
    let mut cells = Quadtree::new();
    for p in [point(0, 0), point(1, 0), point(-1, -1), point(2, 2), point(0, 1)] {
        cells.insert(p);
    }
    assert_eq!(cell_state(&cells, &point(0, 0)), (true, 3));
    assert_eq!(cell_state(&cells, &point(1, 1)), (false, 4));
    assert_eq!(cell_state(&cells, &point(5, 5)), (false, 0));
}

#[test]
fn blinker_step() {
    let mut cells = Quadtree::new();
    for p in [point(0, -1), point(0, 0), point(0, 1)] {
        cells.insert(p);
    }
    let mut candidates = UpdateList::new();
    for p in [point(0, -1), point(0, 0), point(0, 1)] {
        candidates.register_with_neighbors(p);
    }
    let changes = step_changes(&cells, candidates.iter());
    assert_eq!(
        changes,
        vec![(point(-1, 0), true), (point(0, -1), false), (point(0, 1), false), (point(1, 0), true)]
    );
}

#[test]
fn fixed_pattern_rows() {
    // Indices 0, 2, 4, 6, 7, 8 of a 3 by 3 grid.
    assert_eq!(
        fixed_pattern(3, 3),
        vec![point(0, 0), point(2, 0), point(1, 1), point(0, 2), point(1, 2), point(2, 2)]
    );
    assert!(fixed_pattern(0, 4).is_empty());
    assert_eq!(fixed_pattern(14, 1).len(), 9);
}

#[test]
fn reframe_registers_cells_left_outside() {
    let mut cells = Quadtree::new();
    cells.insert(point(1, 1));
    cells.insert(point(50, 50));
    let mut updates = UpdateList::inside(Rect::range(point(0, 0), point(10, 10)));
    reframe(
        &mut updates,
        &cells,
        Rect::new(Bound::Included(point(0, 0)), Bound::Excluded(point(100, 100))),
    );
    assert_eq!(updates.iter().len(), 9);
    assert_eq!(updates.iter()[4], point(50, 50));
    assert_eq!(updates.area(), &Rect::range(point(0, 0), point(100, 100)));
}

#[test]
fn binary_query_matches_quadtree_query() {
    let mut sorted = BinaryTree::new();
    let mut tree = Quadtree::new();
    for k in 0..300i32 {
        let p = point((k * 53) % 41 - 20, (k * 29) % 37 - 18);
        sorted.insert(p);
        tree.insert(p);
    }
    let rects = [
        Rect::range(point(-3, -3), point(4, 5)),
        Rect::range_inclusive(point(10, -18), point(20, -10)),
        Rect::full(),
        Rect::new(Bound::Excluded(point(0, 0)), Bound::Unbounded),
        Rect::new(Bound::Unbounded, Bound::Excluded(point(-15, 0))),
        Rect::range(point(5, 5), point(5, 9)),
        Rect::range_inclusive(point(i32::MAX, i32::MAX), point(i32::MAX, i32::MAX)),
    ];
    for r in rects.iter() {
        let mut expected = tree.query(r);
        expected.sort_by(|a, b| cmp_xy_order(a, b));
        assert_eq!(sorted.query(r), expected);
    }
}

#[test]
fn binary_query_on_slice() {
    let slice = [point(0, 0), point(0, 5), point(1, 2), point(3, 3), point(9, 1)];
    assert_eq!(
        binary_query(&Rect::range_inclusive(point(0, 1), point(3, 5)), &slice),
        vec![point(0, 5), point(1, 2), point(3, 3)]
    );
    assert!(binary_query(&Rect::range(point(2, 2), point(2, 9)), &slice).is_empty());
    assert_eq!(binary_query(&Rect::full(), &slice), slice.to_vec());
}
