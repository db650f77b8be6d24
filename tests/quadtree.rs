use quadtree::{BinarySquare, GlobalNode, Point, Quadtree, Rect, SquareNode, Tree};

fn point(x: i32, y: i32) -> Point {
    Point::new(x, y)
}

#[test]
fn test_has_point() {
    // Initiate tree
    let mut tree = Quadtree::default();
    tree.insert(point(3, 1));
    tree.insert(point(3, 3));
    tree.insert(point(3, 5));

    // Inserted points
    assert!(tree.has(&point(3, 1)));
    assert!(tree.has(&point(3, 3)));
    assert!(tree.has(&point(3, 5)));

    // Others
    assert!(!tree.has(&point(0, 0)));
    assert!(!tree.has(&point(12, 42)));
}

#[test]
fn test_iterator() {
    // Initiate tree
    let mut tree = Quadtree::default();
    tree.insert(point(3, 1));
    tree.insert(point(3, 3));
    tree.insert(point(3, 5));

    // Inserted points
    let mut iter = tree.iter().into_iter();

    assert_eq!(iter.next(), Some(point(3, 5)));
    assert_eq!(iter.next(), Some(point(3, 3)));
    assert_eq!(iter.next(), Some(point(3, 1)));
    assert_eq!(iter.next(), None);
}

fn node(anchor: Point, size: u32, children: [Tree; 4]) -> Tree {
    Tree::Node(Box::new(SquareNode { area: BinarySquare { anchor, size }, children }))
}

#[test]
fn test_insert_point() {
    // Initiate tree
    let mut tree = Quadtree::default();

    assert_eq!(
        tree.root(),
        &GlobalNode { children: [Tree::Empty, Tree::Empty, Tree::Empty, Tree::Empty] }
    );

    // Insert a point
    tree.insert(point(3, 1));

    assert_eq!(
        tree.root(),
        &GlobalNode {
            children: [Tree::Empty, Tree::Empty, Tree::Empty, Tree::Leaf(point(3, 1))]
        }
    );

    // Create a middle node
    tree.insert(point(1, 3));

    assert_eq!(
        tree.root(),
        &GlobalNode {
            children: [
                Tree::Empty,
                Tree::Empty,
                Tree::Empty,
                node(
                    point(0, 0),
                    4,
                    [Tree::Empty, Tree::Leaf(point(1, 3)), Tree::Leaf(point(3, 1)), Tree::Empty]
                ),
            ]
        }
    );

    // Insert in middle node
    tree.insert(point(3, 3));

    assert_eq!(
        tree.root(),
        &GlobalNode {
            children: [
                Tree::Empty,
                Tree::Empty,
                Tree::Empty,
                node(
                    point(0, 0),
                    4,
                    [
                        Tree::Empty,
                        Tree::Leaf(point(1, 3)),
                        Tree::Leaf(point(3, 1)),
                        Tree::Leaf(point(3, 3)),
                    ]
                ),
            ]
        }
    );

    // Move the middle node deeper
    tree.insert(point(3, 5));

    assert_eq!(
        tree.root(),
        &GlobalNode {
            children: [
                Tree::Empty,
                Tree::Empty,
                Tree::Empty,
                node(
                    point(0, 0),
                    8,
                    [
                        node(
                            point(0, 0),
                            4,
                            [
                                Tree::Empty,
                                Tree::Leaf(point(1, 3)),
                                Tree::Leaf(point(3, 1)),
                                Tree::Leaf(point(3, 3)),
                            ]
                        ),
                        Tree::Leaf(point(3, 5)),
                        Tree::Empty,
                        Tree::Empty,
                    ]
                ),
            ]
        }
    );
}

#[test]
fn test_insert_twice() {
    // Initiate tree
    let mut tree = Quadtree::default();

    assert_eq!(
        tree.root(),
        &GlobalNode { children: [Tree::Empty, Tree::Empty, Tree::Empty, Tree::Empty] }
    );

    // Insert a point
    tree.insert(point(3, 1));

    assert_eq!(
        tree.root(),
        &GlobalNode {
            children: [Tree::Empty, Tree::Empty, Tree::Empty, Tree::Leaf(point(3, 1))]
        }
    );

    // Insert again point
    tree.insert(point(3, 1));

    assert_eq!(
        tree.root(),
        &GlobalNode {
            children: [Tree::Empty, Tree::Empty, Tree::Empty, Tree::Leaf(point(3, 1))]
        }
    );
}

#[test]
fn test_remove_point() {
    // Initiate tree
    let mut tree = Quadtree::default();
    tree.insert(point(3, 1));
    tree.insert(point(3, 3));
    tree.insert(point(1, 3));
    tree.insert(point(3, 5));

    // Remove point
    tree.remove(&point(3, 3));

    assert_eq!(
        tree.root(),
        &GlobalNode {
            children: [
                Tree::Empty,
                Tree::Empty,
                Tree::Empty,
                node(
                    point(0, 0),
                    8,
                    [
                        node(
                            point(0, 0),
                            4,
                            [
                                Tree::Empty,
                                Tree::Leaf(point(1, 3)),
                                Tree::Leaf(point(3, 1)),
                                Tree::Empty,
                            ]
                        ),
                        Tree::Leaf(point(3, 5)),
                        Tree::Empty,
                        Tree::Empty,
                    ]
                ),
            ]
        }
    );

    // Simplify by moving node up
    tree.remove(&point(3, 5));

    assert_eq!(
        tree.root(),
        &GlobalNode {
            children: [
                Tree::Empty,
                Tree::Empty,
                Tree::Empty,
                node(
                    point(0, 0),
                    4,
                    [Tree::Empty, Tree::Leaf(point(1, 3)), Tree::Leaf(point(3, 1)), Tree::Empty]
                ),
            ]
        }
    );

    // Simplify by moving point up
    tree.remove(&point(1, 3));

    assert_eq!(
        tree.root(),
        &GlobalNode {
            children: [Tree::Empty, Tree::Empty, Tree::Empty, Tree::Leaf(point(3, 1))]
        }
    );
}

fn sorted(mut points: Vec<Point>) -> Vec<Point> {
    points.sort_by_key(|p| (p.x, p.y));
    points
}

#[test]
fn scenario_three_points() {
    let mut tree = Quadtree::new();
    tree.insert(point(3, 1));
    tree.insert(point(3, 3));
    tree.insert(point(3, 5));
    assert!(tree.has(&point(3, 1)));
    assert!(!tree.has(&point(0, 0)));
    assert_eq!(sorted(tree.iter()), vec![point(3, 1), point(3, 3), point(3, 5)]);
    assert_eq!(tree.query(&Rect::range(point(2, 2), point(4, 4))), vec![point(3, 3)]);

    tree.remove(&point(3, 3));
    assert_eq!(sorted(tree.iter()), vec![point(3, 1), point(3, 5)]);
    // The split node of size 4 that held (3, 1) and (3, 3) is gone.
    assert_eq!(
        tree.root(),
        &GlobalNode {
            children: [
                Tree::Empty,
                Tree::Empty,
                Tree::Empty,
                node(
                    point(0, 0),
                    8,
                    [Tree::Leaf(point(3, 1)), Tree::Leaf(point(3, 5)), Tree::Empty, Tree::Empty]
                ),
            ]
        }
    );
}

#[test]
fn insert_twice_keeps_set() {
    let mut once = Quadtree::new();
    let mut twice = Quadtree::new();
    for p in [point(-7, 2), point(40, -3), point(5, 5), point(6, 5)] {
        once.insert(p);
        twice.insert(p);
        twice.insert(p);
    }
    assert_eq!(once.root(), twice.root());
    assert_eq!(sorted(once.iter()), sorted(twice.iter()));
    for p in [point(-7, 2), point(40, -3), point(0, 0), point(6, 5)] {
        assert_eq!(once.has(&p), twice.has(&p));
    }
}

#[test]
fn insert_then_remove_restores() {
    let mut tree = Quadtree::new();
    for p in [point(1, 1), point(2, 9), point(-4, -4), point(100, 3)] {
        tree.insert(p);
    }
    let before = sorted(tree.iter());
    let probes = [point(1, 1), point(17, 17), point(-4, -4), point(16, 16)];
    let answers: Vec<bool> = probes.iter().map(|p| tree.has(p)).collect();

    tree.insert(point(17, 17));
    assert!(tree.has(&point(17, 17)));
    tree.remove(&point(17, 17));

    assert_eq!(sorted(tree.iter()), before);
    let again: Vec<bool> = probes.iter().map(|p| tree.has(p)).collect();
    assert_eq!(again, answers);
}

#[test]
fn membership_matches_iteration() {
    let mut tree = Quadtree::new();
    let ops: [(bool, i32, i32); 9] = [
        (true, 0, 0),
        (true, -1, -1),
        (true, 5, -9),
        (true, 6, -9),
        (false, 0, 0),
        (true, 0, 7),
        (false, 5, -9),
        (false, 42, 42),
        (true, -30, 12),
    ];
    for (add, x, y) in ops {
        if add {
            tree.insert(point(x, y));
        } else {
            tree.remove(&point(x, y));
        }
    }
    let listed = tree.iter();
    for x in -31..8 {
        for y in -10..13 {
            let p = point(x, y);
            assert_eq!(tree.has(&p), listed.contains(&p));
        }
    }
    assert_eq!(listed.len(), 4);
}

#[test]
fn query_matches_filtered_iteration() {
    let mut tree = Quadtree::new();
    for x in -6..7 {
        for y in -6..7 {
            if (x * 7 + y * 3) % 4 == 0 {
                tree.insert(point(x, y));
            }
        }
    }
    let all = tree.iter();
    let rects = [
        Rect::range(point(-2, -2), point(3, 3)),
        Rect::range_inclusive(point(0, -5), point(4, 0)),
        Rect::full(),
        Rect::new(quadtree::Bound::Excluded(point(1, 1)), quadtree::Bound::Unbounded),
        Rect::new(quadtree::Bound::Unbounded, quadtree::Bound::Included(point(-3, 2))),
    ];
    for r in rects.iter() {
        let expected: Vec<Point> = all.iter().copied().filter(|p| quadtree::Holds::holds(r, p)).collect();
        assert_eq!(tree.query(r), expected);
    }
}

/// Depth of the deepest node below a slot.
fn depth(t: &Tree) -> usize {
    match t {
        Tree::Node(n) => 1 + n.children.iter().map(depth).max().unwrap(),
        _ => 0,
    }
}

#[test]
fn cluster_depth_does_not_depend_on_offset() {
    for (dx, dy) in [(0, 0), (1 << 20, 1 << 20), (-(1 << 29), 12345), (1 << 30, -(1 << 30))] {
        let mut tree = Quadtree::new();
        for x in 0..8 {
            for y in 0..8 {
                tree.insert(point(dx + x, dy + y));
            }
        }
        let deepest = tree.root().children.iter().map(depth).max().unwrap();
        // A cluster of side 8 needs at most log2(8) + 2 levels.
        assert!(deepest <= 5, "depth {} at offset {:?}", deepest, (dx, dy));
        assert_eq!(tree.iter().len(), 64);
    }
}

/// Counts the nodes with fewer than two live children.
fn loose_nodes(t: &Tree) -> usize {
    match t {
        Tree::Node(n) => {
            let live = n.children.iter().filter(|c| **c != Tree::Empty).count();
            (if live < 2 { 1 } else { 0 }) + n.children.iter().map(loose_nodes).sum::<usize>()
        }
        _ => 0,
    }
}

#[test]
fn removal_compacts_cluster() {
    let cluster = [point(8, 8), point(9, 8), point(8, 13), point(15, 15)];
    let mut tree = Quadtree::new();
    for p in cluster {
        tree.insert(p);
    }
    for (k, p) in cluster.iter().enumerate().take(3) {
        tree.remove(p);
        let loose: usize = tree.root().children.iter().map(loose_nodes).sum();
        assert_eq!(loose, 0);
        assert_eq!(tree.iter().len(), 3 - k);
    }
    assert_eq!(
        tree.root(),
        &GlobalNode {
            children: [Tree::Empty, Tree::Empty, Tree::Empty, Tree::Leaf(point(15, 15))]
        }
    );
    tree.remove(&point(15, 15));
    assert_eq!(tree.root(), &GlobalNode::new());
}

#[test]
fn extreme_corners() {
    let corners = [
        point(i32::MAX, i32::MAX),
        point(i32::MIN, i32::MIN),
        point(i32::MIN, i32::MAX),
        point(i32::MAX, i32::MIN),
        point(0, 0),
        point(-1, -1),
        point(i32::MAX, 0),
        point(0, i32::MAX),
    ];
    let mut tree = Quadtree::new();
    for p in corners {
        tree.insert(p);
    }
    for p in corners {
        assert!(tree.has(&p));
    }
    assert!(!tree.has(&point(1, 1)));
    assert_eq!(tree.iter().len(), corners.len());
    assert_eq!(
        tree.query(&Rect::range_inclusive(point(0, 0), point(i32::MAX, i32::MAX))).len(),
        4
    );
    for p in corners {
        tree.remove(&p);
    }
    assert_eq!(tree.root(), &GlobalNode::new());
}

#[test]
fn remove_absent_changes_nothing() {
    let mut tree = Quadtree::new();
    tree.insert(point(2, 2));
    tree.insert(point(2, 3));
    tree.remove(&point(9, 9));
    tree.remove(&point(-2, -2));
    assert_eq!(sorted(tree.iter()), vec![point(2, 2), point(2, 3)]);
}

#[test]
fn search_finds_largest_subtree() {
    let mut tree = Quadtree::new();
    for p in [point(3, 1), point(1, 3), point(3, 3), point(3, 5)] {
        tree.insert(p);
    }
    let root = tree.root();
    let square = |x: i32, y: i32, size: u32| BinarySquare { anchor: point(x, y), size };
    match root.search(&square(0, 0, 4)) {
        Some(Tree::Node(n)) => assert_eq!(n.area, square(0, 0, 4)),
        other => panic!("unexpected {:?}", other),
    }
    assert_eq!(root.search(&square(2, 0, 2)), Some(&Tree::Leaf(point(3, 1))));
    assert_eq!(root.search(&square(0, 4, 4)), Some(&Tree::Leaf(point(3, 5))));
    assert_eq!(root.search(&square(4, 4, 4)), None);
    assert_eq!(root.search(&square(-8, -8, 8)), None);
    match root.search(&square(0, 0, 16)) {
        Some(Tree::Node(n)) => assert_eq!(n.area, square(0, 0, 8)),
        other => panic!("unexpected {:?}", other),
    }
    let inner = match &root.children[3] {
        Tree::Node(n) => n,
        other => panic!("unexpected {:?}", other),
    };
    assert_eq!(inner.search(&square(0, 4, 4)), Some(&Tree::Leaf(point(3, 5))));
    assert_eq!(inner.search(&square(16, 16, 4)), None);
}

#[test]
fn clone_is_independent_copy() {
    let mut tree = Quadtree::new();
    for p in [point(3, 1), point(1, 3), point(3, 3), point(-5, 9)] {
        tree.insert(p);
    }
    let snapshot = tree.clone();
    assert_eq!(snapshot.root(), tree.root());
    tree.remove(&point(3, 3));
    tree.insert(point(100, 100));
    assert!(snapshot.has(&point(3, 3)));
    assert!(!snapshot.has(&point(100, 100)));
    assert_eq!(snapshot.iter().len(), 4);
}

#[test]
fn shape_does_not_depend_on_order() {
    let points = [point(3, 1), point(1, 3), point(3, 3), point(3, 5), point(7, 0), point(-2, -9)];
    let mut forward = Quadtree::new();
    for p in points {
        forward.insert(p);
    }
    let mut backward = Quadtree::new();
    for p in points.iter().rev() {
        backward.insert(*p);
    }
    backward.insert(point(50, 50));
    backward.remove(&point(50, 50));
    assert_eq!(forward.root(), backward.root());
}
