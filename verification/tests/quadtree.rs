use quadtree::geometry::{child_rect, midpoint, point_in_rect, quadrant_index, Point, Quadrant, Rect};
use quadtree::store::{bouncy_points, PointStore};
use quadtree::tree::{Node, NodeTrait, Tree};

fn pt(x: i64, y: i64) -> Point {
    Point { x, y }
}

fn rect(x0: i64, y0: i64, x1: i64, y1: i64) -> Rect {
    Rect { min: pt(x0, y0), max: pt(x1, y1) }
}

fn store_of(coords: &[(i64, i64)]) -> PointStore {
    let mut s = PointStore::new();
    for &(x, y) in coords {
        s.push(pt(x, y));
    }
    s
}

fn node_with_rect(t: &Tree, r: Rect) -> Option<(Rect, usize)> {
    t.iter_nodes().into_iter().find(|&(nr, _)| nr == r)
}

#[test]
fn half_open_membership() {
    let r = rect(-10, -10, 10, 10);
    assert!(point_in_rect(&r, pt(-10, -10)));
    assert!(point_in_rect(&r, pt(9, 9)));
    assert!(!point_in_rect(&r, pt(10, 0)));
    assert!(!point_in_rect(&r, pt(0, 10)));
    assert!(!point_in_rect(&r, pt(-11, 0)));
}

#[test]
fn midpoint_of_even_rect() {
    let m = midpoint(&rect(-10, -10, 10, 10));
    assert_eq!((m.x, m.y), (0, 0));
    let m2 = midpoint(&rect(0, 0, 5, 3));
    assert_eq!((m2.x, m2.y), (2, 1));
}

#[test]
fn child_rects_tile_the_parent() {
    let r = rect(-10, -10, 10, 10);
    assert_eq!(child_rect(&r, 0), rect(-10, -10, 0, 0));
    assert_eq!(child_rect(&r, 1), rect(0, -10, 10, 0));
    assert_eq!(child_rect(&r, 2), rect(-10, 0, 0, 10));
    assert_eq!(child_rect(&r, 3), rect(0, 0, 10, 10));
    // Every lattice point of the parent lies in exactly one quarter.
    for x in -10..10 {
        for y in -10..10 {
            let n = (0..4)
                .filter(|&q| point_in_rect(&child_rect(&r, q), pt(x, y)))
                .count();
            assert_eq!(n, 1);
        }
    }
}

#[test]
fn quarter_index_packs_bits() {
    assert_eq!(quadrant_index(Quadrant { x_bit: false, y_bit: false }), 0);
    assert_eq!(quadrant_index(Quadrant { x_bit: true, y_bit: false }), 1);
    assert_eq!(quadrant_index(Quadrant { x_bit: false, y_bit: true }), 2);
    assert_eq!(quadrant_index(Quadrant { x_bit: true, y_bit: true }), 3);
}

#[test]
fn index_quarter_rejects_bad_index() {
    for i in 0u8..4 {
        let q = Node::index_quarter(i).unwrap();
        assert_eq!(quadrant_index(q), i as usize);
    }
    assert!(Node::index_quarter(4).is_err());
    assert!(Node::index_quarter(7).is_err());
}

#[test]
fn choose_nodes_places_the_node() {
    for i in 0..4 {
        let block = Tree::choose_nodes(None, i).unwrap();
        assert_eq!(block.len(), 4);
        assert!(block.iter().all(|s| s.is_none()));
    }
    let n = Node::new(pt(0, 0), pt(1, 1), Vec::new());
    let block = Tree::choose_nodes(Some(n), 2).unwrap();
    assert!(block[2].is_some());
    assert!(block[0].is_none() && block[1].is_none() && block[3].is_none());
    assert!(Tree::choose_nodes(None, 4).is_err());
}

#[test]
fn quarter_of_point_through_the_tree() {
    let t = Tree::new(pt(-10, -10), pt(10, 10), 2, 2);
    let s = store_of(&[(-5, -5), (5, 5), (0, 0), (-1, 3)]);
    assert_eq!(quadrant_index(t.quarter(0, &s)), 0);
    assert_eq!(quadrant_index(t.quarter(1, &s)), 3);
    // A point exactly on the split lines belongs to the upper quadrant.
    assert_eq!(quadrant_index(t.quarter(2, &s)), 3);
    assert_eq!(quadrant_index(t.quarter(3, &s)), 2);
    assert!(t.point_inside(0, &s));
}

#[test]
fn empty_tree_has_size_zero() {
    let t = Tree::new(pt(-10, -10), pt(10, 10), 2, 2);
    assert_eq!(t.size(), 0);
    assert_eq!(t.iter_nodes(), vec![(rect(-10, -10, 10, 10), 0)]);
}

#[test]
fn rebuild_scenario_splits_only_the_crowded_quadrant() {
    let mut t = Tree::new(pt(-10, -10), pt(10, 10), 2, 2);
    let s = store_of(&[(-5, -5), (-5, -4), (5, 5)]);
    t.update(&s);
    // The root accumulates all three points.
    assert_eq!(t.size(), 3);
    let root = t.nodes[0].as_ref().unwrap();
    assert_eq!(root.points, vec![0, 1, 2]);
    // The south-west child is materialized and holds the two negative
    // points.
    let sw = node_with_rect(&t, rect(-10, -10, 0, 0)).expect("south-west child");
    assert_eq!(sw.1, 2);
    // No other quadrant of the root is materialized.
    assert!(node_with_rect(&t, rect(0, -10, 10, 0)).is_none());
    assert!(node_with_rect(&t, rect(-10, 0, 0, 10)).is_none());
    assert!(node_with_rect(&t, rect(0, 0, 10, 10)).is_none());
    assert_eq!(root.existing_children, [true, false, false, false]);
}

#[test]
fn duplicate_points_terminate_at_bounded_depth() {
    let mut t = Tree::new(pt(-10, -10), pt(10, 10), 2, 2);
    let s = store_of(&[(3, 3); 5]);
    t.update(&s);
    assert_eq!(t.size(), 5);
    // Every node on the chain holds all five indices, and subdivision
    // stopped at the minimum rectangle size instead of looping forever.
    let nodes = t.iter_nodes();
    assert!(nodes.len() > 1);
    for &(_, count) in &nodes {
        assert_eq!(count, 5);
    }
    let (deepest, _) = nodes[nodes.len() - 1];
    assert!(deepest.max.x - deepest.min.x < 2 || deepest.max.y - deepest.min.y < 2);
    for node in t.nodes.iter().flatten() {
        assert_eq!(node.points, vec![0, 1, 2, 3, 4]);
    }
}

#[test]
fn rebuild_twice_is_idempotent() {
    let mut t = Tree::new(pt(-500, -500), pt(500, 500), 3, 2);
    let s = store_of(&[
        (-250, -250),
        (-240, -260),
        (-255, -245),
        (-250, -251),
        (100, 350),
        (120, 340),
        (130, 360),
        (400, -400),
        (0, 0),
        (-1, -1),
    ]);
    t.update(&s);
    let first_nodes = t.iter_nodes();
    let first_root = t.nodes[0].as_ref().unwrap().points.clone();
    t.update(&s);
    assert_eq!(t.iter_nodes(), first_nodes);
    assert_eq!(t.nodes[0].as_ref().unwrap().points, first_root);
}

#[test]
fn out_of_bounds_points_are_dropped() {
    let mut t = Tree::new(pt(-10, -10), pt(10, 10), 2, 2);
    let s = store_of(&[(100, 100), (0, 0), (10, 0), (-10, -10), (3, -20)]);
    t.update(&s);
    // Only the two in-bounds points are indexed: (0, 0) and the corner
    // (-10, -10); x == 10 and y == -20 fall outside the half-open root.
    assert_eq!(t.size(), 2);
    assert_eq!(t.nodes[0].as_ref().unwrap().points, vec![1, 3]);
    for node in t.nodes.iter().flatten() {
        assert!(!node.points.contains(&0));
        assert!(!node.points.contains(&2));
        assert!(!node.points.contains(&4));
    }
}

#[test]
fn add_point_outside_root_is_a_no_op() {
    let mut t = Tree::new(pt(-10, -10), pt(10, 10), 2, 2);
    let s = store_of(&[(50, 50)]);
    t.update(&s);
    t.add_point(0, &s);
    assert_eq!(t.size(), 0);
    assert_eq!(t.iter_nodes().len(), 1);
}

#[test]
fn threshold_is_respected_per_quadrant() {
    // With a threshold of three, two points in a quadrant do not split.
    let mut t = Tree::new(pt(-10, -10), pt(10, 10), 3, 2);
    let s = store_of(&[(-5, -5), (-5, -4), (5, 5), (4, 5), (5, 4)]);
    t.update(&s);
    assert!(node_with_rect(&t, rect(-10, -10, 0, 0)).is_none());
    let ne = node_with_rect(&t, rect(0, 0, 10, 10)).expect("north-east child");
    assert_eq!(ne.1, 3);
}

#[test]
fn iter_points_follows_the_root_order() {
    let mut t = Tree::new(pt(-10, -10), pt(10, 10), 2, 2);
    let s = store_of(&[(1, 2), (50, 0), (-3, -4)]);
    t.update(&s);
    assert_eq!(t.iter_points(&s), vec![pt(1, 2), pt(-3, -4)]);
}

#[test]
fn update_observes_moved_points() {
    let mut t = Tree::new(pt(-10, -10), pt(10, 10), 2, 2);
    let mut s = store_of(&[(1, 1), (2, 2)]);
    t.update(&s);
    assert_eq!(t.size(), 2);
    // The index does not see the move until the next rebuild.
    s.set(0, pt(100, 100));
    assert_eq!(t.size(), 2);
    t.update(&s);
    assert_eq!(t.size(), 1);
    assert_eq!(t.nodes[0].as_ref().unwrap().points, vec![1]);
}

#[test]
fn how_many_points_in_quarter_counts_by_rectangle() {
    let s = store_of(&[(-5, -5), (-1, -1), (1, 1), (-2, 3)]);
    let n = Node::new(pt(-10, -10), pt(10, 10), vec![0, 1, 2, 3]);
    let sw = Quadrant { x_bit: false, y_bit: false };
    let ne = Quadrant { x_bit: true, y_bit: true };
    let nw = Quadrant { x_bit: false, y_bit: true };
    let se = Quadrant { x_bit: true, y_bit: false };
    assert_eq!(n.how_many_points_in_quarter(sw, &s), 2);
    assert_eq!(n.how_many_points_in_quarter(ne, &s), 1);
    assert_eq!(n.how_many_points_in_quarter(nw, &s), 1);
    assert_eq!(n.how_many_points_in_quarter(se, &s), 0);
}

#[test]
fn get_points_inside_filters_in_order() {
    let s = store_of(&[(-5, -5), (-1, -1), (1, 1), (-2, 3)]);
    let n = Node::new(pt(-10, -10), pt(10, 10), vec![0, 1, 2, 3]);
    let inside = n.get_points_inside(&rect(-10, -10, 0, 0), &s);
    assert_eq!(inside, vec![0, 1]);
}

#[test]
fn add_node_seeds_the_quarter() {
    let s = store_of(&[(-5, -5), (-1, -1), (1, 1), (-2, 3)]);
    let n = Node::new(pt(-10, -10), pt(10, 10), vec![0, 1, 2, 3]);
    let child = n.add_node(Quadrant { x_bit: false, y_bit: false }, &s);
    assert_eq!(child.rect, rect(-10, -10, 0, 0));
    assert_eq!(child.points, vec![0, 1]);
    assert!(child.children.is_none());
    assert_eq!(child.existing_children, [false; 4]);
}

#[test]
fn containment_and_threshold_hold_across_the_arena() {
    let mut t = Tree::new(pt(-500, -500), pt(500, 500), 2, 2);
    let coords: Vec<(i64, i64)> = (0..60)
        .map(|i: i64| ((i * 37) % 500 - 250, (i * 91) % 500 - 250))
        .collect();
    let s = store_of(&coords);
    t.update(&s);
    for node in t.nodes.iter().flatten() {
        // Containment: every index a node holds lies inside its rectangle.
        for &idx in &node.points {
            assert!(point_in_rect(&node.rect, s.get(idx)));
        }
        // Threshold: every materialized child sits on a quadrant whose
        // point count meets the split threshold.
        if node.children.is_some() {
            for q in 0..4u8 {
                if node.existing_children[q as usize] {
                    let quarter = Node::index_quarter(q).unwrap();
                    assert!(node.how_many_points_in_quarter(quarter, &s) >= 2);
                }
            }
        }
    }
}

#[test]
fn bouncy_points_reflects_strays() {
    let mut s = store_of(&[(600, -700), (100, -100), (501, 500), (-500, 0)]);
    bouncy_points(&mut s, 500);
    assert_eq!(s.get(0), pt(-600, 700));
    assert_eq!(s.get(1), pt(100, -100));
    assert_eq!(s.get(2), pt(-501, 500));
    assert_eq!(s.get(3), pt(-500, 0));
}
