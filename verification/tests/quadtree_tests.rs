use quadtree::Point;
use quadtree::QuadTree;
use quadtree::Rect;
use quadtree::TreeNode;

fn world_100(capacity: usize) -> QuadTree {
    QuadTree::new(Point { x: 0, y: 0 }, Point { x: 100, y: 100 }, capacity)
}

fn rect(min_x: i64, min_y: i64, max_x: i64, max_y: i64) -> Rect {
    Rect {
        min: Point { x: min_x, y: min_y },
        max: Point { x: max_x, y: max_y },
    }
}

#[test]
fn tree_node_new_carries_handle_and_coordinate() {
    let node = TreeNode::new(Some(7), -3, 12);
    assert_eq!(node.entity, Some(7));
    assert_eq!(node.position, Point { x: -3, y: 12 });
    let anonymous = TreeNode::new(None, 0, 0);
    assert_eq!(anonymous.entity, None);
}

#[test]
fn new_builds_centred_world_rect() {
    let tree = world_100(4);
    assert_eq!(tree.rect, rect(-50, -50, 50, 50));
    assert!(!tree.subdivided);
    assert_eq!(tree.capacity, 4);
    assert_eq!(tree.get_childen().len(), 0);

    let odd = QuadTree::new(Point { x: 0, y: 0 }, Point { x: 5, y: 5 }, 1);
    assert_eq!(odd.rect, rect(-2, -2, 3, 3));
}

#[test]
fn insert_within_bounds_succeeds() {
    let mut tree = world_100(4);
    assert!(tree.insert(&TreeNode::new(Some(1), 1, 1)));
    assert!(tree.insert(&TreeNode::new(Some(2), -50, -50)));
    assert_eq!(tree.get_childen().len(), 2);
}

#[test]
fn insert_out_of_bounds_is_rejected() {
    let mut tree = world_100(4);
    assert!(!tree.insert(&TreeNode::new(None, 60, 0)));
    assert!(!tree.insert(&TreeNode::new(None, 0, -200)));
    assert!(!tree.insert(&TreeNode::new(None, -51, 0)));
    assert_eq!(tree.get_childen().len(), 0);
}

#[test]
fn insert_on_right_and_top_world_edge_is_rejected() {
    // The world rectangle is half-open: its right and top edges belong to
    // the region outside it.
    let mut tree = world_100(4);
    assert!(!tree.insert(&TreeNode::new(None, 50, 0)));
    assert!(!tree.insert(&TreeNode::new(None, 0, 50)));
    assert!(tree.insert(&TreeNode::new(None, 49, 49)));
    assert_eq!(tree.get_childen().len(), 1);
}

#[test]
fn five_points_in_one_quadrant_subdivide_once() {
    // World centred at (0,0), 100 by 100, capacity 4; five points on the
    // diagonal of the upper-right quadrant.
    let mut tree = world_100(4);
    for i in 1..=4 {
        assert!(tree.insert(&TreeNode::new(Some(i as u64), i, i)));
        assert!(!tree.subdivided);
    }
    assert!(tree.insert(&TreeNode::new(Some(5), 5, 5)));
    assert!(tree.subdivided);
    assert_eq!(tree.children.len(), 0);

    let all = tree.get_childen();
    assert_eq!(all.len(), 5);

    let mut count: u64 = 0;
    let near = tree.query(&rect(0, 0, 10, 10), &mut count);
    assert_eq!(near.len(), 5);

    let mut count: u64 = 0;
    let far = tree.query(&rect(-50, -50, -1, -1), &mut count);
    assert_eq!(far.len(), 0);
}

#[test]
fn opposite_quadrant_points_land_in_diagonal_children() {
    let mut tree = world_100(1);
    assert!(tree.insert(&TreeNode::new(Some(1), 1, 1)));
    assert!(tree.insert(&TreeNode::new(Some(2), -1, -1)));
    assert!(tree.subdivided);

    let ne = tree.north_east.as_ref().unwrap();
    let nw = tree.north_west.as_ref().unwrap();
    let se = tree.south_east.as_ref().unwrap();
    let sw = tree.south_west.as_ref().unwrap();
    assert_eq!(ne.children.len(), 1);
    assert_eq!(sw.children.len(), 1);
    assert_eq!(nw.children.len(), 0);
    assert_eq!(se.children.len(), 0);
    assert_eq!(ne.children[0].entity, Some(1));
    assert_eq!(sw.children[0].entity, Some(2));
}

#[test]
fn boundary_point_goes_to_exactly_one_quadrant() {
    // A point with x exactly on the dividing line x = 0 of a root centred
    // at (0,0): the half-open rule assigns it to the eastern side, every
    // time, and it is neither dropped nor duplicated.
    for _ in 0..2 {
        let mut tree = world_100(1);
        assert!(tree.insert(&TreeNode::new(Some(1), 0, 10)));
        assert!(tree.insert(&TreeNode::new(Some(2), -1, -1)));
        assert!(tree.subdivided);
        let ne = tree.north_east.as_ref().unwrap();
        let nw = tree.north_west.as_ref().unwrap();
        assert_eq!(ne.children.len(), 1);
        assert_eq!(ne.children[0].entity, Some(1));
        assert_eq!(nw.children.len(), 0);
        assert_eq!(tree.get_childen().len(), 2);
    }
}

#[test]
fn conservation_all_points_match_successful_inserts() {
    let mut tree = world_100(2);
    let coords = [
        (1, 1),
        (-20, 30),
        (60, 0),   // out of bounds
        (14, -14),
        (0, 200),  // out of bounds
        (-49, -49),
        (1, 1),    // duplicate coordinate, distinct handle
        (30, 30),
    ];
    let mut successes: usize = 0;
    for (id, (x, y)) in coords.iter().enumerate() {
        if tree.insert(&TreeNode::new(Some(id as u64), *x, *y)) {
            successes += 1;
        }
    }
    assert_eq!(successes, 6);
    assert_eq!(tree.get_childen().len(), successes);
}

#[test]
fn atomic_cell_absorbs_duplicates_beyond_capacity() {
    // A world two cells wide: repeated insertion of one coordinate drives
    // the records into a single-cell region that cannot split further, and
    // every record is still kept.
    let mut tree = QuadTree::new(Point { x: 0, y: 0 }, Point { x: 2, y: 2 }, 1);
    assert!(tree.insert(&TreeNode::new(Some(1), 0, 0)));
    assert!(tree.insert(&TreeNode::new(Some(2), 0, 0)));
    assert!(tree.insert(&TreeNode::new(Some(3), 0, 0)));
    assert_eq!(tree.get_childen().len(), 3);

    let mut count: u64 = 0;
    let found = tree.query(&rect(0, 0, 0, 0), &mut count);
    assert_eq!(found.len(), 3);
}

#[test]
fn query_is_idempotent() {
    let mut tree = world_100(4);
    for i in 1..=5 {
        assert!(tree.insert(&TreeNode::new(Some(i as u64), i, i)));
    }
    let range = rect(0, 0, 10, 10);
    let mut count_a: u64 = 0;
    let first = tree.query(&range, &mut count_a);
    let mut count_b: u64 = 0;
    let second = tree.query(&range, &mut count_b);
    assert_eq!(first, second);
    assert_eq!(count_a, count_b);
}

#[test]
fn query_includes_points_on_its_boundary() {
    let mut tree = world_100(4);
    assert!(tree.insert(&TreeNode::new(Some(1), 0, 0)));
    assert!(tree.insert(&TreeNode::new(Some(2), 10, 10)));
    assert!(tree.insert(&TreeNode::new(Some(3), 11, 11)));
    let mut count: u64 = 0;
    let found = tree.query(&rect(0, 0, 10, 10), &mut count);
    assert_eq!(found.len(), 2);
    assert!(found.iter().all(|n| n.entity != Some(3)));
}

#[test]
fn leaf_respects_capacity_until_overflow() {
    let mut tree = world_100(3);
    for i in 1..=3 {
        assert!(tree.insert(&TreeNode::new(Some(i as u64), i, i)));
        assert!(tree.children.len() <= 3);
        assert!(!tree.subdivided);
    }
    assert!(tree.insert(&TreeNode::new(Some(4), -7, 8)));
    assert!(tree.subdivided);
    assert_eq!(tree.children.len(), 0);
}

#[test]
fn subdivision_quarters_the_parent_rect() {
    let mut tree = world_100(1);
    assert!(tree.insert(&TreeNode::new(Some(1), 1, 1)));
    assert!(tree.insert(&TreeNode::new(Some(2), -1, -1)));
    let ne = tree.north_east.as_ref().unwrap();
    let nw = tree.north_west.as_ref().unwrap();
    let se = tree.south_east.as_ref().unwrap();
    let sw = tree.south_west.as_ref().unwrap();
    assert_eq!(ne.rect, rect(0, 0, 50, 50));
    assert_eq!(nw.rect, rect(-50, 0, 0, 50));
    assert_eq!(se.rect, rect(0, -50, 50, 0));
    assert_eq!(sw.rect, rect(-50, -50, 0, 0));
    assert_eq!(ne.capacity, tree.capacity);
    assert_eq!(sw.capacity, tree.capacity);
}

#[test]
fn tree_rects_lists_one_rect_per_node() {
    let mut tree = world_100(1);
    assert_eq!(tree.get_tree_rects().len(), 1);
    assert_eq!(tree.get_tree_rects()[0], rect(-50, -50, 50, 50));
    assert!(tree.insert(&TreeNode::new(Some(1), 1, 1)));
    assert!(tree.insert(&TreeNode::new(Some(2), -1, -1)));
    let rects = tree.get_tree_rects();
    assert_eq!(rects.len(), 5);
    assert_eq!(rects[0], rect(-50, -50, 50, 50));
}

#[test]
fn query_counts_one_comparison_per_examined_record() {
    let mut tree = world_100(4);
    for i in 1..=3 {
        assert!(tree.insert(&TreeNode::new(Some(i as u64), i, i)));
    }
    // Leaf with three records: a query that reaches it examines all three,
    // whatever it returns.
    let mut count: u64 = 0;
    let found = tree.query(&rect(1, 1, 2, 2), &mut count);
    assert_eq!(found.len(), 2);
    assert_eq!(count, 3);

    // A query that misses the world entirely is pruned at the root.
    let mut count: u64 = 0;
    let found = tree.query(&rect(200, 200, 300, 300), &mut count);
    assert_eq!(found.len(), 0);
    assert_eq!(count, 0);

    // After subdivision the root holds nothing, so a world-wide query
    // examines exactly the five stored records.
    for i in 4..=5 {
        assert!(tree.insert(&TreeNode::new(Some(i as u64), i, i)));
    }
    assert!(tree.subdivided);
    let mut count: u64 = 0;
    let found = tree.query(&rect(-50, -50, 50, 50), &mut count);
    assert_eq!(found.len(), 5);
    assert_eq!(count, 5);
}

#[test]
fn query_returns_point_for_every_covering_rect() {
    let mut tree = world_100(2);
    assert!(tree.insert(&TreeNode::new(Some(9), 7, -3)));
    let covering = [
        rect(7, -3, 7, -3),
        rect(0, -10, 10, 0),
        rect(-50, -50, 49, 49),
        rect(7, -50, 50, -3),
    ];
    for range in covering.iter() {
        let mut count: u64 = 0;
        let found = tree.query(range, &mut count);
        assert_eq!(found.len(), 1);
        assert_eq!(found[0].entity, Some(9));
    }
    let disjoint = [rect(8, -3, 10, 0), rect(-10, -2, 6, 10), rect(7, 20, 30, 40)];
    for range in disjoint.iter() {
        let mut count: u64 = 0;
        let found = tree.query(range, &mut count);
        assert_eq!(found.len(), 0);
    }
}
