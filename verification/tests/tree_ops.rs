use quadtree::shapes::{Circle, Rect, Shape};
use quadtree::{ExcludePoint, Pt, QuadTree};

fn pt(x: i64, y: i64) -> Pt {
    Pt { x, y }
}

fn make_rect(x1: i64, y1: i64, x2: i64, y2: i64) -> Rect {
    Rect::new(pt(x1, y1), pt(x2, y2))
}

fn make_circle(x: i64, y: i64, r: i64) -> Circle {
    Circle::new(pt(x, y), r)
}

#[test]
fn insert_single_item() {
    let mut qt = QuadTree::new(make_rect(0, 0, 100, 100), 1);
    let item = pt(25, 25);
    assert!(qt.insert(&item), "Should insert item successfully");
}

#[test]
fn insert_multiple_items() {
    let mut qt = QuadTree::new(make_rect(0, 0, 100, 100), 1);
    let points = vec![
        pt(10, 10),
        pt(150, 150), // This should fail (out of bounds)
        pt(20, 20),
        pt(120, 120), // This should fail (out of bounds)
    ];

    let failed_inserts = qt.insert_many(&points);

    assert_eq!(failed_inserts.len(), 2, "Should return 2 failed inserts");
    assert!(
        failed_inserts.contains(&points[1]),
        "Should include point (150, 150) as failed"
    );
    assert!(
        failed_inserts.contains(&points[3]),
        "Should include point (120, 120) as failed"
    );

    // Ensure that successful points are indeed in the QuadTree
    assert!(
        qt.get(&points[0]).is_some(),
        "Point (10, 10) should be successfully inserted"
    );
    assert!(
        qt.get(&points[2]).is_some(),
        "Point (20, 20) should be successfully inserted"
    );

    // Check count correctness
    assert_eq!(qt.count(), 2, "Count should be 2 for successfully inserted items");
}

#[test]
fn insert_item_out_of_bounds() {
    let mut qt = QuadTree::new(make_rect(0, 0, 100, 100), 1);
    let item = pt(150, 150);
    assert!(!qt.insert(&item), "Should not insert item outside bounds");
    assert_eq!(qt.count(), 0, "A failed insert leaves the count at zero");
}

#[test]
fn insert_multiple_items_subdivision() {
    let mut qt = QuadTree::new(make_rect(0, 0, 100, 100), 2);
    let points = vec![pt(20, 20), pt(40, 40), pt(60, 60)];

    qt.insert_many(&points);

    // Past its capacity of 2 the tree has subdivided; all three items must
    // still be found by a query over the whole boundary, each exactly once.
    let results = qt.query(&make_rect(0, 0, 100, 100));
    assert_eq!(results.len(), 3, "Should keep all items across the subdivision");
    for p in &points {
        assert!(results.contains(p), "Each inserted point should be found");
    }
}

#[test]
fn get_item() {
    let mut qt = QuadTree::new(make_rect(0, 0, 100, 100), 1);
    let point = pt(20, 20);
    qt.insert(&point);

    assert_eq!(qt.get(&point), Some(point), "Should find the inserted point");
    assert!(
        qt.get(&pt(30, 30)).is_none(),
        "Should not find a point that was not inserted"
    );
}

#[test]
fn query_rectangular() {
    let mut qt = QuadTree::new(make_rect(0, 0, 100, 100), 1);
    let results = qt.query(&make_rect(10, 10, 50, 50));
    assert!(results.is_empty(), "Should be empty for an empty tree");

    let item = pt(25, 25);
    qt.insert(&item);
    let results = qt.query(&make_rect(20, 20, 30, 30));
    assert_eq!(results.len(), 1, "Should find one item in the range");
    assert_eq!(results[0], item, "The point should match the inserted item");

    let results = qt.query(&make_rect(70, 70, 80, 80));
    assert!(results.is_empty(), "Should not find any items outside the range");
}

#[test]
fn query_ref_rectangular() {
    let mut qt = QuadTree::new(make_rect(0, 0, 100, 100), 1);
    let item = pt(25, 25);
    qt.insert(&item);
    let results = qt.query_ref(&make_rect(20, 20, 30, 30));
    assert_eq!(results.len(), 1, "Should find one item in the range");
    assert_eq!(*results[0], item, "The point should match the inserted item");
}

#[test]
fn query_rectangular_internal_nodes_multiple_items() {
    let mut qt = QuadTree::new(make_rect(0, 0, 100, 100), 1);
    let item1 = pt(25, 25);
    let item2 = pt(75, 75);
    qt.insert(&item1);
    qt.insert(&item2);

    let results = qt.query(&make_rect(20, 20, 80, 80));
    assert_eq!(results.len(), 2, "Should find both items in the range");

    let results = qt.query(&make_rect(70, 70, 80, 80));
    assert_eq!(results.len(), 1, "Should find one item in the range");
    assert_eq!(results[0], item2, "The point should match the second inserted item");

    let results = qt.query(&make_rect(200, 200, 300, 300));
    assert!(results.is_empty(), "Should not find any items outside the range");
}

#[test]
fn query_rectangular_boundary_edge_overlap() {
    let mut qt = QuadTree::new(make_rect(0, 0, 100, 100), 4);
    let edge_point = pt(100, 50); // Exactly on the boundary edge
    qt.insert(&edge_point);
    let query_shape = make_rect(95, 45, 105, 55);
    let results = qt.query(&query_shape);
    assert_eq!(results.len(), 1, "Should find the edge point.");
}

#[test]
fn query_circular_empty_tree() {
    let mut qt = QuadTree::<Pt>::new(make_rect(0, 0, 100, 100), 1);
    let circle = make_circle(50, 50, 10);
    let results = qt.query(&circle);
    assert!(results.is_empty(), "Should be empty for an empty tree");

    let item = pt(25, 25);
    qt.insert(&item);
    let circle = make_circle(20, 20, 10);
    let results = qt.query(&circle);
    assert_eq!(results.len(), 1, "Should find one item within the circle");
    assert_eq!(results[0], item, "The point should match the inserted item");

    let circle = make_circle(80, 80, 5);
    let results = qt.query(&circle);
    assert!(results.is_empty(), "Should not find any items outside the circle");
}

#[test]
fn query_circular_internal_nodes_multiple_items() {
    let mut qt = QuadTree::new(make_rect(0, 0, 100, 100), 1);
    let item1 = pt(35, 35);
    let item2 = pt(65, 65);
    qt.insert(&item1);
    qt.insert(&item2);

    let circle = make_circle(50, 50, 30);
    let results = qt.query(&circle);
    assert_eq!(results.len(), 2, "Should find both items within the circle");

    let circle = make_circle(70, 70, 10);
    let results = qt.query(&circle);
    assert_eq!(results.len(), 1, "Should find one item within the circle");
    assert_eq!(results[0], item2, "The point should match the second inserted item");

    let circle = make_circle(200, 200, 50);
    let results = qt.query(&circle);
    assert!(results.is_empty(), "Should not find any items outside the circle");
}

#[test]
fn query_filter_exclude_point() {
    let mut qt = QuadTree::new(make_rect(0, 0, 100, 100), 1);
    let items = vec![pt(40, 40), pt(50, 50), pt(60, 60)];
    qt.insert_many(&items);

    let area = Circle::new(items[1], 20);
    let results = qt.query_filter(&area, ExcludePoint { pos: area.center() });
    assert!(!results.contains(&items[1]), "Should not find the excluded point");
    assert_eq!(results.len(), 2, "Should find two points within the circle");
}

#[test]
fn query_ref_filter_exclude_point() {
    let mut qt = QuadTree::new(make_rect(0, 0, 100, 100), 1);
    let items = vec![pt(40, 40), pt(50, 50), pt(60, 60)];
    qt.insert_many(&items);

    let area = Circle::new(items[1], 20);
    let results = qt.query_ref_filter(&area, ExcludePoint { pos: area.center() });
    assert!(
        !results.contains(&&items[1]),
        "Should not find the excluded point"
    );
    assert_eq!(results.len(), 2, "Should find two points within the circle");
}

#[test]
fn delete_rect() {
    let mut qt = QuadTree::new(make_rect(0, 0, 100, 100), 1);
    let points = vec![pt(10, 10), pt(30, 10), pt(10, 30)];
    qt.insert_many(&points);

    let deletion_shape = make_rect(5, 5, 35, 15);
    let deleted = qt.delete(&deletion_shape);
    assert_eq!(deleted, 2, "Two items were deleted");
    assert_eq!(qt.count(), 1, "One item remains in tree");
    assert!(
        qt.get(&points[0]).is_none(),
        "Point at (10.0, 10.0) should have been deleted"
    );
    assert!(
        qt.get(&points[1]).is_none(),
        "Point at (30.0, 10.0) should have been deleted"
    );
    assert!(
        qt.get(&points[2]).is_some(),
        "Point at (10.0, 30.0) should still exist"
    );
}

#[test]
fn delete_rect_bounds() {
    let mut qt = QuadTree::new(make_rect(0, 0, 100, 100), 1);
    let points = vec![pt(10, 10), pt(20, 20), pt(30, 30)];
    for point in &points {
        qt.insert(point);
    }
    assert_eq!(qt.count(), 3, "Three items should be in the tree");

    let deletion_shape = make_rect(15, 15, 25, 25);
    let deleted = qt.delete(&deletion_shape);
    assert_eq!(deleted, 1, "One item was deleted");
    assert_eq!(qt.count(), 2, "Two items remain in tree");
    assert!(
        qt.get(&points[0]).is_some(),
        "Point at (10.0, 10.0) should still exist"
    );
    assert!(
        qt.get(&points[1]).is_none(),
        "Point at (20.0, 20.0) should have been deleted"
    );
    assert!(
        qt.get(&points[2]).is_some(),
        "Point at (30.0, 30.0) should still exist"
    );
}

#[test]
fn delete_rect_multi_level() {
    let mut qt = QuadTree::new(make_rect(0, 0, 100, 100), 2);
    // Points to cause subdivisions
    let points = [
        pt(10, 10),
        pt(90, 90),
        pt(10, 90),
        pt(90, 10),
        pt(50, 50),
        pt(30, 30),
    ];
    for p in &points {
        qt.insert(p);
    }
    let deletion_shape = make_rect(25, 25, 75, 75);
    qt.delete(&deletion_shape);
    let results = qt.query(&make_rect(0, 0, 100, 100));
    assert_eq!(results.len(), 4, "Should have 4 points left after partial deletion.");
}

#[test]
fn delete_filter_exclude_point() {
    let mut qt = QuadTree::new(make_rect(0, 0, 100, 100), 1);
    let points = vec![pt(15, 15), pt(20, 20), pt(25, 25)];
    qt.insert_many(&points);

    let area = make_rect(10, 10, 30, 30);
    let deleted = qt.delete_filter(&area, ExcludePoint { pos: area.center() });
    assert_eq!(deleted, 2, "Two items were deleted");
    assert_eq!(qt.count(), 1, "One item remains in tree");
    assert!(
        qt.get(&points[0]).is_none(),
        "Point at (15.0, 15.0) should have been deleted"
    );
    assert!(
        qt.get(&points[1]).is_some(),
        "Point at (20.0, 20.0) should still exist"
    );
    assert!(
        qt.get(&points[2]).is_none(),
        "Point at (25.0, 25.0) should have been deleted"
    );
}

#[test]
fn test_pop_function() {
    let mut qt = QuadTree::new(make_rect(0, 0, 100, 100), 1);
    let points = vec![pt(10, 10), pt(20, 20), pt(30, 30), pt(40, 40)];

    qt.insert_many(&points);

    assert_eq!(qt.count(), 4, "All four points were inserted");

    let results = qt.pop(&make_rect(15, 15, 35, 35));
    assert_eq!(results.len(), 2, "Should pop two points that intersect with the shape");
    assert!(results.contains(&points[1]), "Should contain point (20, 20)");
    assert!(results.contains(&points[2]), "Should contain point (30, 30)");

    let remaining_points = qt.query(&make_rect(0, 0, 100, 100));
    assert_eq!(qt.count(), 2, "Two points should remain in the quadtree");
    assert!(
        remaining_points.contains(&points[0]),
        "Should still contain point (10, 10)"
    );
    assert!(
        remaining_points.contains(&points[3]),
        "Should still contain point (40, 40)"
    );
}

#[test]
fn pop_filter_exclude_point() {
    let mut qt = QuadTree::new(make_rect(0, 0, 100, 100), 1);
    let points = vec![pt(15, 15), pt(20, 20), pt(25, 25)];
    qt.insert_many(&points);

    let area = make_rect(10, 10, 30, 30);
    let results = qt.pop_filter(&area, ExcludePoint { pos: area.center() });
    assert_eq!(results.len(), 2, "Two items were popped");
    assert_eq!(qt.count(), 1, "One item remains in tree");
    assert!(
        results.contains(&points[2]),
        "Point at (25.0, 25.0) should have been popped"
    );
    assert!(
        !results.contains(&points[1]),
        "Point at (20.0, 20.0) should not have been popped"
    );
    assert!(
        qt.get(&points[1]).is_some(),
        "Point at (20.0, 20.0) should still exist"
    );
}

#[test]
fn count_matches_full_query() {
    let mut qt = QuadTree::new(make_rect(0, 0, 100, 100), 2);
    let points = vec![pt(10, 10), pt(90, 90), pt(10, 90), pt(90, 10), pt(50, 50)];
    qt.insert_many(&points);
    qt.insert(&pt(45, 45));
    qt.delete(&make_rect(0, 0, 20, 20));
    qt.pop(&make_circle(90, 90, 5));
    let all = qt.query(&make_rect(0, 0, 100, 100));
    assert_eq!(
        qt.count(),
        all.len(),
        "The count always equals the size of a whole-boundary query"
    );
}

#[test]
fn split_keeps_all_items_of_one_quadrant() {
    let mut qt = QuadTree::new(make_rect(0, 0, 100, 100), 2);
    // All three points lie in the top-left quadrant of a tree of capacity 2.
    let points = vec![pt(5, 5), pt(10, 10), pt(20, 20)];
    for p in &points {
        assert!(qt.insert(p), "Each point should be inserted");
    }
    let results = qt.query(&make_rect(0, 0, 100, 100));
    assert_eq!(results.len(), 3, "All items survive the split, each exactly once");
    for p in &points {
        assert!(results.contains(p), "Each inserted point should be found");
    }
}

#[test]
fn duplicate_positions_are_kept() {
    let mut qt = QuadTree::new(make_rect(0, 0, 100, 100), 1);
    let p = pt(10, 10);
    assert!(qt.insert(&p));
    assert!(qt.insert(&p));
    assert!(qt.insert(&p));
    assert_eq!(qt.count(), 3, "Duplicate positions are all stored");
    let popped = qt.pop(&make_rect(10, 10, 10, 10));
    assert_eq!(popped.len(), 3, "A query rectangle of one point pops all duplicates");
    assert_eq!(qt.count(), 0, "The tree is empty afterwards");
}

#[test]
fn extreme_coordinates() {
    let mut qt = QuadTree::new(
        make_rect(i64::MIN, i64::MIN, i64::MAX, i64::MAX),
        1,
    );
    assert!(qt.insert(&pt(0, 0)));
    assert!(qt.insert(&pt(1, 1)));
    assert_eq!(qt.count(), 2);
    assert!(qt.get(&pt(0, 0)).is_some());
    assert!(qt.get(&pt(1, 1)).is_some());
    assert!(qt.get(&pt(2, 2)).is_none());
}

#[test]
fn center_and_boundary_accessors() {
    let boundary = make_rect(0, 0, 100, 100);
    let qt: QuadTree<Pt> = QuadTree::new(boundary, 1);
    assert_eq!(qt.boundary(), boundary);
    assert_eq!(qt.center(), pt(50, 50));
}

#[test]
fn pop_matches_prior_query() {
    let mut qt = QuadTree::new(make_rect(0, 0, 100, 100), 1);
    let points = vec![pt(10, 10), pt(20, 20), pt(30, 30), pt(40, 40)];
    qt.insert_many(&points);

    let shape = make_rect(15, 15, 35, 35);
    let before = qt.query(&shape);
    let popped = qt.pop(&shape);
    assert_eq!(popped, before, "Pop returns exactly what a query just returned");
    assert!(
        qt.query(&shape).is_empty(),
        "Querying the same shape after the pop finds nothing"
    );
    let rest = qt.query(&make_rect(0, 0, 100, 100));
    assert_eq!(rest.len(), points.len() - popped.len());
    for p in &rest {
        assert!(points.contains(p) && !popped.contains(p));
    }
}

#[test]
fn circle_query_fast_path_is_conservative() {
    // The whole-leaf fast path tests only the two sampled corners of a leaf
    // boundary. For a circle that test is conservative: it can emit an item
    // of the leaf that the circle itself does not contain, while a pop tests
    // every item exactly. This pins that accepted bias.
    let mut qt = QuadTree::new(make_rect(-5, 0, 0, 5), 1);
    let item = pt(-5, 5);
    assert!(qt.insert(&item));
    let circle = make_circle(0, 0, 5);
    assert!(!circle.contains(&item), "The circle does not contain the corner item");
    let found = qt.query(&circle);
    assert_eq!(found, vec![item], "The corner-sampled fast path still emits it");
    let popped = qt.pop(&circle);
    assert!(popped.is_empty(), "Pop tests items exactly and removes nothing");
    assert_eq!(qt.count(), 1);
}
