use quadtree::shapes::Rect;
use quadtree::util::{determine_overlap_quadrants, determine_quadrant, group_by_quadrant};
use quadtree::Pt;

fn pt(x: i64, y: i64) -> Pt {
    Pt { x, y }
}

fn make_rect(x1: i64, y1: i64, x2: i64, y2: i64) -> Rect {
    Rect::new(pt(x1, y1), pt(x2, y2))
}

#[test]
fn test_determine_quadrant() {
    let rect = make_rect(0, 0, 10, 10);
    let points = [
        pt(2, 2),   // Should be in the first quadrant (index 0)
        pt(7, 2),   // Should be in the second quadrant (index 1)
        pt(2, 7),   // Should be in the third quadrant (index 2)
        pt(7, 7),   // Should be in the fourth quadrant (index 3)
        pt(11, 11), // Should be outside all quadrants (None)
    ];

    let expected_quadrants = [Some(0), Some(1), Some(2), Some(3), None];
    let results = points
        .iter()
        .map(|point| determine_quadrant(&rect, point))
        .collect::<Vec<_>>();

    assert_eq!(
        results, expected_quadrants,
        "Each point should match its expected quadrant"
    );
}

#[test]
fn test_group_by_quadrant() {
    let rect = make_rect(0, 0, 10, 10);
    let points = [
        pt(2, 2),   // Should be in the first quadrant (index 0)
        pt(7, 2),   // Should be in the second quadrant (index 1)
        pt(2, 7),   // Should be in the third quadrant (index 2)
        pt(7, 7),   // Should be in the fourth quadrant (index 3)
        pt(11, 11), // Should be outside all quadrants (the last bucket)
    ];

    let groups = group_by_quadrant(&rect, points.to_vec());

    assert_eq!(groups.0, vec![pt(2, 2)], "Each group should match its expected value");
    assert_eq!(groups.1, vec![pt(7, 2)], "Each group should match its expected value");
    assert_eq!(groups.2, vec![pt(2, 7)], "Each group should match its expected value");
    assert_eq!(groups.3, vec![pt(7, 7)], "Each group should match its expected value");
    assert_eq!(groups.4, vec![pt(11, 11)], "Each group should match its expected value");
}

#[test]
fn test_determine_overlap_quadrants() {
    let outer = make_rect(0, 0, 100, 100);

    // An inner rectangle that intersects multiple quadrants
    let inner_multiple_overlap = make_rect(25, 25, 75, 75);
    assert_eq!(
        determine_overlap_quadrants(&outer, &inner_multiple_overlap),
        &[0, 1, 2, 3],
        "Inner rectangle overlaps all quadrants."
    );

    // An inner rectangle that overlaps only one quadrant
    let inner_single_overlap = make_rect(10, 10, 30, 30);
    assert_eq!(
        determine_overlap_quadrants(&outer, &inner_single_overlap),
        &[0],
        "Inner rectangle overlaps only the first quadrant."
    );

    // An inner rectangle that does not overlap any quadrant
    let inner_no_overlap = make_rect(101, 101, 150, 150);
    assert!(
        determine_overlap_quadrants(&outer, &inner_no_overlap).is_empty(),
        "Inner rectangle does not overlap any quadrant."
    );

    // An inner rectangle that overlaps on the boundary between two quadrants
    let inner_boundary_overlap = make_rect(50, 50, 70, 70);
    assert_eq!(
        determine_overlap_quadrants(&outer, &inner_boundary_overlap),
        &[0, 1, 2, 3],
        "Inner rectangle overlaps the boundary between all quadrants."
    );
}
