use quadtree::shapes::{Circle, Rect, Shape};
use quadtree::Pt;

fn pt(x: i64, y: i64) -> Pt {
    Pt { x, y }
}

fn make_rect(x1: i64, y1: i64, x2: i64, y2: i64) -> Rect {
    Rect::new(pt(x1, y1), pt(x2, y2))
}

fn make_circle(x: i64, y: i64, r: i64) -> Circle {
    Circle::new(pt(x, y), r)
}

#[test]
fn rect_properties() {
    let rect = make_rect(0, 0, 10, 10);
    assert_eq!(rect.start(), pt(0, 0), "Start should be at (0.0, 0.0)");
    assert_eq!(rect.end(), pt(10, 10), "End should be at (10.0, 10.0)");
    assert_eq!(rect.center(), pt(5, 5), "Center should be at (5.0, 5.0)");
}

#[test]
fn rect_contains_point() {
    let rect = make_rect(0, 0, 10, 10);
    assert!(rect.contains(&pt(5, 5)), "Rect should contain point (5.0, 5.0)");
    assert!(
        !rect.contains(&pt(-1, 5)),
        "Rect should not contain point (-1.0, 5.0)"
    );
    assert!(
        rect.contains(&pt(0, 0)),
        "Rect should contain its start point (0.0, 0.0)"
    );
    assert!(
        rect.contains(&pt(10, 10)),
        "Rect should contain its end point (10.0, 10.0)"
    );
}

#[test]
fn rect_intersects_with_another_rect() {
    let rect1 = make_rect(0, 0, 10, 10);
    let rect2 = make_rect(5, 5, 15, 15);
    assert!(rect1.intersects(&rect2), "Rect1 should intersect with Rect2");

    let rect3 = make_rect(10, 10, 20, 20);
    assert!(
        rect1.intersects(&rect3),
        "Rect1 should touch Rect3 at the edge, counting as intersect"
    );

    let rect4 = make_rect(11, 11, 21, 21);
    assert!(!rect1.intersects(&rect4), "Rect1 should not intersect with Rect4");

    let rect5 = make_rect(-5, -5, -1, -1);
    assert!(!rect1.intersects(&rect5), "Rect1 should not intersect with Rect5");

    let rect6 = make_rect(3, 3, 7, 7);
    assert!(
        rect1.intersects(&rect6),
        "Rect6 is entirely inside Rect1, should intersect"
    );

    let rect7 = make_rect(-10, 0, -1, 10);
    assert!(
        !rect1.intersects(&rect7),
        "Rect1 should not intersect with Rect7 on the left"
    );

    let rect8 = make_rect(0, -10, 10, -1);
    assert!(
        !rect1.intersects(&rect8),
        "Rect1 should not intersect with Rect8 below it"
    );

    let rect9 = make_rect(0, 10, 10, 20);
    assert!(
        rect1.intersects(&rect9),
        "Rect1 should touch Rect9 at the top, counting as intersect"
    );

    let rect10 = make_rect(10, 0, 20, 10);
    assert!(
        rect1.intersects(&rect10),
        "Rect1 should touch Rect10 on the right, counting as intersect"
    );

    let rect11 = make_rect(5, -5, 15, 5);
    assert!(
        rect1.intersects(&rect11),
        "Rect11 should intersect with the bottom part of Rect1"
    );
}

#[test]
fn rect_contains_another_rect() {
    let outer_rect = make_rect(0, 0, 10, 10);
    let inner_rect = make_rect(1, 1, 9, 9);
    assert!(
        outer_rect.contains_rect(&inner_rect),
        "Outer rect should contain inner rect completely"
    );

    let outer_rect = make_rect(0, 0, 10, 10);
    let overlapping_rect = make_rect(5, 5, 15, 15);
    assert!(
        !outer_rect.contains_rect(&overlapping_rect),
        "Outer rect should not contain overlapping rect"
    );
}

#[test]
fn quartering_rect() {
    let rect = make_rect(0, 0, 10, 10);
    let quarters = rect.quarter();
    assert_eq!(
        quarters[0],
        make_rect(0, 0, 5, 5),
        "Top-left quarter should match expected dimensions"
    );
    assert_eq!(
        quarters[1],
        make_rect(5, 0, 10, 5),
        "Top-right quarter should match expected dimensions"
    );
    assert_eq!(
        quarters[2],
        make_rect(0, 5, 5, 10),
        "Bottom-left quarter should match expected dimensions"
    );
    assert_eq!(
        quarters[3],
        make_rect(5, 5, 10, 10),
        "Bottom-right quarter should match expected dimensions"
    );
}

#[test]
fn rect_setters_recompute_center() {
    let mut rect = make_rect(0, 0, 10, 10);
    rect.set_start(pt(2, 2));
    assert_eq!(rect.start(), pt(2, 2));
    assert_eq!(rect.center(), pt(6, 6), "Center should follow the new start");
    rect.set_end(pt(20, 20));
    assert_eq!(rect.end(), pt(20, 20));
    assert_eq!(rect.center(), pt(11, 11), "Center should follow the new end");
}

#[test]
fn circle_properties_and_bounds() {
    let circle = make_circle(5, 5, 5);
    assert_eq!(circle.center(), pt(5, 5), "Center should be at (5.0, 5.0)");
    assert_eq!(circle.radius, 5, "Radius should be 5.0");
    assert_eq!(circle.start(), pt(0, 0), "Start should be at (0.0, 0.0)");
    assert_eq!(circle.end(), pt(10, 10), "End should be at (10.0, 10.0)");
}

#[test]
fn circle_contains_point() {
    let circle = make_circle(5, 5, 5);
    assert!(circle.contains(&pt(5, 5)), "Circle should contain its center point");
    assert!(
        circle.contains(&pt(0, 5)),
        "Circle should contain point on its perimeter"
    );
    assert!(
        !circle.contains(&pt(0, 0)),
        "Circle should not contain points outside its boundary"
    );
}

#[test]
fn circle_intersects_another_circle() {
    let circle1 = make_circle(5, 5, 5);
    let circle2 = make_circle(10, 5, 5);
    let circle3 = make_circle(20, 5, 5);

    assert!(circle1.intersects(&circle2), "Circle1 should intersect Circle2");
    assert!(!circle1.intersects(&circle3), "Circle1 should not intersect Circle3");
}

#[test]
fn circle_contains_rect() {
    let circle = make_circle(5, 5, 5);
    let rect = make_rect(4, 4, 6, 6);
    assert!(circle.contains_rect(&rect), "Circle should contain rect");

    let circle = make_circle(5, 5, 5);
    let rect = make_rect(5, 5, 10, 10);
    assert!(
        !circle.contains_rect(&rect),
        "Circle should not contain overlapping rect"
    );
}

#[test]
fn circle_setters_recompute_bounds() {
    let mut circle = make_circle(5, 5, 5);
    circle.set_center(pt(10, 10));
    assert_eq!(circle.start(), pt(5, 5));
    assert_eq!(circle.end(), pt(15, 15));
    circle.set_radius(2);
    assert_eq!(circle.start(), pt(8, 8));
    assert_eq!(circle.end(), pt(12, 12));
}
