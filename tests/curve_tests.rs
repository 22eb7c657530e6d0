use bezier_edit::anchor::Anchor;
use bezier_edit::curve::{cubic_bezier, flatten, DEFAULT_SAMPLES};
use bezier_edit::geometry::Point;

fn pt(x: i64, y: i64) -> Point {
    Point::new(x, y)
}

#[test]
fn cubic_hits_endpoints_exactly() {
    let (p0, p1, p2, p3) = (pt(-17, 3), pt(40, 900), pt(-800, 12), pt(55, -61));
    assert_eq!(cubic_bezier(p0, p1, p2, p3, 0, 100), p0);
    assert_eq!(cubic_bezier(p0, p1, p2, p3, 100, 100), p3);
    assert_eq!(cubic_bezier(p0, p1, p2, p3, 0, 7), p0);
    assert_eq!(cubic_bezier(p0, p1, p2, p3, 7, 7), p3);
}

#[test]
fn cubic_midpoint_value() {
    let p = cubic_bezier(pt(0, 0), pt(0, 100), pt(100, 100), pt(100, 0), 1, 2);
    assert_eq!(p, pt(50, 75));
}

#[test]
fn cubic_rounds_down_on_negative_values() {
    let p = cubic_bezier(pt(-1, 0), pt(0, 0), pt(0, 0), pt(0, 0), 1, 2);
    assert_eq!(p, pt(-1, 0));
}

#[test]
fn flatten_two_straight_anchors() {
    let anchors = vec![Anchor::new_smooth(pt(0, 0)), Anchor::new_smooth(pt(100, 0))];
    let path = flatten(&anchors, DEFAULT_SAMPLES);
    assert_eq!(path.len(), 101);
    assert_eq!(path[0], pt(0, 0));
    assert_eq!(path[100], pt(100, 0));
    assert_eq!(path[50], pt(50, 0));
}

#[test]
fn flatten_concatenates_segments() {
    let anchors = vec![
        Anchor::new_smooth(pt(0, 0)),
        Anchor::new_smooth(pt(100, 0)),
        Anchor::new_smooth(pt(100, 100)),
    ];
    let path = flatten(&anchors, 4);
    assert_eq!(path.len(), 10);
    assert_eq!(path[0], pt(0, 0));
    assert_eq!(path[4], pt(100, 0));
    assert_eq!(path[5], pt(100, 0));
    assert_eq!(path[9], pt(100, 100));
}

#[test]
fn flatten_needs_two_anchors() {
    let one = vec![Anchor::new_smooth(pt(0, 0))];
    assert!(flatten(&one, 10).is_empty());
    let none: Vec<Anchor> = Vec::new();
    assert!(flatten(&none, 10).is_empty());
}
