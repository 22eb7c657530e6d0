use bezier_edit::geometry::Point;
use bezier_edit::node_hit::{hit_test_node, CanvasRect};

fn rect(x0: i64, y0: i64, x1: i64, y1: i64) -> CanvasRect {
    CanvasRect { min: Point::new(x0, y0), max: Point::new(x1, y1) }
}

#[test]
fn first_node_containing_cursor_wins() {
    let nodes = vec![
        (4, Some(rect(100, 100, 200, 200))),
        (7, None),
        (2, Some(rect(0, 0, 50, 50))),
        (9, Some(rect(-10, -10, 60, 60))),
    ];
    assert_eq!(hit_test_node(&nodes, Point::new(10, 10)), Some(2));
    assert_eq!(hit_test_node(&nodes, Point::new(55, 55)), Some(9));
    assert_eq!(hit_test_node(&nodes, Point::new(150, 100)), Some(4));
    assert_eq!(hit_test_node(&nodes, Point::new(300, 0)), None);
}

#[test]
fn node_rect_edges_count_as_inside() {
    let nodes = vec![(0, Some(rect(0, 0, 10, 10)))];
    assert_eq!(hit_test_node(&nodes, Point::new(10, 0)), Some(0));
    assert_eq!(hit_test_node(&nodes, Point::new(11, 0)), None);
    assert!(rect(0, 0, 10, 10).contains(Point::new(0, 10)));
}

#[test]
fn no_nodes_no_hit() {
    let nodes: Vec<(usize, Option<CanvasRect>)> = Vec::new();
    assert_eq!(hit_test_node(&nodes, Point::new(0, 0)), None);
}
