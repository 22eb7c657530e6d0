use bezier_edit::anchor::Anchor;
use bezier_edit::bezier::{hit_test, BezierWidget, DragType};
use bezier_edit::geometry::Point;

fn pt(x: i64, y: i64) -> Point {
    Point::new(x, y)
}

#[test]
fn smooth_handle_drag_mirrors_exactly() {
    let a = Anchor::with_handles(pt(0, 0), pt(-30, 0), pt(30, 0));
    let mut a = a;
    a.is_smooth = true;
    let mut w = BezierWidget::new(vec![a], 0);
    w.drag_handle_in(0, pt(20, 10));
    assert_eq!(w.anchors[0].handle_in, pt(-10, 10));
    assert_eq!(w.anchors[0].handle_out, pt(10, -10));
    assert_eq!(w.anchors[0].pos, pt(0, 0));
}

#[test]
fn smooth_handle_out_drag_mirrors_onto_handle_in() {
    let mut w = BezierWidget::new(vec![Anchor::new_smooth(pt(10, 10))], 0);
    w.drag_handle_out(0, pt(-5, 7));
    assert_eq!(w.anchors[0].handle_out, pt(35, 17));
    assert_eq!(w.anchors[0].handle_in, pt(-15, 3));
}

#[test]
fn non_smooth_handle_drag_keeps_other_handle() {
    let a = Anchor::with_handles(pt(0, 0), pt(-30, 5), pt(20, 9));
    let mut w = BezierWidget::new(vec![a], 3);
    w.drag_handle_in(0, pt(4, 4));
    assert_eq!(w.anchors[0].handle_in, pt(-26, 9));
    assert_eq!(w.anchors[0].handle_out, pt(20, 9));
    w.drag_handle_out(0, pt(-1, 2));
    assert_eq!(w.anchors[0].handle_out, pt(19, 11));
    assert_eq!(w.anchors[0].handle_in, pt(-26, 9));
}

#[test]
fn anchor_drag_moves_handles_along() {
    let mut w = BezierWidget::new(vec![Anchor::new_smooth(pt(0, 0))], 0);
    w.drag_anchor(0, pt(12, -3));
    assert_eq!(w.anchors[0].pos, pt(12, -3));
    assert_eq!(w.anchors[0].handle_in, pt(-18, -3));
    assert_eq!(w.anchors[0].handle_out, pt(42, -3));
}

#[test]
fn smooth_anchor_drag_round_trip_is_rigid() {
    let mut a = Anchor::with_handles(pt(0, 0), pt(-7, -7), pt(10, 10));
    a.is_smooth = true;
    let mut w = BezierWidget::new(vec![a], 0);
    w.drag_anchor(0, pt(1, 0));
    assert_eq!(w.anchors[0].pos, pt(1, 0));
    assert_eq!(w.anchors[0].handle_in, pt(-6, -7));
    assert_eq!(w.anchors[0].handle_out, pt(11, 10));
    w.drag_anchor(0, pt(-1, 0));
    assert_eq!(w.anchors[0], a);
}

#[test]
fn drag_beyond_coordinate_range_is_ignored() {
    let a = Anchor::with_handles(pt(0, 0), pt(-10, 0), pt(16777210, 0));
    let mut w = BezierWidget::new(vec![a], 0);
    w.drag_anchor(0, pt(10, 0));
    assert_eq!(w.anchors[0], a);
}

#[test]
fn hit_test_prefers_earlier_handle_over_anchor() {
    // anchor 1's point is closer to the cursor, but anchor 0's incoming handle is also in range
    let a0 = Anchor::with_handles(pt(0, 0), pt(95, 0), pt(-50, 0));
    let a1 = Anchor::with_handles(pt(101, 0), pt(300, 0), pt(400, 0));
    let anchors = vec![a0, a1];
    let res = hit_test(pt(100, 0), &anchors, 10);
    assert_eq!(res, Some((DragType::HandleIn(0), 0)));
}

#[test]
fn hit_test_scans_incoming_handles_before_outgoing() {
    let a0 = Anchor::with_handles(pt(500, 500), pt(-500, 0), pt(2, 0));
    let a1 = Anchor::with_handles(pt(600, 600), pt(3, 0), pt(700, 0));
    let anchors = vec![a0, a1];
    assert_eq!(hit_test(pt(0, 0), &anchors, 10), Some((DragType::HandleIn(1), 1)));
}

#[test]
fn hit_test_outgoing_then_anchor_then_nothing() {
    let a0 = Anchor::with_handles(pt(0, 0), pt(-100, 0), pt(100, 0));
    let anchors = vec![a0];
    assert_eq!(hit_test(pt(104, 3), &anchors, 10), Some((DragType::HandleOut(0), 0)));
    assert_eq!(hit_test(pt(3, 4), &anchors, 10), Some((DragType::Anchor(0), 0)));
    assert_eq!(hit_test(pt(50, 0), &anchors, 10), None);
}

#[test]
fn hit_test_radius_is_strict() {
    let anchors = vec![Anchor::with_handles(pt(0, 0), pt(-100, 0), pt(100, 0))];
    assert_eq!(hit_test(pt(6, 8), &anchors, 10), None);
    assert_eq!(hit_test(pt(6, 7), &anchors, 10), Some((DragType::Anchor(0), 0)));
    assert_eq!(hit_test(pt(0, 0), &anchors, 0), None);
}

#[test]
fn widget_hit_test_matches_free_function() {
    let w = BezierWidget::new(vec![Anchor::new_smooth(pt(0, 0))], 0);
    assert_eq!(w.hit_test(pt(-29, 1), 5), Some((DragType::HandleIn(0), 0)));
}

#[test]
fn desired_size_is_bounding_box_of_points() {
    let w = BezierWidget::new(
        vec![
            Anchor::new_smooth(pt(10, -5)),
            Anchor::new_smooth(pt(-20, 40)),
            Anchor::new_smooth(pt(30, 0)),
        ],
        0,
    );
    assert_eq!(w.desired_size(), (pt(-20, -5), pt(50, 45)));
}

#[test]
fn gesture_start_drag_and_end() {
    let mut w = BezierWidget::new(vec![Anchor::new_smooth(pt(0, 0))], 9);
    w.apply_actions(pt(1, 1), 10, true, false, false, pt(0, 0));
    assert_eq!(w.dragging, Some(DragType::Anchor(0)));
    w.apply_actions(pt(1, 1), 10, false, true, false, pt(5, 5));
    assert_eq!(w.anchors[0].pos, pt(5, 5));
    assert_eq!(w.dragging, Some(DragType::Anchor(0)));
    w.apply_actions(pt(6, 6), 10, false, true, true, pt(1, 0));
    assert_eq!(w.anchors[0].pos, pt(6, 5));
    assert_eq!(w.dragging, None);
    assert_eq!(w.edge_index, 9);
}

#[test]
fn gesture_start_without_hit_stays_idle() {
    let mut w = BezierWidget::new(vec![Anchor::new_smooth(pt(0, 0))], 0);
    w.apply_actions(pt(500, 500), 10, true, true, false, pt(5, 5));
    assert_eq!(w.dragging, None);
    assert_eq!(w.anchors[0].pos, pt(0, 0));
}

#[test]
fn stale_target_is_cleared() {
    let mut w = BezierWidget::new(vec![Anchor::new_smooth(pt(0, 0))], 0);
    w.dragging = Some(DragType::HandleOut(3));
    w.apply_actions(pt(0, 0), 10, false, true, false, pt(5, 5));
    assert_eq!(w.dragging, None);
    assert_eq!(w.anchors[0], Anchor::new_smooth(pt(0, 0)));
}

#[test]
fn drag_type_index() {
    assert_eq!(DragType::Anchor(2).index(), 2);
    assert_eq!(DragType::HandleIn(5).index(), 5);
    assert_eq!(DragType::HandleOut(7).index(), 7);
}
