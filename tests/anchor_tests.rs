use bezier_edit::anchor::{Anchor, DEFAULT_HANDLE_OFFSET};
use bezier_edit::geometry::{floor_div, isqrt, Point};

fn pt(x: i64, y: i64) -> Point {
    Point::new(x, y)
}

#[test]
fn new_smooth_places_horizontal_handles() {
    let a = Anchor::new_smooth(pt(5, 7));
    assert_eq!(a.pos, pt(5, 7));
    assert_eq!(a.handle_in, pt(5 - DEFAULT_HANDLE_OFFSET, 7));
    assert_eq!(a.handle_out, pt(35, 7));
    assert!(a.is_smooth);
    assert!(!a.selected);
}

#[test]
fn with_handles_is_not_smooth() {
    let a = Anchor::with_handles(pt(0, 0), pt(-3, 4), pt(8, 1));
    assert_eq!(a.handle_in, pt(-3, 4));
    assert_eq!(a.handle_out, pt(8, 1));
    assert!(!a.is_smooth);
}

#[test]
fn enforce_smooth_bisects_perpendicular_handles() {
    let mut a = Anchor::with_handles(pt(0, 0), pt(10, 0), pt(0, 10));
    a.enforce_smooth();
    assert_eq!(a.handle_in, pt(7, -7));
    assert_eq!(a.handle_out, pt(-7, 7));
    assert_eq!(a.pos, pt(0, 0));
}

#[test]
fn enforce_smooth_keeps_lengths_on_normalized_axis() {
    let mut a = Anchor::with_handles(pt(0, 0), pt(-6, 8), pt(6, 8));
    a.enforce_smooth();
    assert_eq!(a.handle_in, pt(-10, 0));
    assert_eq!(a.handle_out, pt(10, 0));
}

#[test]
fn enforce_smooth_rounds_on_integer_grid() {
    let mut a = Anchor::with_handles(pt(100, 200), pt(103, 204), pt(101, 201));
    a.enforce_smooth();
    assert_eq!(a.handle_in, pt(95, 198));
    assert_eq!(a.handle_out, pt(101, 200));
}

#[test]
fn enforce_smooth_same_direction_keeps_incoming_direction() {
    let mut a = Anchor::with_handles(pt(0, 0), pt(10, 0), pt(5, 0));
    a.enforce_smooth();
    assert_eq!(a.handle_in, pt(10, 0));
    assert_eq!(a.handle_out, pt(-5, 0));
}

#[test]
fn enforce_smooth_keeps_opposite_handles_of_different_lengths() {
    let mut a = Anchor::with_handles(pt(0, 0), pt(-7, -7), pt(10, 10));
    let before = a;
    a.enforce_smooth();
    assert_eq!(a, before);
}

#[test]
fn enforce_smooth_keeps_mirrored_handles() {
    let mut a = Anchor::with_handles(pt(4, -2), pt(-26, 8), pt(34, -12));
    let before = a;
    a.enforce_smooth();
    assert_eq!(a, before);
    // the two handles stay opposite and at their former distances
    let dx_in = (a.handle_in.x - a.pos.x) as f64;
    let dy_in = (a.handle_in.y - a.pos.y) as f64;
    let dx_out = (a.handle_out.x - a.pos.x) as f64;
    let dy_out = (a.handle_out.y - a.pos.y) as f64;
    let l_in = (dx_in * dx_in + dy_in * dy_in).sqrt();
    let l_out = (dx_out * dx_out + dy_out * dy_out).sqrt();
    let cos = (dx_in * dx_out + dy_in * dy_out) / (l_in * l_out);
    assert!((cos + 1.0).abs() < 1e-9);
}

#[test]
fn enforce_smooth_mirrors_when_a_handle_sits_on_the_anchor() {
    let mut a = Anchor::with_handles(pt(1, 1), pt(1, 1), pt(21, 1));
    a.enforce_smooth();
    assert_eq!(a.handle_in, pt(-19, 1));
    assert_eq!(a.handle_out, pt(21, 1));
    let mut b = Anchor::with_handles(pt(0, 0), pt(0, 0), pt(20, 0));
    b.enforce_smooth();
    assert_eq!(b.handle_in, pt(-20, 0));
    assert_eq!(b.handle_out, pt(20, 0));
    let mut c = Anchor::with_handles(pt(0, 0), pt(3, -4), pt(0, 0));
    c.enforce_smooth();
    assert_eq!(c.handle_in, pt(3, -4));
    assert_eq!(c.handle_out, pt(-3, 4));
}

#[test]
fn set_smooth_true_enforces() {
    let mut a = Anchor::with_handles(pt(0, 0), pt(10, 0), pt(0, 10));
    a.set_smooth(true);
    assert!(a.is_smooth);
    assert_eq!(a.handle_in, pt(7, -7));
    assert_eq!(a.handle_out, pt(-7, 7));
}

#[test]
fn set_smooth_false_keeps_handles() {
    let mut a = Anchor::with_handles(pt(0, 0), pt(10, 0), pt(0, 10));
    a.set_smooth(false);
    assert!(!a.is_smooth);
    assert_eq!(a.handle_in, pt(10, 0));
    assert_eq!(a.handle_out, pt(0, 10));
}

#[test]
fn translate_round_trip_restores_anchor() {
    let original = Anchor::with_handles(pt(3, 4), pt(-7, 9), pt(13, -1));
    let mut a = original;
    a.translate(pt(250, -40));
    assert_eq!(a.pos, pt(253, -36));
    assert_eq!(a.handle_in, pt(243, -31));
    assert_eq!(a.handle_out, pt(263, -41));
    a.translate(pt(-250, 40));
    assert_eq!(a, original);
}

#[test]
fn isqrt_rounds_down() {
    assert_eq!(isqrt(0), 0);
    assert_eq!(isqrt(1), 1);
    assert_eq!(isqrt(8), 2);
    assert_eq!(isqrt(9), 3);
    assert_eq!(isqrt(u64::MAX as u128), 4294967295);
    assert_eq!(isqrt(1u128 << 100), 1u64 << 50);
}

#[test]
fn floor_div_rounds_toward_negative_infinity() {
    assert_eq!(floor_div(7, 2), 3);
    assert_eq!(floor_div(-7, 2), -4);
    assert_eq!(floor_div(-8, 2), -4);
    assert_eq!(floor_div(0, 5), 0);
}

#[test]
fn point_fits_checks_range() {
    assert!(pt(16777216, -16777216).fits());
    assert!(!pt(16777217, 0).fits());
}
