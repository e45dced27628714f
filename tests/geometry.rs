use raycast::geometry::{
    find_intersection, on_segment, orientation, perpendicular_offsets, point_in_triangle,
    point_on_heading_segment,
    segments_intersect, squared_distance, crossing, Orientation, Point, RatPoint, Segment,
};

fn pt(x: i32, y: i32) -> Point {
    Point { x, y }
}

fn seg(x1: i32, y1: i32, x2: i32, y2: i32) -> Segment {
    Segment { from: pt(x1, y1), to: pt(x2, y2) }
}

fn coords(p: RatPoint) -> (f64, f64) {
    (p.x_num as f64 / p.den as f64, p.y_num as f64 / p.den as f64)
}

#[test]
fn interior_crossing_is_the_algebraic_solution() {
    let r = find_intersection(seg(0, 0, 4, 4), seg(0, 4, 4, 0)).unwrap();
    assert_eq!(r, RatPoint { x_num: 64, y_num: 64, den: 32 });
    assert_eq!(coords(r), (2.0, 2.0));
}

#[test]
fn crossing_off_grid_is_exact() {
    // lines y = x / 3 and x = 1 meet at (1, 1/3)
    let r = find_intersection(seg(0, 0, 3, 1), seg(1, -5, 1, 5)).unwrap();
    assert!(r.den > 0);
    assert_eq!(r.x_num, r.den);
    assert_eq!(3 * r.y_num, r.den);
}

#[test]
fn crossing_reports_both_parameters() {
    let c = crossing(seg(0, 0, 10, 0), seg(4, -2, 4, 6)).unwrap();
    // t = 4/10 along the first, u = 2/8 along the second
    assert_eq!(c.t_num * 10, 4 * c.den);
    assert_eq!(c.u_num * 8, 2 * c.den);
}

#[test]
fn parallel_segments_do_not_cross() {
    assert_eq!(find_intersection(seg(0, 0, 4, 0), seg(0, 1, 4, 1)), None);
}

#[test]
fn collinear_overlap_is_not_a_crossing() {
    let a = seg(0, 0, 4, 0);
    let b = seg(2, 0, 6, 0);
    assert_eq!(find_intersection(a, b), None);
    assert!(segments_intersect(a, b));
}

#[test]
fn shared_endpoint_counts_as_crossing() {
    let r = find_intersection(seg(0, 0, 2, 0), seg(2, 0, 2, 5)).unwrap();
    assert_eq!(coords(r), (2.0, 0.0));
    let r = find_intersection(seg(2, 5, 2, 0), seg(0, 0, 2, 0)).unwrap();
    assert_eq!(coords(r), (2.0, 0.0));
}

#[test]
fn endpoint_on_interior_counts_as_crossing() {
    let r = find_intersection(seg(3, 0, 3, 7), seg(0, 0, 6, 0)).unwrap();
    assert_eq!(coords(r), (3.0, 0.0));
}

#[test]
fn lines_meeting_beyond_a_segment_do_not_cross() {
    assert_eq!(find_intersection(seg(0, 0, 1, 0), seg(2, -1, 2, 1)), None);
    assert!(!segments_intersect(seg(0, 0, 1, 0), seg(2, -1, 2, 1)));
}

#[test]
fn orientation_classifies_turns() {
    assert_eq!(orientation(pt(0, 0), pt(1, 0), pt(1, 1)), Orientation::CounterClockwise);
    assert_eq!(orientation(pt(0, 0), pt(1, 0), pt(1, -1)), Orientation::Clockwise);
    assert_eq!(orientation(pt(0, 0), pt(1, 0), pt(5, 0)), Orientation::Collinear);
}

#[test]
fn on_segment_checks_the_bounding_box() {
    assert!(on_segment(pt(0, 0), pt(2, 1), pt(4, 4)));
    assert!(on_segment(pt(4, 4), pt(4, 0), pt(0, 0)));
    assert!(!on_segment(pt(0, 0), pt(5, 1), pt(4, 4)));
}

#[test]
fn segments_intersect_reports_proper_crossings() {
    assert!(segments_intersect(seg(0, 0, 4, 4), seg(0, 4, 4, 0)));
    assert!(!segments_intersect(seg(0, 0, 4, 0), seg(0, 1, 4, 1)));
}

#[test]
fn triangle_containment_excludes_edges() {
    let (a, b, c) = (pt(0, 0), pt(4, 0), pt(0, 4));
    assert!(!point_in_triangle(pt(2, 0), a, b, c));
    assert!(point_in_triangle(pt(1, 1), a, b, c));
    assert!(!point_in_triangle(pt(5, 5), a, b, c));
    assert!(!point_in_triangle(pt(0, 0), a, b, c));
    assert!(!point_in_triangle(pt(2, 2), a, b, c));
}

#[test]
fn triangle_containment_ignores_winding() {
    let (a, b, c) = (pt(0, 0), pt(4, 0), pt(0, 4));
    for p in [pt(1, 1), pt(2, 0), pt(5, 5), pt(3, 1), pt(-1, 1)] {
        let r = point_in_triangle(p, a, b, c);
        assert_eq!(point_in_triangle(p, b, c, a), r);
        assert_eq!(point_in_triangle(p, c, a, b), r);
        assert_eq!(point_in_triangle(p, c, b, a), r);
        assert_eq!(point_in_triangle(p, a, c, b), r);
    }
}

#[test]
fn offsets_to_the_segment_interior() {
    let o = perpendicular_offsets(pt(2, 3), pt(0, 0), pt(4, 0));
    assert!(o.den > 0);
    assert_eq!(o.dx_num, 0);
    assert_eq!(o.dy_num, 3 * o.den);
}

#[test]
fn offsets_clamp_to_the_far_end() {
    let o = perpendicular_offsets(pt(6, 1), pt(0, 0), pt(4, 0));
    assert_eq!((o.dx_num, o.dy_num, o.den), (2, 1, 1));
}

#[test]
fn offsets_clamp_to_the_near_end() {
    let o = perpendicular_offsets(pt(-3, -2), pt(0, 0), pt(4, 4));
    assert_eq!((o.dx_num, o.dy_num, o.den), (3, 2, 1));
}

#[test]
fn offsets_are_absolute_on_a_slanted_segment() {
    // closest point of (0, 4) on the segment (0,0)-(4,4) is (2, 2)
    let o = perpendicular_offsets(pt(0, 4), pt(0, 0), pt(4, 4));
    assert_eq!(o.dx_num, 2 * o.den);
    assert_eq!(o.dy_num, 2 * o.den);
}

#[test]
fn offsets_to_a_single_point_segment() {
    let o = perpendicular_offsets(pt(3, -4), pt(1, 1), pt(1, 1));
    assert_eq!((o.dx_num, o.dy_num, o.den), (2, 5, 1));
}

#[test]
fn distance_of_a_three_four_five_triangle() {
    assert_eq!(squared_distance(pt(0, 0), pt(3, 4)), 25);
    assert_eq!((squared_distance(pt(0, 0), pt(3, 4)) as f64).sqrt(), 5.0);
}

#[test]
fn squared_distance_at_the_coordinate_extremes() {
    let d = squared_distance(pt(i32::MIN, i32::MIN), pt(i32::MAX, i32::MAX));
    let span = (i32::MAX as i128) - (i32::MIN as i128);
    assert_eq!(d, 2 * span * span);
}

#[test]
fn foot_of_a_point_on_a_horizontal_segment() {
    let r = point_on_heading_segment(pt(0, 0), pt(10, 0), pt(3, 7)).unwrap();
    assert_eq!(coords(r), (3.0, 0.0));
}

#[test]
fn foot_of_a_point_on_a_slanted_segment() {
    let r = point_on_heading_segment(pt(0, 0), pt(4, 4), pt(0, 4)).unwrap();
    assert_eq!(coords(r), (2.0, 2.0));
}

#[test]
fn foot_beyond_the_segment_is_absent() {
    assert_eq!(point_on_heading_segment(pt(0, 0), pt(10, 0), pt(12, 1)), None);
    assert_eq!(point_on_heading_segment(pt(0, 0), pt(10, 0), pt(-1, 1)), None);
    assert_eq!(point_on_heading_segment(pt(5, 5), pt(5, 5), pt(5, 5)), None);
}

#[test]
fn foot_at_the_segment_ends_is_present() {
    let r = point_on_heading_segment(pt(0, 0), pt(10, 0), pt(10, -3)).unwrap();
    assert_eq!(coords(r), (10.0, 0.0));
    let r = point_on_heading_segment(pt(0, 0), pt(10, 0), pt(0, 3)).unwrap();
    assert_eq!(coords(r), (0.0, 0.0));
}

#[test]
fn collinear_segments_touch_only_where_they_meet() {
    assert!(!segments_intersect(seg(0, 0, 2, 0), seg(3, 0, 5, 0)));
    assert!(segments_intersect(seg(0, 0, 2, 2), seg(2, 2, 5, 5)));
    assert!(segments_intersect(seg(0, 0, 6, 6), seg(5, 5, 2, 2)));
    assert!(!segments_intersect(seg(0, 0, 2, 2), seg(3, 3, 5, 5)));
}
