use raycast::geometry::{Point, Segment};
use raycast::scanner::{nearest_hit, sample_offsets, scan, Fraction, GapFill, ScanError};

/// World units per map unit, so that ray ends computed with trigonometry
/// keep three decimals.
const SCALE: f64 = 1000.0;

fn pt(x: i32, y: i32) -> Point {
    Point { x, y }
}

fn seg(x1: i32, y1: i32, x2: i32, y2: i32) -> Segment {
    Segment { from: pt(x1, y1), to: pt(x2, y2) }
}

/// The end of a ray of `length` map units at `degrees` from `origin`.
fn ray_end(origin: Point, length: f64, degrees: f64) -> Point {
    let a = degrees.to_radians();
    Point {
        x: origin.x + (length * SCALE * a.cos()).round() as i32,
        y: origin.y + (length * SCALE * a.sin()).round() as i32,
    }
}

fn distance(f: Fraction, length: f64) -> f64 {
    f.num as f64 / f.den as f64 * length
}

#[test]
fn single_wall_end_to_end() {
    let walls = vec![seg(100_000, -50_000, 100_000, 50_000)];
    let origin = pt(0, 0);
    // half field of view 10 degrees, step 10 degrees, in tenths of a degree
    let offsets = sample_offsets(100, 100).unwrap();
    assert_eq!(offsets, vec![-100, 0]);
    let ends: Vec<Point> =
        offsets.iter().map(|o| ray_end(origin, 300.0, *o as f64 / 10.0)).collect();
    let hits = scan(origin, &ends, &walls, GapFill::ClampToMax);
    assert_eq!(hits.len(), 2);
    // straight ahead: exactly a third of the 300-unit ray
    assert_eq!(3 * hits[1].num, hits[1].den);
    assert_eq!(distance(hits[1], 300.0), 100.0);
    // ten degrees off: 100 / cos(10 degrees)
    let expected = 100.0 / 10f64.to_radians().cos();
    assert!((distance(hits[0], 300.0) - expected).abs() < 0.01);
    assert!((distance(hits[0], 300.0) - 101.54).abs() < 0.01);
}

#[test]
fn nearest_of_several_walls_wins() {
    let walls = vec![seg(50, -10, 50, 10), seg(20, -10, 20, 10), seg(80, -10, 80, 10)];
    let hit = nearest_hit(seg(0, 0, 100, 0), &walls).unwrap();
    assert_eq!(hit.num * 100, 20 * hit.den);
}

#[test]
fn equally_near_walls_report_one_distance() {
    let walls = vec![seg(40, -10, 40, 10), seg(40, 10, 40, -10)];
    let hit = nearest_hit(seg(0, 0, 100, 0), &walls).unwrap();
    assert_eq!(hit.num * 100, 40 * hit.den);
}

#[test]
fn nothing_hit_is_absent() {
    assert_eq!(nearest_hit(seg(0, 0, 100, 0), &vec![]), None);
    let walls = vec![seg(50, 5, 50, 10), seg(-50, -10, -50, 10)];
    assert_eq!(nearest_hit(seg(0, 0, 100, 0), &walls), None);
}

#[test]
fn gap_clamps_to_full_length() {
    let walls = vec![seg(50, -10, 50, 10)];
    let ends = vec![pt(100, 0), pt(0, 100)];
    let hits = scan(pt(0, 0), &ends, &walls, GapFill::ClampToMax);
    assert_eq!(hits[0].num * 2, hits[0].den);
    assert_eq!(hits[1], Fraction { num: 1, den: 1 });
}

#[test]
fn gap_reuses_previous_sample() {
    let walls = vec![seg(50, -10, 50, 10)];
    let ends = vec![pt(100, 0), pt(0, 100), pt(0, -100)];
    let hits = scan(pt(0, 0), &ends, &walls, GapFill::ReusePrevious);
    assert_eq!(hits[1], hits[0]);
    assert_eq!(hits[2], hits[0]);
    assert_eq!(hits[0].num * 2, hits[0].den);
}

#[test]
fn gap_on_first_sample_is_full_length() {
    let walls = vec![seg(50, -10, 50, 10)];
    let ends = vec![pt(0, 100), pt(100, 0)];
    let hits = scan(pt(0, 0), &ends, &walls, GapFill::ReusePrevious);
    assert_eq!(hits[0], Fraction { num: 1, den: 1 });
}

#[test]
fn scanning_twice_gives_the_same_result() {
    let walls = vec![seg(100_000, -50_000, 100_000, 50_000), seg(-80_000, -90_000, 90_000, 120_000)];
    let origin = pt(-10_000, 5_000);
    let ends: Vec<Point> = (0..24).map(|i| ray_end(origin, 300.0, i as f64 * 15.0)).collect();
    let first = scan(origin, &ends, &walls, GapFill::ReusePrevious);
    let second = scan(origin, &ends, &walls, GapFill::ReusePrevious);
    assert_eq!(first, second);
}

#[test]
fn distance_grows_toward_the_corridor_opening() {
    // a straight wall along x = 100 map units, from y = -200 to y = 200
    let walls = vec![seg(100_000, -200_000, 100_000, 200_000)];
    let origin = pt(0, 0);
    let ends: Vec<Point> = (0..7).map(|i| ray_end(origin, 1000.0, i as f64 * 10.0)).collect();
    let hits = scan(origin, &ends, &walls, GapFill::ClampToMax);
    let d: Vec<f64> = hits.iter().map(|h| distance(*h, 1000.0)).collect();
    // up to 60 degrees the rays reach the wall, each farther than the last
    for i in 1..d.len() {
        assert!(d[i] > d[i - 1], "{:?}", d);
    }
    // at 70 degrees the ray passes beyond the wall's end
    let past = scan(origin, &vec![ray_end(origin, 1000.0, 70.0)], &walls, GapFill::ClampToMax);
    assert_eq!(past[0], Fraction { num: 1, den: 1 });
}

#[test]
fn offsets_cover_the_half_open_range() {
    let v = sample_offsets(300, 5).unwrap();
    assert_eq!(v.len(), 120);
    assert_eq!(v[0], -300);
    assert_eq!(*v.last().unwrap(), 295);
    let v = sample_offsets(10, 3).unwrap();
    assert_eq!(v, vec![-10, -7, -4, -1, 2, 5, 8]);
}

#[test]
fn empty_field_of_view_has_no_samples() {
    assert_eq!(sample_offsets(0, 5).unwrap(), Vec::<i32>::new());
}

#[test]
fn non_positive_step_is_rejected() {
    assert_eq!(sample_offsets(300, 0), Err(ScanError::InvalidConfig));
    assert_eq!(sample_offsets(300, -5), Err(ScanError::InvalidConfig));
}
