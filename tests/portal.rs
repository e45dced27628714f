use raycast::geometry::{Point, RatPoint, Segment};
use raycast::portal::{link_chains, polygon_edge_points, visible_points, ViewCone};

fn pt(x: i32, y: i32) -> Point {
    Point { x, y }
}

fn cone() -> ViewCone {
    ViewCone { camera: pt(0, 0), left: pt(100, 100), right: pt(100, -100) }
}

fn at(p: RatPoint) -> (f64, f64) {
    (p.x_num as f64 / p.den as f64, p.y_num as f64 / p.den as f64)
}

#[test]
fn inner_vertex_is_visible() {
    let v = visible_points(cone(), Segment { from: pt(50, 0), to: pt(60, 0) });
    assert_eq!(v, vec![RatPoint { x_num: 50, y_num: 0, den: 1 }]);
}

#[test]
fn edge_across_the_view_is_clipped_by_both_rays() {
    let v = visible_points(cone(), Segment { from: pt(50, 80), to: pt(50, -80) });
    assert_eq!(v.len(), 2);
    assert_eq!(at(v[0]), (50.0, 50.0));
    assert_eq!(at(v[1]), (50.0, -50.0));
    let v = visible_points(cone(), Segment { from: pt(50, -80), to: pt(50, 80) });
    assert_eq!(at(v[0]), (50.0, -50.0));
    assert_eq!(at(v[1]), (50.0, 50.0));
}

#[test]
fn edge_entering_the_view_gives_vertex_then_clip() {
    let v = visible_points(cone(), Segment { from: pt(60, 0), to: pt(60, 90) });
    assert_eq!(v.len(), 2);
    assert_eq!(at(v[0]), (60.0, 0.0));
    assert_eq!(at(v[1]), (60.0, 60.0));
}

#[test]
fn edge_outside_the_view_shows_nothing() {
    let v = visible_points(cone(), Segment { from: pt(-50, 0), to: pt(-60, 10) });
    assert!(v.is_empty());
}

#[test]
fn polygon_edges_wrap_around() {
    let verts = vec![pt(50, 0), pt(60, 0), pt(60, -90)];
    let groups = polygon_edge_points(cone(), &verts);
    assert_eq!(groups.len(), 3);
    assert_eq!(groups[0], vec![RatPoint { x_num: 50, y_num: 0, den: 1 }]);
    assert_eq!(groups[1].len(), 2);
    assert_eq!(at(groups[1][0]), (60.0, 0.0));
    assert_eq!(at(groups[1][1]), (60.0, -60.0));
    // the closing edge runs from the last vertex back to the first
    assert_eq!(groups[2].len(), 1);
    assert_eq!(at(groups[2][0]), (56.25, -56.25));
}

#[test]
fn chains_break_at_edges_that_show_nothing() {
    let p = |x: i128| RatPoint { x_num: x, y_num: 0, den: 1 };
    let groups = vec![vec![p(1)], vec![], vec![], vec![p(2), p(3)], vec![p(4)], vec![]];
    assert_eq!(link_chains(&groups), vec![vec![p(1)], vec![p(2), p(3), p(4)]]);
    assert_eq!(link_chains(&vec![]), Vec::<Vec<RatPoint>>::new());
    assert_eq!(link_chains(&vec![vec![p(5)], vec![p(6)]]), vec![vec![p(5), p(6)]]);
}
