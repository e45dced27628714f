use vstd::prelude::*;

verus! {

/// Largest magnitude of a difference of two `i32` coordinates.
pub const SPAN: i64 = 0x1_0000_0000;

/// A point of the map, in integer world units.
#[derive(Clone, Copy, Debug, PartialEq, Eq, Structural)]
pub struct Point {
    pub x: i32,
    pub y: i32,
}

/// A wall or polygon edge, from `from` to `to`.
#[derive(Clone, Copy, Debug, PartialEq, Eq, Structural)]
pub struct Segment {
    pub from: Point,
    pub to: Point,
}

/// How three points turn.
#[derive(Clone, Copy, Debug, PartialEq, Eq, Structural)]
pub enum Orientation {
    Collinear,
    Clockwise,
    CounterClockwise,
}

/// The z component of the cross product of `(ux, uy)` and `(vx, vy)`.
pub open spec fn cross(ux: int, uy: int, vx: int, vy: int) -> int {
    ux * vy - uy * vx
}

/// Twice the signed area swept going from `p` to `q` to `r`:
/// positive for a left (counter-clockwise) turn.
pub open spec fn turn(p: Point, q: Point, r: Point) -> int {
    cross(q.x - p.x, q.y - p.y, r.x - q.x, r.y - q.y)
}

pub open spec fn orientation_of(p: Point, q: Point, r: Point) -> Orientation {
    if turn(p, q, r) == 0 {
        Orientation::Collinear
    } else if turn(p, q, r) > 0 {
        Orientation::CounterClockwise
    } else {
        Orientation::Clockwise
    }
}

pub open spec fn min_int(a: int, b: int) -> int {
    if a <= b { a } else { b }
}

pub open spec fn max_int(a: int, b: int) -> int {
    if a <= b { b } else { a }
}

/// `q` lies in the bounding box of `p` and `r`.
pub open spec fn in_box(p: Point, q: Point, r: Point) -> bool {
    &&& min_int(p.x as int, r.x as int) <= q.x <= max_int(p.x as int, r.x as int)
    &&& min_int(p.y as int, r.y as int) <= q.y <= max_int(p.y as int, r.y as int)
}

/// A product is bounded by the product of its factors' bounds.
pub proof fn lemma_mul_within(a: int, b: int, ba: int, bb: int) by (nonlinear_arith)
    requires
        -ba <= a <= ba,
        -bb <= b <= bb,
    ensures
        -(ba * bb) <= a * b <= ba * bb,
{
}

/// Cross product of two coordinate differences, computed without overflow.
fn cross_exec(ux: i64, uy: i64, vx: i64, vy: i64) -> (r: i128)
    requires
        -SPAN <= ux <= SPAN,
        -SPAN <= uy <= SPAN,
        -SPAN <= vx <= SPAN,
        -SPAN <= vy <= SPAN,
    ensures
        r == cross(ux as int, uy as int, vx as int, vy as int),
        -2 * SPAN * SPAN <= r <= 2 * SPAN * SPAN,
{
    proof {
        lemma_mul_within(ux as int, vy as int, SPAN as int, SPAN as int);
        lemma_mul_within(uy as int, vx as int, SPAN as int, SPAN as int);
    }
    (ux as i128) * (vy as i128) - (uy as i128) * (vx as i128)
}

/// Classifies the turn `p -> q -> r`.
pub fn orientation(p: Point, q: Point, r: Point) -> (o: Orientation)
    ensures
        o == orientation_of(p, q, r),
{
    let t = cross_exec(
        q.x as i64 - p.x as i64,
        q.y as i64 - p.y as i64,
        r.x as i64 - q.x as i64,
        r.y as i64 - q.y as i64,
    );
    if t == 0 {
        Orientation::Collinear
    } else if t > 0 {
        Orientation::CounterClockwise
    } else {
        Orientation::Clockwise
    }
}

/// Whether `q` lies in the bounding box of `p` and `r`.
pub fn on_segment(p: Point, q: Point, r: Point) -> (b: bool)
    ensures
        b == in_box(p, q, r),
{
    let lo_x = if p.x <= r.x { p.x } else { r.x };
    let hi_x = if p.x <= r.x { r.x } else { p.x };
    let lo_y = if p.y <= r.y { p.y } else { r.y };
    let hi_y = if p.y <= r.y { r.y } else { p.y };
    lo_x <= q.x && q.x <= hi_x && lo_y <= q.y && q.y <= hi_y
}


/// The orientation-based test: the closed segments share a point, where a
/// collinear endpoint counts when it lies in the other segment's bounding box.
pub open spec fn segments_touch(s1: Segment, s2: Segment) -> bool {
    let o1 = orientation_of(s1.from, s1.to, s2.from);
    let o2 = orientation_of(s1.from, s1.to, s2.to);
    let o3 = orientation_of(s2.from, s2.to, s1.from);
    let o4 = orientation_of(s2.from, s2.to, s1.to);
    ||| (o1 != o2 && o3 != o4)
    ||| (o1 == Orientation::Collinear && in_box(s1.from, s2.from, s1.to))
    ||| (o2 == Orientation::Collinear && in_box(s1.from, s2.to, s1.to))
    ||| (o3 == Orientation::Collinear && in_box(s2.from, s1.from, s2.to))
    ||| (o4 == Orientation::Collinear && in_box(s2.from, s1.to, s2.to))
}

/// Whether the closed segments share a point, by orientation tests (see
/// `lemma_touch_is_share_point`); unlike `find_intersection` this also
/// reports collinear overlaps.
pub fn segments_intersect(s1: Segment, s2: Segment) -> (b: bool)
    ensures
        b == segments_touch(s1, s2),
{
    let o1 = orientation(s1.from, s1.to, s2.from);
    let o2 = orientation(s1.from, s1.to, s2.to);
    let o3 = orientation(s2.from, s2.to, s1.from);
    let o4 = orientation(s2.from, s2.to, s1.to);
    if o1 != o2 && o3 != o4 {
        return true;
    }
    if o1 == Orientation::Collinear && on_segment(s1.from, s2.from, s1.to) {
        return true;
    }
    if o2 == Orientation::Collinear && on_segment(s1.from, s2.to, s1.to) {
        return true;
    }
    if o3 == Orientation::Collinear && on_segment(s2.from, s1.from, s2.to) {
        return true;
    }
    if o4 == Orientation::Collinear && on_segment(s2.from, s1.to, s2.to) {
        return true;
    }
    false
}

/// The determinant of the system `from1 + t * dir1 == from2 + u * dir2`.
pub open spec fn det(s1: Segment, s2: Segment) -> int {
    cross(
        s1.to.x - s1.from.x,
        s1.to.y - s1.from.y,
        s2.to.x - s2.from.x,
        s2.to.y - s2.from.y,
    )
}

/// `t * det`, where `t` is the position of the crossing along `s1`.
pub open spec fn t_numer(s1: Segment, s2: Segment) -> int {
    cross(
        s2.from.x - s1.from.x,
        s2.from.y - s1.from.y,
        s2.to.x - s2.from.x,
        s2.to.y - s2.from.y,
    )
}

/// `u * det`, where `u` is the position of the crossing along `s2`.
pub open spec fn u_numer(s1: Segment, s2: Segment) -> int {
    cross(
        s2.from.x - s1.from.x,
        s2.from.y - s1.from.y,
        s1.to.x - s1.from.x,
        s1.to.y - s1.from.y,
    )
}

/// `n` with the sign it takes once `d` is made positive.
pub open spec fn signed(n: int, d: int) -> int {
    if d < 0 {
        -n
    } else {
        n
    }
}

/// The common positive denominator of a crossing.
pub open spec fn crossing_den(s1: Segment, s2: Segment) -> int {
    signed(det(s1, s2), det(s1, s2))
}

pub open spec fn crossing_t(s1: Segment, s2: Segment) -> int {
    signed(t_numer(s1, s2), det(s1, s2))
}

pub open spec fn crossing_u(s1: Segment, s2: Segment) -> int {
    signed(u_numer(s1, s2), det(s1, s2))
}

/// The segments are not parallel and their lines meet at parameters
/// `t` and `u` that both lie in the closed interval `[0, 1]`.
pub open spec fn crosses(s1: Segment, s2: Segment) -> bool {
    &&& det(s1, s2) != 0
    &&& 0 <= crossing_t(s1, s2) <= crossing_den(s1, s2)
    &&& 0 <= crossing_u(s1, s2) <= crossing_den(s1, s2)
}

/// Where two segments cross: `t = t_num / den` along the first and
/// `u = u_num / den` along the second, with `den > 0`.
#[derive(Clone, Copy, Debug, PartialEq, Eq, Structural)]
pub struct Crossing {
    pub t_num: i128,
    pub u_num: i128,
    pub den: i128,
}

/// The crossing of two segments by Cramer's rule. Parallel and collinear
/// segments (a zero determinant) never cross, even where they overlap;
/// touching endpoints do.
pub fn crossing(s1: Segment, s2: Segment) -> (r: Option<Crossing>)
    ensures
        r is Some <==> crosses(s1, s2),
        r matches Some(c) ==> {
            &&& c.den == crossing_den(s1, s2)
            &&& c.t_num == crossing_t(s1, s2)
            &&& c.u_num == crossing_u(s1, s2)
            &&& 0 < c.den <= 2 * SPAN * SPAN
        },
{
    let rx = s1.to.x as i64 - s1.from.x as i64;
    let ry = s1.to.y as i64 - s1.from.y as i64;
    let sx = s2.to.x as i64 - s2.from.x as i64;
    let sy = s2.to.y as i64 - s2.from.y as i64;
    let wx = s2.from.x as i64 - s1.from.x as i64;
    let wy = s2.from.y as i64 - s1.from.y as i64;
    let d = cross_exec(rx, ry, sx, sy);
    if d == 0 {
        return None;
    }
    let tn = cross_exec(wx, wy, sx, sy);
    let un = cross_exec(wx, wy, rx, ry);
    let den: i128 = if d < 0 { -d } else { d };
    let t: i128 = if d < 0 { -tn } else { tn };
    let u: i128 = if d < 0 { -un } else { un };
    if 0 <= t && t <= den && 0 <= u && u <= den {
        Some(Crossing { t_num: t, u_num: u, den })
    } else {
        None
    }
}


/// A point with rational coordinates `(x_num / den, y_num / den)`, `den > 0`.
#[derive(Clone, Copy, Debug, PartialEq, Eq, Structural)]
pub struct RatPoint {
    pub x_num: i128,
    pub y_num: i128,
    pub den: i128,
}

/// `(x_num / den, y_num / den)` is the point at parameter `n / den` along `s`.
pub open spec fn at_param(s: Segment, n: int, den: int, x_num: int, y_num: int) -> bool {
    &&& x_num == s.from.x * den + n * (s.to.x - s.from.x)
    &&& y_num == s.from.y * den + n * (s.to.y - s.from.y)
}

impl RatPoint {
    pub open spec fn triple(self) -> (int, int, int) {
        (self.x_num as int, self.y_num as int, self.den as int)
    }
}

pub open spec fn rat_triple(o: Option<RatPoint>) -> Option<(int, int, int)> {
    match o {
        Some(p) => Some(p.triple()),
        None => None,
    }
}

/// The point at `t_num / den` along `s`, as `(x_num, y_num, den)`.
pub open spec fn point_along(s: Segment, t_num: int, den: int) -> (int, int, int) {
    (s.from.x * den + t_num * (s.to.x - s.from.x), s.from.y * den + t_num * (s.to.y - s.from.y), den)
}

/// Where two segments cross, if they do.
pub open spec fn intersection_of(s1: Segment, s2: Segment) -> Option<(int, int, int)> {
    if crosses(s1, s2) {
        Some(point_along(s1, crossing_t(s1, s2), crossing_den(s1, s2)))
    } else {
        None
    }
}

/// The point at `t_num / den` along `s`.
pub fn point_at(s: Segment, t_num: i128, den: i128) -> (pt: RatPoint)
    requires
        0 < den <= 2 * SPAN * SPAN,
        0 <= t_num <= den,
    ensures
        pt.triple() == point_along(s, t_num as int, den as int),
{
    let rx = s.to.x as i64 - s.from.x as i64;
    let ry = s.to.y as i64 - s.from.y as i64;
    proof {
        let b = 2 * SPAN * SPAN;
        lemma_mul_within(s.from.x as int, den as int, SPAN as int, b as int);
        lemma_mul_within(s.from.y as int, den as int, SPAN as int, b as int);
        lemma_mul_within(t_num as int, rx as int, b as int, SPAN as int);
        lemma_mul_within(t_num as int, ry as int, b as int, SPAN as int);
    }
    let x_num = s.from.x as i128 * den + t_num * rx as i128;
    let y_num = s.from.y as i128 * den + t_num * ry as i128;
    RatPoint { x_num, y_num, den }
}

/// Where two segments cross, by Cramer's rule; `None` for parallel or
/// collinear segments and for lines that meet outside either segment.
/// Endpoints count: the interval of both parameters is closed.
pub fn find_intersection(s1: Segment, s2: Segment) -> (r: Option<RatPoint>)
    ensures
        rat_triple(r) == intersection_of(s1, s2),
        r is Some <==> crosses(s1, s2),
        det(s1, s2) == 0 ==> r is None,
        r matches Some(pt) ==> {
            &&& pt.den == crossing_den(s1, s2)
            &&& at_param(s1, crossing_t(s1, s2), pt.den as int, pt.x_num as int, pt.y_num as int)
        },
{
    match crossing(s1, s2) {
        None => None,
        Some(c) => Some(point_at(s1, c.t_num, c.den)),
    }
}

proof fn lemma_cramer_x(rx: int, ry: int, sx: int, sy: int, wx: int, wy: int)
    ensures
        cross(wx, wy, sx, sy) * rx - cross(wx, wy, rx, ry) * sx == cross(rx, ry, sx, sy) * wx,
{
    assert((wx * sy - wy * sx) * rx == wx * sy * rx - wy * sx * rx) by (nonlinear_arith);
    assert((wx * ry - wy * rx) * sx == wx * ry * sx - wy * rx * sx) by (nonlinear_arith);
    assert((rx * sy - ry * sx) * wx == rx * sy * wx - ry * sx * wx) by (nonlinear_arith);
    assert(wx * sy * rx == rx * sy * wx) by (nonlinear_arith);
    assert(wy * sx * rx == wy * rx * sx) by (nonlinear_arith);
    assert(wx * ry * sx == ry * sx * wx) by (nonlinear_arith);
}

proof fn lemma_cramer(rx: int, ry: int, sx: int, sy: int, wx: int, wy: int)
    ensures
        cross(wx, wy, sx, sy) * rx - cross(wx, wy, rx, ry) * sx == cross(rx, ry, sx, sy) * wx,
        cross(wx, wy, sx, sy) * ry - cross(wx, wy, rx, ry) * sy == cross(rx, ry, sx, sy) * wy,
{
    lemma_cramer_x(rx, ry, sx, sy, wx, wy);
    assert((wx * sy - wy * sx) * ry == wx * sy * ry - wy * sx * ry) by (nonlinear_arith);
    assert((wx * ry - wy * rx) * sy == wx * ry * sy - wy * rx * sy) by (nonlinear_arith);
    assert((rx * sy - ry * sx) * wy == rx * sy * wy - ry * sx * wy) by (nonlinear_arith);
    assert(wx * sy * ry == wx * ry * sy) by (nonlinear_arith);
    assert(wy * sx * ry == ry * sx * wy) by (nonlinear_arith);
    assert(wy * rx * sy == rx * sy * wy) by (nonlinear_arith);
}

/// The point that `find_intersection` reports solves both segments'
/// parametric equations: it is the point at `t` along the first segment and
/// the point at `u` along the second, with `t` and `u` in `[0, 1]`.
pub proof fn lemma_intersection_on_both(s1: Segment, s2: Segment)
    requires
        crosses(s1, s2),
    ensures
        ({
            let den = crossing_den(s1, s2);
            let x_num = s1.from.x * den + crossing_t(s1, s2) * (s1.to.x - s1.from.x);
            let y_num = s1.from.y * den + crossing_t(s1, s2) * (s1.to.y - s1.from.y);
            &&& den > 0
            &&& 0 <= crossing_t(s1, s2) <= den
            &&& 0 <= crossing_u(s1, s2) <= den
            &&& at_param(s1, crossing_t(s1, s2), den, x_num, y_num)
            &&& at_param(s2, crossing_u(s1, s2), den, x_num, y_num)
        }),
{
    let rx = s1.to.x - s1.from.x;
    let ry = s1.to.y - s1.from.y;
    let sx = s2.to.x - s2.from.x;
    let sy = s2.to.y - s2.from.y;
    let wx = s2.from.x - s1.from.x;
    let wy = s2.from.y - s1.from.y;
    lemma_cramer(rx, ry, sx, sy, wx, wy);
    let d = det(s1, s2);
    let tn = t_numer(s1, s2);
    let un = u_numer(s1, s2);
    if d < 0 {
        assert((-tn) * rx == -(tn * rx) && (-un) * sx == -(un * sx) && (-d) * wx == -(d * wx))
            by (nonlinear_arith);
        assert((-tn) * ry == -(tn * ry) && (-un) * sy == -(un * sy) && (-d) * wy == -(d * wy))
            by (nonlinear_arith);
        assert(s2.from.x * (-d) == s1.from.x * (-d) + wx * (-d)) by (nonlinear_arith)
            requires wx == s2.from.x - s1.from.x;
        assert(s2.from.y * (-d) == s1.from.y * (-d) + wy * (-d)) by (nonlinear_arith)
            requires wy == s2.from.y - s1.from.y;
    } else {
        assert(s2.from.x * d == s1.from.x * d + wx * d) by (nonlinear_arith)
            requires wx == s2.from.x - s1.from.x;
        assert(s2.from.y * d == s1.from.y * d + wy * d) by (nonlinear_arith)
            requires wy == s2.from.y - s1.from.y;
    }
}


proof fn lemma_scaled_offset(
    rx: int,
    ry: int,
    sx: int,
    sy: int,
    wx: int,
    wy: int,
    ax: int,
    ay: int,
    k: int,
    m: int,
)
    requires
        m * wx == m * ax - k * sx,
        m * wy == m * ay - k * sy,
    ensures
        m * cross(wx, wy, sx, sy) == m * cross(ax, ay, sx, sy),
        m * cross(wx, wy, rx, ry) == m * cross(ax, ay, rx, ry) + k * cross(rx, ry, sx, sy),
{
    assert(m * (wx * sy - wy * sx) == (m * wx) * sy - (m * wy) * sx) by (nonlinear_arith);
    assert((m * ax - k * sx) * sy - (m * ay - k * sy) * sx == m * (ax * sy - ay * sx))
        by (nonlinear_arith);
    assert(m * (wx * ry - wy * rx) == (m * wx) * ry - (m * wy) * rx) by (nonlinear_arith);
    assert((m * ax - k * sx) * ry == m * ax * ry - k * sx * ry) by (nonlinear_arith);
    assert((m * ay - k * sy) * rx == m * ay * rx - k * sy * rx) by (nonlinear_arith);
    assert(m * (ax * ry - ay * rx) == m * ax * ry - m * ay * rx) by (nonlinear_arith);
    assert(k * (rx * sy - ry * sx) == k * rx * sy - k * ry * sx) by (nonlinear_arith);
    assert(k * sx * ry == k * ry * sx) by (nonlinear_arith);
    assert(k * sy * rx == k * rx * sy) by (nonlinear_arith);
}

proof fn lemma_unit_fraction(un: int, d: int, k: int, m: int)
    requires
        d != 0,
        0 < m,
        0 <= k <= m,
        m * un == k * d,
    ensures
        0 <= signed(un, d) <= signed(d, d),
        m * signed(un, d) == k * signed(d, d),
{
    if d > 0 {
        assert(0 <= un <= d) by (nonlinear_arith)
            requires
                d > 0,
                0 < m,
                0 <= k <= m,
                m * un == k * d,
        ;
    } else {
        assert(d <= un <= 0) by (nonlinear_arith)
            requires
                d < 0,
                0 < m,
                0 <= k <= m,
                m * un == k * d,
        ;
        assert(m * (-un) == k * (-d)) by (nonlinear_arith)
            requires
                m * un == k * d,
        ;
    }
}

/// Touching counts: where the start of `s1` lies on `s2`, at `k / m` along
/// it, and the segments are not parallel, they cross at `t = 0`.
pub proof fn lemma_touch_at_start(s1: Segment, s2: Segment, k: int, m: int)
    requires
        det(s1, s2) != 0,
        0 < m,
        0 <= k <= m,
        m * (s1.from.x - s2.from.x) == k * (s2.to.x - s2.from.x),
        m * (s1.from.y - s2.from.y) == k * (s2.to.y - s2.from.y),
    ensures
        crosses(s1, s2),
        crossing_t(s1, s2) == 0,
        m * crossing_u(s1, s2) == k * crossing_den(s1, s2),
{
    let rx = s1.to.x - s1.from.x;
    let ry = s1.to.y - s1.from.y;
    let sx = s2.to.x - s2.from.x;
    let sy = s2.to.y - s2.from.y;
    let wx = s2.from.x - s1.from.x;
    let wy = s2.from.y - s1.from.y;
    assert(m * wx == m * 0 - k * sx && m * wy == m * 0 - k * sy) by (nonlinear_arith)
        requires
            m * (-wx) == k * sx,
            m * (-wy) == k * sy,
    ;
    lemma_scaled_offset(rx, ry, sx, sy, wx, wy, 0, 0, k, m);
    let tn = t_numer(s1, s2);
    assert(tn == 0) by (nonlinear_arith)
        requires
            m * tn == m * cross(0, 0, sx, sy),
            0 < m,
    ;
    lemma_unit_fraction(u_numer(s1, s2), det(s1, s2), k, m);
}

/// Touching counts: where the end of `s1` lies on `s2`, at `k / m` along
/// it, and the segments are not parallel, they cross at `t = 1`.
pub proof fn lemma_touch_at_end(s1: Segment, s2: Segment, k: int, m: int)
    requires
        det(s1, s2) != 0,
        0 < m,
        0 <= k <= m,
        m * (s1.to.x - s2.from.x) == k * (s2.to.x - s2.from.x),
        m * (s1.to.y - s2.from.y) == k * (s2.to.y - s2.from.y),
    ensures
        crosses(s1, s2),
        crossing_t(s1, s2) == crossing_den(s1, s2),
        m * crossing_u(s1, s2) == k * crossing_den(s1, s2),
{
    let rx = s1.to.x - s1.from.x;
    let ry = s1.to.y - s1.from.y;
    let sx = s2.to.x - s2.from.x;
    let sy = s2.to.y - s2.from.y;
    let wx = s2.from.x - s1.from.x;
    let wy = s2.from.y - s1.from.y;
    assert(m * wx == m * rx - k * sx && m * wy == m * ry - k * sy) by (nonlinear_arith)
        requires
            m * (rx - wx) == k * sx,
            m * (ry - wy) == k * sy,
    ;
    lemma_scaled_offset(rx, ry, sx, sy, wx, wy, rx, ry, k, m);
    let tn = t_numer(s1, s2);
    let d = det(s1, s2);
    assert(tn == d) by (nonlinear_arith)
        requires
            m * tn == m * d,
            0 < m,
    ;
    assert(cross(rx, ry, rx, ry) == 0) by (nonlinear_arith);
    lemma_unit_fraction(u_numer(s1, s2), d, k, m);
}


proof fn lemma_turns_of_crossing(s1: Segment, s2: Segment)
    ensures
        turn(s1.from, s1.to, s2.from) == -u_numer(s1, s2),
        turn(s1.from, s1.to, s2.to) == det(s1, s2) - u_numer(s1, s2),
        turn(s2.from, s2.to, s1.from) == t_numer(s1, s2),
        turn(s2.from, s2.to, s1.to) == t_numer(s1, s2) - det(s1, s2),
{
    let rx = s1.to.x - s1.from.x;
    let ry = s1.to.y - s1.from.y;
    let sx = s2.to.x - s2.from.x;
    let sy = s2.to.y - s2.from.y;
    let wx = s2.from.x - s1.from.x;
    let wy = s2.from.y - s1.from.y;
    assert(rx * (wy - ry) - ry * (wx - rx) == -(wx * ry - wy * rx)) by (nonlinear_arith);
    assert(rx * (wy + sy - ry) - ry * (wx + sx - rx) == (rx * sy - ry * sx) - (wx * ry - wy * rx))
        by (nonlinear_arith);
    assert(sx * (-wy - sy) - sy * (-wx - sx) == wx * sy - wy * sx) by (nonlinear_arith);
    assert(sx * (ry - wy - sy) - sy * (rx - wx - sx) == (wx * sy - wy * sx) - (rx * sy - ry * sx))
        by (nonlinear_arith);
}

/// The orientation-based test is the more inclusive policy: every crossing
/// that Cramer's rule finds, `segments_intersect` reports too.
pub proof fn lemma_crossing_is_touching(s1: Segment, s2: Segment)
    requires
        crosses(s1, s2),
    ensures
        segments_touch(s1, s2),
{
    lemma_turns_of_crossing(s1, s2);
}

/// The closed segments meet at one point: `t_num / den` along `s1` and
/// `u_num / den` along `s2`, both in `[0, 1]`.
pub open spec fn meet_at(s1: Segment, s2: Segment, t_num: int, u_num: int, den: int) -> bool {
    &&& den > 0
    &&& 0 <= t_num <= den
    &&& 0 <= u_num <= den
    &&& point_along(s1, t_num, den) == point_along(s2, u_num, den)
}

/// The closed segments have a point in common.
pub open spec fn share_point(s1: Segment, s2: Segment) -> bool {
    exists|t_num: int, u_num: int, den: int| meet_at(s1, s2, t_num, u_num, den)
}

/// A point collinear with the segment from `a` to `c` and inside its
/// bounding box lies on the segment.
proof fn lemma_box_point_on_segment(a: Point, c: Point, b: Point)
    requires
        turn(a, c, b) == 0,
        in_box(a, b, c),
    ensures
        exists|k: int, m: int|
            0 < m && 0 <= k <= m && point_along(Segment { from: a, to: c }, k, m) == (
            b.x * m,
            b.y * m,
            m,
        ),
{
    let vx = c.x - a.x;
    let vy = c.y - a.y;
    let wx = b.x - a.x;
    let wy = b.y - a.y;
    assert(vx * (b.y - c.y) - vy * (b.x - c.x) == vx * wy - vy * wx) by (nonlinear_arith)
        requires
            wx == b.x - a.x,
            wy == b.y - a.y,
            vx == c.x - a.x,
            vy == c.y - a.y,
    ;
    let seg = Segment { from: a, to: c };
    if vx != 0 {
        let m = if vx > 0 { vx } else { -vx };
        let k = if vx > 0 { wx } else { -wx };
        assert(k * vx == wx * m && k * vy * vx == wy * vx * m) by (nonlinear_arith)
            requires
                m == (if vx > 0 { vx } else { -vx }),
                k == (if vx > 0 { wx } else { -wx }),
                vx * wy == vy * wx,
        ;
        assert(k * vy == wy * m) by (nonlinear_arith)
            requires
                k * vy * vx == wy * vx * m,
                vx != 0,
        ;
        assert(a.x * m + wx * m == b.x * m && a.y * m + wy * m == b.y * m) by (nonlinear_arith)
            requires
                wx == b.x - a.x,
                wy == b.y - a.y,
        ;
        assert(point_along(seg, k, m) == (b.x * m, b.y * m, m));
    } else if vy != 0 {
        let m = if vy > 0 { vy } else { -vy };
        let k = if vy > 0 { wy } else { -wy };
        assert(b.x == a.x);
        assert(k * vy == wy * m && k * vx == wx * m) by (nonlinear_arith)
            requires
                m == (if vy > 0 { vy } else { -vy }),
                k == (if vy > 0 { wy } else { -wy }),
                vx == 0,
                wx == 0,
        ;
        assert(a.x * m + wx * m == b.x * m && a.y * m + wy * m == b.y * m) by (nonlinear_arith)
            requires
                wx == b.x - a.x,
                wy == b.y - a.y,
        ;
        assert(point_along(seg, k, m) == (b.x * m, b.y * m, m));
    } else {
        assert(b == a);
        assert(point_along(seg, 0, 1) == (b.x * 1int, b.y * 1int, 1int));
    }
}

/// What the orientation-based test reports is a shared point: wherever
/// `segments_intersect` holds, the closed segments have a common point.
pub proof fn lemma_touching_shares_point(s1: Segment, s2: Segment)
    requires
        segments_touch(s1, s2),
    ensures
        share_point(s1, s2),
{
    lemma_turns_of_crossing(s1, s2);
    let o1 = orientation_of(s1.from, s1.to, s2.from);
    let o2 = orientation_of(s1.from, s1.to, s2.to);
    let o3 = orientation_of(s2.from, s2.to, s1.from);
    let o4 = orientation_of(s2.from, s2.to, s1.to);
    if o1 != o2 && o3 != o4 {
        assert(crosses(s1, s2));
        lemma_intersection_on_both(s1, s2);
        assert(meet_at(s1, s2, crossing_t(s1, s2), crossing_u(s1, s2), crossing_den(s1, s2)));
    } else if o1 == Orientation::Collinear && in_box(s1.from, s2.from, s1.to) {
        lemma_box_point_on_segment(s1.from, s1.to, s2.from);
        let (k, m) = choose|k: int, m: int|
            0 < m && 0 <= k <= m && point_along(s1, k, m) == (s2.from.x * m, s2.from.y * m, m);
        assert(point_along(s2, 0, m) == (s2.from.x * m, s2.from.y * m, m));
        assert(meet_at(s1, s2, k, 0, m));
    } else if o2 == Orientation::Collinear && in_box(s1.from, s2.to, s1.to) {
        lemma_box_point_on_segment(s1.from, s1.to, s2.to);
        let (k, m) = choose|k: int, m: int|
            0 < m && 0 <= k <= m && point_along(s1, k, m) == (s2.to.x * m, s2.to.y * m, m);
        assert(s2.from.x * m + m * (s2.to.x - s2.from.x) == s2.to.x * m) by (nonlinear_arith);
        assert(s2.from.y * m + m * (s2.to.y - s2.from.y) == s2.to.y * m) by (nonlinear_arith);
        assert(meet_at(s1, s2, k, m, m));
    } else if o3 == Orientation::Collinear && in_box(s2.from, s1.from, s2.to) {
        lemma_box_point_on_segment(s2.from, s2.to, s1.from);
        let (k, m) = choose|k: int, m: int|
            0 < m && 0 <= k <= m && point_along(s2, k, m) == (s1.from.x * m, s1.from.y * m, m);
        assert(point_along(s1, 0, m) == (s1.from.x * m, s1.from.y * m, m));
        assert(meet_at(s1, s2, 0, k, m));
    } else {
        lemma_box_point_on_segment(s2.from, s2.to, s1.to);
        let (k, m) = choose|k: int, m: int|
            0 < m && 0 <= k <= m && point_along(s2, k, m) == (s1.to.x * m, s1.to.y * m, m);
        assert(s1.from.x * m + m * (s1.to.x - s1.from.x) == s1.to.x * m) by (nonlinear_arith);
        assert(s1.from.y * m + m * (s1.to.y - s1.from.y) == s1.to.y * m) by (nonlinear_arith);
        assert(meet_at(s1, s2, m, k, m));
    }
}

proof fn lemma_meeting_numerators(s1: Segment, s2: Segment, t: int, u: int, den: int)
    requires
        point_along(s1, t, den) == point_along(s2, u, den),
    ensures
        den * t_numer(s1, s2) == t * det(s1, s2),
        den * u_numer(s1, s2) == u * det(s1, s2),
{
    let rx = s1.to.x - s1.from.x;
    let ry = s1.to.y - s1.from.y;
    let sx = s2.to.x - s2.from.x;
    let sy = s2.to.y - s2.from.y;
    let wx = s2.from.x - s1.from.x;
    let wy = s2.from.y - s1.from.y;
    assert(den * wx == t * rx - u * sx && den * wy == t * ry - u * sy) by (nonlinear_arith)
        requires
            s1.from.x * den + t * rx == s2.from.x * den + u * sx,
            s1.from.y * den + t * ry == s2.from.y * den + u * sy,
            wx == s2.from.x - s1.from.x,
            wy == s2.from.y - s1.from.y,
    ;
    assert(den * (wx * sy - wy * sx) == (den * wx) * sy - (den * wy) * sx) by (nonlinear_arith);
    assert((t * rx - u * sx) * sy - (t * ry - u * sy) * sx == t * (rx * sy - ry * sx))
        by (nonlinear_arith);
    assert(den * (wx * ry - wy * rx) == (den * wx) * ry - (den * wy) * rx) by (nonlinear_arith);
    assert((t * rx - u * sx) * ry - (t * ry - u * sy) * rx == u * (rx * sy - ry * sx))
        by (nonlinear_arith);
}

/// For segments that are not parallel the three views agree: the
/// orientation test holds exactly when Cramer's rule finds a crossing,
/// exactly when the closed segments have a common point.
pub proof fn lemma_touch_iff_share_point(s1: Segment, s2: Segment)
    requires
        det(s1, s2) != 0,
    ensures
        segments_touch(s1, s2) <==> share_point(s1, s2),
        share_point(s1, s2) <==> crosses(s1, s2),
{
    if segments_touch(s1, s2) {
        lemma_touching_shares_point(s1, s2);
    }
    if share_point(s1, s2) {
        let (t, u, den) = choose|t: int, u: int, den: int| meet_at(s1, s2, t, u, den);
        lemma_meeting_numerators(s1, s2, t, u, den);
        lemma_unit_fraction(t_numer(s1, s2), det(s1, s2), t, den);
        lemma_unit_fraction(u_numer(s1, s2), det(s1, s2), u, den);
        lemma_crossing_is_touching(s1, s2);
    }
    if crosses(s1, s2) {
        lemma_crossing_is_touching(s1, s2);
        lemma_touching_shares_point(s1, s2);
    }
}

/// A point `k / m` of the way from `a` to `c` lies in their bounding box.
proof fn lemma_combination_in_box(a: Point, b: Point, c: Point, k: int, m: int)
    requires
        0 < m,
        0 <= k <= m,
        m * (b.x - a.x) == k * (c.x - a.x),
        m * (b.y - a.y) == k * (c.y - a.y),
    ensures
        in_box(a, b, c),
{
    assert(min_int(a.x as int, c.x as int) <= b.x <= max_int(a.x as int, c.x as int))
        by (nonlinear_arith)
        requires
            0 < m,
            0 <= k <= m,
            m * (b.x - a.x) == k * (c.x - a.x),
    ;
    assert(min_int(a.y as int, c.y as int) <= b.y <= max_int(a.y as int, c.y as int))
        by (nonlinear_arith)
        requires
            0 < m,
            0 <= k <= m,
            m * (b.y - a.y) == k * (c.y - a.y),
    ;
}

/// A point `y` on the line through `p` and `p2`, with `r = p2 - p`, is
/// `p + (dot(y - p, r) / dot(r, r)) * r`.
proof fn lemma_on_line_scaled(p: Point, p2: Point, y: Point)
    requires
        turn(p, p2, y) == 0,
    ensures
        ({
            let rx = p2.x - p.x;
            let ry = p2.y - p.y;
            let l = dot(rx, ry, rx, ry);
            let f = dot(y.x - p.x, y.y - p.y, rx, ry);
            &&& l * (y.x - p.x) == f * rx
            &&& l * (y.y - p.y) == f * ry
        }),
{
    let rx = p2.x - p.x;
    let ry = p2.y - p.y;
    let wx = y.x - p.x;
    let wy = y.y - p.y;
    assert(rx * (y.y - p2.y) - ry * (y.x - p2.x) == rx * wy - ry * wx) by (nonlinear_arith)
        requires
            rx == p2.x - p.x,
            ry == p2.y - p.y,
            wx == y.x - p.x,
            wy == y.y - p.y,
    ;
    assert((rx * rx + ry * ry) * wx - (wx * rx + wy * ry) * rx == ry * (ry * wx - rx * wy))
        by (nonlinear_arith);
    assert((rx * rx + ry * ry) * wy - (wx * rx + wy * ry) * ry == rx * (rx * wy - ry * wx))
        by (nonlinear_arith);
    assert(ry * (ry * wx - rx * wy) == 0 && rx * (rx * wy - ry * wx) == 0) by (nonlinear_arith)
        requires
            rx * wy - ry * wx == 0,
    ;
}

proof fn lemma_split_ratio(l: int, a: int, b: int, r: int, pc: int, qc: int, q2c: int, k: int, m: int)
    requires
        l * (qc - pc) == a * r,
        l * (q2c - pc) == b * r,
        l > 0,
        (k == -a && m == b - a) || (k == a && m == a - b),
    ensures
        m * (pc - qc) == k * (q2c - qc),
{
    assert(l * (q2c - qc) == (b - a) * r) by (nonlinear_arith)
        requires
            l * (qc - pc) == a * r,
            l * (q2c - pc) == b * r,
    ;
    assert(l * (m * (pc - qc)) == m * (-(a * r))) by (nonlinear_arith)
        requires
            l * (qc - pc) == a * r,
    ;
    assert(l * (k * (q2c - qc)) == k * ((b - a) * r)) by (nonlinear_arith)
        requires
            l * (q2c - qc) == (b - a) * r,
    ;
    assert(m * (-(a * r)) == k * ((b - a) * r)) by (nonlinear_arith)
        requires
            (k == -a && m == b - a) || (k == a && m == a - b),
    ;
    assert(m * (pc - qc) == k * (q2c - qc)) by (nonlinear_arith)
        requires
            l * (m * (pc - qc)) == l * (k * (q2c - qc)),
            l > 0,
    ;
}

proof fn lemma_meeting_along(
    t: int,
    u: int,
    den: int,
    rx: int,
    ry: int,
    sx: int,
    sy: int,
    wx: int,
    wy: int,
    a: int,
    b: int,
    l: int,
)
    requires
        t * rx == u * sx + den * wx,
        t * ry == u * sy + den * wy,
        l == rx * rx + ry * ry,
        a == wx * rx + wy * ry,
        b - a == sx * rx + sy * ry,
    ensures
        t * l == (den - u) * a + u * b,
{
    assert(t * l == (t * rx) * rx + (t * ry) * ry) by (nonlinear_arith)
        requires
            l == rx * rx + ry * ry,
    ;
    assert((t * rx) * rx + (t * ry) * ry == (u * sx + den * wx) * rx + (u * sy + den * wy) * ry)
        by (nonlinear_arith)
        requires
            t * rx == u * sx + den * wx,
            t * ry == u * sy + den * wy,
    ;
    assert((u * sx + den * wx) * rx == u * sx * rx + den * wx * rx) by (nonlinear_arith);
    assert((u * sy + den * wy) * ry == u * sy * ry + den * wy * ry) by (nonlinear_arith);
    assert(u * (sx * rx + sy * ry) == u * sx * rx + u * sy * ry) by (nonlinear_arith);
    assert(den * (wx * rx + wy * ry) == den * wx * rx + den * wy * ry) by (nonlinear_arith);
    assert(den * a + u * (b - a) == (den - u) * a + u * b) by (nonlinear_arith);
}

/// For parallel segments a common point means they lie on one line and
/// overlap, so one of them has an endpoint in the other's bounding box: the
/// orientation test reports them.
proof fn lemma_collinear_share_touches(s1: Segment, s2: Segment)
    requires
        det(s1, s2) == 0,
        share_point(s1, s2),
    ensures
        segments_touch(s1, s2),
{
    let (t, u, den) = choose|t: int, u: int, den: int| meet_at(s1, s2, t, u, den);
    lemma_meeting_numerators(s1, s2, t, u, den);
    let tn = t_numer(s1, s2);
    let un = u_numer(s1, s2);
    assert(tn == 0 && un == 0) by (nonlinear_arith)
        requires
            den * tn == t * 0,
            den * un == u * 0,
            den > 0,
    ;
    lemma_turns_of_crossing(s1, s2);
    let p = s1.from;
    let p2 = s1.to;
    let q = s2.from;
    let q2 = s2.to;
    let rx = p2.x - p.x;
    let ry = p2.y - p.y;
    let sx = q2.x - q.x;
    let sy = q2.y - q.y;
    // the meeting point, scaled by `den`, seen from both segments
    assert(den * (p.x - q.x) + t * rx == u * sx && den * (p.y - q.y) + t * ry == u * sy)
        by (nonlinear_arith)
        requires
            p.x * den + t * rx == q.x * den + u * sx,
            p.y * den + t * ry == q.y * den + u * sy,
    ;
    if rx == 0 && ry == 0 {
        assert(t * rx == 0 && t * ry == 0) by (nonlinear_arith)
            requires
                rx == 0,
                ry == 0,
        ;
        lemma_combination_in_box(q, p, q2, u, den);
    } else {
        let l = dot(rx, ry, rx, ry);
        assert(l > 0) by (nonlinear_arith)
            requires
                l == rx * rx + ry * ry,
                rx != 0 || ry != 0,
        ;
        lemma_on_line_scaled(p, p2, q);
        lemma_on_line_scaled(p, p2, q2);
        let a = dot(q.x - p.x, q.y - p.y, rx, ry);
        let b = dot(q2.x - p.x, q2.y - p.y, rx, ry);
        let wx = q.x - p.x;
        let wy = q.y - p.y;
        assert(t * rx == u * sx + den * wx && t * ry == u * sy + den * wy) by (nonlinear_arith)
            requires
                den * (p.x - q.x) + t * rx == u * sx,
                den * (p.y - q.y) + t * ry == u * sy,
                wx == q.x - p.x,
                wy == q.y - p.y,
        ;
        assert(b - a == sx * rx + sy * ry) by (nonlinear_arith)
            requires
                a == (q.x - p.x) * rx + (q.y - p.y) * ry,
                b == (q2.x - p.x) * rx + (q2.y - p.y) * ry,
                sx == q2.x - q.x,
                sy == q2.y - q.y,
        ;
        // where the meeting point falls along `s1`, in units of `1 / (den * l)`
        lemma_meeting_along(t, u, den, rx, ry, sx, sy, wx, wy, a, b, l);
        if 0 <= a <= l {
            lemma_combination_in_box(p, q, p2, a, l);
        } else if 0 <= b <= l {
            lemma_combination_in_box(p, q2, p2, b, l);
        } else {
            assert((a < 0 && b > l) || (a > l && b < 0)) by (nonlinear_arith)
                requires
                    t * l == (den - u) * a + u * b,
                    0 <= t <= den,
                    0 <= u <= den,
                    0 < den,
                    0 < l,
                    !(0 <= a <= l),
                    !(0 <= b <= l),
            ;
            // `p` lies `-a / (b - a)` of the way from `q` to `q2`
            let k = if a < 0 { -a } else { a };
            let m = if a < 0 { b - a } else { a - b };
            lemma_split_ratio(l, a, b, rx, p.x as int, q.x as int, q2.x as int, k, m);
            lemma_split_ratio(l, a, b, ry, p.y as int, q.y as int, q2.y as int, k, m);
            lemma_combination_in_box(q, p, q2, k, m);
        }
    }
}

/// `segments_intersect` decides exactly whether the closed segments have a
/// common point, parallel and collinear segments included.
pub proof fn lemma_touch_is_share_point(s1: Segment, s2: Segment)
    ensures
        segments_touch(s1, s2) <==> share_point(s1, s2),
{
    if segments_touch(s1, s2) {
        lemma_touching_shares_point(s1, s2);
    }
    if share_point(s1, s2) {
        if det(s1, s2) != 0 {
            lemma_touch_iff_share_point(s1, s2);
        } else {
            lemma_collinear_share_touches(s1, s2);
        }
    }
}

/// Which side of the line through `b` and `a` the point `p` lies on:
/// the cross product `(p - b) x (a - b)`.
pub open spec fn side(p: Point, a: Point, b: Point) -> int {
    cross(p.x - b.x, p.y - b.y, a.x - b.x, a.y - b.y)
}

/// `p` lies strictly inside the triangle `a, b, c`: the three edge tests
/// agree in sign and none is zero.
pub open spec fn inside_triangle(p: Point, a: Point, b: Point, c: Point) -> bool {
    let d1 = side(p, a, b);
    let d2 = side(p, b, c);
    let d3 = side(p, c, a);
    ||| (d1 < 0 && d2 < 0 && d3 < 0)
    ||| (d1 > 0 && d2 > 0 && d3 > 0)
}

fn side_exec(p: Point, a: Point, b: Point) -> (r: i128)
    ensures
        r == side(p, a, b),
{
    cross_exec(
        p.x as i64 - b.x as i64,
        p.y as i64 - b.y as i64,
        a.x as i64 - b.x as i64,
        a.y as i64 - b.y as i64,
    )
}

/// Whether `p` lies strictly inside the triangle `a, b, c`, whichever way
/// its vertices wind; a point on an edge is outside.
pub fn point_in_triangle(p: Point, a: Point, b: Point, c: Point) -> (r: bool)
    ensures
        r == inside_triangle(p, a, b, c),
{
    let d1 = side_exec(p, a, b);
    let d2 = side_exec(p, b, c);
    let d3 = side_exec(p, c, a);
    (d1 < 0 && d2 < 0 && d3 < 0) || (d1 > 0 && d2 > 0 && d3 > 0)
}

proof fn lemma_side_swap(p: Point, a: Point, b: Point)
    ensures
        side(p, b, a) == -side(p, a, b),
{
    let ux = p.x - b.x;
    let uy = p.y - b.y;
    let vx = a.x - b.x;
    let vy = a.y - b.y;
    assert((ux - vx) * (-vy) - (uy - vy) * (-vx) == -(ux * vy - uy * vx)) by (nonlinear_arith);
}

/// Containment does not depend on which vertex the triangle starts from,
/// nor on the direction its vertices wind.
pub proof fn lemma_triangle_winding(p: Point, a: Point, b: Point, c: Point)
    ensures
        inside_triangle(p, a, b, c) == inside_triangle(p, b, c, a),
        inside_triangle(p, a, b, c) == inside_triangle(p, c, b, a),
{
    lemma_side_swap(p, a, b);
    lemma_side_swap(p, b, c);
    lemma_side_swap(p, c, a);
}

proof fn lemma_on_line_side(p: Point, a: Point, b: Point, k: int, m: int)
    requires
        0 < m,
        m * (p.x - a.x) == k * (b.x - a.x),
        m * (p.y - a.y) == k * (b.y - a.y),
    ensures
        side(p, a, b) == 0,
{
    let vx = a.x - b.x;
    let vy = a.y - b.y;
    let ux = p.x - b.x;
    let uy = p.y - b.y;
    assert(m * ux == (m - k) * vx && m * uy == (m - k) * vy) by (nonlinear_arith)
        requires
            m * (p.x - a.x) == k * (b.x - a.x),
            m * (p.y - a.y) == k * (b.y - a.y),
            vx == a.x - b.x,
            vy == a.y - b.y,
            ux == p.x - b.x,
            uy == p.y - b.y,
    ;
    assert(m * (ux * vy - uy * vx) == (m * ux) * vy - (m * uy) * vx) by (nonlinear_arith);
    assert(((m - k) * vx) * vy - ((m - k) * vy) * vx == 0) by (nonlinear_arith);
    assert(ux * vy - uy * vx == 0) by (nonlinear_arith)
        requires
            m * (ux * vy - uy * vx) == 0,
            0 < m,
    ;
}

/// A point on an edge is not inside: `p` at `k / m` along the edge from `a`
/// to `b`, from `b` to `c` or from `c` to `a`.
pub proof fn lemma_edge_point_outside(p: Point, a: Point, b: Point, c: Point, k: int, m: int)
    requires
        0 < m,
        0 <= k <= m,
        ({
            ||| m * (p.x - a.x) == k * (b.x - a.x) && m * (p.y - a.y) == k * (b.y - a.y)
            ||| m * (p.x - b.x) == k * (c.x - b.x) && m * (p.y - b.y) == k * (c.y - b.y)
            ||| m * (p.x - c.x) == k * (a.x - c.x) && m * (p.y - c.y) == k * (a.y - c.y)
        }),
    ensures
        !inside_triangle(p, a, b, c),
{
    if m * (p.x - a.x) == k * (b.x - a.x) && m * (p.y - a.y) == k * (b.y - a.y) {
        lemma_on_line_side(p, a, b, k, m);
    } else if m * (p.x - b.x) == k * (c.x - b.x) && m * (p.y - b.y) == k * (c.y - b.y) {
        lemma_on_line_side(p, b, c, k, m);
    } else {
        lemma_on_line_side(p, c, a, k, m);
    }
}

/// `p` is a weighted average of `a`, `b` and `c` with positive weights: a
/// point strictly inside the triangle they span.
pub open spec fn strict_combination(p: Point, a: Point, b: Point, c: Point, wa: int, wb: int, wc: int) -> bool {
    &&& wa > 0
    &&& wb > 0
    &&& wc > 0
    &&& (wa + wb + wc) * p.x == wa * a.x + wb * b.x + wc * c.x
    &&& (wa + wb + wc) * p.y == wa * a.y + wb * b.y + wc * c.y
}

proof fn lemma_side_cyclic(a: Point, b: Point, c: Point)
    ensures
        side(c, a, b) == side(a, b, c),
        side(b, c, a) == side(a, b, c),
{
    assert((c.x - b.x) * (a.y - b.y) - (c.y - b.y) * (a.x - b.x) == (a.x - c.x) * (b.y - c.y) - (
    a.y - c.y) * (b.x - c.x)) by (nonlinear_arith);
    assert((b.x - a.x) * (c.y - a.y) - (b.y - a.y) * (c.x - a.x) == (a.x - c.x) * (b.y - c.y) - (
    a.y - c.y) * (b.x - c.x)) by (nonlinear_arith);
}

/// Scaled by the total weight, the side test of a weighted average against
/// the edge from `b` to `a` is the weight of `c` times the side test of `c`.
proof fn lemma_side_of_combination(p: Point, a: Point, b: Point, c: Point, wa: int, wb: int, wc: int)
    requires
        (wa + wb + wc) * p.x == wa * a.x + wb * b.x + wc * c.x,
        (wa + wb + wc) * p.y == wa * a.y + wb * b.y + wc * c.y,
    ensures
        (wa + wb + wc) * side(p, a, b) == wc * side(c, a, b),
{
    let w = wa + wb + wc;
    let ux = a.x - b.x;
    let uy = a.y - b.y;
    let vx = c.x - b.x;
    let vy = c.y - b.y;
    assert(w * (p.x - b.x) == wa * ux + wc * vx && w * (p.y - b.y) == wa * uy + wc * vy)
        by (nonlinear_arith)
        requires
            w == wa + wb + wc,
            w * p.x == wa * a.x + wb * b.x + wc * c.x,
            w * p.y == wa * a.y + wb * b.y + wc * c.y,
            ux == a.x - b.x,
            uy == a.y - b.y,
            vx == c.x - b.x,
            vy == c.y - b.y,
    ;
    assert(w * ((p.x - b.x) * uy - (p.y - b.y) * ux) == (w * (p.x - b.x)) * uy - (w * (p.y - b.y))
        * ux) by (nonlinear_arith);
    assert((wa * ux + wc * vx) * uy - (wa * uy + wc * vy) * ux == wc * (vx * uy - vy * ux))
        by (nonlinear_arith);
}

/// Every point strictly inside a triangle that is not flat passes the
/// containment test.
pub proof fn lemma_interior_point_inside(
    p: Point,
    a: Point,
    b: Point,
    c: Point,
    wa: int,
    wb: int,
    wc: int,
)
    requires
        strict_combination(p, a, b, c, wa, wb, wc),
        side(a, b, c) != 0,
    ensures
        inside_triangle(p, a, b, c),
{
    let w = wa + wb + wc;
    lemma_side_cyclic(a, b, c);
    lemma_side_of_combination(p, a, b, c, wa, wb, wc);
    assert(w * p.x == wb * b.x + wc * c.x + wa * a.x && w * p.y == wb * b.y + wc * c.y + wa * a.y);
    assert(w == wb + wc + wa);
    lemma_side_of_combination(p, b, c, a, wb, wc, wa);
    lemma_side_of_combination(p, c, a, b, wc, wa, wb);
    let e = side(a, b, c);
    let d1 = side(p, a, b);
    let d2 = side(p, b, c);
    let d3 = side(p, c, a);
    assert((d1 < 0 && d2 < 0 && d3 < 0) || (d1 > 0 && d2 > 0 && d3 > 0)) by (nonlinear_arith)
        requires
            w * d1 == wc * e,
            w * d2 == wa * e,
            w * d3 == wb * e,
            w == wa + wb + wc,
            wa > 0,
            wb > 0,
            wc > 0,
            e != 0,
    ;
}

proof fn lemma_vector_triple(ax: int, ay: int, bx: int, by_: int, cx: int, cy: int)
    ensures
        cross(bx, by_, cx, cy) * ax + cross(cx, cy, ax, ay) * bx + cross(ax, ay, bx, by_) * cx == 0,
{
    assert((bx * cy - by_ * cx) * ax == bx * cy * ax - by_ * cx * ax) by (nonlinear_arith);
    assert((cx * ay - cy * ax) * bx == cx * ay * bx - cy * ax * bx) by (nonlinear_arith);
    assert((ax * by_ - ay * bx) * cx == ax * by_ * cx - ay * bx * cx) by (nonlinear_arith);
    assert(bx * cy * ax == cy * ax * bx) by (nonlinear_arith);
    assert(by_ * cx * ax == ax * by_ * cx) by (nonlinear_arith);
    assert(cx * ay * bx == ay * bx * cx) by (nonlinear_arith);
}

/// The side tests, seen from `p`, and their sum.
proof fn lemma_sides_from(p: Point, a: Point, b: Point, c: Point)
    ensures
        ({
            let (ax, ay) = (a.x - p.x, a.y - p.y);
            let (bx, by_) = (b.x - p.x, b.y - p.y);
            let (cx, cy) = (c.x - p.x, c.y - p.y);
            &&& side(p, a, b) == cross(ax, ay, bx, by_)
            &&& side(p, b, c) == cross(bx, by_, cx, cy)
            &&& side(p, c, a) == cross(cx, cy, ax, ay)
            &&& side(a, b, c) == side(p, a, b) + side(p, b, c) + side(p, c, a)
        }),
{
    let (ax, ay) = (a.x - p.x, a.y - p.y);
    let (bx, by_) = (b.x - p.x, b.y - p.y);
    let (cx, cy) = (c.x - p.x, c.y - p.y);
    assert((p.x - b.x) * (a.y - b.y) - (p.y - b.y) * (a.x - b.x) == ax * by_ - ay * bx)
        by (nonlinear_arith)
        requires
            ax == a.x - p.x,
            ay == a.y - p.y,
            bx == b.x - p.x,
            by_ == b.y - p.y,
    ;
    assert((p.x - c.x) * (b.y - c.y) - (p.y - c.y) * (b.x - c.x) == bx * cy - by_ * cx)
        by (nonlinear_arith)
        requires
            cx == c.x - p.x,
            cy == c.y - p.y,
            bx == b.x - p.x,
            by_ == b.y - p.y,
    ;
    assert((p.x - a.x) * (c.y - a.y) - (p.y - a.y) * (c.x - a.x) == cx * ay - cy * ax)
        by (nonlinear_arith)
        requires
            ax == a.x - p.x,
            ay == a.y - p.y,
            cx == c.x - p.x,
            cy == c.y - p.y,
    ;
    assert((a.x - c.x) * (b.y - c.y) - (a.y - c.y) * (b.x - c.x) == (ax - cx) * (by_ - cy) - (ay
        - cy) * (bx - cx)) by (nonlinear_arith)
        requires
            ax == a.x - p.x,
            ay == a.y - p.y,
            bx == b.x - p.x,
            by_ == b.y - p.y,
            cx == c.x - p.x,
            cy == c.y - p.y,
    ;
    assert((ax - cx) * (by_ - cy) - (ay - cy) * (bx - cx) == (ax * by_ - ay * bx) + (bx * cy - by_
        * cx) + (cx * ay - cy * ax)) by (nonlinear_arith);
}

/// A point that passes the containment test lies strictly inside a triangle
/// that is not flat: it is the average of the vertices weighted by the side
/// tests of the opposite edges.
pub proof fn lemma_inside_is_interior(p: Point, a: Point, b: Point, c: Point)
    requires
        inside_triangle(p, a, b, c),
    ensures
        side(a, b, c) != 0,
        exists|wa: int, wb: int, wc: int| strict_combination(p, a, b, c, wa, wb, wc),
{
    lemma_sides_from(p, a, b, c);
    let (ax, ay) = (a.x - p.x, a.y - p.y);
    let (bx, by_) = (b.x - p.x, b.y - p.y);
    let (cx, cy) = (c.x - p.x, c.y - p.y);
    lemma_vector_triple(ax, ay, bx, by_, cx, cy);
    lemma_vector_triple(ay, ax, by_, bx, cy, cx);
    let d1 = side(p, a, b);
    let d2 = side(p, b, c);
    let d3 = side(p, c, a);
    assert(cross(by_, bx, cy, cx) == -d2 && cross(cy, cx, ay, ax) == -d3 && cross(ay, ax, by_, bx)
        == -d1) by (nonlinear_arith)
        requires
            d1 == ax * by_ - ay * bx,
            d2 == bx * cy - by_ * cx,
            d3 == cx * ay - cy * ax,
    ;
    assert(d2 * ax + d3 * bx + d1 * cx == 0);
    assert((-d2) * ay + (-d3) * by_ + (-d1) * cy == 0);
    assert(d2 * ay + d3 * by_ + d1 * cy == 0) by (nonlinear_arith)
        requires
            (-d2) * ay + (-d3) * by_ + (-d1) * cy == 0,
    ;
    lemma_weighted_average(p.x as int, a.x as int, b.x as int, c.x as int, d2, d3, d1);
    lemma_weighted_average(p.y as int, a.y as int, b.y as int, c.y as int, d2, d3, d1);
    if d1 > 0 {
        assert(strict_combination(p, a, b, c, d2, d3, d1));
    } else {
        assert((-d2 + -d3 + -d1) * p.x == (-d2) * a.x + (-d3) * b.x + (-d1) * c.x) by (nonlinear_arith)
            requires
                (d2 + d3 + d1) * p.x == d2 * a.x + d3 * b.x + d1 * c.x,
        ;
        assert((-d2 + -d3 + -d1) * p.y == (-d2) * a.y + (-d3) * b.y + (-d1) * c.y) by (nonlinear_arith)
            requires
                (d2 + d3 + d1) * p.y == d2 * a.y + d3 * b.y + d1 * c.y,
        ;
        assert(strict_combination(p, a, b, c, -d2, -d3, -d1));
    }
}

proof fn lemma_weighted_average(pc: int, ac: int, bc: int, cc: int, wa: int, wb: int, wc: int)
    requires
        wa * (ac - pc) + wb * (bc - pc) + wc * (cc - pc) == 0,
    ensures
        (wa + wb + wc) * pc == wa * ac + wb * bc + wc * cc,
{
    assert(wa * (ac - pc) + wb * (bc - pc) + wc * (cc - pc) == wa * ac + wb * bc + wc * cc - (wa
        + wb + wc) * pc) by (nonlinear_arith);
}

/// The containment test accepts exactly the points strictly inside a
/// triangle that is not flat.
pub proof fn lemma_inside_iff_interior(p: Point, a: Point, b: Point, c: Point)
    ensures
        inside_triangle(p, a, b, c) <==> (side(a, b, c) != 0 && exists|wa: int, wb: int, wc: int|
            strict_combination(p, a, b, c, wa, wb, wc)),
{
    if inside_triangle(p, a, b, c) {
        lemma_inside_is_interior(p, a, b, c);
    }
    if side(a, b, c) != 0 && exists|wa: int, wb: int, wc: int|
        strict_combination(p, a, b, c, wa, wb, wc) {
        let (wa, wb, wc) = choose|wa: int, wb: int, wc: int|
            strict_combination(p, a, b, c, wa, wb, wc);
        lemma_interior_point_inside(p, a, b, c, wa, wb, wc);
    }
}

pub open spec fn dot(ux: int, uy: int, vx: int, vy: int) -> int {
    ux * vx + uy * vy
}

pub open spec fn abs_int(v: int) -> int {
    if v < 0 {
        -v
    } else {
        v
    }
}

/// The position `num / den` of the point of the segment from `s1` to `s2`
/// closest to `p`: the projection onto the line, clamped to `[0, 1]`; `0`
/// when the segment is a single point.
pub open spec fn closest_param(p: Point, s1: Point, s2: Point) -> (int, int) {
    let len2 = dot(s2.x - s1.x, s2.y - s1.y, s2.x - s1.x, s2.y - s1.y);
    let proj = dot(p.x - s1.x, p.y - s1.y, s2.x - s1.x, s2.y - s1.y);
    if len2 == 0 || proj <= 0 {
        (0, 1)
    } else if proj >= len2 {
        (1, 1)
    } else {
        (proj, len2)
    }
}

/// Absolute x and y distances `(dx_num / den, dy_num / den)`, `den > 0`.
#[derive(Clone, Copy, Debug, PartialEq, Eq, Structural)]
pub struct Offsets {
    pub dx_num: i128,
    pub dy_num: i128,
    pub den: i128,
}

fn dot_exec(ux: i64, uy: i64, vx: i64, vy: i64) -> (r: i128)
    requires
        -SPAN <= ux <= SPAN,
        -SPAN <= uy <= SPAN,
        -SPAN <= vx <= SPAN,
        -SPAN <= vy <= SPAN,
    ensures
        r == dot(ux as int, uy as int, vx as int, vy as int),
        -2 * SPAN * SPAN <= r <= 2 * SPAN * SPAN,
{
    proof {
        lemma_mul_within(ux as int, vx as int, SPAN as int, SPAN as int);
        lemma_mul_within(uy as int, vy as int, SPAN as int, SPAN as int);
    }
    (ux as i128) * (vx as i128) + (uy as i128) * (vy as i128)
}

/// The absolute x and y distances between `p` and the point of the segment
/// from `s1` to `s2` closest to it.
pub fn perpendicular_offsets(p: Point, s1: Point, s2: Point) -> (r: Offsets)
    ensures
        ({
            let (num, den) = closest_param(p, s1, s2);
            &&& r.den == den
            &&& r.dx_num == abs_int((p.x - s1.x) * den - num * (s2.x - s1.x))
            &&& r.dy_num == abs_int((p.y - s1.y) * den - num * (s2.y - s1.y))
        }),
        r.den > 0,
{
    let dx = s2.x as i64 - s1.x as i64;
    let dy = s2.y as i64 - s1.y as i64;
    let wx = p.x as i64 - s1.x as i64;
    let wy = p.y as i64 - s1.y as i64;
    let len2 = dot_exec(dx, dy, dx, dy);
    let proj = dot_exec(wx, wy, dx, dy);
    let num: i128 = if len2 == 0 || proj <= 0 {
        0
    } else if proj >= len2 {
        1
    } else {
        proj
    };
    let den: i128 = if len2 == 0 || proj <= 0 || proj >= len2 {
        1
    } else {
        len2
    };
    proof {
        let b = 2 * SPAN * SPAN;
        lemma_mul_within(wx as int, den as int, SPAN as int, b as int);
        lemma_mul_within(wy as int, den as int, SPAN as int, b as int);
        lemma_mul_within(num as int, dx as int, b as int, SPAN as int);
        lemma_mul_within(num as int, dy as int, b as int, SPAN as int);
    }
    let ex = wx as i128 * den - num * dx as i128;
    let ey = wy as i128 * den - num * dy as i128;
    Offsets {
        dx_num: if ex < 0 { -ex } else { ex },
        dy_num: if ey < 0 { -ey } else { ey },
        den,
    }
}

/// The squared distance between two points.
pub open spec fn dist2(a: Point, b: Point) -> int {
    dot(b.x - a.x, b.y - a.y, b.x - a.x, b.y - a.y)
}

/// The squared Euclidean distance between two points, exactly.
pub fn squared_distance(a: Point, b: Point) -> (r: i128)
    ensures
        r == dist2(a, b),
{
    let dx = b.x as i64 - a.x as i64;
    let dy = b.y as i64 - a.y as i64;
    dot_exec(dx, dy, dx, dy)
}


/// Where the line through `q` perpendicular to the segment from `start` to
/// `end` meets that segment: `None` when it meets the segment's line
/// outside the segment, or when the segment is a single point.
pub fn point_on_heading_segment(start: Point, end: Point, q: Point) -> (r: Option<RatPoint>)
    ensures
        ({
            let len2 = dot(end.x - start.x, end.y - start.y, end.x - start.x, end.y - start.y);
            let proj = dot(q.x - start.x, q.y - start.y, end.x - start.x, end.y - start.y);
            &&& r is Some <==> (len2 > 0 && 0 <= proj <= len2)
            &&& r matches Some(pt) ==> pt.triple() == point_along(
                Segment { from: start, to: end },
                proj,
                len2,
            )
        }),
{
    let dx = end.x as i64 - start.x as i64;
    let dy = end.y as i64 - start.y as i64;
    let len2 = dot_exec(dx, dy, dx, dy);
    let proj = dot_exec(q.x as i64 - start.x as i64, q.y as i64 - start.y as i64, dx, dy);
    if len2 > 0 && 0 <= proj && proj <= len2 {
        Some(point_at(Segment { from: start, to: end }, proj, len2))
    } else {
        None
    }
}

} // verus!
