use vstd::prelude::*;
use crate::geometry::{
    abs_int, cross, crosses, crossing, crossing_den, crossing_t, det, dot, t_numer, lemma_mul_within, Point, Segment,
};

verus! {

/// Bound on map coordinates for scanning, so that hit fractions can be
/// compared exactly in 128-bit arithmetic.
pub const COORD_LIMIT: i32 = 0x4000_0000;

/// Bound on the denominator of a hit fraction that a scan reports.
pub const HIT_DEN_LIMIT: i128 = 0x8000_0000_0000_0000;

/// How a ray that hits nothing is reported.
#[derive(Clone, Copy, Debug, PartialEq, Eq, Structural)]
pub enum GapFill {
    /// Repeat the previous ray's result (the full length for the first ray).
    ReusePrevious,
    /// Report the full ray length.
    ClampToMax,
}

/// A rejected scan configuration.
#[derive(Clone, Copy, Debug, PartialEq, Eq, Structural)]
pub enum ScanError {
    InvalidConfig,
}

/// A position `num / den` along a ray, `0 <= num <= den`, `den > 0`: the
/// distance to the hit is this fraction of the ray's length.
#[derive(Clone, Copy, Debug, PartialEq, Eq, Structural)]
pub struct Fraction {
    pub num: i128,
    pub den: i128,
}

impl Fraction {
    pub open spec fn pair(self) -> (int, int) {
        (self.num as int, self.den as int)
    }
}

pub open spec fn fraction_pair(o: Option<Fraction>) -> Option<(int, int)> {
    match o {
        Some(f) => Some(f.pair()),
        None => None,
    }
}

pub open spec fn within(p: Point) -> bool {
    -COORD_LIMIT <= p.x <= COORD_LIMIT && -COORD_LIMIT <= p.y <= COORD_LIMIT
}

pub open spec fn segment_within(s: Segment) -> bool {
    within(s.from) && within(s.to)
}

pub open spec fn walls_within(walls: Seq<Segment>) -> bool {
    forall|i: int| 0 <= i < walls.len() ==> segment_within(#[trigger] walls[i])
}

/// `a` is strictly nearer than `b` (both with positive denominators).
pub open spec fn nearer(a: (int, int), b: (int, int)) -> bool {
    a.0 * b.1 < b.0 * a.1
}

/// Where along `ray` it meets `wall`, as a fraction of its length.
pub open spec fn hit_along(ray: Segment, wall: Segment) -> (int, int) {
    (crossing_t(ray, wall), crossing_den(ray, wall))
}

/// The nearest hit of `ray` on `walls`, taken in order: a later wall
/// replaces the best so far only when strictly nearer.
pub open spec fn nearest(ray: Segment, walls: Seq<Segment>) -> Option<(int, int)>
    decreases walls.len(),
{
    if walls.len() == 0 {
        None
    } else {
        let best = nearest(ray, walls.drop_last());
        let w = walls.last();
        if crosses(ray, w) {
            match best {
                None => Some(hit_along(ray, w)),
                Some(b) => if nearer(hit_along(ray, w), b) {
                    Some(hit_along(ray, w))
                } else {
                    Some(b)
                },
            }
        } else {
            best
        }
    }
}

/// A crossing of two segments within the coordinate bound has a small
/// denominator and a position in `[0, 1]`.
pub proof fn lemma_hit_bounds(ray: Segment, wall: Segment)
    requires
        segment_within(ray),
        segment_within(wall),
        crosses(ray, wall),
    ensures
        0 < crossing_den(ray, wall) <= 0x8000_0000_0000_0000,
        0 <= crossing_t(ray, wall) <= crossing_den(ray, wall),
{
    let b = 0x8000_0000int;
    lemma_mul_within(ray.to.x - ray.from.x, wall.to.y - wall.from.y, b, b);
    lemma_mul_within(ray.to.y - ray.from.y, wall.to.x - wall.from.x, b, b);
    assert(det(ray, wall) <= 2 * b * b && det(ray, wall) >= -2 * b * b);
}


proof fn lemma_nearer_step(a: (int, int), b: (int, int), c: (int, int))
    requires
        a.1 > 0,
        b.1 > 0,
        c.1 > 0,
        !nearer(a, b),
        nearer(c, b),
    ensures
        !nearer(a, c),
{
    let (a0, a1) = a;
    let (b0, b1) = b;
    let (c0, c1) = c;
    assert(a0 * b1 * c1 >= b0 * a1 * c1) by (nonlinear_arith)
        requires
            a0 * b1 >= b0 * a1,
            c1 > 0,
    ;
    assert(b0 * c1 * a1 > c0 * b1 * a1) by (nonlinear_arith)
        requires
            c0 * b1 < b0 * c1,
            a1 > 0,
    ;
    assert(a0 * c1 >= c0 * a1) by (nonlinear_arith)
        requires
            a0 * b1 * c1 >= b0 * a1 * c1,
            b0 * c1 * a1 > c0 * b1 * a1,
            b1 > 0,
    ;
}

/// The nearest hit is absent exactly when the ray crosses no wall; when
/// present, it is the hit on one of the walls, and no wall is hit nearer.
pub proof fn lemma_nearest_is_minimum(ray: Segment, walls: Seq<Segment>)
    ensures
        nearest(ray, walls) is None <==> forall|i: int|
            0 <= i < walls.len() ==> !crosses(ray, #[trigger] walls[i]),
        nearest(ray, walls) matches Some(b) ==> {
            &&& exists|i: int|
                0 <= i < walls.len() && crosses(ray, #[trigger] walls[i]) && hit_along(ray, walls[i])
                    == b
            &&& forall|i: int|
                0 <= i < walls.len() && crosses(ray, #[trigger] walls[i]) ==> !nearer(
                    hit_along(ray, walls[i]),
                    b,
                )
        },
    decreases walls.len(),
{
    if walls.len() > 0 {
        let rest = walls.drop_last();
        let w = walls.last();
        lemma_nearest_is_minimum(ray, rest);
        assert(forall|i: int| 0 <= i < rest.len() ==> rest[i] == walls[i]);
        assert(walls[walls.len() - 1] == w);
        if crosses(ray, w) {
            let h = hit_along(ray, w);
            match nearest(ray, rest) {
                None => {
                    assert(!nearer(h, h)) by (nonlinear_arith);
                },
                Some(b) => {
                    if nearer(h, b) {
                        assert forall|i: int|
                            0 <= i < walls.len() && crosses(ray, #[trigger] walls[i]) implies !nearer(
                            hit_along(ray, walls[i]),
                            h,
                        ) by {
                            if i < walls.len() - 1 {
                                assert(rest[i] == walls[i]);
                                lemma_nearer_step(hit_along(ray, walls[i]), b, h);
                            } else {
                                assert(!nearer(h, h)) by (nonlinear_arith);
                            }
                        }
                    } else {
                        let j = choose|j: int|
                            0 <= j < rest.len() && crosses(ray, #[trigger] rest[j]) && hit_along(
                                ray,
                                rest[j],
                            ) == b;
                        assert(walls[j] == rest[j]);
                    }
                },
            }
        } else {
            if let Some(b) = nearest(ray, rest) {
                let j = choose|j: int|
                    0 <= j < rest.len() && crosses(ray, #[trigger] rest[j]) && hit_along(ray, rest[j])
                        == b;
                assert(walls[j] == rest[j]);
            }
        }
    }
}

/// The nearest place along `ray` where it crosses one of `walls`, as a
/// fraction of the ray's length; `None` when it crosses none.
pub fn nearest_hit(ray: Segment, walls: &Vec<Segment>) -> (r: Option<Fraction>)
    requires
        segment_within(ray),
        walls_within(walls@),
    ensures
        fraction_pair(r) == nearest(ray, walls@),
        r matches Some(f) ==> 0 <= f.num <= f.den && 0 < f.den <= HIT_DEN_LIMIT,
{
    let mut best: Option<Fraction> = None;
    let mut i: usize = 0;
    while i < walls.len()
        invariant
            i <= walls.len(),
            segment_within(ray),
            walls_within(walls@),
            fraction_pair(best) == nearest(ray, walls@.take(i as int)),
            best matches Some(b) ==> 0 <= b.num <= b.den && 0 < b.den <= 0x8000_0000_0000_0000,
        decreases walls.len() - i,
    {
        let w = walls[i];
        assert(segment_within(walls@[i as int]));
        if let Some(c) = crossing(ray, w) {
            proof {
                lemma_hit_bounds(ray, w);
            }
            let cand = Fraction { num: c.t_num, den: c.den };
            match best {
                None => {
                    best = Some(cand);
                },
                Some(b) => {
                    proof {
                        let lim = 0x8000_0000_0000_0000int;
                        lemma_mul_within(cand.num as int, b.den as int, lim, lim);
                        lemma_mul_within(b.num as int, cand.den as int, lim, lim);
                    }
                    if cand.num * b.den < b.num * cand.den {
                        best = Some(cand);
                    }
                },
            }
        }
        assert(walls@.take(i + 1).drop_last() =~= walls@.take(i as int));
        i += 1;
    }
    assert(walls@.take(walls.len() as int) =~= walls@);
    best
}


pub open spec fn ray_to(origin: Point, end: Point) -> Segment {
    Segment { from: origin, to: end }
}

/// The reported hit of the ray from `origin` to `ends[i]`: the nearest hit,
/// or, when it hits nothing, the full length or the previous ray's result
/// as `gap` says.
pub open spec fn sample(
    origin: Point,
    ends: Seq<Point>,
    walls: Seq<Segment>,
    gap: GapFill,
    i: int,
) -> (int, int)
    decreases i,
{
    match nearest(ray_to(origin, ends[i]), walls) {
        Some(h) => h,
        None => if gap == GapFill::ReusePrevious && i > 0 {
            sample(origin, ends, walls, gap, i - 1)
        } else {
            (1, 1)
        },
    }
}

/// Casts one ray from `origin` to each of `ends`, in order, against all of
/// `walls`, and reports for each where along it the nearest wall stands.
pub fn scan(origin: Point, ends: &Vec<Point>, walls: &Vec<Segment>, gap: GapFill) -> (r: Vec<
    Fraction,
>)
    requires
        within(origin),
        forall|i: int| 0 <= i < ends.len() ==> within(#[trigger] ends[i]),
        walls_within(walls@),
    ensures
        r.len() == ends.len(),
        forall|i: int|
            0 <= i < r.len() ==> (#[trigger] r[i]).pair() == sample(origin, ends@, walls@, gap, i),
        forall|i: int|
            0 <= i < r.len() ==> 0 <= (#[trigger] r[i]).num <= r[i].den && 0 < r[i].den
                <= HIT_DEN_LIMIT,
{
    let mut out: Vec<Fraction> = Vec::new();
    let mut i: usize = 0;
    while i < ends.len()
        invariant
            i <= ends.len(),
            out.len() == i,
            within(origin),
            forall|j: int| 0 <= j < ends.len() ==> within(#[trigger] ends[j]),
            walls_within(walls@),
            forall|j: int|
                0 <= j < i ==> (#[trigger] out[j]).pair() == sample(origin, ends@, walls@, gap, j),
            forall|j: int|
                0 <= j < i ==> 0 <= (#[trigger] out[j]).num <= out[j].den && 0 < out[j].den
                    <= HIT_DEN_LIMIT,
        decreases ends.len() - i,
    {
        let ray = Segment { from: origin, to: ends[i] };
        assert(within(ends@[i as int]));
        let hit = match nearest_hit(ray, walls) {
            Some(h) => h,
            None => {
                if gap == GapFill::ReusePrevious && i > 0 {
                    out[i - 1]
                } else {
                    Fraction { num: 1, den: 1 }
                }
            },
        };
        out.push(hit);
        i += 1;
    }
    out
}

/// A scan has no hidden state: any two results that meet `scan`'s contract
/// for the same camera, rays, walls and gap policy are the same sequence.
pub proof fn lemma_scan_repeatable(
    origin: Point,
    ends: Seq<Point>,
    walls: Seq<Segment>,
    gap: GapFill,
    first: Seq<Fraction>,
    second: Seq<Fraction>,
)
    requires
        first.len() == ends.len(),
        second.len() == ends.len(),
        forall|i: int|
            0 <= i < first.len() ==> (#[trigger] first[i]).pair() == sample(origin, ends, walls, gap, i),
        forall|i: int|
            0 <= i < second.len() ==> (#[trigger] second[i]).pair() == sample(
                origin,
                ends,
                walls,
                gap,
                i,
            ),
    ensures
        first == second,
{
    assert forall|i: int| 0 <= i < first.len() implies first[i] == second[i] by {
        assert(first[i].pair() == second[i].pair());
    }
    assert(first =~= second);
}

/// The angle offsets to sample: from `-half_fov` up to, and not including,
/// `half_fov`, `step` apart. A step that is not positive is refused.
pub fn sample_offsets(half_fov: i32, step: i32) -> (r: Result<Vec<i32>, ScanError>)
    ensures
        r is Err <==> step <= 0,
        r matches Err(e) ==> e == ScanError::InvalidConfig,
        r matches Ok(v) ==> {
            &&& forall|i: int| 0 <= i < v.len() ==> #[trigger] v[i] == -half_fov + i * step
            &&& forall|i: int| 0 <= i < v.len() ==> #[trigger] v[i] < half_fov
            &&& -half_fov + v.len() * step >= half_fov
        },
{
    if step <= 0 {
        return Err(ScanError::InvalidConfig);
    }
    let mut out: Vec<i32> = Vec::new();
    let mut a: i64 = -(half_fov as i64);
    assert(0 * step == 0);
    while a < half_fov as i64
        invariant
            step > 0,
            a == -half_fov + out.len() * step,
            a < half_fov + step || out.len() == 0,
            -0x1_0000_0000 < a < 0x1_0000_0000,
            forall|i: int| 0 <= i < out.len() ==> #[trigger] out[i] == -half_fov + i * step,
            forall|i: int| 0 <= i < out.len() ==> #[trigger] out[i] < half_fov,
        decreases half_fov + step - a,
    {
        proof {
            let n = out.len() as int;
            assert((n + 1) * step == n * step + step) by (nonlinear_arith);
        }
        out.push(a as i32);
        a = a + step as i64;
    }
    Ok(out)
}

/// Monotonicity along a straight wall: of two rays from one point, not on
/// the wall's line, that both reach the wall, the one crossing it more
/// obliquely (a smaller determinant against the wall; for rays of equal
/// length, a larger angle from the wall's normal) meets it farther along.
pub proof fn lemma_oblique_ray_hits_farther(r1: Segment, r2: Segment, wall: Segment)
    requires
        r1.from == r2.from,
        crosses(r1, wall),
        crosses(r2, wall),
        t_numer(r1, wall) != 0,
        abs_int(det(r2, wall)) < abs_int(det(r1, wall)),
    ensures
        nearer(hit_along(r1, wall), hit_along(r2, wall)),
{
    let c = t_numer(r1, wall);
    assert(t_numer(r2, wall) == c);
    let d1 = abs_int(det(r1, wall));
    let d2 = abs_int(det(r2, wall));
    assert(crossing_t(r1, wall) == abs_int(c));
    assert(crossing_t(r2, wall) == abs_int(c));
    assert(abs_int(c) * d2 < abs_int(c) * d1) by (nonlinear_arith)
        requires
            abs_int(c) > 0,
            d2 < d1,
    ;
}


proof fn lemma_lagrange(rx: int, ry: int, sx: int, sy: int)
    ensures
        cross(rx, ry, sx, sy) * cross(rx, ry, sx, sy) + dot(rx, ry, sx, sy) * dot(rx, ry, sx, sy) == dot(
            rx,
            ry,
            rx,
            ry,
        ) * dot(sx, sy, sx, sy),
{
    let a = rx * sy;
    let b = ry * sx;
    let c = rx * sx;
    let d = ry * sy;
    assert((a - b) * (a - b) == a * a - 2 * (a * b) + b * b) by (nonlinear_arith);
    assert((c + d) * (c + d) == c * c + 2 * (c * d) + d * d) by (nonlinear_arith);
    assert(a * b == c * d) by (nonlinear_arith)
        requires
            a == rx * sy,
            b == ry * sx,
            c == rx * sx,
            d == ry * sy,
    ;
    assert(a * a == (rx * rx) * (sy * sy) && b * b == (ry * ry) * (sx * sx)) by (nonlinear_arith)
        requires
            a == rx * sy,
            b == ry * sx,
    ;
    assert(c * c == (rx * rx) * (sx * sx) && d * d == (ry * ry) * (sy * sy)) by (nonlinear_arith)
        requires
            c == rx * sx,
            d == ry * sy,
    ;
    assert((rx * rx + ry * ry) * (sx * sx + sy * sy) == (rx * rx) * (sx * sx) + (rx * rx) * (sy
        * sy) + (ry * ry) * (sx * sx) + (ry * ry) * (sy * sy)) by (nonlinear_arith);
}

/// Monotonicity for rays of equal length from one point, not on the wall's
/// line, that both reach the wall: the ray whose direction runs more nearly
/// along the wall (a larger `|dot|` with the wall's direction, that is, a
/// larger angle from the wall's normal) meets it farther along, so farther
/// from the camera.
pub proof fn lemma_turned_ray_hits_farther(r1: Segment, r2: Segment, wall: Segment)
    requires
        r1.from == r2.from,
        crosses(r1, wall),
        crosses(r2, wall),
        t_numer(r1, wall) != 0,
        dot(r1.to.x - r1.from.x, r1.to.y - r1.from.y, r1.to.x - r1.from.x, r1.to.y - r1.from.y)
            == dot(r2.to.x - r2.from.x, r2.to.y - r2.from.y, r2.to.x - r2.from.x, r2.to.y - r2.from.y),
        abs_int(dot(r1.to.x - r1.from.x, r1.to.y - r1.from.y, wall.to.x - wall.from.x, wall.to.y - wall.from.y))
            < abs_int(dot(r2.to.x - r2.from.x, r2.to.y - r2.from.y, wall.to.x - wall.from.x, wall.to.y - wall.from.y)),
    ensures
        nearer(hit_along(r1, wall), hit_along(r2, wall)),
{
    let sx = wall.to.x - wall.from.x;
    let sy = wall.to.y - wall.from.y;
    lemma_lagrange(r1.to.x - r1.from.x, r1.to.y - r1.from.y, sx, sy);
    lemma_lagrange(r2.to.x - r2.from.x, r2.to.y - r2.from.y, sx, sy);
    let d1 = det(r1, wall);
    let d2 = det(r2, wall);
    let e1 = dot(r1.to.x - r1.from.x, r1.to.y - r1.from.y, sx, sy);
    let e2 = dot(r2.to.x - r2.from.x, r2.to.y - r2.from.y, sx, sy);
    assert(e1 * e1 < e2 * e2) by (nonlinear_arith)
        requires
            abs_int(e1) < abs_int(e2),
    ;
    assert(abs_int(d2) < abs_int(d1)) by (nonlinear_arith)
        requires
            d1 * d1 + e1 * e1 == d2 * d2 + e2 * e2,
            e1 * e1 < e2 * e2,
    ;
    lemma_oblique_ray_hits_farther(r1, r2, wall);
}

} // verus!
