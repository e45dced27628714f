use vstd::prelude::*;
use crate::geometry::{
    crossing, crossing_den, crossing_t, crosses, inside_triangle, point_along, point_at,
    point_in_triangle, Point, RatPoint, Segment,
};
use crate::scanner::{hit_along, lemma_hit_bounds, nearer, segment_within, within};

verus! {

/// The camera's view: its position and the far ends of the two rays that
/// bound what it sees.
#[derive(Clone, Copy, Debug, PartialEq, Eq, Structural)]
pub struct ViewCone {
    pub camera: Point,
    pub left: Point,
    pub right: Point,
}

impl ViewCone {
    pub open spec fn left_ray(self) -> Segment {
        Segment { from: self.camera, to: self.left }
    }

    pub open spec fn right_ray(self) -> Segment {
        Segment { from: self.camera, to: self.right }
    }

    pub open spec fn within(self) -> bool {
        within(self.camera) && within(self.left) && within(self.right)
    }
}

/// The edge from vertex `i` to the next vertex of the closed loop.
pub open spec fn edge_of(verts: Seq<Point>, i: int) -> Segment {
    Segment { from: verts[i], to: verts[(i + 1) % (verts.len() as int)] }
}

/// What the camera sees of one edge, in order along it: its start vertex
/// when that lies strictly inside the view, then the points where the
/// boundary rays cross the edge, nearer the start first (the left ray's
/// first on a tie).
pub open spec fn edge_points(cone: ViewCone, edge: Segment) -> Seq<(int, int, int)> {
    let lead = if inside_triangle(edge.from, cone.camera, cone.left, cone.right) {
        seq![(edge.from.x as int, edge.from.y as int, 1int)]
    } else {
        Seq::empty()
    };
    let l = cone.left_ray();
    let r = cone.right_ray();
    let pl = point_along(edge, crossing_t(edge, l), crossing_den(edge, l));
    let pr = point_along(edge, crossing_t(edge, r), crossing_den(edge, r));
    if crosses(edge, l) && crosses(edge, r) {
        if nearer(hit_along(edge, r), hit_along(edge, l)) {
            lead + seq![pr, pl]
        } else {
            lead + seq![pl, pr]
        }
    } else if crosses(edge, l) {
        lead.push(pl)
    } else if crosses(edge, r) {
        lead.push(pr)
    } else {
        lead
    }
}

pub open spec fn triples(v: Seq<RatPoint>) -> Seq<(int, int, int)> {
    v.map_values(|p: RatPoint| p.triple())
}

/// The points of `edge` that the camera sees, in order along the edge.
pub fn visible_points(cone: ViewCone, edge: Segment) -> (r: Vec<RatPoint>)
    requires
        cone.within(),
        segment_within(edge),
    ensures
        triples(r@) == edge_points(cone, edge),
{
    let mut out: Vec<RatPoint> = Vec::new();
    if point_in_triangle(edge.from, cone.camera, cone.left, cone.right) {
        out.push(RatPoint { x_num: edge.from.x as i128, y_num: edge.from.y as i128, den: 1 });
    }
    let l = Segment { from: cone.camera, to: cone.left };
    let r = Segment { from: cone.camera, to: cone.right };
    let cl = crossing(edge, l);
    let cr = crossing(edge, r);
    match (cl, cr) {
        (Some(a), Some(b)) => {
            proof {
                lemma_hit_bounds(edge, l);
                lemma_hit_bounds(edge, r);
                let lim = 0x8000_0000_0000_0000int;
                crate::geometry::lemma_mul_within(b.t_num as int, a.den as int, lim, lim);
                crate::geometry::lemma_mul_within(a.t_num as int, b.den as int, lim, lim);
            }
            if b.t_num * a.den < a.t_num * b.den {
                out.push(point_at(edge, b.t_num, b.den));
                out.push(point_at(edge, a.t_num, a.den));
            } else {
                out.push(point_at(edge, a.t_num, a.den));
                out.push(point_at(edge, b.t_num, b.den));
            }
        },
        (Some(a), None) => {
            out.push(point_at(edge, a.t_num, a.den));
        },
        (None, Some(b)) => {
            out.push(point_at(edge, b.t_num, b.den));
        },
        (None, None) => {},
    }
    assert(triples(out@) =~= edge_points(cone, edge));
    out
}


/// The visible points of every edge of the closed loop `verts`, edge `i`
/// running from vertex `i` to the next.
pub fn polygon_edge_points(cone: ViewCone, verts: &Vec<Point>) -> (r: Vec<Vec<RatPoint>>)
    requires
        cone.within(),
        forall|i: int| 0 <= i < verts.len() ==> within(#[trigger] verts[i]),
    ensures
        r.len() == verts.len(),
        forall|i: int|
            0 <= i < r.len() ==> triples((#[trigger] r[i])@) == edge_points(cone, edge_of(verts@, i)),
{
    let n = verts.len();
    let mut out: Vec<Vec<RatPoint>> = Vec::new();
    let mut i: usize = 0;
    while i < n
        invariant
            n == verts.len(),
            i <= n,
            out.len() == i,
            cone.within(),
            forall|j: int| 0 <= j < verts.len() ==> within(#[trigger] verts[j]),
            forall|j: int|
                0 <= j < i ==> triples((#[trigger] out[j])@) == edge_points(cone, edge_of(verts@, j)),
        decreases n - i,
    {
        let next = if i + 1 == n { 0 } else { i + 1 };
        proof {
            if i + 1 == n {
                vstd::arithmetic::div_mod::lemma_mod_self_0(n as int);
            } else {
                vstd::arithmetic::div_mod::lemma_small_mod((i + 1) as nat, n as nat);
            }
        }
        assert(next == (i + 1) % (n as int));
        let edge = Segment { from: verts[i], to: verts[next] };
        assert(within(verts@[i as int]) && within(verts@[next as int]));
        let pts = visible_points(cone, edge);
        out.push(pts);
        i += 1;
    }
    out
}

pub open spec fn views(s: Seq<Vec<RatPoint>>) -> Seq<Seq<RatPoint>> {
    s.map_values(|v: Vec<RatPoint>| v@)
}

/// Chains built from the groups so far: the closed chains, and the one
/// still open.
pub open spec fn link_state(groups: Seq<Seq<RatPoint>>) -> (Seq<Seq<RatPoint>>, Seq<RatPoint>)
    decreases groups.len(),
{
    if groups.len() == 0 {
        (Seq::empty(), Seq::empty())
    } else {
        let (closed, open) = link_state(groups.drop_last());
        let g = groups.last();
        if g.len() == 0 {
            if open.len() > 0 {
                (closed.push(open), Seq::empty())
            } else {
                (closed, open)
            }
        } else {
            (closed, open + g)
        }
    }
}

/// Consecutive non-empty groups joined into chains; an empty group ends the
/// chain before it, and the next non-empty group starts a new one.
pub open spec fn link(groups: Seq<Seq<RatPoint>>) -> Seq<Seq<RatPoint>> {
    let (closed, open) = link_state(groups);
    if open.len() > 0 {
        closed.push(open)
    } else {
        closed
    }
}

/// Joins the visible points of consecutive edges into connected chains,
/// breaking wherever an edge shows nothing.
pub fn link_chains(groups: &Vec<Vec<RatPoint>>) -> (r: Vec<Vec<RatPoint>>)
    ensures
        views(r@) == link(views(groups@)),
{
    let mut closed: Vec<Vec<RatPoint>> = Vec::new();
    let mut open: Vec<RatPoint> = Vec::new();
    let mut i: usize = 0;
    while i < groups.len()
        invariant
            i <= groups.len(),
            (views(closed@), open@) == link_state(views(groups@).take(i as int)),
        decreases groups.len() - i,
    {
        let g = &groups[i];
        assert(views(groups@).take(i + 1).drop_last() =~= views(groups@).take(i as int));
        assert(views(groups@).take(i + 1).last() == g@);
        if g.len() == 0 {
            if open.len() > 0 {
                let ghost before = closed@;
                let done = open;
                open = Vec::new();
                closed.push(done);
                assert(views(closed@) =~= views(before).push(done@));
            }
        } else {
            let ghost before = open@;
            let mut j: usize = 0;
            while j < g.len()
                invariant
                    j <= g.len(),
                    i < groups.len(),
                    g == &groups[i as int],
                    open@ == before + g@.take(j as int),
                decreases g.len() - j,
            {
                open.push(g[j]);
                assert(g@.take(j + 1) =~= g@.take(j as int).push(g@[j as int]));
                j += 1;
            }
            assert(g@.take(g.len() as int) =~= g@);
        }
        i += 1;
    }
    assert(views(groups@).take(groups.len() as int) =~= views(groups@));
    if open.len() > 0 {
        closed.push(open);
    }
    closed
}

} // verus!
