//! Polyline barriers: obstacles no planned step may cross.
//!
//! Two segments cross when each strictly separates the other's endpoints,
//! judged by signed triangle areas.  Touching or collinear contact is not a
//! crossing.  All tests are exact integer arithmetic.

use vstd::prelude::*;
use crate::coord::{Coord, in_bounds};

verus! {

/// An ordered polyline obstacle.
#[derive(Debug)]
pub struct Barrier {
    pub points: Vec<Coord>,
}

impl Clone for Barrier {
    /// A copy holding the same points.
    fn clone(&self) -> (r: Self)
        ensures
            r.points@ == self.points@,
    {
        let mut points: Vec<Coord> = Vec::new();
        let mut i: usize = 0;
        let n = self.points.len();
        while i < n
            invariant
                n == self.points@.len(),
                i <= n,
                points@ == self.points@.subrange(0, i as int),
            decreases n - i,
        {
            points.push(self.points[i]);
            proof {
                assert(points@ =~= self.points@.subrange(0, i + 1));
            }
            i = i + 1;
        }
        proof {
            assert(points@ =~= self.points@);
        }
        Barrier { points }
    }
}

/// Twice the signed area of the triangle `(a, b, c)`: positive when `c`
/// lies to the left of the directed line `a -> b`.
pub open spec fn tri_area(a: Coord, b: Coord, c: Coord) -> int {
    (b.e - a.e) * (c.n - a.n) - (c.e - a.e) * (b.n - a.n)
}

/// The segment `(b1, b2)` strictly crosses the infinite line through
/// `a1` and `a2`: its endpoints lie on strictly opposite sides.
pub open spec fn crosses_line(a1: Coord, a2: Coord, b1: Coord, b2: Coord) -> bool {
    (tri_area(a1, a2, b1) < 0 && tri_area(a1, a2, b2) > 0) || (tri_area(a1, a2, b1) > 0 && tri_area(
        a1,
        a2,
        b2,
    ) < 0)
}

/// The two segments strictly cross: each separates the other's endpoints.
/// Collinear overlap and mere touching do not count.
pub open spec fn segs_cross(a1: Coord, a2: Coord, b1: Coord, b2: Coord) -> bool {
    crosses_line(a1, a2, b1, b2) && crosses_line(b1, b2, a1, a2)
}

/// The segment `(p1, p2)` strictly crosses some edge of the polyline.
pub open spec fn polyline_crosses(ps: Seq<Coord>, p1: Coord, p2: Coord) -> bool {
    exists|i: int| 0 <= i < ps.len() - 1 && segs_cross(#[trigger] ps[i], ps[i + 1], p1, p2)
}

/// Every point of the polyline lies in the planning area.
pub open spec fn barrier_wf(ps: Seq<Coord>) -> bool {
    forall|i: int| 0 <= i < ps.len() ==> in_bounds(#[trigger] ps[i])
}

/// Crossing is symmetric in the order of the segment's endpoints: walking a
/// step forwards crosses a barrier edge exactly when walking it backwards
/// does.
pub proof fn lemma_cross_symmetric(a1: Coord, a2: Coord, b1: Coord, b2: Coord)
    ensures
        segs_cross(a1, a2, b1, b2) == segs_cross(a1, a2, b2, b1),
{
    assert(tri_area(b1, b2, a1) == -tri_area(b2, b1, a1)) by (nonlinear_arith);
    assert(tri_area(b1, b2, a2) == -tri_area(b2, b1, a2)) by (nonlinear_arith);
}

/// Crossing any polyline is symmetric in the segment's direction.
pub proof fn lemma_polyline_cross_symmetric(ps: Seq<Coord>, p1: Coord, p2: Coord)
    ensures
        polyline_crosses(ps, p1, p2) == polyline_crosses(ps, p2, p1),
{
    assert forall|i: int| 0 <= i < ps.len() - 1 implies (segs_cross(#[trigger] ps[i], ps[i + 1], p1, p2)
        == segs_cross(ps[i], ps[i + 1], p2, p1)) by {
        lemma_cross_symmetric(ps[i], ps[i + 1], p1, p2);
    }
}

/// Crossing any of a list of polylines is symmetric in the segment's
/// direction.
pub proof fn lemma_polyline_cross_symmetric_all(bs: Seq<Barrier>, p: Coord, q: Coord)
    ensures
        forall|j: int|
            0 <= j < bs.len() ==> polyline_crosses((#[trigger] bs[j]).points@, p, q)
                == polyline_crosses(bs[j].points@, q, p),
{
    assert forall|j: int| 0 <= j < bs.len() implies polyline_crosses(
        (#[trigger] bs[j]).points@,
        p,
        q,
    ) == polyline_crosses(bs[j].points@, q, p) by {
        lemma_polyline_cross_symmetric(bs[j].points@, p, q);
    }
}

/// Twice the signed triangle area, executable form.
fn tri_area_exec(a: &Coord, b: &Coord, c: &Coord) -> (r: i64)
    requires
        in_bounds(*a),
        in_bounds(*b),
        in_bounds(*c),
    ensures
        r == tri_area(*a, *b, *c),
{
    proof {
        assert(-40_000_000_000_000_000 <= (b.e - a.e) * (c.n - a.n) <= 40_000_000_000_000_000
            && -40_000_000_000_000_000 <= (c.e - a.e) * (b.n - a.n) <= 40_000_000_000_000_000)
            by (nonlinear_arith)
            requires
                -200_000_000 <= b.e - a.e <= 200_000_000,
                -200_000_000 <= c.n - a.n <= 200_000_000,
                -200_000_000 <= c.e - a.e <= 200_000_000,
                -200_000_000 <= b.n - a.n <= 200_000_000,
        ;
    }
    (b.e - a.e) * (c.n - a.n) - (c.e - a.e) * (b.n - a.n)
}

impl Barrier {
    /// An empty barrier.
    pub fn new() -> (r: Barrier)
        ensures
            r.points@.len() == 0,
    {
        Barrier { points: Vec::new() }
    }

    /// A barrier from a list of points.
    pub fn from_vec(points: Vec<Coord>) -> (r: Barrier)
        ensures
            r.points@ == points@,
    {
        Barrier { points }
    }

    /// Append a point to the polyline.
    pub fn add_point(&mut self, p: Coord)
        ensures
            final(self).points@ == old(self).points@.push(p),
    {
        self.points.push(p);
    }

    /// Replace the point at position `i`.
    pub fn update_point(&mut self, i: usize, p: Coord)
        requires
            i < old(self).points@.len(),
        ensures
            final(self).points@ == old(self).points@.update(i as int, p),
    {
        self.points.set(i, p);
    }

    /// The number of points in the polyline.
    pub fn len(&self) -> (r: usize)
        ensures
            r == self.points@.len(),
    {
        self.points.len()
    }

    /// Whether the segment `(p1, p2)` strictly crosses this barrier.
    pub fn is_crossing(&self, p1: &Coord, p2: &Coord) -> (r: bool)
        requires
            barrier_wf(self.points@),
            in_bounds(*p1),
            in_bounds(*p2),
        ensures
            r == polyline_crosses(self.points@, *p1, *p2),
    {
        let n = self.points.len();
        if n < 2 {
            return false;
        }
        let mut i: usize = 0;
        while i < n - 1
            invariant
                n == self.points@.len(),
                n >= 2,
                i <= n - 1,
                barrier_wf(self.points@),
                in_bounds(*p1),
                in_bounds(*p2),
                forall|j: int|
                    0 <= j < i ==> !segs_cross(#[trigger] self.points@[j], self.points@[j + 1], *p1, *p2),
            decreases n - i,
        {
            let a1 = self.points[i];
            let a2 = self.points[i + 1];
            let t1 = tri_area_exec(&a1, &a2, p1);
            let t2 = tri_area_exec(&a1, &a2, p2);
            let t3 = tri_area_exec(p1, p2, &a1);
            let t4 = tri_area_exec(p1, p2, &a2);
            if ((t1 < 0 && t2 > 0) || (t1 > 0 && t2 < 0)) && ((t3 < 0 && t4 > 0) || (t3 > 0 && t4
                < 0)) {
                assert(segs_cross(self.points@[i as int], self.points@[i + 1], *p1, *p2));
                return true;
            }
            i = i + 1;
        }
        false
    }

    /// The squared distance from `p` to the barrier edge starting at
    /// position `i`, in square millimetres, rounded down.
    pub fn distance_from_segment_sq(&self, i: usize, p: &Coord) -> (r: u64)
        requires
            barrier_wf(self.points@),
            i + 1 < self.points@.len(),
            in_bounds(*p),
        ensures
            r == dist_pt_seg_sq(*p, self.points@[i as int], self.points@[i + 1]),
    {
        let n = self.points.len();
        let p1 = self.points[i];
        let p2 = self.points[i + 1];
        dist_pt_seg_sq_exec(p, &p1, &p2)
    }

    /// The squared distance from `p` to the nearest barrier edge, or
    /// nothing for a degenerate barrier of fewer than two points.
    pub fn distance_sq(&self, p: &Coord) -> (r: Option<u64>)
        requires
            barrier_wf(self.points@),
            in_bounds(*p),
        ensures
            self.points@.len() < 2 ==> r is None,
            self.points@.len() >= 2 ==> (r matches Some(d) && d == polyline_dist_sq(
                self.points@,
                *p,
                self.points@.len() - 1,
            )),
    {
        let n = self.points.len();
        if n < 2 {
            return None;
        }
        let mut best: u64 = self.distance_from_segment_sq(0, p);
        let mut i: usize = 1;
        while i < n - 1
            invariant
                n == self.points@.len(),
                n >= 2,
                1 <= i <= n - 1,
                barrier_wf(self.points@),
                in_bounds(*p),
                best == polyline_dist_sq(self.points@, *p, i as int),
            decreases n - i,
        {
            let d = self.distance_from_segment_sq(i, p);
            if d < best {
                best = d;
            }
            i = i + 1;
        }
        Some(best)
    }
}

/// The squared distance from `p` to the segment `(p1, p2)`, rounded down:
/// the squared distance to the nearest endpoint when the projection of `p`
/// falls outside the segment, else the squared point-to-line distance.
pub open spec fn dist_pt_seg_sq(p: Coord, p1: Coord, p2: Coord) -> int {
    let dot = (p.e - p1.e) * (p2.e - p1.e) + (p.n - p1.n) * (p2.n - p1.n);
    let asq = (p2.e - p1.e) * (p2.e - p1.e) + (p2.n - p1.n) * (p2.n - p1.n);
    let dsq1 = (p.e - p1.e) * (p.e - p1.e) + (p.n - p1.n) * (p.n - p1.n);
    if asq == 0 || dot <= 0 {
        dsq1
    } else if dot >= asq {
        (p.e - p2.e) * (p.e - p2.e) + (p.n - p2.n) * (p.n - p2.n)
    } else if dsq1 - (dot * dot + asq - 1) / asq < 0 {
        0
    } else {
        dsq1 - (dot * dot + asq - 1) / asq
    }
}

/// The least squared distance from `p` to the first `k` edges of the
/// polyline.
pub open spec fn polyline_dist_sq(ps: Seq<Coord>, p: Coord, k: int) -> int
    decreases k,
{
    if k <= 1 {
        dist_pt_seg_sq(p, ps[0], ps[1])
    } else {
        let prev = polyline_dist_sq(ps, p, k - 1);
        let here = dist_pt_seg_sq(p, ps[k - 1], ps[k]);
        if here < prev {
            here
        } else {
            prev
        }
    }
}

/// The squared distance from a point to a segment, executable form.
fn dist_pt_seg_sq_exec(p: &Coord, p1: &Coord, p2: &Coord) -> (r: u64)
    requires
        in_bounds(*p),
        in_bounds(*p1),
        in_bounds(*p2),
    ensures
        r == dist_pt_seg_sq(*p, *p1, *p2),
{
    proof {
        lemma_products_bounded(*p, *p1, *p2);
    }
    let dxe: i64 = p.e - p1.e;
    let dxn: i64 = p.n - p1.n;
    let axe: i64 = p2.e - p1.e;
    let axn: i64 = p2.n - p1.n;
    let dot: i64 = dxe * axe + dxn * axn;
    let asq: i64 = axe * axe + axn * axn;
    let dsq1: i64 = dxe * dxe + dxn * dxn;
    if asq == 0 || dot <= 0 {
        dsq1 as u64
    } else if dot >= asq {
        proof {
            lemma_products_bounded(*p, *p2, *p1);
        }
        let exe: i64 = p.e - p2.e;
        let exn: i64 = p.n - p2.n;
        (exe * exe + exn * exn) as u64
    } else {
        proof {
            assert(1 <= (dot as int) * (dot as int)
                <= 10_000_000_000_000_000_000_000_000_000_000_000) by (nonlinear_arith)
                requires
                    1 <= dot <= 100_000_000_000_000_000,
            ;
        }
        let num: u128 = (dot as u128) * (dot as u128) + (asq as u128) - 1;
        let frac: u128 = num / (asq as u128);
        proof {
            assert(frac == ((dot * dot + asq - 1) as int) / (asq as int));
            vstd::arithmetic::div_mod::lemma_div_pos_is_pos(
                (dot * dot + asq - 1) as int,
                asq as int,
            );
        }
        if frac > dsq1 as u128 {
            0
        } else {
            dsq1 as u64 - (frac as u64)
        }
    }
}

/// The products entering the point-to-segment distance fit the machine
/// integers.
proof fn lemma_products_bounded(p: Coord, p1: Coord, p2: Coord)
    requires
        in_bounds(p),
        in_bounds(p1),
        in_bounds(p2),
    ensures
        -40_000_000_000_000_000 <= (p.e - p1.e) * (p2.e - p1.e) <= 40_000_000_000_000_000,
        -40_000_000_000_000_000 <= (p.n - p1.n) * (p2.n - p1.n) <= 40_000_000_000_000_000,
        0 <= (p2.e - p1.e) * (p2.e - p1.e) <= 40_000_000_000_000_000,
        0 <= (p2.n - p1.n) * (p2.n - p1.n) <= 40_000_000_000_000_000,
        0 <= (p.e - p1.e) * (p.e - p1.e) <= 40_000_000_000_000_000,
        0 <= (p.n - p1.n) * (p.n - p1.n) <= 40_000_000_000_000_000,
{
    assert(forall|u: int, v: int|
        -200_000_000 <= u <= 200_000_000 && -200_000_000 <= v <= 200_000_000
            ==> -40_000_000_000_000_000 <= #[trigger] (u * v) <= 40_000_000_000_000_000 && (u == v
            ==> u * v >= 0)) by (nonlinear_arith);
}

} // verus!
