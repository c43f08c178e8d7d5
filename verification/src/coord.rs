//! Planar coordinates in a projected, metre-based system, held exactly in
//! millimetres.

use vstd::prelude::*;
use crate::num::{is_sqrt, sqrt_of, isqrt_u64, tdiv, tdiv_i64};

verus! {

/// Coordinates are kept within a 100 km box around the origin so that all
/// derived products fit comfortably in the machine integers.
pub const COORD_LIMIT: i64 = 100_000_000;

/// A planar point `(e, n)` — easting and northing — in millimetres.
#[derive(Clone, Copy, Debug, PartialEq, Eq, Structural)]
pub struct Coord {
    pub e: i64,
    pub n: i64,
}

/// The coordinate lies inside the supported planning area.
pub open spec fn in_bounds(c: Coord) -> bool {
    -COORD_LIMIT <= c.e <= COORD_LIMIT && -COORD_LIMIT <= c.n <= COORD_LIMIT
}

/// The squared Euclidean distance between two points, in mm².
pub open spec fn dist_sq(a: Coord, b: Coord) -> int {
    (b.e - a.e) * (b.e - a.e) + (b.n - a.n) * (b.n - a.n)
}

/// The Euclidean distance between two points, rounded down to whole
/// millimetres.
pub open spec fn seg_len(a: Coord, b: Coord) -> int {
    sqrt_of(dist_sq(a, b))
}

impl Coord {
    /// A point from easting and northing in millimetres.
    pub fn new(e: i64, n: i64) -> (r: Coord)
        ensures
            r.e == e,
            r.n == n,
    {
        Coord { e, n }
    }
}

/// Squares of bounded values are bounded, and distances are non-negative.
pub proof fn lemma_dist_sq_bounds(a: Coord, b: Coord)
    requires
        in_bounds(a),
        in_bounds(b),
    ensures
        0 <= (b.e - a.e) * (b.e - a.e) <= 40_000_000_000_000_000,
        0 <= (b.n - a.n) * (b.n - a.n) <= 40_000_000_000_000_000,
        0 <= dist_sq(a, b) <= 80_000_000_000_000_000,
{
    let dx = b.e - a.e;
    let dy = b.n - a.n;
    assert(0 <= dx * dx <= 40_000_000_000_000_000 && 0 <= dy * dy <= 40_000_000_000_000_000)
        by (nonlinear_arith)
        requires
            -200_000_000 <= dx <= 200_000_000,
            -200_000_000 <= dy <= 200_000_000,
    ;
}

/// A component of a vector is no longer than the whole vector.
pub proof fn lemma_component_le_len(a: Coord, b: Coord)
    requires
        in_bounds(a),
        in_bounds(b),
    ensures
        -seg_len(a, b) <= b.e - a.e <= seg_len(a, b),
        -seg_len(a, b) <= b.n - a.n <= seg_len(a, b),
        0 <= seg_len(a, b) <= 300_000_000,
        is_sqrt(dist_sq(a, b), seg_len(a, b)),
{
    lemma_dist_sq_bounds(a, b);
    let dx = b.e - a.e;
    let dy = b.n - a.n;
    let l = seg_len(a, b);
    assert(is_sqrt(dist_sq(a, b), l)) by {
        crate::num::lemma_sqrt_exists(dist_sq(a, b));
    }
    assert(-l <= dx <= l && -l <= dy <= l && l <= 300_000_000) by (nonlinear_arith)
        requires
            l >= 0,
            l * l <= dx * dx + dy * dy,
            dx * dx + dy * dy < (l + 1) * (l + 1),
            dx * dx + dy * dy <= 80_000_000_000_000_000,
    ;
}

/// The Euclidean length of the segment from `a` to `b`, in millimetres.
pub fn dist_mm(a: Coord, b: Coord) -> (r: u64)
    requires
        in_bounds(a),
        in_bounds(b),
    ensures
        r == seg_len(a, b),
        r <= 300_000_000,
{
    proof {
        lemma_dist_sq_bounds(a, b);
    }
    let dx: i64 = b.e - a.e;
    let dy: i64 = b.n - a.n;
    let sq: u64 = (dx * dx) as u64 + (dy * dy) as u64;
    let r = isqrt_u64(sq);
    proof {
        lemma_component_le_len(a, b);
        crate::num::lemma_sqrt_unique(dist_sq(a, b), r as int, seg_len(a, b));
    }
    r
}

/// Splitting a long step at its midpoint moves strictly closer to the
/// far endpoint.
pub proof fn lemma_midpoint_closer(a: Coord, b: Coord, m: Coord)
    requires
        in_bounds(a),
        in_bounds(b),
        m.e == tdiv(a.e + b.e, 2),
        m.n == tdiv(a.n + b.n, 2),
        seg_len(a, b) >= 3,
    ensures
        seg_len(m, b) < seg_len(a, b),
{
    let l = seg_len(a, b);
    let dx = b.e - a.e;
    let dy = b.n - a.n;
    lemma_component_le_len(a, b);
    let se = a.e + b.e;
    let sn = a.n + b.n;
    let re = se - 2 * tdiv(se, 2);
    let rn = sn - 2 * tdiv(sn, 2);
    assert(-1 <= re <= 1 && -1 <= rn <= 1) by {
        if se >= 0 {
            vstd::arithmetic::div_mod::lemma_fundamental_div_mod(se, 2);
        } else {
            vstd::arithmetic::div_mod::lemma_fundamental_div_mod(-se, 2);
        }
        if sn >= 0 {
            vstd::arithmetic::div_mod::lemma_fundamental_div_mod(sn, 2);
        } else {
            vstd::arithmetic::div_mod::lemma_fundamental_div_mod(-sn, 2);
        }
    }
    let de = b.e - m.e;
    let dn = b.n - m.n;
    assert(2 * de == dx + re && 2 * dn == dy + rn);
    let l2 = seg_len(m, b);
    assert(is_sqrt(dist_sq(m, b), l2)) by {
        assert(dist_sq(m, b) >= 0) by (nonlinear_arith);
        crate::num::lemma_sqrt_exists(dist_sq(m, b));
    }
    assert(l2 < l) by (nonlinear_arith)
        requires
            l2 >= 0,
            l >= 3,
            l2 * l2 <= de * de + dn * dn,
            2 * de == dx + re,
            2 * dn == dy + rn,
            -1 <= re <= 1,
            -1 <= rn <= 1,
            -l <= dx <= l,
            -l <= dy <= l,
    ;
}

/// The point halfway between `a` and `b`, components rounded toward zero.
pub fn midpoint(a: Coord, b: Coord) -> (r: Coord)
    requires
        in_bounds(a),
        in_bounds(b),
    ensures
        r.e == tdiv(a.e + b.e, 2),
        r.n == tdiv(a.n + b.n, 2),
        in_bounds(r),
{
    let e = tdiv_i64(a.e + b.e, 2);
    let n = tdiv_i64(a.n + b.n, 2);
    Coord { e, n }
}

} // verus!
