//! The field grid: a 1 m × 1 m lattice over the plane, and the walk of a
//! line segment across it.
//!
//! The walk yields each lattice cell the segment passes through together
//! with the distance travelled inside it.  Crossing points are compared as
//! exact fractions of the segment, and per-cell distances are differences of
//! a clamped cumulative distance, so the emitted lengths always add up to
//! the segment length exactly.

use vstd::prelude::*;
use vstd::math::abs;
use crate::coord::{Coord, in_bounds, seg_len, dist_mm};
use crate::num::{floor_div_1000, tdiv_i64};

verus! {

/// A cell of the 1-metre lattice.  A coordinate belongs to the cell holding
/// the floor of its metre value on both axes, so a cell owns its south and
/// west edges and its south-west corner.
#[derive(Clone, Copy, Debug, PartialEq, Eq, Structural)]
pub struct Field {
    pub x: i64,
    pub y: i64,
}

impl Field {
    /// A field from its lattice indices.
    pub fn new(x: i64, y: i64) -> (r: Field)
        ensures
            r.x == x,
            r.y == y,
    {
        Field { x, y }
    }
}

/// The edge fraction `(p, q)` of the crossing the walk takes out of cell
/// `(x, y)`: the vertical edge, the horizontal edge, or — at an exact
/// corner — the shared crossing.
pub open spec fn step_frac(a: Coord, b: Coord, x: int, y: int) -> (int, int) {
    if x != fx(b) && y != fy(b) {
        let (px, qx) = xfrac(a, b, x);
        let (py, qy) = yfrac(a, b, y);
        if px * qy <= py * qx {
            (px, qx)
        } else {
            (py, qy)
        }
    } else if x != fx(b) {
        xfrac(a, b, x)
    } else {
        yfrac(a, b, y)
    }
}

/// The point at fraction `p/q` of the way from `a` to `b`, rounded toward
/// `a` in whole millimetres; `a` itself when the fraction is degenerate.
pub open spec fn cross_point(a: Coord, b: Coord, p: int, q: int) -> Coord {
    if q <= 0 || p < 0 || p > q {
        a
    } else {
        Coord {
            e: (a.e + crate::num::tdiv((b.e - a.e) * p, q)) as i64,
            n: (a.n + crate::num::tdiv((b.n - a.n) * p, q)) as i64,
        }
    }
}

impl Field {
    /// Where the segment `a -> b` leaves this field: the point on the
    /// segment at the crossing fraction, rounded to whole millimetres,
    /// and the neighbouring field entered there.  Nothing once this is
    /// already the field of `b`.
    pub fn crossing(&self, a: &Coord, b: &Coord) -> (r: Option<(Coord, Field)>)
        requires
            in_bounds(*a),
            in_bounds(*b),
            -100_000 <= self.x <= 100_000,
            -100_000 <= self.y <= 100_000,
        ensures
            r is None <==> self.x == fx(*b) && self.y == fy(*b),
            r matches Some(pr) ==> {
                let s = walk_step(*a, *b, self.x as int, self.y as int, 0);
                let f = step_frac(*a, *b, self.x as int, self.y as int);
                &&& pr.1.x == s.0
                &&& pr.1.y == s.1
                &&& pr.0 == cross_point(*a, *b, f.0, f.1)
            },
    {
        let fb = field_of(*b);
        let x = self.x;
        let y = self.y;
        if x == fb.x && y == fb.y {
            return None;
        }
        let sx: i64 = if fb.x > x {
            1
        } else {
            -1
        };
        let sy: i64 = if fb.y > y {
            1
        } else {
            -1
        };
        let (x2, y2, p, q): (i64, i64, i64, i64) = if x != fb.x && y != fb.y {
            let (px, qx) = xfrac_exec(*a, *b, x, fb.x);
            let (py, qy) = yfrac_exec(*a, *b, y, fb.y);
            proof {
                lemma_frac_mul_bounds(px, qx, py, qy);
            }
            let lhs: i64 = px * qy;
            let rhs: i64 = py * qx;
            if lhs < rhs {
                (x + sx, y, px, qx)
            } else if lhs > rhs {
                (x, y + sy, py, qy)
            } else {
                (x + sx, y + sy, px, qx)
            }
        } else if x != fb.x {
            let (px, qx) = xfrac_exec(*a, *b, x, fb.x);
            (x + sx, y, px, qx)
        } else {
            let (py, qy) = yfrac_exec(*a, *b, y, fb.y);
            (x, y + sy, py, qy)
        };
        let c = if q <= 0 || p < 0 || p > q {
            *a
        } else {
            proof {
                assert(-160_000_000_000_000_000 <= (b.e - a.e) * (p as int)
                    <= 160_000_000_000_000_000 && -160_000_000_000_000_000 <= (b.n - a.n) * (
                p as int) <= 160_000_000_000_000_000) by (nonlinear_arith)
                    requires
                        -200_000_000 <= b.e - a.e <= 200_000_000,
                        -200_000_000 <= b.n - a.n <= 200_000_000,
                        -400_000_000 <= p <= 400_000_000,
                ;
                assert((b.e - a.e) * (p as int) <= 200_000_000 * (q as int) && -(200_000_000 * (
                q as int)) <= (b.e - a.e) * (p as int) && (b.n - a.n) * (p as int) <= 200_000_000
                    * (q as int) && -(200_000_000 * (q as int)) <= (b.n - a.n) * (p as int))
                    by (nonlinear_arith)
                    requires
                        -200_000_000 <= b.e - a.e <= 200_000_000,
                        -200_000_000 <= b.n - a.n <= 200_000_000,
                        0 <= p <= q,
                        1 <= q,
                ;
                crate::num::lemma_tdiv_bound((b.e - a.e) * (p as int), q as int, 200_000_000);
                crate::num::lemma_tdiv_bound((b.n - a.n) * (p as int), q as int, 200_000_000);
            }
            let de = tdiv_i64((b.e - a.e) * p, q);
            let dn = tdiv_i64((b.n - a.n) * p, q);
            Coord { e: a.e + de, n: a.n + dn }
        };
        Some((c, Field { x: x2, y: y2 }))
    }
}

/// The lattice column of a coordinate.
pub open spec fn fx(c: Coord) -> int {
    (c.e as int) / 1000
}

/// The lattice row of a coordinate.
pub open spec fn fy(c: Coord) -> int {
    (c.n as int) / 1000
}

/// The south-west corner of lattice cell `(x, y)`, where the atlas is
/// sampled for that cell.
pub open spec fn anchor_spec(x: int, y: int) -> Coord {
    Coord { e: (1000 * x) as i64, n: (1000 * y) as i64 }
}

/// The south-west corner of a field.
pub fn field_anchor(f: Field) -> (r: Coord)
    requires
        -100_000 <= f.x <= 100_000,
        -100_000 <= f.y <= 100_000,
    ensures
        r == anchor_spec(f.x as int, f.y as int),
        in_bounds(r),
{
    Coord { e: 1000 * f.x, n: 1000 * f.y }
}

/// The field containing a coordinate.
pub fn field_of(c: Coord) -> (r: Field)
    requires
        in_bounds(c),
    ensures
        r.x == fx(c),
        r.y == fy(c),
        -100_000 <= r.x <= 100_000,
        -100_000 <= r.y <= 100_000,
{
    let x = floor_div_1000(c.e);
    let y = floor_div_1000(c.n);
    Field { x, y }
}

/// The crossing of the vertical cell edge met when stepping the column `x`
/// toward the column of `b`, as a fraction `(p, q)` of the way from `a`
/// to `b`.
pub open spec fn xfrac(a: Coord, b: Coord, x: int) -> (int, int) {
    if fx(b) > x {
        ((x + 1) * 1000 - a.e, b.e - a.e)
    } else {
        (a.e - x * 1000, a.e - b.e)
    }
}

/// The crossing of the horizontal cell edge met when stepping the row `y`
/// toward the row of `b`, as a fraction `(p, q)` of the way from `a` to `b`.
pub open spec fn yfrac(a: Coord, b: Coord, y: int) -> (int, int) {
    if fy(b) > y {
        ((y + 1) * 1000 - a.n, b.n - a.n)
    } else {
        (a.n - y * 1000, a.n - b.n)
    }
}

/// The cumulative walked distance at the fraction `p/q` of a segment of
/// length `l`, clamped between the distance already walked `c` and `l`.
pub open spec fn cum_at(l: int, c: int, p: int, q: int) -> int {
    if q <= 0 || p < 0 {
        c
    } else {
        let v = (l * p) / q;
        if v < c {
            c
        } else if v > l {
            l
        } else {
            v
        }
    }
}

/// One step of the walk: the next cell — one step along `x`, along `y`, or
/// along both at an exact corner crossing — and the cumulative distance at
/// which the segment enters it.
pub open spec fn walk_step(a: Coord, b: Coord, x: int, y: int, c: int) -> (int, int, int) {
    let l = seg_len(a, b);
    let sx: int = if fx(b) > x { 1 } else { -1 };
    let sy: int = if fy(b) > y { 1 } else { -1 };
    if x != fx(b) && y != fy(b) {
        let (px, qx) = xfrac(a, b, x);
        let (py, qy) = yfrac(a, b, y);
        if px * qy < py * qx {
            (x + sx, y, cum_at(l, c, px, qx))
        } else if px * qy > py * qx {
            (x, y + sy, cum_at(l, c, py, qy))
        } else {
            (x + sx, y + sy, cum_at(l, c, px, qx))
        }
    } else if x != fx(b) {
        let (px, qx) = xfrac(a, b, x);
        (x + sx, y, cum_at(l, c, px, qx))
    } else {
        let (py, qy) = yfrac(a, b, y);
        (x, y + sy, cum_at(l, c, py, qy))
    }
}

/// The walk of the segment `a -> b` from cell `(x, y)` on: each cell with
/// the distance travelled inside it, ending at the cell of `b`.
pub open spec fn walk_from(a: Coord, b: Coord, x: int, y: int, c: int) -> Seq<(int, int, int)>
    decreases abs(fx(b) - x) + abs(fy(b) - y),
{
    if x == fx(b) && y == fy(b) {
        seq![(x, y, seg_len(a, b) - c)]
    } else {
        let s = walk_step(a, b, x, y, c);
        seq![(x, y, s.2 - c)] + walk_from(a, b, s.0, s.1, s.2)
    }
}

/// The whole walk of the segment `a -> b`, starting at the cell of `a`.
pub open spec fn walk_seq(a: Coord, b: Coord) -> Seq<(int, int, int)> {
    walk_from(a, b, fx(a), fy(a), 0)
}

/// The sum of the per-cell lengths of a walk.
pub open spec fn sum_lens(w: Seq<(int, int, int)>) -> int
    decreases w.len(),
{
    if w.len() == 0 {
        0
    } else {
        w[0].2 + sum_lens(w.subrange(1, w.len() as int))
    }
}

/// The walk's lengths sum to exactly the remaining segment length: walked
/// from the start, they sum to the full segment length.
pub proof fn lemma_walk_sum(a: Coord, b: Coord, x: int, y: int, c: int)
    requires
        c <= seg_len(a, b),
    ensures
        sum_lens(walk_from(a, b, x, y, c)) == seg_len(a, b) - c,
        forall|i: int|
            0 <= i < walk_from(a, b, x, y, c).len() ==> #[trigger] walk_from(a, b, x, y, c)[i].2
                >= 0,
    decreases abs(fx(b) - x) + abs(fy(b) - y),
{
    let w = walk_from(a, b, x, y, c);
    let l = seg_len(a, b);
    if x == fx(b) && y == fy(b) {
        assert(w == seq![(x, y, l - c)]);
        assert(w.subrange(1, w.len() as int) =~= Seq::<(int, int, int)>::empty());
        assert(sum_lens(Seq::<(int, int, int)>::empty()) == 0);
        assert(w[0].2 == l - c);
        assert(sum_lens(w) == l - c);
    } else {
        let s = walk_step(a, b, x, y, c);
        lemma_cum_at_range(l, c, a, b, x, y);
        lemma_walk_sum(a, b, s.0, s.1, s.2);
        let rest = walk_from(a, b, s.0, s.1, s.2);
        assert(w == seq![(x, y, s.2 - c)] + rest);
        assert(w.subrange(1, w.len() as int) =~= rest);
        assert(sum_lens(w) == (s.2 - c) + sum_lens(rest));
    }
}

/// A walk step never moves the cumulative distance backwards, nor past the
/// segment's end.
pub proof fn lemma_cum_at_range(l: int, c: int, a: Coord, b: Coord, x: int, y: int)
    requires
        c <= l,
        l == seg_len(a, b),
    ensures
        c <= walk_step(a, b, x, y, c).2 <= l,
{
}

/// The first cell of a walk is the cell it starts from, and the last is the
/// cell of `b`.
pub proof fn lemma_walk_ends(a: Coord, b: Coord, x: int, y: int, c: int)
    ensures
        walk_from(a, b, x, y, c).len() >= 1,
        walk_from(a, b, x, y, c)[0].0 == x,
        walk_from(a, b, x, y, c)[0].1 == y,
        walk_from(a, b, x, y, c).last().0 == fx(b),
        walk_from(a, b, x, y, c).last().1 == fy(b),
    decreases abs(fx(b) - x) + abs(fy(b) - y),
{
    if x == fx(b) && y == fy(b) {
    } else {
        let s = walk_step(a, b, x, y, c);
        lemma_walk_ends(a, b, s.0, s.1, s.2);
        let rest = walk_from(a, b, s.0, s.1, s.2);
        assert(walk_from(a, b, x, y, c).last() == rest.last());
    }
}

/// The remaining lattice distance to the cell of `b` from a walk entry.
pub open spec fn walk_dist(b: Coord, e: (int, int, int)) -> int {
    abs(fx(b) - e.0) as int + abs(fy(b) - e.1) as int
}

/// Between positions `i` and `i + 1` the walk takes one lattice step — in
/// `x`, in `y`, or in both — strictly toward the cell of `b`.
pub open spec fn adjacent_at(b: Coord, w: Seq<(int, int, int)>, i: int) -> bool {
    abs(w[i + 1].0 - w[i].0) <= 1 && abs(w[i + 1].1 - w[i].1) <= 1 && (w[i + 1].0 != w[i].0 || w[i
        + 1].1 != w[i].1) && walk_dist(b, w[i + 1]) < walk_dist(b, w[i])
}

/// Consecutive cells of a walk are adjacent — one lattice step in `x`, in
/// `y`, or in both — and every step moves strictly closer to the cell
/// of `b`.
pub proof fn lemma_walk_adjacent(a: Coord, b: Coord, x: int, y: int, c: int)
    ensures
        forall|i: int|
            0 <= i < walk_from(a, b, x, y, c).len() - 1 ==> #[trigger] adjacent_at(
                b,
                walk_from(a, b, x, y, c),
                i,
            ),
    decreases abs(fx(b) - x) + abs(fy(b) - y),
{
    let w = walk_from(a, b, x, y, c);
    if x == fx(b) && y == fy(b) {
    } else {
        let s = walk_step(a, b, x, y, c);
        lemma_walk_adjacent(a, b, s.0, s.1, s.2);
        let rest = walk_from(a, b, s.0, s.1, s.2);
        lemma_walk_ends(a, b, s.0, s.1, s.2);
        assert(w[0] == (x, y, s.2 - c));
        assert(forall|i: int| 0 <= i < rest.len() ==> w[i + 1] == #[trigger] rest[i]);
        assert forall|i: int| 0 <= i < w.len() - 1 implies #[trigger] adjacent_at(b, w, i) by {
            if i == 0 {
                assert(w[1] == rest[0]);
                assert(rest[0].0 == s.0 && rest[0].1 == s.1);
                assert(adjacent_at(b, w, 0));
            } else {
                assert(adjacent_at(b, rest, i - 1));
                assert(w[i] == rest[i - 1] && w[i + 1] == rest[i]);
            }
        }
    }
}

/// No cell appears twice in a walk: the distance to the cell of `b`
/// strictly decreases along it.
pub proof fn lemma_walk_distinct(a: Coord, b: Coord, x: int, y: int, c: int, i: int, j: int)
    requires
        0 <= i < j < walk_from(a, b, x, y, c).len(),
    ensures
        walk_from(a, b, x, y, c)[i].0 != walk_from(a, b, x, y, c)[j].0 || walk_from(
            a,
            b,
            x,
            y,
            c,
        )[i].1 != walk_from(a, b, x, y, c)[j].1,
    decreases j - i,
{
    let w = walk_from(a, b, x, y, c);
    lemma_walk_dist_decreases(a, b, x, y, c, i, j);
}

/// The remaining lattice distance decreases strictly between any two walk
/// positions.
pub proof fn lemma_walk_dist_decreases(a: Coord, b: Coord, x: int, y: int, c: int, i: int, j: int)
    requires
        0 <= i < j < walk_from(a, b, x, y, c).len(),
    ensures
        walk_dist(b, walk_from(a, b, x, y, c)[j]) < walk_dist(b, walk_from(a, b, x, y, c)[i]),
    decreases j - i,
{
    let w = walk_from(a, b, x, y, c);
    lemma_walk_adjacent(a, b, x, y, c);
    assert(adjacent_at(b, w, i));
    if j == i + 1 {
    } else {
        lemma_walk_dist_decreases(a, b, x, y, c, i + 1, j);
    }
}

/// Appending an entry adds its length to the sum.
pub proof fn lemma_sum_lens_push(w: Seq<(int, int, int)>, e: (int, int, int))
    ensures
        sum_lens(w.push(e)) == sum_lens(w) + e.2,
    decreases w.len(),
{
    if w.len() == 0 {
        assert(w.push(e) =~= seq![e]);
        assert(w.push(e).subrange(1, 1) =~= Seq::<(int, int, int)>::empty());
        assert(sum_lens(Seq::<(int, int, int)>::empty()) == 0);
    } else {
        lemma_sum_lens_push(w.subrange(1, w.len() as int), e);
        assert(w.push(e).subrange(1, w.push(e).len() as int) =~= w.subrange(
            1,
            w.len() as int,
        ).push(e));
        assert(w.push(e)[0] == w[0]);
    }
}

/// A walk's length sum splits at any position.
pub proof fn lemma_sum_lens_split(w: Seq<(int, int, int)>, i: int)
    requires
        0 <= i <= w.len(),
    ensures
        sum_lens(w) == sum_lens(w.subrange(0, i)) + sum_lens(w.subrange(i, w.len() as int)),
    decreases i,
{
    if i == 0 {
        assert(w.subrange(0, 0) =~= Seq::<(int, int, int)>::empty());
        assert(sum_lens(Seq::<(int, int, int)>::empty()) == 0);
        assert(w.subrange(0, w.len() as int) =~= w);
    } else {
        lemma_sum_lens_split(w, i - 1);
        let head = w.subrange(i - 1, w.len() as int);
        assert(head[0] == w[i - 1]);
        assert(head.subrange(1, head.len() as int) =~= w.subrange(i, w.len() as int));
        assert(sum_lens(head) == w[i - 1].2 + sum_lens(w.subrange(i, w.len() as int)));
        assert(w.subrange(0, i) =~= w.subrange(0, i - 1).push(w[i - 1]));
        lemma_sum_lens_push(w.subrange(0, i - 1), w[i - 1]);
    }
}

/// A sum of non-negative lengths is non-negative.
pub proof fn lemma_sum_lens_nonneg(w: Seq<(int, int, int)>)
    requires
        forall|i: int| 0 <= i < w.len() ==> #[trigger] w[i].2 >= 0,
    ensures
        sum_lens(w) >= 0,
    decreases w.len(),
{
    if w.len() > 0 {
        let rest = w.subrange(1, w.len() as int);
        assert(forall|i: int| 0 <= i < rest.len() ==> #[trigger] rest[i].2 >= 0 && rest[i] == w[i
            + 1]);
        lemma_sum_lens_nonneg(rest);
    }
}

/// The integer triples a vector of walked fields stands for.
pub open spec fn entries(v: Seq<(Field, u64)>) -> Seq<(int, int, int)> {
    v.map_values(|e: (Field, u64)| (e.0.x as int, e.0.y as int, e.1 as int))
}

/// Walk the segment `a -> b` across the lattice: every cell it passes
/// through, with the distance travelled inside that cell.  The emitted
/// lengths sum to the exact segment length.
pub fn walk_fields(a: Coord, b: Coord) -> (r: Vec<(Field, u64)>)
    requires
        in_bounds(a),
        in_bounds(b),
    ensures
        entries(r@) == walk_seq(a, b),
        r@.len() >= 1,
        r@[0].0.x == fx(a) && r@[0].0.y == fy(a),
        r@.last().0.x == fx(b) && r@.last().0.y == fy(b),
        sum_lens(entries(r@)) == seg_len(a, b),
        forall|i: int|
            0 <= i < r@.len() ==> -100_000 <= #[trigger] r@[i].0.x <= 100_000 && -100_000
                <= r@[i].0.y <= 100_000,
        forall|i: int|
            0 <= i < r@.len() - 1 ==> #[trigger] adjacent_at(b, entries(r@), i),
        forall|i: int, j: int|
            0 <= i < j < r@.len() ==> !(r@[i].0.x == r@[j].0.x && #[trigger] r@[i].0.y
                == #[trigger] r@[j].0.y),
{
    let l_total: u64 = dist_mm(a, b);
    let fa = field_of(a);
    let fb = field_of(b);
    let bx: i64 = fb.x;
    let by: i64 = fb.y;
    let mut x: i64 = fa.x;
    let mut y: i64 = fa.y;
    let mut cum: u64 = 0;
    let mut r: Vec<(Field, u64)> = Vec::new();
    proof {
        assert(entries(r@) + walk_from(a, b, x as int, y as int, cum as int) =~= walk_seq(a, b));
    }
    loop
        invariant_except_break
            entries(r@) + walk_from(a, b, x as int, y as int, cum as int) == walk_seq(a, b),
        invariant
            in_bounds(a),
            in_bounds(b),
            l_total == seg_len(a, b),
            l_total <= 300_000_000,
            bx == fx(b),
            by == fy(b),
            -100_000 <= bx <= 100_000,
            -100_000 <= by <= 100_000,
            -100_000 <= x <= 100_000,
            -100_000 <= y <= 100_000,
            0 <= cum <= l_total,
            forall|i: int|
                0 <= i < r@.len() ==> -100_000 <= #[trigger] r@[i].0.x <= 100_000 && -100_000
                    <= r@[i].0.y <= 100_000,
        ensures
            entries(r@) == walk_seq(a, b),
            r@.len() >= 1,
        decreases abs(fx(b) - x) + abs(fy(b) - y),
    {
        let ghost w_here = walk_from(a, b, x as int, y as int, cum as int);
        if x == bx && y == by {
            let last_len: u64 = l_total - cum;
            let ghost prev = r@;
            r.push((Field { x, y }, last_len));
            proof {
                assert(w_here == seq![(x as int, y as int, l_total - cum)]);
                assert(r@ == prev.push((Field { x, y }, last_len)));
                assert(entries(r@) =~= entries(prev).push((x as int, y as int, last_len as int)));
                assert(entries(r@) =~= walk_seq(a, b));
            }
            break;
        }
        let ghost s = walk_step(a, b, x as int, y as int, cum as int);
        let sx: i64 = if bx > x {
            1
        } else {
            -1
        };
        let sy: i64 = if by > y {
            1
        } else {
            -1
        };
        let (x2, y2, p, q): (i64, i64, i64, i64) = if x != bx && y != by {
            let (px, qx) = xfrac_exec(a, b, x, bx);
            let (py, qy) = yfrac_exec(a, b, y, by);
            proof {
                lemma_frac_mul_bounds(px, qx, py, qy);
            }
            let lhs: i64 = px * qy;
            let rhs: i64 = py * qx;
            if lhs < rhs {
                (x + sx, y, px, qx)
            } else if lhs > rhs {
                (x, y + sy, py, qy)
            } else {
                (x + sx, y + sy, px, qx)
            }
        } else if x != bx {
            let (px, qx) = xfrac_exec(a, b, x, bx);
            (x + sx, y, px, qx)
        } else {
            let (py, qy) = yfrac_exec(a, b, y, by);
            (x, y + sy, py, qy)
        };
        let c2: u64 = cum_at_exec(l_total, cum, p, q);
        proof {
            assert((x2 as int, y2 as int, c2 as int) == s);
        }
        let step_len: u64 = c2 - cum;
        let ghost prev = r@;
        r.push((Field { x, y }, step_len));
        proof {
            assert(w_here == seq![(x as int, y as int, c2 - cum)] + walk_from(a, b, s.0, s.1, s.2));
            assert(r@ == prev.push((Field { x, y }, step_len)));
            assert(entries(r@) =~= entries(prev).push((x as int, y as int, step_len as int)));
            assert(entries(r@) + walk_from(a, b, x2 as int, y2 as int, c2 as int) =~= walk_seq(
                a,
                b,
            ));
        }
        x = x2;
        y = y2;
        cum = c2;
    }
    proof {
        lemma_walk_sum(a, b, fx(a), fy(a), 0);
        lemma_walk_ends(a, b, fx(a), fy(a), 0);
        lemma_walk_adjacent(a, b, fx(a), fy(a), 0);
        let w = walk_seq(a, b);
        assert(r@[0].0.x == w[0].0 && r@[0].0.y == w[0].1);
        assert(r@.last().0.x == w.last().0 && r@.last().0.y == w.last().1);
        assert forall|i: int, j: int| 0 <= i < j < r@.len() implies !(r@[i].0.x == r@[j].0.x
            && #[trigger] r@[i].0.y == #[trigger] r@[j].0.y) by {
            lemma_walk_distinct(a, b, fx(a), fy(a), 0, i, j);
            assert(w[i].0 == r@[i].0.x && w[i].1 == r@[i].0.y);
            assert(w[j].0 == r@[j].0.x && w[j].1 == r@[j].0.y);
        }
    }
    r
}

/// The crossing fraction of the next vertical edge, executable form.
fn xfrac_exec(a: Coord, b: Coord, x: i64, bx: i64) -> (r: (i64, i64))
    requires
        in_bounds(a),
        in_bounds(b),
        -100_000 <= x <= 100_000,
        bx == fx(b),
    ensures
        (r.0 as int, r.1 as int) == xfrac(a, b, x as int),
{
    if bx > x {
        ((x + 1) * 1000 - a.e, b.e - a.e)
    } else {
        (a.e - x * 1000, a.e - b.e)
    }
}

/// The crossing fraction of the next horizontal edge, executable form.
fn yfrac_exec(a: Coord, b: Coord, y: i64, by: i64) -> (r: (i64, i64))
    requires
        in_bounds(a),
        in_bounds(b),
        -100_000 <= y <= 100_000,
        by == fy(b),
    ensures
        (r.0 as int, r.1 as int) == yfrac(a, b, y as int),
{
    if by > y {
        ((y + 1) * 1000 - a.n, b.n - a.n)
    } else {
        (a.n - y * 1000, a.n - b.n)
    }
}

/// Crossing-fraction numerators and denominators are small enough that
/// their pairwise products fit the machine integers.
proof fn lemma_frac_mul_bounds(px: i64, qx: i64, py: i64, qy: i64)
    requires
        -400_000_000 <= px <= 400_000_000,
        -400_000_000 <= qx <= 400_000_000,
        -400_000_000 <= py <= 400_000_000,
        -400_000_000 <= qy <= 400_000_000,
    ensures
        -160_000_000_000_000_000 <= px * qy <= 160_000_000_000_000_000,
        -160_000_000_000_000_000 <= py * qx <= 160_000_000_000_000_000,
{
    assert(-160_000_000_000_000_000 <= px * qy <= 160_000_000_000_000_000 && -160_000_000_000_000_000
        <= py * qx <= 160_000_000_000_000_000) by (nonlinear_arith)
        requires
            -400_000_000 <= px <= 400_000_000,
            -400_000_000 <= qx <= 400_000_000,
            -400_000_000 <= py <= 400_000_000,
            -400_000_000 <= qy <= 400_000_000,
    ;
}

/// The clamped cumulative distance at a crossing fraction, executable form.
fn cum_at_exec(l: u64, c: u64, p: i64, q: i64) -> (r: u64)
    requires
        l <= 300_000_000,
        c <= l,
        -500_000_000 <= p <= 500_000_000,
    ensures
        r as int == cum_at(l as int, c as int, p as int, q as int),
        c <= r <= l,
{
    if q <= 0 || p < 0 {
        c
    } else {
        proof {
            assert((l as int) * (p as int) <= 150_000_000_000_000_000 && (l as int) * (p as int)
                >= 0) by (nonlinear_arith)
                requires
                    0 <= l <= 300_000_000,
                    0 <= p <= 500_000_000,
            ;
        }
        let prod: i64 = (l as i64) * p;
        let v: i64 = prod / q;
        proof {
            vstd::arithmetic::div_mod::lemma_div_pos_is_pos(prod as int, q as int);
        }
        if v < c as i64 {
            c
        } else if v > l as i64 {
            l
        } else {
            v as u64
        }
    }
}

} // verus!
