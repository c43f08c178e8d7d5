//! Segments and their traversal cost.
//!
//! The cost of walking a segment is the sum, over the lattice cells it
//! passes through, of the distance inside the cell times a slope-dependent
//! pace.  The pace is piecewise linear in the directional slope, with an
//! extra penalty proportional to the gradient magnitude; cells steeper than
//! a 45° grade cannot be walked at all.
//!
//! Units: slopes in thousandths, paces in microseconds per metre, times in
//! nanoseconds (a millimetre at one microsecond per metre is a nanosecond).

use vstd::prelude::*;
use crate::atlas::{AtlasModel, GradSample};
use crate::barrier::Barrier;
use crate::coord::{Coord, in_bounds, seg_len, dist_mm, midpoint, lemma_component_le_len};
use crate::field::{
    Field,
    fx,
    fy,
    anchor_spec,
    field_anchor,
    walk_seq,
    walk_fields,
    entries,
    sum_lens,
    lemma_walk_sum,
    lemma_sum_lens_split,
    lemma_sum_lens_nonneg,
};
use crate::num::{tdiv, tdiv_i64, sqrt_of, isqrt_u64, lemma_tdiv_bound};
use crate::params::Params;

verus! {

/// An ordered pair of points, walked from `a` to `b`.
#[derive(Clone, Copy, Debug, PartialEq, Eq, Structural)]
pub struct Segment {
    pub a: Coord,
    pub b: Coord,
}

/// The squared magnitude of a gradient, in squared thousandths.
pub open spec fn grad_mag_sq(g: GradSample) -> int {
    g.de * g.de + g.dn * g.dn
}

/// The directional slope of a segment across a cell with gradient `g`: the
/// dot product of the segment's unit direction with the gradient, in
/// thousandths.
pub open spec fn slope_along(a: Coord, b: Coord, g: GradSample) -> int {
    if seg_len(a, b) == 0 {
        0
    } else {
        tdiv((b.e - a.e) * g.de + (b.n - a.n) * g.dn, seg_len(a, b))
    }
}

/// Linear interpolation rising from `t1`, with slope `c / d` per
/// thousandth of steepness.
pub open spec fn lerp_up(x: int, t1: int, c: int, d: int) -> int {
    t1 + (c * x) / d
}

/// Linear interpolation falling from `t1`, with slope `-c / d` per
/// thousandth of steepness.
pub open spec fn lerp_dn(x: int, t1: int, c: int, d: int) -> int {
    t1 - (c * x) / d
}

/// The pace of walking at directional slope `s` over a gradient of
/// magnitude `absg` (both in thousandths): a piecewise-linear profile over
/// the slope, in microseconds per metre, plus a penalty of five seconds per
/// metre per unit of gradient.
///
/// The knot at the fifth piece ends at a steepness of `-0.12` although the
/// piece itself ends at `-0.18`, so the profile jumps slightly there; the
/// discontinuity is part of the cost model's definition.
pub open spec fn steepness_time(s: int, absg: int) -> int {
    (if s < -1000 {
        lerp_dn(s + 2000, 40_000_000, 25_000_000, 1000)
    } else if s < -830 {
        lerp_dn(s + 1000, 15_000_000, 12_000_000, 170)
    } else if s < -580 {
        lerp_dn(s + 830, 3_000_000, 1_800_000, 250)
    } else if s < -360 {
        lerp_dn(s + 580, 1_200_000, 500_000, 220)
    } else if s < -180 {
        lerp_dn(s + 360, 700_000, 200_000, 240)
    } else if s < 0 {
        lerp_up(s + 180, 500_000, 700_000, 180)
    } else if s < 180 {
        lerp_up(s, 1_200_000, 500_000, 180)
    } else if s < 360 {
        lerp_up(s - 180, 1_700_000, 800_000, 180)
    } else if s < 580 {
        lerp_up(s - 360, 2_500_000, 1_500_000, 220)
    } else if s < 830 {
        lerp_up(s - 580, 4_000_000, 6_000_000, 250)
    } else if s < 1000 {
        lerp_up(s - 830, 10_000_000, 50_000_000, 170)
    } else {
        lerp_up(s - 1000, 60_000_000, 540_000_000, 1000)
    }) + 5000 * absg
}

/// The time to walk the tail of a lattice walk from position `i` on, in
/// nanoseconds, or nothing if some cell is too steep to walk.
pub open spec fn walk_time<A: AtlasModel>(
    a: Coord,
    b: Coord,
    atlas: &A,
    w: Seq<(int, int, int)>,
    i: int,
) -> Option<int>
    decreases w.len() - i,
{
    if i < 0 || i >= w.len() {
        Some(0)
    } else {
        let g = atlas.grad_spec(anchor_spec(w[i].0, w[i].1));
        if grad_mag_sq(g) > 1_000_000 {
            None
        } else {
            match walk_time(a, b, atlas, w, i + 1) {
                Option::None => Option::None,
                Option::Some(t) => Option::Some(
                    w[i].2 * steepness_time(slope_along(a, b, g), sqrt_of(grad_mag_sq(g))) + t,
                ),
            }
        }
    }
}

/// The time to walk the segment `a -> b`, in nanoseconds, or nothing if it
/// crosses a cell too steep to walk.
pub open spec fn seg_time<A: AtlasModel>(a: Coord, b: Coord, atlas: &A) -> Option<int> {
    walk_time(a, b, atlas, walk_seq(a, b), 0)
}

/// The climb accumulated over the tail of a lattice walk from position `i`
/// on: the uphill part of the directional slope times the distance, in
/// micrometres.  Even unwalkably steep cells are summed, unsaturated.
pub open spec fn walk_climb<A: AtlasModel>(
    a: Coord,
    b: Coord,
    atlas: &A,
    w: Seq<(int, int, int)>,
    i: int,
) -> int
    decreases w.len() - i,
{
    if i < 0 || i >= w.len() {
        0
    } else {
        let g = atlas.grad_spec(anchor_spec(w[i].0, w[i].1));
        let s = slope_along(a, b, g);
        (if s > 0 {
            s * w[i].2
        } else {
            0
        }) + walk_climb(a, b, atlas, w, i + 1)
    }
}

/// The climb of the whole segment `a -> b`, in micrometres.
pub open spec fn seg_climb<A: AtlasModel>(a: Coord, b: Coord, atlas: &A) -> int {
    walk_climb(a, b, atlas, walk_seq(a, b), 0)
}

/// A `u64` time as the mathematical option it stands for.
pub open spec fn opt_view(r: Option<u64>) -> Option<int> {
    match r {
        Option::Some(t) => Option::Some(t as int),
        Option::None => Option::None,
    }
}

/// A finite time shifted onto an optional one.
pub open spec fn opt_shift(c: int, o: Option<int>) -> Option<int> {
    match o {
        Option::Some(t) => Option::Some(c + t),
        Option::None => Option::None,
    }
}

/// The largest time a single segment can cost: its longest possible length
/// times the steepest walkable pace.
pub const SEG_TIME_MAX: u64 = 181_500_000_000_000_000;

/// Rising interpolation stays between `t1` and `t1 + c`.
proof fn lemma_lerp_up_range(x: int, t1: int, c: int, d: int)
    requires
        0 <= x <= d,
        0 < d,
        0 <= c,
    ensures
        t1 <= lerp_up(x, t1, c, d) <= t1 + c,
{
    vstd::arithmetic::mul::lemma_mul_inequality(x, d, c);
    assert(c * x == x * c && c * d == d * c) by (nonlinear_arith);
    vstd::arithmetic::div_mod::lemma_div_is_ordered(c * x, c * d, d);
    vstd::arithmetic::div_mod::lemma_div_multiples_vanish(c, d);
    assert((d * c) / d == c);
    vstd::arithmetic::mul::lemma_mul_nonnegative(c, x);
    vstd::arithmetic::div_mod::lemma_div_pos_is_pos(c * x, d);
}

/// Falling interpolation stays between `t1 - c` and `t1`.
proof fn lemma_lerp_dn_range(x: int, t1: int, c: int, d: int)
    requires
        0 <= x <= d,
        0 < d,
        0 <= c,
    ensures
        t1 - c <= lerp_dn(x, t1, c, d) <= t1,
{
    lemma_lerp_up_range(x, t1, c, d);
}

/// The walkable pace is never faster than half a second per metre, and
/// never slower than ten minutes per metre plus the gradient penalty.
pub proof fn lemma_steepness_time_range(s: int, absg: int)
    requires
        -2000 <= s <= 2000,
        0 <= absg,
    ensures
        500_000 + 5000 * absg <= steepness_time(s, absg) <= 600_000_000 + 5000 * absg,
{
    if s < -1000 {
        lemma_lerp_dn_range(s + 2000, 40_000_000, 25_000_000, 1000);
    } else if s < -830 {
        lemma_lerp_dn_range(s + 1000, 15_000_000, 12_000_000, 170);
    } else if s < -580 {
        lemma_lerp_dn_range(s + 830, 3_000_000, 1_800_000, 250);
    } else if s < -360 {
        lemma_lerp_dn_range(s + 580, 1_200_000, 500_000, 220);
    } else if s < -180 {
        lemma_lerp_dn_range(s + 360, 700_000, 200_000, 240);
    } else if s < 0 {
        lemma_lerp_up_range(s + 180, 500_000, 700_000, 180);
    } else if s < 180 {
        lemma_lerp_up_range(s, 1_200_000, 500_000, 180);
    } else if s < 360 {
        lemma_lerp_up_range(s - 180, 1_700_000, 800_000, 180);
    } else if s < 580 {
        lemma_lerp_up_range(s - 360, 2_500_000, 1_500_000, 220);
    } else if s < 830 {
        lemma_lerp_up_range(s - 580, 4_000_000, 6_000_000, 250);
    } else if s < 1000 {
        lemma_lerp_up_range(s - 830, 10_000_000, 50_000_000, 170);
    } else {
        lemma_lerp_up_range(s - 1000, 60_000_000, 540_000_000, 1000);
    }
}

/// Rising interpolation is monotone in the steepness.
proof fn lemma_lerp_up_mono(x1: int, x2: int, t1: int, c: int, d: int)
    requires
        0 <= x1 <= x2,
        0 < d,
        0 <= c,
    ensures
        lerp_up(x1, t1, c, d) <= lerp_up(x2, t1, c, d),
        lerp_dn(x1, t1, c, d) >= lerp_dn(x2, t1, c, d),
{
    assert(c * x1 <= c * x2) by (nonlinear_arith)
        requires
            x1 <= x2 && c >= 0,
    ;
    vstd::arithmetic::div_mod::lemma_div_is_ordered(c * x1, c * x2, d);
}

/// Floor division spreads over a difference with loss at most one.
proof fn lemma_div_diff_bound(a1: int, a2: int, d: int)
    requires
        0 < d,
        a2 <= a1,
    ensures
        a1 / d - a2 / d <= (a1 - a2) / d + 1,
{
    vstd::arithmetic::div_mod::lemma_fundamental_div_mod(a1, d);
    vstd::arithmetic::div_mod::lemma_fundamental_div_mod(a2, d);
    vstd::arithmetic::div_mod::lemma_fundamental_div_mod(a1 - a2, d);
    let q1 = a1 / d;
    let q2 = a2 / d;
    let qd = (a1 - a2) / d;
    assert(q1 - q2 <= qd + 1) by (nonlinear_arith)
        requires
            a1 == d * q1 + a1 % d,
            a2 == d * q2 + a2 % d,
            a1 - a2 == d * qd + (a1 - a2) % d,
            0 <= a1 % d < d,
            0 <= a2 % d < d,
            0 <= (a1 - a2) % d < d,
            d > 0,
    ;
}

/// Within the gentle downhill piece, walking pace plus penalty still
/// grows with the grade: the penalty outweighs the pace gained.
proof fn lemma_r6_mono(s1: int, s2: int)
    requires
        -180 <= s2 < s1 <= 0,
    ensures
        steepness_time(s1, -s1) < steepness_time(s2, -s2),
{
    if s1 == 0 {
        assert(steepness_time(0, 0) == 1_200_000 + (500_000 * 0) / 180);
        assert((500_000 * 0) / 180 == 0) by (nonlinear_arith);
        lemma_lerp_up_range(s2 + 180, 500_000, 700_000, 180);
        lemma_lerp_up_mono(s2 + 180, 179, 500_000, 700_000, 180);
        assert((700_000 * 179) / 180 == 696111);
        assert(steepness_time(s2, -s2) >= 500_000 + 5000 * (-s2));
        if s2 >= -179 {
            // pace at most 500000 + 696111; penalty at least 5000
            assert(lerp_up(s2 + 180, 500_000, 700_000, 180) <= 500_000 + (700_000 * 179) / 180);
            lemma_div_diff_bound(700_000int * 180, 700_000 * (s2 + 180), 180);
            assert(700_000int * 180 - 700_000 * (s2 + 180) == 700_000 * (-s2)) by (nonlinear_arith);
            assert((700_000int * 180) / 180 == 700_000);
            assert((700_000 * (-s2)) / 180 <= 3889 * (-s2)) by {
                assert(700_000 * (-s2) <= 180 * (3889 * (-s2))) by (nonlinear_arith)
                    requires
                        -s2 >= 0,
                ;
                vstd::arithmetic::div_mod::lemma_multiply_divide_le(
                    700_000 * (-s2),
                    180,
                    3889 * (-s2),
                );
            }
            assert(700_000 - lerp_up(s2 + 180, 500_000, 700_000, 180) + 500_000 <= 3889 * (-s2)
                + 1);
            assert(5000 * (-s2) >= 3889 * (-s2) + 1111) by (nonlinear_arith)
                requires
                    -s2 >= 1,
            ;
        } else {
            assert(s2 == -180);
            assert(steepness_time(-180, 180) == 500_000 + (700_000 * 0) / 180 + 5000 * 180);
            assert((700_000 * 0) / 180 == 0) by (nonlinear_arith);
        }
    } else {
        // both strictly inside the piece: compare the pace difference with
        // the penalty difference
        let x1 = s1 + 180;
        let x2 = s2 + 180;
        lemma_div_diff_bound(700_000 * x1, 700_000 * x2, 180);
        assert(700_000 * x1 - 700_000 * x2 == 700_000 * (x1 - x2)) by (nonlinear_arith);
        assert((700_000 * (x1 - x2)) / 180 <= 3889 * (x1 - x2)) by {
            assert(700_000 * (x1 - x2) <= 180 * (3889 * (x1 - x2))) by (nonlinear_arith)
                requires
                    x1 - x2 >= 0,
            ;
            vstd::arithmetic::div_mod::lemma_multiply_divide_le(
                700_000 * (x1 - x2),
                180,
                3889 * (x1 - x2),
            );
        }
        assert(5000 * (-s2) - 5000 * (-s1) == 5000 * (x1 - x2)) by (nonlinear_arith)
            requires
                x1 == s1 + 180 && x2 == s2 + 180,
        ;
        assert(5000 * (x1 - x2) >= 3889 * (x1 - x2) + 1111) by (nonlinear_arith)
            requires
                x1 - x2 >= 1,
        ;
    }
}

/// The walkable pace plus gradient penalty strictly grows with the grade
/// of the slope, downhill as well as uphill, up to a grade of 0.83.
///
/// Uphill (`0 < s1 < s2 <= 830`, the gradient aligned with travel so the
/// gradient magnitude equals the slope): a steeper climb always costs
/// strictly more per metre.
pub proof fn lemma_steepness_uphill_monotone(s1: int, s2: int)
    requires
        0 < s1 < s2 <= 830,
    ensures
        steepness_time(s1, s1) < steepness_time(s2, s2),
{
    if s1 < 180 {
        lemma_lerp_up_range(s1, 1_200_000, 500_000, 180);
    } else if s1 < 360 {
        lemma_lerp_up_range(s1 - 180, 1_700_000, 800_000, 180);
    } else if s1 < 580 {
        lemma_lerp_up_range(s1 - 360, 2_500_000, 1_500_000, 220);
    } else {
        lemma_lerp_up_range(s1 - 580, 4_000_000, 6_000_000, 250);
    }
    if s2 < 180 {
        lemma_lerp_up_range(s2, 1_200_000, 500_000, 180);
        if s1 < 180 {
            lemma_lerp_up_mono(s1, s2, 1_200_000, 500_000, 180);
        }
    } else if s2 < 360 {
        lemma_lerp_up_range(s2 - 180, 1_700_000, 800_000, 180);
        if 180 <= s1 {
            lemma_lerp_up_mono(s1 - 180, s2 - 180, 1_700_000, 800_000, 180);
        }
    } else if s2 < 580 {
        lemma_lerp_up_range(s2 - 360, 2_500_000, 1_500_000, 220);
        if 360 <= s1 {
            lemma_lerp_up_mono(s1 - 360, s2 - 360, 2_500_000, 1_500_000, 220);
        }
    } else {
        lemma_lerp_up_range(s2 - 580, 4_000_000, 6_000_000, 250);
        if 580 <= s1 {
            lemma_lerp_up_mono(s1 - 580, s2 - 580, 4_000_000, 6_000_000, 250);
        }
    }
}

/// Downhill (`-830 <= s2 < s1 < 0`, gradient against travel): a steeper
/// descent also costs strictly more per metre — on the gentlest piece the
/// pace itself quickens, but the gradient penalty outweighs it.
pub proof fn lemma_steepness_downhill_monotone(s1: int, s2: int)
    requires
        -830 <= s2 < s1 < 0,
    ensures
        steepness_time(s1, -s1) < steepness_time(s2, -s2),
{
    if -180 <= s2 {
        lemma_r6_mono(s1, s2);
    } else if -360 <= s2 {
        if s1 <= -181 {
            lemma_lerp_up_mono(s2 + 360, s1 + 360, 700_000, 200_000, 240);
        } else {
            if s1 < -180 {
                assert(false);
            } else if s1 == -180 {
            } else {
                lemma_r6_mono(s1, -180);
            }
            assert(steepness_time(-180, 180) == 500_000 + (700_000 * 0) / 180 + 5000 * 180);
            assert((700_000 * 0) / 180 == 0) by (nonlinear_arith);
            lemma_lerp_up_mono(s2 + 360, 179, 700_000, 200_000, 240);
            assert((200_000 * 179) / 240 == 149166);
            assert(steepness_time(s2, -s2) >= 700_000 - 149166 + 5000 * 181);
        }
    } else if -580 <= s2 {
        if s1 <= -361 {
            lemma_lerp_up_mono(s2 + 580, s1 + 580, 1_200_000, 500_000, 220);
        } else {
            // s1 sits in a gentler piece; bound it by the piece boundary
            lemma_downhill_to_boundary_360(s1);
            lemma_lerp_up_mono(s2 + 580, 219, 1_200_000, 500_000, 220);
            assert((500_000 * 219) / 220 == 497727);
            assert(steepness_time(s2, -s2) >= 1_200_000 - 497727 + 5000 * 361);
        }
    } else {
        if s1 <= -581 {
            lemma_lerp_up_mono(s2 + 830, s1 + 830, 3_000_000, 1_800_000, 250);
        } else {
            lemma_downhill_to_boundary_580(s1);
            lemma_lerp_up_mono(s2 + 830, 249, 3_000_000, 1_800_000, 250);
            assert((1_800_000 * 249) / 250 == 1792800);
            assert(steepness_time(s2, -s2) >= 3_000_000 - 1792800 + 5000 * 581);
        }
    }
}

/// Over a whole walk, a terrain whose gradient at every crossed cell is
/// aligned with travel and at least as steep uphill never yields a faster
/// tail time; both tails are walkable.
proof fn lemma_walk_time_uphill<A1: AtlasModel, A2: AtlasModel>(
    a: Coord,
    b: Coord,
    atlas1: &A1,
    atlas2: &A2,
    w: Seq<(int, int, int)>,
    i: int,
)
    requires
        forall|j: int| 0 <= j < w.len() ==> #[trigger] w[j].2 >= 0,
        forall|j: int|
            0 <= j < w.len() ==> {
                let g1 = atlas1.grad_spec(anchor_spec((#[trigger] w[j]).0, w[j].1));
                let g2 = atlas2.grad_spec(anchor_spec(w[j].0, w[j].1));
                &&& 0 < slope_along(a, b, g1) <= slope_along(a, b, g2) <= 830
                &&& sqrt_of(grad_mag_sq(g1)) == slope_along(a, b, g1)
                &&& sqrt_of(grad_mag_sq(g2)) == slope_along(a, b, g2)
                &&& grad_mag_sq(g1) <= 1_000_000
                &&& grad_mag_sq(g2) <= 1_000_000
            },
    ensures
        walk_time(a, b, atlas1, w, i) is Some,
        walk_time(a, b, atlas2, w, i) is Some,
        walk_time(a, b, atlas1, w, i)->Some_0 <= walk_time(a, b, atlas2, w, i)->Some_0,
    decreases w.len() - i,
{
    if i < 0 || i >= w.len() {
    } else {
        lemma_walk_time_uphill(a, b, atlas1, atlas2, w, i + 1);
        let g1 = atlas1.grad_spec(anchor_spec(w[i].0, w[i].1));
        let g2 = atlas2.grad_spec(anchor_spec(w[i].0, w[i].1));
        let s1 = slope_along(a, b, g1);
        let s2 = slope_along(a, b, g2);
        if s1 < s2 {
            lemma_steepness_uphill_monotone(s1, s2);
        }
        vstd::arithmetic::mul::lemma_mul_inequality(
            steepness_time(s1, s1),
            steepness_time(s2, s2),
            w[i].2,
        );
        vstd::arithmetic::mul::lemma_mul_is_commutative(steepness_time(s1, s1), w[i].2);
        vstd::arithmetic::mul::lemma_mul_is_commutative(steepness_time(s2, s2), w[i].2);
    }
}

/// A terrain whose gradient, at every cell the segment crosses, points
/// along the direction of travel and climbs at least as steeply as a
/// second terrain's never lets the segment be walked faster: walking a
/// uniformly steeper climb always takes at least as long.
pub proof fn lemma_seg_time_uphill_monotone<A1: AtlasModel, A2: AtlasModel>(
    a: Coord,
    b: Coord,
    atlas1: &A1,
    atlas2: &A2,
)
    requires
        in_bounds(a),
        in_bounds(b),
        forall|j: int|
            0 <= j < walk_seq(a, b).len() ==> {
                let g1 = atlas1.grad_spec(anchor_spec((#[trigger] walk_seq(a, b)[j]).0, walk_seq(a, b)[j].1));
                let g2 = atlas2.grad_spec(anchor_spec(walk_seq(a, b)[j].0, walk_seq(a, b)[j].1));
                &&& 0 < slope_along(a, b, g1) <= slope_along(a, b, g2) <= 830
                &&& sqrt_of(grad_mag_sq(g1)) == slope_along(a, b, g1)
                &&& sqrt_of(grad_mag_sq(g2)) == slope_along(a, b, g2)
                &&& grad_mag_sq(g1) <= 1_000_000
                &&& grad_mag_sq(g2) <= 1_000_000
            },
    ensures
        seg_time(a, b, atlas1) is Some,
        seg_time(a, b, atlas2) is Some,
        seg_time(a, b, atlas1)->Some_0 <= seg_time(a, b, atlas2)->Some_0,
{
    lemma_component_le_len(a, b);
    lemma_walk_sum(a, b, fx(a), fy(a), 0);
    lemma_walk_time_uphill(a, b, atlas1, atlas2, walk_seq(a, b), 0);
}

/// The downhill counterpart over a whole walk: a terrain that descends at
/// least as steeply at every crossed cell never yields a faster tail time.
proof fn lemma_walk_time_downhill<A1: AtlasModel, A2: AtlasModel>(
    a: Coord,
    b: Coord,
    atlas1: &A1,
    atlas2: &A2,
    w: Seq<(int, int, int)>,
    i: int,
)
    requires
        forall|j: int| 0 <= j < w.len() ==> #[trigger] w[j].2 >= 0,
        forall|j: int|
            0 <= j < w.len() ==> {
                let g1 = atlas1.grad_spec(anchor_spec((#[trigger] w[j]).0, w[j].1));
                let g2 = atlas2.grad_spec(anchor_spec(w[j].0, w[j].1));
                &&& -830 <= slope_along(a, b, g2) <= slope_along(a, b, g1) < 0
                &&& sqrt_of(grad_mag_sq(g1)) == -slope_along(a, b, g1)
                &&& sqrt_of(grad_mag_sq(g2)) == -slope_along(a, b, g2)
                &&& grad_mag_sq(g1) <= 1_000_000
                &&& grad_mag_sq(g2) <= 1_000_000
            },
    ensures
        walk_time(a, b, atlas1, w, i) is Some,
        walk_time(a, b, atlas2, w, i) is Some,
        walk_time(a, b, atlas1, w, i)->Some_0 <= walk_time(a, b, atlas2, w, i)->Some_0,
    decreases w.len() - i,
{
    if i < 0 || i >= w.len() {
    } else {
        lemma_walk_time_downhill(a, b, atlas1, atlas2, w, i + 1);
        let g1 = atlas1.grad_spec(anchor_spec(w[i].0, w[i].1));
        let g2 = atlas2.grad_spec(anchor_spec(w[i].0, w[i].1));
        let s1 = slope_along(a, b, g1);
        let s2 = slope_along(a, b, g2);
        if s2 < s1 {
            lemma_steepness_downhill_monotone(s1, s2);
        }
        vstd::arithmetic::mul::lemma_mul_inequality(
            steepness_time(s1, -s1),
            steepness_time(s2, -s2),
            w[i].2,
        );
        vstd::arithmetic::mul::lemma_mul_is_commutative(steepness_time(s1, -s1), w[i].2);
        vstd::arithmetic::mul::lemma_mul_is_commutative(steepness_time(s2, -s2), w[i].2);
    }
}

/// A terrain whose gradient, at every cell the segment crosses, points
/// against the direction of travel and descends at least as steeply as a
/// second terrain's never lets the segment be walked faster: on a descent
/// the gradient penalty outweighs the quicker pace.
pub proof fn lemma_seg_time_downhill_monotone<A1: AtlasModel, A2: AtlasModel>(
    a: Coord,
    b: Coord,
    atlas1: &A1,
    atlas2: &A2,
)
    requires
        in_bounds(a),
        in_bounds(b),
        forall|j: int|
            0 <= j < walk_seq(a, b).len() ==> {
                let g1 = atlas1.grad_spec(anchor_spec((#[trigger] walk_seq(a, b)[j]).0, walk_seq(a, b)[j].1));
                let g2 = atlas2.grad_spec(anchor_spec(walk_seq(a, b)[j].0, walk_seq(a, b)[j].1));
                &&& -830 <= slope_along(a, b, g2) <= slope_along(a, b, g1) < 0
                &&& sqrt_of(grad_mag_sq(g1)) == -slope_along(a, b, g1)
                &&& sqrt_of(grad_mag_sq(g2)) == -slope_along(a, b, g2)
                &&& grad_mag_sq(g1) <= 1_000_000
                &&& grad_mag_sq(g2) <= 1_000_000
            },
    ensures
        seg_time(a, b, atlas1) is Some,
        seg_time(a, b, atlas2) is Some,
        seg_time(a, b, atlas1)->Some_0 <= seg_time(a, b, atlas2)->Some_0,
{
    lemma_component_le_len(a, b);
    lemma_walk_sum(a, b, fx(a), fy(a), 0);
    lemma_walk_time_downhill(a, b, atlas1, atlas2, walk_seq(a, b), 0);
}

/// Any downhill grade gentler than 0.36 costs at most the cost at 0.36.
proof fn lemma_downhill_to_boundary_360(s1: int)
    requires
        -360 <= s1 < 0,
    ensures
        steepness_time(s1, -s1) <= 2_500_000,
{
    assert(steepness_time(-360, 360) == 700_000 - (200_000 * 0) / 240 + 5000 * 360);
    assert((200_000 * 0) / 240 == 0) by (nonlinear_arith);
    if s1 >= -180 {
        if s1 == -180 {
        } else {
            lemma_r6_mono(s1, -180);
        }
        assert(steepness_time(-180, 180) == 500_000 + (700_000 * 0) / 180 + 5000 * 180);
        assert((700_000 * 0) / 180 == 0) by (nonlinear_arith);
    } else {
        lemma_lerp_up_mono(0, s1 + 360, 700_000, 200_000, 240);
        assert((200_000 * (s1 + 360)) / 240 >= 0) by {
            assert(200_000 * (s1 + 360) >= 0) by (nonlinear_arith)
                requires
                    s1 + 360 >= 0,
            ;
            vstd::arithmetic::div_mod::lemma_div_pos_is_pos(200_000 * (s1 + 360), 240);
        }
        assert(5000 * (-s1) <= 5000 * 360) by (nonlinear_arith)
            requires
                -s1 <= 360,
        ;
    }
}

/// Any downhill grade gentler than 0.58 costs at most the cost at 0.58.
proof fn lemma_downhill_to_boundary_580(s1: int)
    requires
        -580 <= s1 < 0,
    ensures
        steepness_time(s1, -s1) <= 4_100_000,
{
    if s1 >= -360 {
        lemma_downhill_to_boundary_360(s1);
    } else {
        lemma_lerp_up_mono(0, s1 + 580, 1_200_000, 500_000, 220);
        assert((500_000 * (s1 + 580)) / 220 >= 0) by {
            assert(500_000 * (s1 + 580) >= 0) by (nonlinear_arith)
                requires
                    s1 + 580 >= 0,
            ;
            vstd::arithmetic::div_mod::lemma_div_pos_is_pos(500_000 * (s1 + 580), 220);
        }
        assert(5000 * (-s1) <= 5000 * 580) by (nonlinear_arith)
            requires
                -s1 <= 580,
        ;
    }
}

/// Rising interpolation, executable form.
fn lerp_up_exec(x: i64, t1: i64, c: i64, d: i64) -> (r: i64)
    requires
        0 <= x <= d,
        0 < d <= 1000,
        0 <= c <= 540_000_000,
        0 <= t1 <= 60_000_000,
    ensures
        r == lerp_up(x as int, t1 as int, c as int, d as int),
{
    proof {
        assert(0 <= c * x <= 540_000_000_000) by (nonlinear_arith)
            requires
                0 <= x <= 1000 && 0 <= c <= 540_000_000,
        ;
        vstd::arithmetic::div_mod::lemma_div_pos_is_pos(c as int * x as int, d as int);
        vstd::arithmetic::div_mod::lemma_div_is_ordered_by_denominator(c as int * x as int, 1, d as int);
        vstd::arithmetic::div_mod::lemma_div_basics_1(c as int * x as int);
    }
    t1 + (c * x) / d
}

/// Falling interpolation, executable form.
fn lerp_dn_exec(x: i64, t1: i64, c: i64, d: i64) -> (r: i64)
    requires
        0 <= x <= d,
        0 < d <= 1000,
        0 <= c <= 540_000_000,
        0 <= t1 <= 60_000_000,
    ensures
        r == lerp_dn(x as int, t1 as int, c as int, d as int),
{
    proof {
        assert(0 <= c * x <= 540_000_000_000) by (nonlinear_arith)
            requires
                0 <= x <= 1000 && 0 <= c <= 540_000_000,
        ;
        vstd::arithmetic::div_mod::lemma_div_pos_is_pos(c as int * x as int, d as int);
        vstd::arithmetic::div_mod::lemma_div_is_ordered_by_denominator(c as int * x as int, 1, d as int);
        vstd::arithmetic::div_mod::lemma_div_basics_1(c as int * x as int);
    }
    t1 - (c * x) / d
}

impl Segment {
    /// A segment from `a` to `b`.
    pub fn new(a: Coord, b: Coord) -> (r: Segment)
        ensures
            r.a == a,
            r.b == b,
    {
        Segment { a, b }
    }

    /// The lattice cells this segment passes through, each with the
    /// distance travelled inside it; the distances sum to the segment's
    /// exact length.
    pub fn fields(&self) -> (r: Vec<(Field, u64)>)
        requires
            in_bounds(self.a),
            in_bounds(self.b),
        ensures
            entries(r@) == walk_seq(self.a, self.b),
            r@.len() >= 1,
            r@[0].0.x == fx(self.a) && r@[0].0.y == fy(self.a),
            r@.last().0.x == fx(self.b) && r@.last().0.y == fy(self.b),
            sum_lens(entries(r@)) == seg_len(self.a, self.b),
            forall|i: int|
                0 <= i < r@.len() - 1 ==> #[trigger] crate::field::adjacent_at(
                    self.b,
                    entries(r@),
                    i,
                ),
            forall|i: int, j: int|
                0 <= i < j < r@.len() ==> !(r@[i].0.x == r@[j].0.x && #[trigger] r@[i].0.y
                    == #[trigger] r@[j].0.y),
    {
        walk_fields(self.a, self.b)
    }

    /// The segment's length in millimetres.
    pub fn len(&self) -> (r: u64)
        requires
            in_bounds(self.a),
            in_bounds(self.b),
        ensures
            r == seg_len(self.a, self.b),
    {
        dist_mm(self.a, self.b)
    }

    /// The pace at directional slope `s` over gradient magnitude `absg`
    /// (thousandths), in microseconds per metre.
    pub fn time_by_steepness(s: i64, absg: i64) -> (r: u64)
        requires
            -2000 <= s <= 2000,
            0 <= absg <= 2000,
        ensures
            r == steepness_time(s as int, absg as int),
            500_000 <= r <= 600_000_000 + 5000 * absg,
    {
        proof {
            lemma_steepness_time_range(s as int, absg as int);
        }
        let base: i64 = if s < -1000 {
            lerp_dn_exec(s + 2000, 40_000_000, 25_000_000, 1000)
        } else if s < -830 {
            lerp_dn_exec(s + 1000, 15_000_000, 12_000_000, 170)
        } else if s < -580 {
            lerp_dn_exec(s + 830, 3_000_000, 1_800_000, 250)
        } else if s < -360 {
            lerp_dn_exec(s + 580, 1_200_000, 500_000, 220)
        } else if s < -180 {
            lerp_dn_exec(s + 360, 700_000, 200_000, 240)
        } else if s < 0 {
            lerp_up_exec(s + 180, 500_000, 700_000, 180)
        } else if s < 180 {
            lerp_up_exec(s, 1_200_000, 500_000, 180)
        } else if s < 360 {
            lerp_up_exec(s - 180, 1_700_000, 800_000, 180)
        } else if s < 580 {
            lerp_up_exec(s - 360, 2_500_000, 1_500_000, 220)
        } else if s < 830 {
            lerp_up_exec(s - 580, 4_000_000, 6_000_000, 250)
        } else if s < 1000 {
            lerp_up_exec(s - 830, 10_000_000, 50_000_000, 170)
        } else {
            lerp_up_exec(s - 1000, 60_000_000, 540_000_000, 1000)
        };
        (base as u64) + 5000 * (absg as u64)
    }

    /// The time to walk this segment over the given terrain, in
    /// nanoseconds, or `None` if some cell along it is steeper than a 45°
    /// grade.
    pub fn time<A: AtlasModel>(&self, atlas: &A) -> (r: Option<u64>)
        requires
            in_bounds(self.a),
            in_bounds(self.b),
        ensures
            opt_view(r) == seg_time(self.a, self.b, atlas),
            r matches Some(t) ==> t <= SEG_TIME_MAX,
    {
        let a = self.a;
        let b = self.b;
        let fields = walk_fields(a, b);
        let l_total: u64 = dist_mm(a, b);
        let dx: i64 = b.e - a.e;
        let dy: i64 = b.n - a.n;
        let ghost w = walk_seq(a, b);
        proof {
            lemma_walk_sum(a, b, fx(a), fy(a), 0);
            lemma_component_le_len(a, b);
        }
        let mut acc: u64 = 0;
        let mut i: usize = 0;
        let n = fields.len();
        while i < n
            invariant
                in_bounds(a),
                in_bounds(b),
                a == self.a,
                b == self.b,
                n == fields.len(),
                i <= n,
                entries(fields@) == w,
                w == walk_seq(a, b),
                l_total == seg_len(a, b),
                l_total <= 300_000_000,
                -l_total <= dx <= l_total,
                -l_total <= dy <= l_total,
                dx == b.e - a.e,
                dy == b.n - a.n,
                sum_lens(w) == l_total,
                forall|j: int| 0 <= j < w.len() ==> #[trigger] w[j].2 >= 0,
                forall|j: int|
                    0 <= j < fields@.len() ==> -100_000 <= #[trigger] fields@[j].0.x <= 100_000
                        && -100_000 <= fields@[j].0.y <= 100_000,
                walk_time(a, b, atlas, w, 0) == opt_shift(acc as int, walk_time(a, b, atlas, w, i as int)),
                acc <= 605_000_000 * sum_lens(w.subrange(0, i as int)),
                0 <= sum_lens(w.subrange(0, i as int)) <= l_total,
            decreases n - i,
        {
            let (f, len_i) = fields[i];
            proof {
                assert(entries(fields@)[i as int] == (f.x as int, f.y as int, len_i as int));
            }
            let anchor = field_anchor(f);
            let g = atlas.gradient(anchor);
            let de: i64 = g.de as i64;
            let dn: i64 = g.dn as i64;
            proof {
                assert(0 <= de * de <= 0x4000_0000_0000_0000 && 0 <= dn * dn
                    <= 0x4000_0000_0000_0000) by (nonlinear_arith)
                    requires
                        -2_147_483_648 <= de <= 2_147_483_647 && -2_147_483_648 <= dn
                            <= 2_147_483_647,
                ;
                assert(de * de + dn * dn == grad_mag_sq(
                    atlas.grad_spec(anchor_spec(w[i as int].0, w[i as int].1)),
                ));
            }
            let msq: u64 = (de * de) as u64 + (dn * dn) as u64;
            if msq > 1_000_000 {
                return None;
            }
            proof {
                assert(-1000 <= de <= 1000 && -1000 <= dn <= 1000) by (nonlinear_arith)
                    requires
                        de * de + dn * dn <= 1_000_000,
                ;
            }
            let absg: u64 = isqrt_u64(msq);
            proof {
                assert(absg <= 1000) by (nonlinear_arith)
                    requires
                        absg >= 0 && (absg as int) * (absg as int) <= 1_000_000,
                ;
            }
            proof {
                assert(-(2000 * l_total as int) <= dx * de + dy * dn <= 2000 * l_total as int
                    && -400_000_000_000 <= dx * de <= 400_000_000_000 && -400_000_000_000 <= dy * dn
                    <= 400_000_000_000) by (nonlinear_arith)
                    requires
                        -(l_total as int) <= dx <= l_total as int,
                        -(l_total as int) <= dy <= l_total as int,
                        -1000 <= de <= 1000,
                        -1000 <= dn <= 1000,
                        l_total <= 400_000_000,
                ;
            }
            let num: i64 = dx * de + dy * dn;
            let s: i64 = if l_total == 0 {
                0
            } else {
                proof {
                    lemma_tdiv_bound(num as int, l_total as int, 2000);
                }
                tdiv_i64(num, l_total as i64)
            };
            let t: u64 = Segment::time_by_steepness(s, absg as i64);
            let ghost g_spec = atlas.grad_spec(anchor_spec(w[i as int].0, w[i as int].1));
            proof {
                assert(s as int == slope_along(a, b, g_spec));
                assert(absg as int == sqrt_of(grad_mag_sq(g_spec)));
                lemma_sum_lens_split(w, i as int);
                lemma_sum_lens_split(w, i + 1 as int);
                let suffix = w.subrange(i as int, w.len() as int);
                assert(suffix[0] == w[i as int]);
                assert(suffix.subrange(1, suffix.len() as int) =~= w.subrange(
                    i + 1,
                    w.len() as int,
                ));
                assert(sum_lens(suffix) == len_i + sum_lens(w.subrange(i + 1, w.len() as int)));
                assert(forall|j: int|
                    0 <= j < w.subrange(i + 1, w.len() as int).len() ==> #[trigger] w.subrange(
                        i + 1,
                        w.len() as int,
                    )[j].2 >= 0);
                lemma_sum_lens_nonneg(w.subrange(i + 1, w.len() as int));
                assert(forall|j: int|
                    0 <= j < w.subrange(0, i as int).len() ==> #[trigger] w.subrange(
                        0,
                        i as int,
                    )[j].2 >= 0);
                lemma_sum_lens_nonneg(w.subrange(0, i as int));
                assert(w.subrange(0, i + 1) =~= w.subrange(0, i as int).push(w[i as int]));
                crate::field::lemma_sum_lens_push(w.subrange(0, i as int), w[i as int]);
                assert(sum_lens(w.subrange(0, i + 1)) == sum_lens(w.subrange(0, i as int)) + len_i);
                assert(0 <= len_i <= l_total);
                assert(len_i * t <= len_i * 605_000_000) by (nonlinear_arith)
                    requires
                        0 <= len_i && 0 <= t <= 605_000_000,
                ;
                assert(acc + len_i * t <= 605_000_000 * sum_lens(w.subrange(0, i + 1))
                    <= 605_000_000 * 300_000_000) by (nonlinear_arith)
                    requires
                        acc <= 605_000_000 * sum_lens(w.subrange(0, i as int)),
                        len_i * t <= len_i * 605_000_000,
                        sum_lens(w.subrange(0, i + 1)) == sum_lens(w.subrange(0, i as int))
                            + len_i,
                        0 <= sum_lens(w.subrange(0, i + 1)) <= 300_000_000,
                        0 <= len_i,
                ;
            }
            let cost: u64 = len_i * t;
            acc = acc + cost;
            i = i + 1;
        }
        proof {
            assert(walk_time(a, b, atlas, w, i as int) == Some(0int));
        }
        Some(acc)
    }

    /// The climb along this segment — uphill elevation gained, downhill
    /// parts not counted — in micrometres.
    pub fn height<A: AtlasModel>(&self, atlas: &A) -> (r: u64)
        requires
            in_bounds(self.a),
            in_bounds(self.b),
        ensures
            r == seg_climb(self.a, self.b, atlas),
            r <= 1_300_000_000_000_000_000,
    {
        let a = self.a;
        let b = self.b;
        let fields = walk_fields(a, b);
        let l_total: u64 = dist_mm(a, b);
        let dx: i64 = b.e - a.e;
        let dy: i64 = b.n - a.n;
        let ghost w = walk_seq(a, b);
        proof {
            lemma_walk_sum(a, b, fx(a), fy(a), 0);
            lemma_component_le_len(a, b);
        }
        let mut acc: u64 = 0;
        let mut i: usize = 0;
        let n = fields.len();
        while i < n
            invariant
                in_bounds(a),
                in_bounds(b),
                a == self.a,
                b == self.b,
                n == fields.len(),
                i <= n,
                entries(fields@) == w,
                w == walk_seq(a, b),
                l_total == seg_len(a, b),
                l_total <= 300_000_000,
                -l_total <= dx <= l_total,
                -l_total <= dy <= l_total,
                dx == b.e - a.e,
                dy == b.n - a.n,
                sum_lens(w) == l_total,
                forall|j: int| 0 <= j < w.len() ==> #[trigger] w[j].2 >= 0,
                forall|j: int|
                    0 <= j < fields@.len() ==> -100_000 <= #[trigger] fields@[j].0.x <= 100_000
                        && -100_000 <= fields@[j].0.y <= 100_000,
                walk_climb(a, b, atlas, w, 0) == acc + walk_climb(a, b, atlas, w, i as int),
                acc <= 4_294_967_296 * sum_lens(w.subrange(0, i as int)),
                0 <= sum_lens(w.subrange(0, i as int)) <= l_total,
            decreases n - i,
        {
            let (f, len_i) = fields[i];
            proof {
                assert(entries(fields@)[i as int] == (f.x as int, f.y as int, len_i as int));
            }
            let anchor = field_anchor(f);
            let g = atlas.gradient(anchor);
            let de: i64 = g.de as i64;
            let dn: i64 = g.dn as i64;
            proof {
                assert(-700_000_000_000_000_000 <= dx * de <= 700_000_000_000_000_000
                    && -700_000_000_000_000_000 <= dy * dn <= 700_000_000_000_000_000)
                    by (nonlinear_arith)
                    requires
                        -300_000_000 <= dx <= 300_000_000,
                        -300_000_000 <= dy <= 300_000_000,
                        -2_147_483_648 <= de <= 2_147_483_647,
                        -2_147_483_648 <= dn <= 2_147_483_647,
                ;
            }
            proof {
                if l_total != 0 {
                    assert(-((l_total as int) * 4_294_967_296) <= dx * de + dy * dn <= (
                    l_total as int) * 4_294_967_296) by (nonlinear_arith)
                        requires
                            -(l_total as int) <= dx <= l_total as int,
                            -(l_total as int) <= dy <= l_total as int,
                            -2_147_483_648 <= de <= 2_147_483_647,
                            -2_147_483_648 <= dn <= 2_147_483_647,
                    ;
                    lemma_tdiv_bound(dx * de + dy * dn, l_total as int, 4_294_967_296);
                }
            }
            let num: i64 = dx * de + dy * dn;
            let s: i64 = if l_total == 0 {
                0
            } else {
                tdiv_i64(num, l_total as i64)
            };
            let ghost g_spec = atlas.grad_spec(anchor_spec(w[i as int].0, w[i as int].1));
            proof {
                assert(s as int == slope_along(a, b, g_spec));
                lemma_sum_lens_split(w, i as int);
                let suffix = w.subrange(i as int, w.len() as int);
                assert(suffix[0] == w[i as int]);
                assert(suffix.subrange(1, suffix.len() as int) =~= w.subrange(
                    i + 1,
                    w.len() as int,
                ));
                assert(sum_lens(suffix) == len_i + sum_lens(w.subrange(i + 1, w.len() as int)));
                assert(forall|j: int|
                    0 <= j < w.subrange(i + 1, w.len() as int).len() ==> #[trigger] w.subrange(
                        i + 1,
                        w.len() as int,
                    )[j].2 >= 0);
                lemma_sum_lens_nonneg(w.subrange(i + 1, w.len() as int));
                assert(forall|j: int|
                    0 <= j < w.subrange(0, i as int).len() ==> #[trigger] w.subrange(
                        0,
                        i as int,
                    )[j].2 >= 0);
                lemma_sum_lens_nonneg(w.subrange(0, i as int));
                assert(w.subrange(0, i + 1) =~= w.subrange(0, i as int).push(w[i as int]));
                crate::field::lemma_sum_lens_push(w.subrange(0, i as int), w[i as int]);
                assert(0 <= len_i <= l_total);
                assert(s > 0 ==> s * len_i <= 4_294_967_296 * len_i && s * len_i >= 0)
                    by (nonlinear_arith)
                    requires
                        0 <= len_i && s <= 4_294_967_296,
                ;
                assert(acc + 4_294_967_296 * len_i <= 4_294_967_296 * sum_lens(
                    w.subrange(0, i + 1),
                ) <= 4_294_967_296 * 300_000_000) by (nonlinear_arith)
                    requires
                        acc <= 4_294_967_296 * sum_lens(w.subrange(0, i as int)),
                        sum_lens(w.subrange(0, i + 1)) == sum_lens(w.subrange(0, i as int))
                            + len_i,
                        0 <= sum_lens(w.subrange(0, i + 1)) <= 300_000_000,
                        0 <= len_i,
                ;
            }
            if s > 0 {
                acc = acc + (s as u64) * len_i;
            }
            i = i + 1;
        }
        proof {
            assert(walk_climb(a, b, atlas, w, i as int) == 0);
        }
        acc
    }
}

/// Every point of the sequence lies in the planning area.
pub open spec fn points_in_bounds(ps: Seq<Coord>) -> bool {
    forall|i: int| 0 <= i < ps.len() ==> in_bounds(#[trigger] ps[i])
}

/// An ordered polyline track.
#[derive(Debug)]
pub struct Path {
    pub points: Vec<Coord>,
}

impl Clone for Path {
    /// A copy holding the same points.
    fn clone(&self) -> (r: Self)
        ensures
            r.points@ == self.points@,
    {
        let mut points: Vec<Coord> = Vec::new();
        let mut i: usize = 0;
        let n = self.points.len();
        while i < n
            invariant
                n == self.points@.len(),
                i <= n,
                points@ == self.points@.subrange(0, i as int),
            decreases n - i,
        {
            points.push(self.points[i]);
            proof {
                assert(points@ =~= self.points@.subrange(0, i + 1));
            }
            i = i + 1;
        }
        proof {
            assert(points@ =~= self.points@);
        }
        Path { points }
    }
}

impl Path {
    /// An empty track.
    pub fn new() -> (r: Path)
        ensures
            r.points@.len() == 0,
    {
        Path { points: Vec::new() }
    }

    /// Append one point.
    pub fn push(&mut self, c: Coord)
        ensures
            final(self).points@ == old(self).points@.push(c),
    {
        self.points.push(c);
    }
}

/// The segment from `a` to `b` crosses none of the barriers.
pub open spec fn step_clear(barriers: Seq<Barrier>, a: Coord, b: Coord) -> bool {
    forall|j: int|
        0 <= j < barriers.len() ==> !crate::barrier::polyline_crosses(
            (#[trigger] barriers[j]).points@,
            a,
            b,
        )
}

/// The polyline is a walkable track: every point is in the planning area
/// and every consecutive step has a finite traversal time and crosses no
/// barrier.
pub open spec fn path_ok<A: AtlasModel>(ps: Seq<Coord>, barriers: Seq<Barrier>, atlas: &A) -> bool {
    &&& points_in_bounds(ps)
    &&& forall|i: int|
        0 <= i < ps.len() - 1 ==> (#[trigger] seg_time(ps[i], ps[i + 1], atlas)) is Some
            && step_clear(barriers, ps[i], ps[i + 1])
}

/// The total traversal time of a polyline, or nothing when some step is
/// unwalkable.
pub open spec fn path_time<A: AtlasModel>(ps: Seq<Coord>, atlas: &A) -> Option<int>
    decreases ps.len(),
{
    if ps.len() <= 1 {
        Some(0)
    } else {
        match seg_time(ps[0], ps[1], atlas) {
            Option::None => Option::None,
            Option::Some(t) => opt_shift(t, path_time(ps.subrange(1, ps.len() as int), atlas)),
        }
    }
}

/// A `u128` time as the mathematical option it stands for.
pub open spec fn opt_view128(r: Option<u128>) -> Option<int> {
    match r {
        Option::Some(t) => Option::Some(t as int),
        Option::None => Option::None,
    }
}

/// A walkable track's total time is defined.
pub proof fn lemma_path_ok_time<A: AtlasModel>(
    ps: Seq<Coord>,
    barriers: Seq<Barrier>,
    atlas: &A,
)
    requires
        path_ok(ps, barriers, atlas),
    ensures
        path_time(ps, atlas) is Some,
    decreases ps.len(),
{
    if ps.len() > 1 {
        let rest = ps.subrange(1, ps.len() as int);
        assert(seg_time(ps[0], ps[1], atlas) is Some);
        assert forall|i: int| 0 <= i < rest.len() - 1 implies (#[trigger] seg_time(
            rest[i],
            rest[i + 1],
            atlas,
        )) is Some && step_clear(barriers, rest[i], rest[i + 1]) by {
            assert(rest[i] == ps[i + 1] && rest[i + 1] == ps[i + 2]);
            assert(seg_time(ps[i + 1], ps[i + 2], atlas) is Some && step_clear(
                barriers,
                ps[i + 1],
                ps[i + 2],
            ));
        }
        assert(points_in_bounds(rest)) by {
            assert(forall|i: int| 0 <= i < rest.len() ==> #[trigger] rest[i] == ps[i + 1]);
        }
        lemma_path_ok_time(rest, barriers, atlas);
    }
}

/// The time of the candidate detour `p -> c -> n`, or nothing when the
/// candidate point lies outside the planning area, either leg is too
/// steep, or either leg crosses a barrier.
pub open spec fn tri_spec<A: AtlasModel>(
    p: Coord,
    c: Coord,
    n: Coord,
    barriers: Seq<Barrier>,
    atlas: &A,
) -> Option<int> {
    if !in_bounds(c) || !step_clear(barriers, p, c) || !step_clear(barriers, c, n) {
        Option::None
    } else {
        match (seg_time(p, c, atlas), seg_time(c, n, atlas)) {
            (Option::Some(t1), Option::Some(t2)) => Option::Some(t1 + t2),
            _ => Option::None,
        }
    }
}

/// Whether a step crosses none of the barriers, executable form.
fn steps_clear_exec(barriers: &Vec<Barrier>, a: &Coord, b: &Coord) -> (r: bool)
    requires
        in_bounds(*a),
        in_bounds(*b),
        forall|j: int|
            0 <= j < barriers@.len() ==> crate::barrier::barrier_wf(
                (#[trigger] barriers@[j]).points@,
            ),
    ensures
        r == step_clear(barriers@, *a, *b),
{
    let nb = barriers.len();
    let mut j: usize = 0;
    while j < nb
        invariant
            nb == barriers@.len(),
            j <= nb,
            in_bounds(*a),
            in_bounds(*b),
            forall|t: int|
                0 <= t < barriers@.len() ==> crate::barrier::barrier_wf(
                    (#[trigger] barriers@[t]).points@,
                ),
            forall|t: int|
                0 <= t < j ==> !crate::barrier::polyline_crosses(
                    (#[trigger] barriers@[t]).points@,
                    *a,
                    *b,
                ),
        decreases nb - j,
    {
        if barriers[j].is_crossing(a, b) {
            return false;
        }
        j = j + 1;
    }
    true
}

/// The candidate detour time, executable form.
fn tri_time<A: AtlasModel>(
    p: Coord,
    c: Coord,
    n: Coord,
    barriers: &Vec<Barrier>,
    atlas: &A,
) -> (r: Option<u128>)
    requires
        in_bounds(p),
        in_bounds(n),
        forall|j: int|
            0 <= j < barriers@.len() ==> crate::barrier::barrier_wf(
                (#[trigger] barriers@[j]).points@,
            ),
    ensures
        opt_view128(r) == tri_spec(p, c, n, barriers@, atlas),
        r matches Some(t) ==> t <= 2 * SEG_TIME_MAX,
{
    if c.e < -100_000_000 || c.e > 100_000_000 || c.n < -100_000_000 || c.n > 100_000_000 {
        return None;
    }
    if !steps_clear_exec(barriers, &p, &c) {
        return None;
    }
    if !steps_clear_exec(barriers, &c, &n) {
        return None;
    }
    let t1 = match (Segment { a: p, b: c }).time(atlas) {
        Option::Some(t) => t,
        Option::None => {
            return None;
        },
    };
    let t2 = match (Segment { a: c, b: n }).time(atlas) {
        Option::Some(t) => t,
        Option::None => {
            return None;
        },
    };
    Some((t1 as u128) + (t2 as u128))
}

/// Replacing an interior vertex with one whose detour is walkable keeps
/// the track walkable.
proof fn lemma_path_ok_update<A: AtlasModel>(
    ps: Seq<Coord>,
    idx: int,
    c2: Coord,
    barriers: Seq<Barrier>,
    atlas: &A,
)
    requires
        path_ok(ps, barriers, atlas),
        1 <= idx <= ps.len() - 2,
        tri_spec(ps[idx - 1], c2, ps[idx + 1], barriers, atlas) is Some,
    ensures
        path_ok(ps.update(idx, c2), barriers, atlas),
{
    let ps2 = ps.update(idx, c2);
    assert(points_in_bounds(ps2)) by {
        assert(forall|i: int| 0 <= i < ps2.len() && i != idx ==> #[trigger] ps2[i] == ps[i]);
        assert(in_bounds(c2));
    }
    assert forall|i: int| 0 <= i < ps2.len() - 1 implies (#[trigger] seg_time(
        ps2[i],
        ps2[i + 1],
        atlas,
    )) is Some && step_clear(barriers, ps2[i], ps2[i + 1]) by {
        if i == idx - 1 {
            assert(ps2[i] == ps[i] && ps2[i + 1] == c2);
        } else if i == idx {
            assert(ps2[i] == c2 && ps2[i + 1] == ps[i + 1]);
        } else {
            assert(ps2[i] == ps[i] && ps2[i + 1] == ps[i + 1]);
            assert(seg_time(ps[i], ps[i + 1], atlas) is Some && step_clear(
                barriers,
                ps[i],
                ps[i + 1],
            ));
        }
    }
}

/// Appending a point reachable from the track's end keeps it walkable.
proof fn lemma_path_ok_push<A: AtlasModel>(
    ps: Seq<Coord>,
    x: Coord,
    barriers: Seq<Barrier>,
    atlas: &A,
)
    requires
        path_ok(ps, barriers, atlas),
        ps.len() >= 1,
        in_bounds(x),
        seg_time(ps.last(), x, atlas) is Some,
        step_clear(barriers, ps.last(), x),
    ensures
        path_ok(ps.push(x), barriers, atlas),
{
    let ps2 = ps.push(x);
    assert(points_in_bounds(ps2)) by {
        assert(forall|i: int| 0 <= i < ps.len() ==> #[trigger] ps2[i] == ps[i]);
    }
    assert forall|i: int| 0 <= i < ps2.len() - 1 implies (#[trigger] seg_time(
        ps2[i],
        ps2[i + 1],
        atlas,
    )) is Some && step_clear(barriers, ps2[i], ps2[i + 1]) by {
        if i < ps.len() - 1 {
            assert(ps2[i] == ps[i] && ps2[i + 1] == ps[i + 1]);
            assert(seg_time(ps[i], ps[i + 1], atlas) is Some && step_clear(
                barriers,
                ps[i],
                ps[i + 1],
            ));
        } else {
            assert(ps2[i] == ps.last() && ps2[i + 1] == x);
        }
    }
}

impl Path {
    /// Iteratively relax the track: nudge each interior vertex down the
    /// local time gradient, then split long steps and merge nearby ones.
    /// A vertex moves only to a strictly cheaper position, and the edited
    /// point list is adopted only when it costs no more than the nudged
    /// one, so the kept track never worsens.  Iteration stops once a round
    /// saves less than a millisecond and the point list has stopped
    /// shrinking.  Every step stays walkable and clear of the barriers,
    /// and the endpoints never move.
    pub fn optimize<A: AtlasModel>(&mut self, barriers: &Vec<Barrier>, atlas: &A)
        requires
            old(self).points@.len() >= 2,
            path_ok(old(self).points@, barriers@, atlas),
            forall|j: int|
                0 <= j < barriers@.len() ==> crate::barrier::barrier_wf(
                    (#[trigger] barriers@[j]).points@,
                ),
        ensures
            final(self).points@.len() >= 2,
            path_ok(final(self).points@, barriers@, atlas),
            final(self).points@[0] == old(self).points@[0],
            final(self).points@.last() == old(self).points@.last(),
            path_time(old(self).points@, atlas) matches Some(t1) ==> (path_time(
                final(self).points@,
                atlas,
            ) matches Some(t2) && t2 <= t1),
    {
        let ghost p0 = old(self).points@[0];
        let ghost pl = old(self).points@.last();
        proof {
            lemma_path_ok_time(self.points@, barriers@, atlas);
        }
        let mut time: u128 = match self.calculate_time(atlas) {
            Option::Some(t) => t,
            Option::None => {
                proof {
                    assert(false);
                }
                return ;
            },
        };
        let ghost t_init = time as int;
        loop
            invariant_except_break
                path_time(self.points@, atlas) == Some(time as int),
            invariant
                self.points@.len() >= 2,
                path_ok(self.points@, barriers@, atlas),
                self.points@[0] == p0,
                self.points@.last() == pl,
                time as int <= t_init,
                forall|j: int|
                    0 <= j < barriers@.len() ==> crate::barrier::barrier_wf(
                        (#[trigger] barriers@[j]).points@,
                    ),
            ensures
                self.points@.len() >= 2,
                path_ok(self.points@, barriers@, atlas),
                self.points@[0] == p0,
                self.points@.last() == pl,
                path_time(self.points@, atlas) is Some,
                path_time(self.points@, atlas).unwrap() <= t_init,
            decreases time, self.points@.len(),
        {
            let len = self.points.len();
            let mut idx: usize = 1;
            while idx < len - 1
                invariant
                    len == self.points@.len(),
                    len >= 2,
                    1 <= idx <= len - 1 || (len == 2 && idx == 1),
                    path_ok(self.points@, barriers@, atlas),
                    self.points@[0] == p0,
                    self.points@.last() == pl,
                    path_time(self.points@, atlas) is Some,
                    path_time(self.points@, atlas).unwrap() <= time as int,
                    forall|j: int|
                        0 <= j < barriers@.len() ==> crate::barrier::barrier_wf(
                            (#[trigger] barriers@[j]).points@,
                        ),
                decreases len - idx,
            {
                let c = self.points[idx];
                let p = self.points[idx - 1];
                let n = self.points[idx + 1];
                proof {
                    let ghost ps = self.points@;
                    let ghost ii = idx as int;
                    assert(seg_time(ps[ii - 1], ps[ii - 1 + 1], atlas) is Some && step_clear(
                        barriers@,
                        ps[ii - 1],
                        ps[ii - 1 + 1],
                    ));
                    assert(seg_time(ps[ii], ps[ii + 1], atlas) is Some && step_clear(
                        barriers@,
                        ps[ii],
                        ps[ii + 1],
                    ));
                    assert(ps[ii - 1] == p && ps[ii] == c && ps[ii + 1] == n);
                }
                let t0o = tri_time(p, c, n, barriers, atlas);
                let t0: u128 = match t0o {
                    Option::Some(t) => t,
                    Option::None => {
                        proof {
                            assert(false);
                        }
                        0
                    },
                };
                let te1 = tri_time(p, Coord { e: c.e - 4000, n: c.n }, n, barriers, atlas);
                let te2 = tri_time(p, Coord { e: c.e + 4000, n: c.n }, n, barriers, atlas);
                let tn1 = tri_time(p, Coord { e: c.e, n: c.n - 4000 }, n, barriers, atlas);
                let tn2 = tri_time(p, Coord { e: c.e, n: c.n + 4000 }, n, barriers, atlas);
                let t0i: i128 = t0 as i128;
                let mut dce: i128 = 0;
                let mut dcn: i128 = 0;
                if let Option::Some(v) = te1 {
                    dce = dce + 4000 * ((v as i128) - t0i);
                }
                if let Option::Some(v) = te2 {
                    dce = dce + 4000 * (t0i - (v as i128));
                }
                if let Option::Some(v) = tn1 {
                    dcn = dcn + 4000 * ((v as i128) - t0i);
                }
                if let Option::Some(v) = tn2 {
                    dcn = dcn + 4000 * (t0i - (v as i128));
                }
                let dce_mm: i128 = crate::num::tdiv_i128(16 * dce, 1_000_000_000);
                let dcn_mm: i128 = crate::num::tdiv_i128(16 * dcn, 1_000_000_000);
                let dce64: i64 = if dce_mm > 1_000_000 {
                    1_000_000
                } else if dce_mm < -1_000_000 {
                    -1_000_000
                } else {
                    dce_mm as i64
                };
                let dcn64: i64 = if dcn_mm > 1_000_000 {
                    1_000_000
                } else if dcn_mm < -1_000_000 {
                    -1_000_000
                } else {
                    dcn_mm as i64
                };
                if dce64 == 0 && dcn64 == 0 {
                    idx = idx + 1;
                    continue;
                }
                proof {
                    assert(0 <= dce64 * dce64 <= 1_000_000_000_000 && 0 <= dcn64 * dcn64
                        <= 1_000_000_000_000) by (nonlinear_arith)
                        requires
                            -1_000_000 <= dce64 <= 1_000_000 && -1_000_000 <= dcn64 <= 1_000_000,
                    ;
                }
                let sq: u64 = (dce64 * dce64) as u64 + (dcn64 * dcn64) as u64;
                let d = isqrt_u64(sq);
                let (fe, fnn): (i64, i64) = if d > 20000 {
                    proof {
                        assert(-(d as int) <= dce64 <= d as int && -(d as int) <= dcn64
                            <= d as int) by (nonlinear_arith)
                            requires
                                (d as int) * (d as int) <= sq,
                                sq < ((d as int) + 1) * ((d as int) + 1),
                                sq == dce64 * dce64 + dcn64 * dcn64,
                                d >= 0,
                        ;
                        assert(-(20000 * (d as int)) <= dce64 * 20000 <= 20000 * (d as int)
                            && -(20000 * (d as int)) <= dcn64 * 20000 <= 20000 * (d as int))
                            by (nonlinear_arith)
                            requires
                                -(d as int) <= dce64 <= d as int,
                                -(d as int) <= dcn64 <= d as int,
                                d >= 0,
                        ;
                        crate::num::lemma_tdiv_bound(dce64 * 20000, d as int, 20000);
                        crate::num::lemma_tdiv_bound(dcn64 * 20000, d as int, 20000);
                    }
                    (tdiv_i64(dce64 * 20000, d as i64), tdiv_i64(dcn64 * 20000, d as i64))
                } else {
                    proof {
                        assert(-(d as int) <= dce64 <= d as int && -(d as int) <= dcn64
                            <= d as int) by (nonlinear_arith)
                            requires
                                (d as int) * (d as int) <= sq,
                                sq < ((d as int) + 1) * ((d as int) + 1),
                                sq == dce64 * dce64 + dcn64 * dcn64,
                                d >= 0,
                        ;
                    }
                    (dce64, dcn64)
                };
                let mut tmin: u128 = t0;
                proof {
                    let ghost ps = self.points@;
                    assert(seg_time(ps[idx - 1], ps[idx as int], atlas).unwrap() + seg_time(
                        ps[idx as int],
                        ps[idx + 1],
                        atlas,
                    ).unwrap() == tmin as int);
                }
                let mut jj: i64 = 1;
                while jj <= 20
                    invariant
                        len == self.points@.len(),
                        len >= 2,
                        1 <= idx <= len - 2,
                        1 <= jj <= 21,
                        -20000 <= fe <= 20000,
                        -20000 <= fnn <= 20000,
                        in_bounds(p),
                        in_bounds(n),
                        p == self.points@[idx - 1],
                        n == self.points@[idx + 1],
                        in_bounds(c),
                        path_ok(self.points@, barriers@, atlas),
                        self.points@[0] == p0,
                        self.points@.last() == pl,
                        path_time(self.points@, atlas) is Some,
                        path_time(self.points@, atlas).unwrap() <= time as int,
                        seg_time(self.points@[idx - 1], self.points@[idx as int], atlas) is Some,
                        seg_time(self.points@[idx as int], self.points@[idx + 1], atlas) is Some,
                        seg_time(self.points@[idx - 1], self.points@[idx as int], atlas).unwrap()
                            + seg_time(self.points@[idx as int], self.points@[idx + 1], atlas).unwrap()
                            == tmin as int,
                        forall|j: int|
                            0 <= j < barriers@.len() ==> crate::barrier::barrier_wf(
                                (#[trigger] barriers@[j]).points@,
                            ),
                    decreases 21 - jj,
                {
                    proof {
                        assert(-420_000 <= fe * jj <= 420_000 && -420_000 <= fnn * jj <= 420_000)
                            by (nonlinear_arith)
                            requires
                                -20000 <= fe <= 20000 && -20000 <= fnn <= 20000 && 1 <= jj <= 20,
                        ;
                        crate::num::lemma_tdiv_bound(fe as int * jj as int, 2, 210_000);
                        crate::num::lemma_tdiv_bound(fnn as int * jj as int, 2, 210_000);
                    }
                    let off_e = tdiv_i64(fe * jj, 2);
                    let off_n = tdiv_i64(fnn * jj, 2);
                    let cj = Coord { e: c.e + off_e, n: c.n + off_n };
                    let tj = tri_time(p, cj, n, barriers, atlas);
                    if let Option::Some(v) = tj {
                        if v < tmin {
                            proof {
                                let ghost ps = self.points@;
                                let ghost total = path_time(ps, atlas).unwrap();
                                let ghost o1 = seg_time(ps[idx - 1], ps[idx as int], atlas).unwrap();
                                let ghost o2 = seg_time(ps[idx as int], ps[idx + 1], atlas).unwrap();
                                let ghost v1 = seg_time(ps[idx - 1], cj, atlas).unwrap();
                                let ghost v2 = seg_time(cj, ps[idx + 1], atlas).unwrap();
                                assert(v1 + v2 == v as int);
                                lemma_path_ok_update(
                                    self.points@,
                                    idx as int,
                                    cj,
                                    barriers@,
                                    atlas,
                                );
                                lemma_path_time_update(
                                    ps,
                                    idx as int,
                                    cj,
                                    atlas,
                                    total,
                                    o1,
                                    o2,
                                    v1,
                                    v2,
                                );
                            }
                            self.points.set(idx, cj);
                            tmin = v;
                        }
                    }
                    jj = jj + 1;
                }
                idx = idx + 1;
            }
            let mut newp: Vec<Coord> = Vec::new();
            let mut c = self.points[0];
            newp.push(c);
            let mut i: usize = 1;
            loop
                invariant_except_break
                    1 <= i <= len - 1,
                    newp@.last() == c,
                    in_bounds(c),
                    seg_time(c, self.points@[i as int], atlas) is Some,
                    step_clear(barriers@, c, self.points@[i as int]),
                invariant
                    len == self.points@.len(),
                    len >= 2,
                    path_ok(self.points@, barriers@, atlas),
                    self.points@[0] == p0,
                    self.points@.last() == pl,
                    newp@.len() >= 1,
                    newp@[0] == p0,
                    path_ok(newp@, barriers@, atlas),
                    forall|j: int|
                        0 <= j < barriers@.len() ==> crate::barrier::barrier_wf(
                            (#[trigger] barriers@[j]).points@,
                        ),
                ensures
                    newp@.len() >= 2,
                    path_ok(newp@, barriers@, atlas),
                    newp@[0] == p0,
                    newp@.last() == pl,
                    self.points@.len() == len,
                    path_ok(self.points@, barriers@, atlas),
                    self.points@[0] == p0,
                    self.points@.last() == pl,
                decreases len - i, seg_len(c, self.points@[i as int]),
            {
                let n_pt = self.points[i];
                if i == len - 1 {
                    let ghost before = newp@;
                    proof {
                        lemma_path_ok_push(before, n_pt, barriers@, atlas);
                    }
                    newp.push(n_pt);
                    break;
                }
                let d = dist_mm(c, n_pt);
                if d > 20000 {
                    let c2 = midpoint(c, n_pt);
                    let tc = tri_time(c, c2, n_pt, barriers, atlas);
                    if let Option::Some(_) = tc {
                        let ghost before = newp@;
                        proof {
                            lemma_path_ok_push(before, c2, barriers@, atlas);
                            crate::coord::lemma_midpoint_closer(c, n_pt, c2);
                            lemma_component_le_len(c2, n_pt);
                        }
                        newp.push(c2);
                        c = c2;
                        continue;
                    }
                }
                if d < 10000 && i + 1 < len {
                    let nn = self.points[i + 1];
                    let t_skip = (Segment { a: c, b: nn }).time(atlas);
                    if t_skip.is_some() && steps_clear_exec(barriers, &c, &nn) {
                        i = i + 1;
                        continue;
                    }
                }
                let ghost before = newp@;
                proof {
                    lemma_path_ok_push(before, n_pt, barriers@, atlas);
                }
                newp.push(n_pt);
                c = n_pt;
                i = i + 1;
            }
            proof {
                lemma_path_ok_time(self.points@, barriers@, atlas);
            }
            let t2: u128 = match self.calculate_time(atlas) {
                Option::Some(t) => t,
                Option::None => {
                    proof {
                        assert(false);
                    }
                    0
                },
            };
            let cand = Path { points: newp };
            proof {
                lemma_path_ok_time(cand.points@, barriers@, atlas);
            }
            let tb: u128 = match cand.calculate_time(atlas) {
                Option::Some(t) => t,
                Option::None => {
                    proof {
                        assert(false);
                    }
                    0
                },
            };
            let shrunk = cand.points.len() < len;
            // the edited list is adopted only when it costs no more than
            // the nudged one, so the kept track never worsens
            let adopted = tb != 0 && tb <= t2;
            let mut new_time = t2;
            if adopted {
                self.points = cand.points;
                new_time = tb;
            }
            if time - new_time < 1_000_000 && !(adopted && shrunk) {
                break;
            }
            time = new_time;
        }
    }

    /// The total traversal time of this track in nanoseconds, or nothing
    /// when some step is unwalkable.
    pub fn calculate_time<A: AtlasModel>(&self, atlas: &A) -> (r: Option<u128>)
        requires
            points_in_bounds(self.points@),
        ensures
            opt_view128(r) == path_time(self.points@, atlas),
            r matches Some(t) ==> t <= self.points@.len() * (SEG_TIME_MAX as int),
    {
        let ps = &self.points;
        let n = ps.len();
        if n <= 1 {
            return Some(0);
        }
        let mut acc: u128 = 0;
        let mut i: usize = 0;
        let ghost whole = self.points@;
        proof {
            assert(whole.subrange(0, n as int) =~= whole);
        }
        while i < n - 1
            invariant
                n == whole.len(),
                n >= 2,
                whole == self.points@,
                ps == &self.points,
                points_in_bounds(whole),
                i <= n - 1,
                acc <= i * (SEG_TIME_MAX as int),
                path_time(whole, atlas) == opt_shift(
                    acc as int,
                    path_time(whole.subrange(i as int, n as int), atlas),
                ),
            decreases n - i,
        {
            let seg = Segment { a: ps[i], b: ps[i + 1] };
            let ghost tail = whole.subrange(i as int, n as int);
            proof {
                assert(tail[0] == whole[i as int] && tail[1] == whole[i + 1]);
                assert(tail.subrange(1, tail.len() as int) =~= whole.subrange(i + 1, n as int));
            }
            match seg.time(atlas) {
                Option::Some(t) => {
                    proof {
                        assert(acc + t <= (i + 1) * (SEG_TIME_MAX as int)) by (nonlinear_arith)
                            requires
                                acc <= i * (SEG_TIME_MAX as int) && t <= SEG_TIME_MAX && i >= 0,
                        ;
                        assert((i + 1) * (SEG_TIME_MAX as int) <= 40_000_000_000_000_000_000
                            * (SEG_TIME_MAX as int)) by (nonlinear_arith)
                            requires
                                0 <= i + 1 <= 40_000_000_000_000_000_000,
                        ;
                    }
                    acc = acc + (t as u128);
                },
                Option::None => {
                    return None;
                },
            }
            i = i + 1;
        }
        proof {
            assert(whole.subrange(i as int, n as int).len() == 1);
            assert(path_time(whole.subrange(i as int, n as int), atlas) == Some(0int));
        }
        Some(acc)
    }

    /// Join another track onto the end of this one, dropping the shared
    /// join point; the other track is emptied.
    pub fn append(&mut self, other: &mut Path)
        requires
            old(self).points@.len() > 0 && old(other).points@.len() > 0 ==> old(
                self,
            ).points@.last() == old(other).points@[0],
        ensures
            final(other).points@.len() == 0,
            old(other).points@.len() == 0 ==> final(self).points@ == old(self).points@,
            old(other).points@.len() > 0 && old(self).points@.len() == 0 ==> final(self).points@
                == old(other).points@,
            old(other).points@.len() > 0 && old(self).points@.len() > 0 ==> final(self).points@
                == old(self).points@.drop_last() + old(other).points@,
    {
        let no = other.points.len();
        if no == 0 {
            return;
        }
        if self.points.len() > 0 {
            let _ = self.points.pop();
        }
        let mut k: usize = 0;
        let ghost base = self.points@;
        let ghost osnap = other.points@;
        while k < no
            invariant
                no == osnap.len(),
                osnap == other.points@,
                k <= no,
                self.points@ == base + osnap.subrange(0, k as int),
            decreases no - k,
        {
            let c = other.points[k];
            self.points.push(c);
            proof {
                assert(base + osnap.subrange(0, k + 1) =~= (base + osnap.subrange(
                    0,
                    k as int,
                )).push(osnap[k as int]));
            }
            k = k + 1;
        }
        other.points = Vec::new();
        proof {
            assert(osnap.subrange(0, no as int) =~= osnap);
            if old(self).points@.len() > 0 {
                assert(base =~= old(self).points@.drop_last());
                assert(self.points@ == old(self).points@.drop_last() + osnap);
            } else {
                assert(base =~= Seq::<Coord>::empty());
                assert(self.points@ =~= osnap);
            }
        }
    }
}

/// On flat terrain every cell costs the base pace.
proof fn lemma_walk_time_flat<A: AtlasModel>(
    a: Coord,
    b: Coord,
    atlas: &A,
    w: Seq<(int, int, int)>,
    i: int,
)
    requires
        forall|c: Coord| #[trigger] atlas.grad_spec(c) == (GradSample { de: 0, dn: 0 }),
        0 <= i <= w.len(),
    ensures
        walk_time(a, b, atlas, w, i) == Some(1_200_000 * sum_lens(w.subrange(i, w.len() as int))),
    decreases w.len() - i,
{
    if i >= w.len() {
        assert(w.subrange(i, w.len() as int).len() == 0);
        assert(sum_lens(w.subrange(i, w.len() as int)) == 0);
    } else {
        let g = atlas.grad_spec(anchor_spec(w[i].0, w[i].1));
        assert(g == (GradSample { de: 0, dn: 0 }));
        assert(grad_mag_sq(g) == 0) by (nonlinear_arith)
            requires
                g.de == 0 && g.dn == 0,
        ;
        crate::num::lemma_sqrt_is(0, 0);
        assert(slope_along(a, b, g) == 0) by {
            if seg_len(a, b) != 0 {
                assert((b.e - a.e) * 0 + (b.n - a.n) * 0 == 0) by (nonlinear_arith);
            }
        }
        assert(steepness_time(0, 0) == 1_200_000) by {
            assert(lerp_up(0, 1_200_000, 500_000, 180) == 1_200_000) by {
                assert(500_000 * 0 == 0) by (nonlinear_arith);
                assert(0int / 180 == 0);
            }
        }
        lemma_walk_time_flat(a, b, atlas, w, i + 1);
        let tail = w.subrange(i, w.len() as int);
        assert(tail[0] == w[i]);
        assert(tail.subrange(1, tail.len() as int) =~= w.subrange(i + 1, w.len() as int));
        assert(sum_lens(tail) == w[i].2 + sum_lens(w.subrange(i + 1, w.len() as int)));
        let rest_sum = sum_lens(w.subrange(i + 1, w.len() as int));
        assert(w[i].2 * 1_200_000 + 1_200_000 * rest_sum == 1_200_000 * (w[i].2 + rest_sum))
            by (nonlinear_arith);
        assert(w[i].2 * steepness_time(0, 0) == w[i].2 * 1_200_000);
    }
}

/// On flat terrain a segment's cost is the base pace of 1.2 seconds per
/// metre times its exact length, in either direction: walking it forwards
/// costs the same as walking it backwards.
pub proof fn lemma_flat_time_symmetric<A: AtlasModel>(a: Coord, b: Coord, atlas: &A)
    requires
        in_bounds(a),
        in_bounds(b),
        forall|c: Coord| #[trigger] atlas.grad_spec(c) == (GradSample { de: 0, dn: 0 }),
    ensures
        seg_time(a, b, atlas) == Some(1_200_000 * seg_len(a, b)),
        seg_time(b, a, atlas) == seg_time(a, b, atlas),
{
    lemma_component_le_len(a, b);
    lemma_component_le_len(b, a);
    lemma_walk_sum(a, b, fx(a), fy(a), 0);
    lemma_walk_time_flat(a, b, atlas, walk_seq(a, b), 0);
    assert(walk_seq(a, b).subrange(0, walk_seq(a, b).len() as int) =~= walk_seq(a, b));
    lemma_walk_sum(b, a, fx(b), fy(b), 0);
    lemma_walk_time_flat(b, a, atlas, walk_seq(b, a), 0);
    assert(walk_seq(b, a).subrange(0, walk_seq(b, a).len() as int) =~= walk_seq(b, a));
    assert(crate::coord::dist_sq(a, b) == crate::coord::dist_sq(b, a)) by (nonlinear_arith);
}

/// Moving one interior vertex changes the track's total time by exactly
/// the change in its two adjacent steps.
pub proof fn lemma_path_time_update<A: AtlasModel>(
    ps: Seq<Coord>,
    idx: int,
    c2: Coord,
    atlas: &A,
    total: int,
    o1: int,
    o2: int,
    v1: int,
    v2: int,
)
    requires
        1 <= idx <= ps.len() - 2,
        path_time(ps, atlas) == Some(total),
        seg_time(ps[idx - 1], ps[idx], atlas) == Some(o1),
        seg_time(ps[idx], ps[idx + 1], atlas) == Some(o2),
        seg_time(ps[idx - 1], c2, atlas) == Some(v1),
        seg_time(c2, ps[idx + 1], atlas) == Some(v2),
    ensures
        path_time(ps.update(idx, c2), atlas) == Some(total - o1 - o2 + v1 + v2),
    decreases idx,
{
    let ps2 = ps.update(idx, c2);
    if idx == 1 {
        let tail = ps.subrange(1, ps.len() as int);
        let tail2 = ps2.subrange(1, ps2.len() as int);
        let tt = ps.subrange(2, ps.len() as int);
        assert(tail[0] == ps[1] && tail[1] == ps[2]);
        assert(tail.subrange(1, tail.len() as int) =~= tt);
        assert(tail2[0] == c2 && tail2[1] == ps[2]);
        assert(tail2.subrange(1, tail2.len() as int) =~= tt);
        assert(path_time(ps, atlas) == opt_shift(o1, path_time(tail, atlas)));
        assert(path_time(tail, atlas) == opt_shift(o2, path_time(tt, atlas)));
        assert(path_time(ps2, atlas) == opt_shift(v1, path_time(tail2, atlas)));
        assert(path_time(tail2, atlas) == opt_shift(v2, path_time(tt, atlas)));
        assert(path_time(tt, atlas) is Some) by {
            assert(opt_shift(o1, opt_shift(o2, path_time(tt, atlas))) == Some(total));
        }
    } else {
        let tail = ps.subrange(1, ps.len() as int);
        let tail2 = ps2.subrange(1, ps2.len() as int);
        assert(tail2 =~= tail.update(idx - 1, c2));
        assert(path_time(ps, atlas) == opt_shift(
            seg_time(ps[0], ps[1], atlas).unwrap(),
            path_time(tail, atlas),
        )) by {
            assert(path_time(ps, atlas) is Some);
            assert(seg_time(ps[0], ps[1], atlas) is Some);
        }
        let t01 = seg_time(ps[0], ps[1], atlas).unwrap();
        let sub_total = total - t01;
        assert(path_time(tail, atlas) == Some(sub_total));
        assert(tail[idx - 2] == ps[idx - 1] && tail[idx - 1] == ps[idx] && tail[idx] == ps[idx
            + 1]);
        lemma_path_time_update(tail, idx - 1, c2, atlas, sub_total, o1, o2, v1, v2);
        assert(ps2[0] == ps[0] && ps2[1] == ps[1]);
    }
}

/// The relaxation's acceptance rule never worsens the track: replacing an
/// interior vertex with one whose two adjacent steps are strictly cheaper
/// strictly lowers the total time.
pub proof fn lemma_vertex_improvement<A: AtlasModel>(
    ps: Seq<Coord>,
    idx: int,
    c2: Coord,
    atlas: &A,
    total: int,
    o1: int,
    o2: int,
    v1: int,
    v2: int,
)
    requires
        1 <= idx <= ps.len() - 2,
        path_time(ps, atlas) == Some(total),
        seg_time(ps[idx - 1], ps[idx], atlas) == Some(o1),
        seg_time(ps[idx], ps[idx + 1], atlas) == Some(o2),
        seg_time(ps[idx - 1], c2, atlas) == Some(v1),
        seg_time(c2, ps[idx + 1], atlas) == Some(v2),
        v1 + v2 < o1 + o2,
    ensures
        path_time(ps.update(idx, c2), atlas) matches Some(t2) && t2 < total,
{
    lemma_path_time_update(ps, idx, c2, atlas, total, o1, o2, v1, v2);
}

/// Why a plan cannot be produced.
#[derive(Debug, PartialEq, Eq, Structural)]
pub enum PlanError {
    /// Fewer than two waypoints were given.
    TooFewWaypoints,
    /// No route exists between waypoints `pair` and `pair + 1`.
    Unreachable { pair: usize },
}

/// Joining two walkable tracks at a shared point yields a walkable track.
proof fn lemma_path_ok_append<A: AtlasModel>(
    ps1: Seq<Coord>,
    ps2: Seq<Coord>,
    barriers: Seq<Barrier>,
    atlas: &A,
)
    requires
        path_ok(ps1, barriers, atlas),
        path_ok(ps2, barriers, atlas),
        ps1.len() >= 2,
        ps2.len() >= 1,
        ps1.last() == ps2[0],
    ensures
        path_ok(ps1.drop_last() + ps2, barriers, atlas),
{
    let j = ps1.drop_last() + ps2;
    let l1 = ps1.len() - 1;
    assert(points_in_bounds(j)) by {
        assert forall|i: int| 0 <= i < j.len() implies in_bounds(#[trigger] j[i]) by {
            if i < l1 {
                assert(j[i] == ps1[i]);
            } else {
                assert(j[i] == ps2[i - l1]);
            }
        }
    }
    assert forall|i: int| 0 <= i < j.len() - 1 implies (#[trigger] seg_time(
        j[i],
        j[i + 1],
        atlas,
    )) is Some && step_clear(barriers, j[i], j[i + 1]) by {
        if i < l1 - 1 {
            assert(j[i] == ps1[i] && j[i + 1] == ps1[i + 1]);
            assert(seg_time(ps1[i], ps1[i + 1], atlas) is Some && step_clear(
                barriers,
                ps1[i],
                ps1[i + 1],
            ));
        } else if i == l1 - 1 {
            assert(j[i] == ps1[i] && j[i + 1] == ps2[0]);
            assert(ps2[0] == ps1[i + 1]);
            assert(seg_time(ps1[i], ps1[i + 1], atlas) is Some && step_clear(
                barriers,
                ps1[i],
                ps1[i + 1],
            ));
        } else {
            assert(j[i] == ps2[i - l1] && j[i + 1] == ps2[i - l1 + 1]);
            assert(seg_time(ps2[i - l1], ps2[i - l1 + 1], atlas) is Some && step_clear(
                barriers,
                ps2[i - l1],
                ps2[i - l1 + 1],
            ));
        }
    }
}

/// Plan a track through the given waypoints over the given terrain.
///
/// For each consecutive waypoint pair a coarse grid graph is searched; the
/// coarse result seeds a fine corridor graph, whose result is relaxed.  If
/// the corridor search fails, the coarse result stands in for that pair.
/// The sub-tracks are joined at the shared waypoints.
///
/// A planned track visits the first and last waypoint exactly, every point
/// lies in the planning area, and every step is walkable and crosses no
/// barrier.
/// Route one waypoint pair: coarse search, fine corridor search, then
/// relaxation, falling back to the coarse result when the corridor
/// search fails.  Nothing comes back exactly when the coarse graph —
/// built complete over its covering ellipse — holds no route between the
/// anchors.
#[verifier::rlimit(100)]
#[verifier::spinoff_prover]
fn route_pair<A: AtlasModel>(w0: Coord, w1: Coord, params: &Params, atlas: &A) -> (r: Option<Path>)
    requires
        params.wf(),
        in_bounds(w0),
        in_bounds(w1),
    ensures
        r matches Some(p) ==> {
            &&& p.points@.len() >= 2
            &&& p.points@[0] == w0
            &&& p.points@.last() == w1
            &&& path_ok(p.points@, params.barriers@, atlas)
        },
        r is None ==> crate::graph::pair_coarse_unreachable(w0, w1, *params, atlas),
        r is Some ==> crate::graph::pair_coarse_reachable(w0, w1, *params, atlas),
{
    let mut g = crate::graph::Graph::new(w0, w1, params);
    let ghost g_init = g;
    g.build_graph_from_end_points(atlas);
    proof {
        crate::graph::lemma_geometry_stable(g_init, g, w0, w1, *params);
        reveal(crate::graph::coarse_graph_for);
        assert(crate::graph::coarse_graph_for(g, w0, w1, *params, atlas));
    }
    let p1opt = g.shortest_path();
    match p1opt {
        Option::None => {
            proof {
                reveal(crate::graph::coarse_unreachable);
                assert(crate::graph::coarse_unreachable(g, w0, w1, *params, atlas));
            }
            None
        },
        Option::Some(p1) => {
            proof {
                reveal(crate::graph::coarse_reachable);
                assert(crate::graph::coarse_reachable(g, w0, w1, *params, atlas));
                crate::graph::lemma_built_path_ok(g, p1, atlas);
                crate::graph::lemma_path_ok_barriers(
                    p1.points@,
                    g.barriers@,
                    params.barriers@,
                    atlas,
                );
            }
            let mut g2 = crate::graph::Graph::new(w0, w1, params);
            g2.build_graph_from_path(&p1, atlas);
            let p2opt = g2.shortest_path();
            let sub: Path = match p2opt {
                Option::Some(p2) => {
                    proof {
                        crate::graph::lemma_built_path_ok(g2, p2, atlas);
                        crate::graph::lemma_path_ok_barriers(
                            p2.points@,
                            g2.barriers@,
                            params.barriers@,
                            atlas,
                        );
                    }
                    let mut p2m = p2;
                    p2m.optimize(&params.barriers, atlas);
                    p2m
                },
                Option::None => p1,
            };
            Some(sub)
        },
    }
}

/// Plan a track through the given waypoints over the given terrain.
///
/// For each consecutive waypoint pair a coarse grid graph is searched; the
/// coarse result seeds a fine corridor graph, whose result is relaxed.  If
/// the corridor search fails, the coarse result stands in for that pair.
/// The sub-tracks are joined at the shared waypoints.
///
/// A planned track visits the first and last waypoint exactly, every point
/// lies in the planning area, and every step is walkable and crosses no
/// barrier.  `Unreachable` comes back only when a properly built coarse
/// graph — complete over its covering ellipse, with both anchors attached
/// — holds no route between that pair's anchors.
#[verifier::rlimit(100)]
#[verifier::spinoff_prover]
pub fn plan<A: AtlasModel>(params: &Params, atlas: &A) -> (r: Result<Path, PlanError>)
    requires
        params.wf(),
    ensures
        (r matches Err(e) && e == PlanError::TooFewWaypoints) <==> params.points@.len() < 2,
        r matches Ok(p) ==> {
            &&& p.points@.len() >= 2
            &&& p.points@[0] == params.points@[0]
            &&& p.points@.last() == params.points@.last()
            &&& path_ok(p.points@, params.barriers@, atlas)
        },
        r is Ok ==> forall|pair: int|
            #![trigger params.points@[pair]]
            0 <= pair < params.points@.len() - 1 ==> crate::graph::pair_coarse_reachable(
                params.points@[pair],
                params.points@[pair + 1],
                *params,
                atlas,
            ),
        r is Err && r->Err_0 is Unreachable ==> {
            let pair = r->Err_0->pair;
            &&& pair + 2 <= params.points@.len()
            &&& crate::graph::pair_coarse_unreachable(
                params.points@[pair as int],
                params.points@[pair + 1],
                *params,
                atlas,
            )
        },
{
    let m = params.points.len();
    if m < 2 {
        return Err(PlanError::TooFewWaypoints);
    }
    let mut acc = Path::new();
    let mut i: usize = 0;
    while i < m - 1
        invariant
            params.wf(),
            m == params.points@.len(),
            m >= 2,
            i <= m - 1,
            i == 0 ==> acc.points@.len() == 0,
            i > 0 ==> acc.points@.len() >= 2 && path_ok(acc.points@, params.barriers@, atlas)
                && acc.points@[0] == params.points@[0] && acc.points@.last()
                == params.points@[i as int],
            forall|pair: int|
                #![trigger params.points@[pair]]
                0 <= pair < i ==> crate::graph::pair_coarse_reachable(
                    params.points@[pair],
                    params.points@[pair + 1],
                    *params,
                    atlas,
                ),
        decreases m - i,
    {
        let w0 = params.points[i];
        let w1 = params.points[i + 1];
        match route_pair(w0, w1, params, atlas) {
            Option::None => {
                proof {
                    assert(w0 == params.points@[i as int] && w1 == params.points@[i + 1]);
                    assert(crate::graph::pair_coarse_unreachable(
                        params.points@[i as int],
                        params.points@[i + 1],
                        *params,
                        atlas,
                    ));
                }
                return Err(PlanError::Unreachable { pair: i });
            },
            Option::Some(mut sub) => {
                proof {
                    assert(w0 == params.points@[i as int] && w1 == params.points@[i + 1]);
                    assert(crate::graph::pair_coarse_reachable(
                        params.points@[i as int],
                        params.points@[i + 1],
                        *params,
                        atlas,
                    ));
                }
                let ghost acc0 = acc.points@;
                let ghost sub0 = sub.points@;
                acc.append(&mut sub);
                proof {
                    if acc0.len() == 0 {
                        assert(acc.points@ == sub0);
                    } else {
                        lemma_path_ok_append(acc0, sub0, params.barriers@, atlas);
                        assert(acc.points@ == acc0.drop_last() + sub0);
                        assert(acc.points@[0] == acc0[0]);
                        assert(acc.points@.last() == sub0.last());
                    }
                }
            },
        }
        i = i + 1;
    }
    Ok(acc)
}

impl Path {
    /// Plan a track from the configured waypoints, or nothing when some
    /// consecutive pair cannot be connected.
    #[verifier::rlimit(100)]
    #[verifier::spinoff_prover]
    pub fn from_points<A: AtlasModel>(params: &Params, atlas: &A) -> (r: Option<Path>)
        requires
            params.wf(),
            params.points@.len() >= 2,
        ensures
            r matches Some(p) ==> {
                &&& p.points@.len() >= 2
                &&& p.points@[0] == params.points@[0]
                &&& p.points@.last() == params.points@.last()
                &&& path_ok(p.points@, params.barriers@, atlas)
            },
            r is Some ==> forall|pair: int|
                #![trigger params.points@[pair]]
                0 <= pair < params.points@.len() - 1 ==> crate::graph::pair_coarse_reachable(
                    params.points@[pair],
                    params.points@[pair + 1],
                    *params,
                    atlas,
                ),
            r is None ==> exists|pair: int|
                #![trigger params.points@[pair]]
                0 <= pair && pair + 2 <= params.points@.len() && crate::graph::pair_coarse_unreachable(
                    params.points@[pair],
                    params.points@[pair + 1],
                    *params,
                    atlas,
                ),
    {
        match plan(params, atlas) {
            Result::Ok(p) => Option::Some(p),
            Result::Err(_) => Option::None,
        }
    }
}

/// The total length of a polyline, in millimetres.
pub open spec fn path_len(ps: Seq<Coord>) -> int
    decreases ps.len(),
{
    if ps.len() <= 1 {
        0
    } else {
        seg_len(ps[0], ps[1]) + path_len(ps.subrange(1, ps.len() as int))
    }
}

/// The total climb of a polyline walked forwards, in micrometres.
pub open spec fn path_climb<A: AtlasModel>(ps: Seq<Coord>, atlas: &A) -> int
    decreases ps.len(),
{
    if ps.len() <= 1 {
        0
    } else {
        seg_climb(ps[0], ps[1], atlas) + path_climb(ps.subrange(1, ps.len() as int), atlas)
    }
}

/// The total climb of a polyline walked backwards, in micrometres.
pub open spec fn path_descent<A: AtlasModel>(ps: Seq<Coord>, atlas: &A) -> int
    decreases ps.len(),
{
    if ps.len() <= 1 {
        0
    } else {
        seg_climb(ps[1], ps[0], atlas) + path_descent(ps.subrange(1, ps.len() as int), atlas)
    }
}

impl Path {
    /// The track's total length in millimetres.
    pub fn len(&self) -> (r: u128)
        requires
            points_in_bounds(self.points@),
        ensures
            r == path_len(self.points@),
    {
        let ps = &self.points;
        let n = ps.len();
        if n <= 1 {
            return 0;
        }
        let mut acc: u128 = 0;
        let mut i: usize = 0;
        let ghost whole = self.points@;
        proof {
            assert(whole.subrange(0, n as int) =~= whole);
        }
        while i < n - 1
            invariant
                n == whole.len(),
                n >= 2,
                whole == self.points@,
                ps == &self.points,
                points_in_bounds(whole),
                i <= n - 1,
                acc <= i * 300_000_000,
                acc + path_len(whole.subrange(i as int, n as int)) == path_len(whole),
            decreases n - i,
        {
            let ghost tail = whole.subrange(i as int, n as int);
            proof {
                assert(tail[0] == whole[i as int] && tail[1] == whole[i + 1]);
                assert(tail.subrange(1, tail.len() as int) =~= whole.subrange(i + 1, n as int));
                assert((i + 1) * 300_000_000 == i * 300_000_000 + 300_000_000) by (nonlinear_arith);
                assert((i + 1) * 300_000_000 <= 20_000_000_000_000_000_000 * 300_000_000int)
                    by (nonlinear_arith)
                    requires
                        0 <= i + 1 <= 20_000_000_000_000_000_000,
                ;
            }
            let d = dist_mm(ps[i], ps[i + 1]);
            acc = acc + (d as u128);
            i = i + 1;
        }
        proof {
            assert(path_len(whole.subrange(i as int, n as int)) == 0);
        }
        acc
    }

    /// The track's total climb — uphill metres gained walking it forwards
    /// — in micrometres.
    pub fn elevation<A: AtlasModel>(&self, atlas: &A) -> (r: u128)
        requires
            points_in_bounds(self.points@),
        ensures
            r == path_climb(self.points@, atlas),
    {
        let ps = &self.points;
        let n = ps.len();
        if n <= 1 {
            return 0;
        }
        let mut acc: u128 = 0;
        let mut i: usize = 0;
        let ghost whole = self.points@;
        proof {
            assert(whole.subrange(0, n as int) =~= whole);
        }
        while i < n - 1
            invariant
                n == whole.len(),
                n >= 2,
                whole == self.points@,
                ps == &self.points,
                points_in_bounds(whole),
                i <= n - 1,
                acc <= i * 1_300_000_000_000_000_000,
                acc + path_climb(whole.subrange(i as int, n as int), atlas) == path_climb(
                    whole,
                    atlas,
                ),
            decreases n - i,
        {
            let ghost tail = whole.subrange(i as int, n as int);
            proof {
                assert(tail[0] == whole[i as int] && tail[1] == whole[i + 1]);
                assert(tail.subrange(1, tail.len() as int) =~= whole.subrange(i + 1, n as int));
                assert((i + 1) * 1_300_000_000_000_000_000 == i * 1_300_000_000_000_000_000
                    + 1_300_000_000_000_000_000) by (nonlinear_arith);
                assert((i + 1) * 1_300_000_000_000_000_000 <= 20_000_000_000_000_000_000
                    * 1_300_000_000_000_000_000int) by (nonlinear_arith)
                    requires
                        0 <= i + 1 <= 20_000_000_000_000_000_000,
                ;
            }
            let seg = Segment { a: ps[i], b: ps[i + 1] };
            let h = seg.height(atlas);
            acc = acc + (h as u128);
            i = i + 1;
        }
        proof {
            assert(path_climb(whole.subrange(i as int, n as int), atlas) == 0);
        }
        acc
    }

    /// The track's total descent — uphill metres it would gain walked
    /// backwards — in micrometres.
    pub fn descent<A: AtlasModel>(&self, atlas: &A) -> (r: u128)
        requires
            points_in_bounds(self.points@),
        ensures
            r == path_descent(self.points@, atlas),
    {
        let ps = &self.points;
        let n = ps.len();
        if n <= 1 {
            return 0;
        }
        let mut acc: u128 = 0;
        let mut i: usize = 0;
        let ghost whole = self.points@;
        proof {
            assert(whole.subrange(0, n as int) =~= whole);
        }
        while i < n - 1
            invariant
                n == whole.len(),
                n >= 2,
                whole == self.points@,
                ps == &self.points,
                points_in_bounds(whole),
                i <= n - 1,
                acc <= i * 1_300_000_000_000_000_000,
                acc + path_descent(whole.subrange(i as int, n as int), atlas) == path_descent(
                    whole,
                    atlas,
                ),
            decreases n - i,
        {
            let ghost tail = whole.subrange(i as int, n as int);
            proof {
                assert(tail[0] == whole[i as int] && tail[1] == whole[i + 1]);
                assert(tail.subrange(1, tail.len() as int) =~= whole.subrange(i + 1, n as int));
                assert((i + 1) * 1_300_000_000_000_000_000 == i * 1_300_000_000_000_000_000
                    + 1_300_000_000_000_000_000) by (nonlinear_arith);
                assert((i + 1) * 1_300_000_000_000_000_000 <= 20_000_000_000_000_000_000
                    * 1_300_000_000_000_000_000int) by (nonlinear_arith)
                    requires
                        0 <= i + 1 <= 20_000_000_000_000_000_000,
                ;
            }
            let seg = Segment { a: ps[i + 1], b: ps[i] };
            let h = seg.height(atlas);
            acc = acc + (h as u128);
            i = i + 1;
        }
        proof {
            assert(path_descent(whole.subrange(i as int, n as int), atlas) == 0);
        }
        acc
    }
}

} // verus!
