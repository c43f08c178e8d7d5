//! Read-only access to an elevation atlas: the terrain's spatial gradient at
//! any planar coordinate.
//!
//! The planner consumes gradients only.  An atlas implementation answers with
//! the two partial derivatives of the elevation surface, in thousandths
//! (metres of climb per metre of travel).  The concrete atlases here describe
//! synthetic terrains; a host samples a real elevation model into the same
//! interface.

use vstd::prelude::*;
use crate::coord::Coord;

verus! {

/// The terrain gradient at a point: partial derivatives of elevation along
/// easting (`de`) and northing (`dn`), in thousandths.
#[derive(Clone, Copy, Debug, PartialEq, Eq, Structural)]
pub struct GradSample {
    pub de: i32,
    pub dn: i32,
}

/// A read-only elevation atlas.  `grad_spec` is the mathematical terrain; the
/// executable `gradient` must answer exactly according to it, so that every
/// cost computed from an atlas is a pure function of the coordinate.
pub trait AtlasModel: Sized {
    /// The terrain itself: the gradient this atlas holds at `c`.
    spec fn grad_spec(&self, c: Coord) -> GradSample;

    /// Look up the gradient at a coordinate.
    fn gradient(&self, c: Coord) -> (r: GradSample)
        ensures
            r == self.grad_spec(c),
    ;
}

/// An atlas with zero gradient everywhere: perfectly flat terrain.
pub struct FlatAtlas {}

impl AtlasModel for FlatAtlas {
    open spec fn grad_spec(&self, c: Coord) -> GradSample {
        GradSample { de: 0, dn: 0 }
    }

    fn gradient(&self, c: Coord) -> (r: GradSample) {
        GradSample { de: 0, dn: 0 }
    }
}

/// An atlas with the same gradient everywhere: an inclined plane.
pub struct SlopeAtlas {
    pub de: i32,
    pub dn: i32,
}

impl AtlasModel for SlopeAtlas {
    open spec fn grad_spec(&self, c: Coord) -> GradSample {
        GradSample { de: self.de, dn: self.dn }
    }

    fn gradient(&self, c: Coord) -> (r: GradSample) {
        GradSample { de: self.de, dn: self.dn }
    }
}

/// An atlas backed by per-cell samples on a rectangular window of the
/// lattice: the gradient of cell `(x, y)` sits at row `y - y0`, column
/// `x - x0` of a row-major sample vector.  Outside the window the terrain
/// is flat.  A host samples its elevation model into this shape once and
/// the planner reads it as pure data.
pub struct GridAtlas {
    /// The lattice column of the window's west edge.
    pub x0: i64,
    /// The lattice row of the window's south edge.
    pub y0: i64,
    /// Samples per row.
    pub width: usize,
    /// Rows in the window.
    pub height: usize,
    /// The samples, row by row from the south-west corner.
    pub samples: Vec<GradSample>,
}

impl GridAtlas {
    /// The window's corner indices and width are small enough that cell
    /// offsets stay exact.
    pub open spec fn wf(&self) -> bool {
        &&& -1_000_000 <= self.x0 <= 1_000_000
        &&& -1_000_000 <= self.y0 <= 1_000_000
        &&& 1 <= self.width <= 1_000_000_000
        &&& 1 <= self.height <= 1_000_000_000
    }
}

impl AtlasModel for GridAtlas {
    open spec fn grad_spec(&self, c: Coord) -> GradSample {
        let cx = crate::field::fx(c) - self.x0;
        let cy = crate::field::fy(c) - self.y0;
        if self.wf() && 0 <= cx < self.width && 0 <= cy < self.height && cy * self.width + cx
            < self.samples@.len() {
            self.samples@[cy * self.width + cx]
        } else {
            GradSample { de: 0, dn: 0 }
        }
    }

    fn gradient(&self, c: Coord) -> (r: GradSample) {
        if self.x0 < -1_000_000 || self.x0 > 1_000_000 || self.y0 < -1_000_000 || self.y0
            > 1_000_000 || self.width < 1 || self.width > 1_000_000_000 || self.height < 1
            || self.height > 1_000_000_000 {
            return GradSample { de: 0, dn: 0 };
        }
        if c.e < -2_000_000_000_000 || c.e > 2_000_000_000_000 || c.n < -2_000_000_000_000 || c.n
            > 2_000_000_000_000 {
            proof {
                assert(2_000_000_000_000int / 1000 == 2_000_000_000);
                assert((-2_000_000_000_000int) / 1000 == -2_000_000_000);
                if c.e > 2_000_000_000_000 {
                    vstd::arithmetic::div_mod::lemma_div_is_ordered(
                        2_000_000_000_000,
                        c.e as int,
                        1000,
                    );
                    assert(crate::field::fx(c) >= 2_000_000_000);
                    assert(!(crate::field::fx(c) - self.x0 < self.width));
                } else if c.e < -2_000_000_000_000 {
                    vstd::arithmetic::div_mod::lemma_div_is_ordered(
                        c.e as int,
                        -2_000_000_000_000,
                        1000,
                    );
                    assert(crate::field::fx(c) <= -2_000_000_000);
                    assert(crate::field::fx(c) - self.x0 < 0);
                } else if c.n > 2_000_000_000_000 {
                    vstd::arithmetic::div_mod::lemma_div_is_ordered(
                        2_000_000_000_000,
                        c.n as int,
                        1000,
                    );
                    assert(crate::field::fy(c) >= 2_000_000_000);
                    assert(!(crate::field::fy(c) - self.y0 < self.height));
                } else {
                    vstd::arithmetic::div_mod::lemma_div_is_ordered(
                        c.n as int,
                        -2_000_000_000_000,
                        1000,
                    );
                    assert(crate::field::fy(c) <= -2_000_000_000);
                    assert(crate::field::fy(c) - self.y0 < 0);
                }
            }
            return GradSample { de: 0, dn: 0 };
        }
        let cx: i64 = crate::num::floor_div_1000(c.e) - self.x0;
        let cy: i64 = crate::num::floor_div_1000(c.n) - self.y0;
        if cx < 0 || cy < 0 || cx >= self.width as i64 || cy >= self.height as i64 {
            return GradSample { de: 0, dn: 0 };
        }
        proof {
            assert(0 <= (cy as int) * (self.width as int) <= 2_100_000_000_000_000_000_000_000_000)
                by (nonlinear_arith)
                requires
                    0 <= cy <= 1_000_000_000,
                    1 <= self.width <= 1_000_000_000,
            ;
        }
        let idx128: i128 = (cy as i128) * (self.width as i128) + (cx as i128);
        if idx128 >= self.samples.len() as i128 {
            return GradSample { de: 0, dn: 0 };
        }
        let idx: usize = idx128 as usize;
        self.samples[idx]
    }
}

/// An atlas that is flat except on a vertical strip `lo <= e <= hi`
/// (millimetres), where it has the given constant gradient.
pub struct BandAtlas {
    pub lo: i64,
    pub hi: i64,
    pub de: i32,
    pub dn: i32,
}

impl AtlasModel for BandAtlas {
    open spec fn grad_spec(&self, c: Coord) -> GradSample {
        if self.lo <= c.e <= self.hi {
            GradSample { de: self.de, dn: self.dn }
        } else {
            GradSample { de: 0, dn: 0 }
        }
    }

    fn gradient(&self, c: Coord) -> (r: GradSample) {
        if self.lo <= c.e && c.e <= self.hi {
            GradSample { de: self.de, dn: self.dn }
        } else {
            GradSample { de: 0, dn: 0 }
        }
    }
}

} // verus!
