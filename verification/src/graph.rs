//! The implicit grid graph a route is searched on.
//!
//! A graph is built for one pair of endpoints.  Its candidate nodes live
//! on a square lattice centred between the endpoints and are admitted when
//! they fall inside a covering ellipse whose focal points lie on the
//! endpoint axis.  Edges connect nearby admitted nodes, weighted by the
//! traversal time of the straight step between them; a step that crosses a
//! barrier, or is too steep to walk, gets no edge.  Every edge the builder
//! emits carries exactly the traversal time of its step, which is what the
//! search's optimality means on the ground.

use vstd::prelude::*;
use std::collections::HashMap;
use crate::atlas::AtlasModel;
use crate::barrier::{Barrier, barrier_wf, polyline_crosses};
use crate::coord::{Coord, in_bounds, dist_mm, midpoint};
use crate::num::{tdiv, tdiv_i64, isqrt_u64};
use crate::params::Params;
use crate::path::{Path, Segment, seg_time, points_in_bounds};
use crate::search::{Edge, edges_wf, dijkstra, route_ok, route_weight, route_nodes};

verus! {

broadcast use vstd::std_specs::hash::group_hash_axioms;

/// Every edge's endpoints are stored nodes, its weight is exactly the
/// traversal time of the straight step between them, and that step
/// crosses no barrier.
pub open spec fn graph_edges_valid<A: AtlasModel>(
    edges: Seq<Edge>,
    nodes: Seq<Coord>,
    barriers: Seq<Barrier>,
    atlas: &A,
) -> bool {
    forall|k: int|
        0 <= k < edges.len() ==> {
            let e = #[trigger] edges[k];
            &&& e.0 < nodes.len()
            &&& e.1 < nodes.len()
            &&& seg_time(nodes[e.0 as int], nodes[e.1 as int], atlas) == Some(e.2 as int)
            &&& forall|j: int|
                0 <= j < barriers.len() ==> !polyline_crosses(
                    (#[trigger] barriers[j]).points@,
                    nodes[e.0 as int],
                    nodes[e.1 as int],
                )
        }
}

/// Edge validity is kept when nodes are appended.
pub proof fn lemma_edges_valid_extend<A: AtlasModel>(
    edges: Seq<Edge>,
    nodes: Seq<Coord>,
    nodes2: Seq<Coord>,
    barriers: Seq<Barrier>,
    atlas: &A,
)
    requires
        graph_edges_valid(edges, nodes, barriers, atlas),
        nodes.is_prefix_of(nodes2),
    ensures
        graph_edges_valid(edges, nodes2, barriers, atlas),
{
    assert forall|k: int| 0 <= k < edges.len() implies {
        let e = #[trigger] edges[k];
        &&& e.0 < nodes2.len()
        &&& e.1 < nodes2.len()
        &&& seg_time(nodes2[e.0 as int], nodes2[e.1 as int], atlas) == Some(e.2 as int)
        &&& forall|j: int|
            0 <= j < barriers.len() ==> !polyline_crosses(
                (#[trigger] barriers[j]).points@,
                nodes2[e.0 as int],
                nodes2[e.1 as int],
            )
    } by {
        let e = edges[k];
        assert(nodes2[e.0 as int] == nodes[e.0 as int]);
        assert(nodes2[e.1 as int] == nodes[e.1 as int]);
    }
}

/// Edge validity is kept when a valid edge is appended.
pub proof fn lemma_edges_valid_push<A: AtlasModel>(
    edges: Seq<Edge>,
    nodes: Seq<Coord>,
    barriers: Seq<Barrier>,
    atlas: &A,
    e: Edge,
)
    requires
        graph_edges_valid(edges, nodes, barriers, atlas),
        e.0 < nodes.len(),
        e.1 < nodes.len(),
        seg_time(nodes[e.0 as int], nodes[e.1 as int], atlas) == Some(e.2 as int),
        forall|j: int|
            0 <= j < barriers.len() ==> !polyline_crosses(
                (#[trigger] barriers[j]).points@,
                nodes[e.0 as int],
                nodes[e.1 as int],
            ),
    ensures
        graph_edges_valid(edges.push(e), nodes, barriers, atlas),
{
    let edges2 = edges.push(e);
    assert forall|k: int| 0 <= k < edges2.len() implies {
        let e2 = #[trigger] edges2[k];
        &&& e2.0 < nodes.len()
        &&& e2.1 < nodes.len()
        &&& seg_time(nodes[e2.0 as int], nodes[e2.1 as int], atlas) == Some(e2.2 as int)
        &&& forall|j: int|
            0 <= j < barriers.len() ==> !polyline_crosses(
                (#[trigger] barriers[j]).points@,
                nodes[e2.0 as int],
                nodes[e2.1 as int],
            )
    } by {
        if k < edges.len() {
            assert(edges2[k] == edges[k]);
            assert(graph_edges_valid(edges, nodes, barriers, atlas));
        } else {
            assert(edges2[k] == e);
        }
    }
}

/// The easting of lattice cell column `x` on the grid with spacing `gs`
/// and extent `g` centred at `o`.
pub open spec fn cell_e(o: Coord, gs: int, g: int, x: int) -> int {
    x * gs + o.e - ((g - 1) / 2) * gs
}

/// The northing of lattice cell row `y` on the same grid.
pub open spec fn cell_n(o: Coord, gs: int, g: int, y: int) -> int {
    y * gs + o.n - ((g - 1) / 2) * gs
}

/// The planar point of lattice cell `(x, y)`.
pub open spec fn cell_coord(o: Coord, gs: int, g: int, x: int, y: int) -> Coord {
    Coord { e: cell_e(o, gs, g, x) as i64, n: cell_n(o, gs, g, y) as i64 }
}

/// The interning key of cell `(x, y)`.
pub open spec fn cell_key(x: int, y: int) -> u64 {
    (x * 0x1_0000_0000 + y) as u64
}

/// Cell keys are distinct for distinct cells in the supported range.
pub proof fn lemma_cell_key_injective(x1: int, y1: int, x2: int, y2: int)
    requires
        0 <= x1 < 0x8000_0000,
        0 <= y1 < 0x8000_0000,
        0 <= x2 < 0x8000_0000,
        0 <= y2 < 0x8000_0000,
        cell_key(x1, y1) == cell_key(x2, y2),
    ensures
        x1 == x2 && y1 == y2,
{
    assert(x1 * 0x1_0000_0000 + y1 == x2 * 0x1_0000_0000 + y2 ==> x1 == x2 && y1 == y2)
        by (nonlinear_arith)
        requires
            0 <= x1 < 0x8000_0000 && 0 <= y1 < 0x1_0000_0000 && 0 <= x2 < 0x8000_0000 && 0 <= y2
                < 0x1_0000_0000,
    ;
    assert(0 <= x1 * 0x1_0000_0000 + y1 < 0x8000_0000_0000_0000 && 0 <= x2 * 0x1_0000_0000 + y2
        < 0x8000_0000_0000_0000) by (nonlinear_arith)
        requires
            0 <= x1 < 0x8000_0000 && 0 <= y1 < 0x1_0000_0000 && 0 <= x2 < 0x8000_0000 && 0 <= y2
                < 0x1_0000_0000,
    ;
}

/// Whether cell `(x, y)` may become a node: its point lies in the
/// planning area, its indices in the supported range, and — when the
/// area check is on — inside the covering ellipse.
pub open spec fn cell_admitted(gr: Graph, gs: int, g: int, x: int, y: int, check_area: bool) -> bool {
    &&& -100_000_000 <= cell_e(gr.o, gs, g, x) <= 100_000_000
    &&& -100_000_000 <= cell_n(gr.o, gs, g, y) <= 100_000_000
    &&& (check_area ==> crate::num::sqrt_of(crate::coord::dist_sq(cell_coord(gr.o, gs, g, x, y), gr.f1))
        + crate::num::sqrt_of(crate::coord::dist_sq(cell_coord(gr.o, gs, g, x, y), gr.f2)) <= 2 * gr.major)
    &&& 0 <= x < 0x8000_0000
    &&& 0 <= y < 0x8000_0000
}

/// Every interned cell's node carries that cell's planar point on the
/// grid with spacing `gs` and extent `g`.
pub open spec fn cells_assoc(gr: Graph, gs: int, g: int) -> bool {
    forall|x: int, y: int|
        0 <= x < 0x8000_0000 && 0 <= y < 0x8000_0000 && gr.cmap@.contains_key(
            #[trigger] cell_key(x, y),
        ) ==> gr.cmap@[cell_key(x, y)] < gr.nodes@.len() && gr.nodes@[gr.cmap@[cell_key(x, y)] as int]
            == cell_coord(gr.o, gs, g, x, y)
}

/// The edges one `connect` call owes a pair of stored nodes: none when
/// the step crosses a barrier, else one directed edge per finite
/// traversal time, weighted exactly by that time.
pub open spec fn connect_edges<A: AtlasModel>(
    nodes: Seq<Coord>,
    barriers: Seq<Barrier>,
    i: int,
    j: int,
    atlas: &A,
) -> Seq<Edge> {
    if !crate::path::step_clear(barriers, nodes[i], nodes[j]) {
        Seq::empty()
    } else {
        (match seg_time(nodes[i], nodes[j], atlas) {
            Option::Some(t) => seq![(i as usize, j as usize, t as u64)],
            Option::None => Seq::empty(),
        }) + (match seg_time(nodes[j], nodes[i], atlas) {
            Option::Some(t) => seq![(j as usize, i as usize, t as u64)],
            Option::None => Seq::empty(),
        })
    }
}

/// Every edge the pair `(i, j)` is owed — per `connect_edges` — is stored.
pub open spec fn edges_subsumed<A: AtlasModel>(gr: Graph, i: int, j: int, atlas: &A) -> bool {
    forall|t: int|
        0 <= t < connect_edges(gr.nodes@, gr.barriers@, i, j, atlas).len() ==> gr.edges@.contains(
            #[trigger] connect_edges(gr.nodes@, gr.barriers@, i, j, atlas)[t],
        )
}

/// Two admitted coarse cells are interned and carry every edge their step
/// is owed.
pub open spec fn pair_linked<A: AtlasModel>(
    gr: Graph,
    x1: int,
    y1: int,
    x2: int,
    y2: int,
    atlas: &A,
) -> bool {
    cell_admitted(gr, gr.gs_pass1 as int, gr.g_pass1 as int, x1, y1, true) && cell_admitted(
        gr,
        gr.gs_pass1 as int,
        gr.g_pass1 as int,
        x2,
        y2,
        true,
    ) ==> {
        &&& gr.cmap@.contains_key(cell_key(x1, y1))
        &&& gr.cmap@.contains_key(cell_key(x2, y2))
        &&& edges_subsumed(
            gr,
            gr.cmap@[cell_key(x1, y1)] as int,
            gr.cmap@[cell_key(x2, y2)] as int,
            atlas,
        )
    }
}

/// The four node pairs the coarse sweep connects within the unit square
/// at `(x, y)` are all linked.
pub open spec fn square_linked<A: AtlasModel>(gr: Graph, x: int, y: int, atlas: &A) -> bool {
    &&& pair_linked(gr, x, y, x + 1, y, atlas)
    &&& pair_linked(gr, x, y, x, y + 1, atlas)
    &&& pair_linked(gr, x, y, x + 1, y + 1, atlas)
    &&& pair_linked(gr, x + 1, y, x, y + 1, atlas)
}

/// Every admitted coarse cell in columns up to `xmax` is interned.
pub open spec fn coarse_nodes_upto(gr: Graph, xmax: int) -> bool {
    forall|x: int, y: int|
        0 <= x <= xmax && 0 <= y <= gr.g_pass1 && cell_admitted(
            gr,
            gr.gs_pass1 as int,
            gr.g_pass1 as int,
            x,
            y,
            true,
        ) ==> gr.cmap@.contains_key(#[trigger] cell_key(x, y))
}

/// Both cells of columns `x` and `x + 1` are interned, where admitted,
/// for every row up to `ymax`.
pub open spec fn col_known(gr: Graph, gs: int, g: int, x: int, ymax: int) -> bool {
    forall|j: int|
        0 <= j <= ymax ==> ((#[trigger] cell_admitted(gr, gs, g, x, j, true)
            ==> gr.cmap@.contains_key(cell_key(x, j))) && (cell_admitted(
            gr,
            gs,
            g,
            x + 1,
            j,
            true,
        ) ==> gr.cmap@.contains_key(cell_key(x + 1, j))))
}

/// Every unit square in columns below `xmax` is fully linked.
pub open spec fn coarse_squares_upto<A: AtlasModel>(gr: Graph, xmax: int, atlas: &A) -> bool {
    forall|x: int, y: int|
        0 <= x < xmax && 0 <= y < gr.g_pass1 ==> #[trigger] square_linked(gr, x, y, atlas)
}

/// The coarse builder's completeness: every admitted lattice cell of the
/// sweep is a node at its cell's point, and every unit-square pair of
/// admitted cells carries every edge its step is owed.
pub open spec fn coarse_complete<A: AtlasModel>(gr: Graph, atlas: &A) -> bool {
    &&& cells_assoc(gr, gr.gs_pass1 as int, gr.g_pass1 as int)
    &&& coarse_nodes_upto(gr, gr.g_pass1 as int)
    &&& coarse_squares_upto(gr, gr.g_pass1 as int, atlas)
}

/// An anchor node is linked to one corner cell of its containing cell,
/// when that corner can be a node at all.
pub open spec fn corner_linked<A: AtlasModel>(
    gr: Graph,
    i: int,
    gs: int,
    g: int,
    cx: int,
    cy: int,
    atlas: &A,
) -> bool {
    cell_admitted(gr, gs, g, cx, cy, false) ==> {
        &&& gr.cmap@.contains_key(cell_key(cx, cy))
        &&& edges_subsumed(gr, i, gr.cmap@[cell_key(cx, cy)] as int, atlas)
    }
}

/// The lattice column of a stored node on the given grid.
pub open spec fn node_cell_x(gr: Graph, gs: int, g: int, i: int) -> int {
    tdiv(gr.nodes@[i].e - gr.o.e, gs) + (g - 1) / 2
}

/// The lattice row of a stored node on the given grid.
pub open spec fn node_cell_y(gr: Graph, gs: int, g: int, i: int) -> int {
    tdiv(gr.nodes@[i].n - gr.o.n, gs) + (g - 1) / 2
}

/// An anchor node is linked to each admissible corner of its containing
/// lattice cell.
pub open spec fn anchor_linked<A: AtlasModel>(gr: Graph, i: int, gs: int, g: int, atlas: &A) -> bool {
    let cx = node_cell_x(gr, gs, g, i);
    let cy = node_cell_y(gr, gs, g, i);
    &&& corner_linked(gr, i, gs, g, cx, cy, atlas)
    &&& corner_linked(gr, i, gs, g, cx + 1, cy, atlas)
    &&& corner_linked(gr, i, gs, g, cx, cy + 1, atlas)
    &&& corner_linked(gr, i, gs, g, cx + 1, cy + 1, atlas)
}

/// An element of a stored edge list stays stored when the list grows.
proof fn lemma_contains_app(s1: Seq<Edge>, s2: Seq<Edge>, e: Edge)
    requires
        s1.contains(e),
        s1.is_prefix_of(s2),
    ensures
        s2.contains(e),
{
    let k = choose|k: int| 0 <= k < s1.len() && s1[k] == e;
    assert(s2[k] == e);
}

/// Admission reads only the graph's fixed geometry, so it is stable
/// while the graph grows.
proof fn lemma_admitted_stable(g1: Graph, g2: Graph, gs: int, g: int, x: int, y: int, c: bool)
    requires
        g2.o == g1.o,
        g2.f1 == g1.f1,
        g2.f2 == g1.f2,
        g2.major == g1.major,
    ensures
        cell_admitted(g1, gs, g, x, y, c) == cell_admitted(g2, gs, g, x, y, c),
{
}

/// Owed edges once stored stay stored while the graph grows.
pub proof fn lemma_subsumed_grows<A: AtlasModel>(g1: Graph, g2: Graph, i: int, j: int, atlas: &A)
    requires
        g2.grows_from(g1),
        0 <= i < g1.nodes@.len(),
        0 <= j < g1.nodes@.len(),
        edges_subsumed(g1, i, j, atlas),
    ensures
        edges_subsumed(g2, i, j, atlas),
{
    assert(g2.nodes@[i] == g1.nodes@[i] && g2.nodes@[j] == g1.nodes@[j]);
    assert(connect_edges(g2.nodes@, g2.barriers@, i, j, atlas) == connect_edges(
        g1.nodes@,
        g1.barriers@,
        i,
        j,
        atlas,
    ));
    let ce = connect_edges(g1.nodes@, g1.barriers@, i, j, atlas);
    assert forall|t: int| 0 <= t < ce.len() implies g2.edges@.contains(#[trigger] ce[t]) by {
        assert(g1.edges@.contains(ce[t]));
        lemma_contains_app(g1.edges@, g2.edges@, ce[t]);
    }
}

/// A connect call leaves the pair it was given fully served.
proof fn lemma_subsumed_after_connect<A: AtlasModel>(g1: Graph, g2: Graph, i: int, j: int, atlas: &A)
    requires
        g2.edges@ == g1.edges@ + connect_edges(g1.nodes@, g1.barriers@, i, j, atlas),
        g2.nodes@ == g1.nodes@,
        g2.barriers == g1.barriers,
    ensures
        edges_subsumed(g2, i, j, atlas),
{
    let ce = connect_edges(g1.nodes@, g1.barriers@, i, j, atlas);
    assert(connect_edges(g2.nodes@, g2.barriers@, i, j, atlas) == ce);
    assert forall|t: int| 0 <= t < ce.len() implies g2.edges@.contains(#[trigger] ce[t]) by {
        assert(g2.edges@[g1.edges@.len() + t] == ce[t]);
    }
}

/// Pair linkage survives growth of the graph.
pub proof fn lemma_pair_linked_grows<A: AtlasModel>(
    g1: Graph,
    g2: Graph,
    x1: int,
    y1: int,
    x2: int,
    y2: int,
    atlas: &A,
)
    requires
        g1.wf(),
        g2.grows_from(g1),
        pair_linked(g1, x1, y1, x2, y2, atlas),
    ensures
        pair_linked(g2, x1, y1, x2, y2, atlas),
{
    lemma_admitted_stable(g1, g2, g1.gs_pass1 as int, g1.g_pass1 as int, x1, y1, true);
    lemma_admitted_stable(g1, g2, g1.gs_pass1 as int, g1.g_pass1 as int, x2, y2, true);
    if cell_admitted(g2, g2.gs_pass1 as int, g2.g_pass1 as int, x1, y1, true) && cell_admitted(
        g2,
        g2.gs_pass1 as int,
        g2.g_pass1 as int,
        x2,
        y2,
        true,
    ) {
        assert(g1.cmap@.contains_key(cell_key(x1, y1)) && g1.cmap@.contains_key(cell_key(x2, y2)));
        lemma_subsumed_grows(
            g1,
            g2,
            g1.cmap@[cell_key(x1, y1)] as int,
            g1.cmap@[cell_key(x2, y2)] as int,
            atlas,
        );
    }
}

/// Corner linkage survives growth of the graph.
pub proof fn lemma_corner_linked_grows<A: AtlasModel>(
    g1: Graph,
    g2: Graph,
    i: int,
    gs: int,
    g: int,
    cx: int,
    cy: int,
    atlas: &A,
)
    requires
        g1.wf(),
        g2.grows_from(g1),
        0 <= i < g1.nodes@.len(),
        corner_linked(g1, i, gs, g, cx, cy, atlas),
    ensures
        corner_linked(g2, i, gs, g, cx, cy, atlas),
{
    lemma_admitted_stable(g1, g2, gs, g, cx, cy, false);
    if cell_admitted(g2, gs, g, cx, cy, false) {
        assert(g1.cmap@.contains_key(cell_key(cx, cy)));
        lemma_subsumed_grows(g1, g2, i, g1.cmap@[cell_key(cx, cy)] as int, atlas);
    }
}

/// Anchor linkage survives growth of the graph.
pub proof fn lemma_anchor_linked_grows<A: AtlasModel>(
    g1: Graph,
    g2: Graph,
    i: int,
    gs: int,
    g: int,
    atlas: &A,
)
    requires
        g1.wf(),
        g2.grows_from(g1),
        0 <= i < g1.nodes@.len(),
        anchor_linked(g1, i, gs, g, atlas),
    ensures
        anchor_linked(g2, i, gs, g, atlas),
{
    assert(g2.nodes@[i] == g1.nodes@[i]);
    assert(node_cell_x(g2, gs, g, i) == node_cell_x(g1, gs, g, i) && node_cell_y(g2, gs, g, i)
        == node_cell_y(g1, gs, g, i));
    let cx = node_cell_x(g1, gs, g, i);
    let cy = node_cell_y(g1, gs, g, i);
    lemma_corner_linked_grows(g1, g2, i, gs, g, cx, cy, atlas);
    lemma_corner_linked_grows(g1, g2, i, gs, g, cx + 1, cy, atlas);
    lemma_corner_linked_grows(g1, g2, i, gs, g, cx, cy + 1, atlas);
    lemma_corner_linked_grows(g1, g2, i, gs, g, cx + 1, cy + 1, atlas);
}

/// The cell association survives a mutation that leaves the intern map
/// unchanged.
pub proof fn lemma_assoc_same_cmap(g1: Graph, g2: Graph, gs: int, g: int)
    requires
        cells_assoc(g1, gs, g),
        g2.grows_from(g1),
        g2.cmap@ == g1.cmap@,
    ensures
        cells_assoc(g2, gs, g),
{
    assert forall|x: int, y: int|
        0 <= x < 0x8000_0000 && 0 <= y < 0x8000_0000 && g2.cmap@.contains_key(
            #[trigger] cell_key(x, y),
        ) implies g2.cmap@[cell_key(x, y)] < g2.nodes@.len() && g2.nodes@[g2.cmap@[cell_key(
        x,
        y,
    )] as int] == cell_coord(g2.o, gs, g, x, y) by {
        assert(g1.cmap@.contains_key(cell_key(x, y)));
        assert(g2.nodes@[g1.cmap@[cell_key(x, y)] as int] == g1.nodes@[g1.cmap@[cell_key(
            x,
            y,
        )] as int]);
    }
}

/// The cell association survives interning one more cell.
pub proof fn lemma_assoc_insert(g1: Graph, g2: Graph, gs: int, g: int, x: int, y: int, vi: usize)
    requires
        cells_assoc(g1, gs, g),
        0 <= x < 0x8000_0000,
        0 <= y < 0x8000_0000,
        !g1.cmap@.contains_key(cell_key(x, y)),
        g2.o == g1.o,
        g2.nodes@ == g1.nodes@.push(cell_coord(g1.o, gs, g, x, y)),
        g2.cmap@ == g1.cmap@.insert(cell_key(x, y), vi),
        vi == g1.nodes@.len(),
    ensures
        cells_assoc(g2, gs, g),
{
    assert forall|x2: int, y2: int|
        0 <= x2 < 0x8000_0000 && 0 <= y2 < 0x8000_0000 && g2.cmap@.contains_key(
            #[trigger] cell_key(x2, y2),
        ) implies g2.cmap@[cell_key(x2, y2)] < g2.nodes@.len() && g2.nodes@[g2.cmap@[cell_key(
        x2,
        y2,
    )] as int] == cell_coord(g2.o, gs, g, x2, y2) by {
        if cell_key(x2, y2) == cell_key(x, y) {
            lemma_cell_key_injective(x2, y2, x, y);
            assert(g2.cmap@[cell_key(x2, y2)] == vi);
            assert(g2.nodes@[vi as int] == cell_coord(g1.o, gs, g, x, y));
        } else {
            assert(g1.cmap@.contains_key(cell_key(x2, y2)));
            assert(g2.cmap@[cell_key(x2, y2)] == g1.cmap@[cell_key(x2, y2)]);
            assert(g2.nodes@[g1.cmap@[cell_key(x2, y2)] as int] == g1.nodes@[g1.cmap@[cell_key(
                x2,
                y2,
            )] as int]);
        }
    }
}

/// The sweep's completeness so far survives growth of the graph.
pub proof fn lemma_coarse_upto_grows<A: AtlasModel>(g1: Graph, g2: Graph, xmax: int, atlas: &A)
    requires
        g1.wf(),
        g2.grows_from(g1),
        coarse_nodes_upto(g1, xmax),
        coarse_squares_upto(g1, xmax, atlas),
    ensures
        coarse_nodes_upto(g2, xmax),
        coarse_squares_upto(g2, xmax, atlas),
{
    assert forall|x: int, y: int|
        0 <= x <= xmax && 0 <= y <= g2.g_pass1 && cell_admitted(
            g2,
            g2.gs_pass1 as int,
            g2.g_pass1 as int,
            x,
            y,
            true,
        ) implies g2.cmap@.contains_key(#[trigger] cell_key(x, y)) by {
        lemma_admitted_stable(g1, g2, g1.gs_pass1 as int, g1.g_pass1 as int, x, y, true);
        assert(g1.cmap@.contains_key(cell_key(x, y)));
    }
    assert forall|x: int, y: int| 0 <= x < xmax && 0 <= y < g2.g_pass1 implies #[trigger] square_linked(
        g2,
        x,
        y,
        atlas,
    ) by {
        assert(square_linked(g1, x, y, atlas));
        lemma_pair_linked_grows(g1, g2, x, y, x + 1, y, atlas);
        lemma_pair_linked_grows(g1, g2, x, y, x, y + 1, atlas);
        lemma_pair_linked_grows(g1, g2, x, y, x + 1, y + 1, atlas);
        lemma_pair_linked_grows(g1, g2, x + 1, y, x, y + 1, atlas);
    }
}

/// The cell association survives one interning call, whatever it did.
pub proof fn lemma_assoc_after_insert(
    g1: Graph,
    g2: Graph,
    gs: int,
    g: int,
    x: int,
    y: int,
    r: Option<usize>,
)
    requires
        cells_assoc(g1, gs, g),
        g2.o == g1.o,
        r is None ==> g2 == g1,
        r matches Some(vi) ==> {
            &&& (g1.cmap@.contains_key(cell_key(x, y)) ==> g2 == g1)
            &&& (!g1.cmap@.contains_key(cell_key(x, y)) ==> vi == g1.nodes@.len() && g2.nodes@
                == g1.nodes@.push(cell_coord(g1.o, gs, g, x, y)) && g2.cmap@
                == g1.cmap@.insert(cell_key(x, y), vi))
            &&& 0 <= x < 0x8000_0000
            &&& 0 <= y < 0x8000_0000
        },
    ensures
        cells_assoc(g2, gs, g),
{
    match r {
        Option::None => {},
        Option::Some(vi) => {
            if !g1.cmap@.contains_key(cell_key(x, y)) {
                lemma_assoc_insert(g1, g2, gs, g, x, y, vi);
            }
        },
    }
}

/// The geometry predicate reads only fields the builders never touch.
pub proof fn lemma_geometry_stable(g1: Graph, g2: Graph, a: Coord, b: Coord, params: Params)
    requires
        graph_geometry(a, b, params, g1),
        g2.o == g1.o,
        g2.f1 == g1.f1,
        g2.f2 == g1.f2,
        g2.major == g1.major,
        g2.gs_pass1 == g1.gs_pass1,
        g2.gs_pass2 == g1.gs_pass2,
        g2.g_pass1 == g1.g_pass1,
        g2.g_pass2 == g1.g_pass2,
    ensures
        graph_geometry(a, b, params, g2),
{
}

/// What the planner's coarse stage guarantees of the graph it searched:
/// built for the waypoint pair under the given parameters, with the
/// documented geometry and barriers, complete over its sweep, and with
/// both anchors attached to their cells.
#[verifier::opaque]
pub open spec fn coarse_graph_for<A: AtlasModel>(
    gr: Graph,
    a: Coord,
    b: Coord,
    params: Params,
    atlas: &A,
) -> bool {
    &&& gr.built(atlas)
    &&& gr.a == a
    &&& gr.b == b
    &&& graph_geometry(a, b, params, gr)
    &&& gr.barriers@.len() == params.barriers@.len()
    &&& (forall|i: int|
        0 <= i < params.barriers@.len() ==> (#[trigger] gr.barriers@[i]).points@
            == params.barriers@[i].points@)
    &&& coarse_complete(gr, atlas)
    &&& anchor_linked(gr, 0, gr.gs_pass1 as int, gr.g_pass1 as int, atlas)
    &&& anchor_linked(gr, gr.end_node as int, gr.gs_pass1 as int, gr.g_pass1 as int, atlas)
}

/// A coarse graph properly built for the pair in which no route joins
/// the two anchors.
#[verifier::opaque]
pub open spec fn coarse_unreachable<A: AtlasModel>(
    gr: Graph,
    a: Coord,
    b: Coord,
    params: Params,
    atlas: &A,
) -> bool {
    coarse_graph_for(gr, a, b, params, atlas) && (forall|rt: Seq<int>|
        !route_ok(gr.edges@, rt, 0, gr.end_node as int))
}

/// The lattice cell column of a planar point on the given grid.
pub open spec fn point_cell_x(gr: Graph, gs: int, g: int, c: Coord) -> int {
    tdiv(c.e - gr.o.e, gs) + (g - 1) / 2
}

/// The lattice cell row of a planar point on the given grid.
pub open spec fn point_cell_y(gr: Graph, gs: int, g: int, c: Coord) -> int {
    tdiv(c.n - gr.o.n, gs) + (g - 1) / 2
}

/// One interpolated corridor coordinate, step `i` of `clen` between the
/// cell coordinates `a0` and `a1`.
pub open spec fn corridor_coord(a0: int, a1: int, clen: int, i: int) -> int {
    if a1 > a0 {
        (a1 - a0) * i / clen + a0
    } else {
        a0 - (a0 - a1) * i / clen
    }
}

/// The length of a corridor in lattice steps.
pub open spec fn corridor_len(x0: int, y0: int, x1: int, y1: int) -> int {
    let dx = if x1 > x0 {
        x1 - x0
    } else {
        x0 - x1
    };
    let dy = if y1 > y0 {
        y1 - y0
    } else {
        y0 - y1
    };
    if dx > dy {
        dx
    } else {
        dy
    }
}

/// A fine-pass cell is interned whenever it can be a node at all.
pub open spec fn cell_known_if_admitted(gr: Graph, x: int, y: int) -> bool {
    cell_admitted(gr, gr.gs_pass2 as int, gr.g_pass2 as int, x, y, false)
        ==> gr.cmap@.contains_key(cell_key(x, y))
}

/// The four perimeter cells of the dragged square at one corridor step
/// are interned where admissible.
pub open spec fn corridor_step_known(gr: Graph, x0: int, y0: int, x1: int, y1: int, i: int) -> bool {
    let xn = corridor_coord(x0, x1, corridor_len(x0, y0, x1, y1), i);
    let yn = corridor_coord(y0, y1, corridor_len(x0, y0, x1, y1), i);
    &&& cell_known_if_admitted(gr, xn, yn)
    &&& cell_known_if_admitted(gr, xn + 1, yn + 1)
    &&& cell_known_if_admitted(gr, xn, yn + 1)
    &&& cell_known_if_admitted(gr, xn + 1, yn)
}

/// Every step of the corridor dragged between one pair of path points is
/// interned.
pub open spec fn corridor_pair_known(gr: Graph, c0: Coord, c1: Coord) -> bool {
    let x0 = point_cell_x(gr, gr.gs_pass2 as int, gr.g_pass2 as int, c0);
    let y0 = point_cell_y(gr, gr.gs_pass2 as int, gr.g_pass2 as int, c0);
    let x1 = point_cell_x(gr, gr.gs_pass2 as int, gr.g_pass2 as int, c1);
    let y1 = point_cell_y(gr, gr.gs_pass2 as int, gr.g_pass2 as int, c1);
    corridor_len(x0, y0, x1, y1) > 0 ==> forall|i: int|
        0 <= i <= corridor_len(x0, y0, x1, y1) ==> #[trigger] corridor_step_known(
            gr,
            x0,
            y0,
            x1,
            y1,
            i,
        )
}

/// Interned corridor steps stay interned while the graph grows.
proof fn lemma_step_known_grows(
    g1: Graph,
    g2: Graph,
    x0: int,
    y0: int,
    x1: int,
    y1: int,
    i: int,
)
    requires
        g2.grows_from(g1),
        corridor_step_known(g1, x0, y0, x1, y1, i),
    ensures
        corridor_step_known(g2, x0, y0, x1, y1, i),
{
    let xn = corridor_coord(x0, x1, corridor_len(x0, y0, x1, y1), i);
    let yn = corridor_coord(y0, y1, corridor_len(x0, y0, x1, y1), i);
    lemma_admitted_stable(g1, g2, g1.gs_pass2 as int, g1.g_pass2 as int, xn, yn, false);
    lemma_admitted_stable(g1, g2, g1.gs_pass2 as int, g1.g_pass2 as int, xn + 1, yn + 1, false);
    lemma_admitted_stable(g1, g2, g1.gs_pass2 as int, g1.g_pass2 as int, xn, yn + 1, false);
    lemma_admitted_stable(g1, g2, g1.gs_pass2 as int, g1.g_pass2 as int, xn + 1, yn, false);
}

/// An interned corridor stays interned while the graph grows.
pub proof fn lemma_pair_known_grows(g1: Graph, g2: Graph, c0: Coord, c1: Coord)
    requires
        g2.grows_from(g1),
        corridor_pair_known(g1, c0, c1),
    ensures
        corridor_pair_known(g2, c0, c1),
{
    let gs = g1.gs_pass2 as int;
    let g = g1.g_pass2 as int;
    assert(point_cell_x(g2, gs, g, c0) == point_cell_x(g1, gs, g, c0) && point_cell_y(g2, gs, g, c0)
        == point_cell_y(g1, gs, g, c0) && point_cell_x(g2, gs, g, c1) == point_cell_x(
        g1,
        gs,
        g,
        c1,
    ) && point_cell_y(g2, gs, g, c1) == point_cell_y(g1, gs, g, c1));
    let x0 = point_cell_x(g1, gs, g, c0);
    let y0 = point_cell_y(g1, gs, g, c0);
    let x1 = point_cell_x(g1, gs, g, c1);
    let y1 = point_cell_y(g1, gs, g, c1);
    if corridor_len(x0, y0, x1, y1) > 0 {
        assert forall|i: int| 0 <= i <= corridor_len(x0, y0, x1, y1) implies #[trigger] corridor_step_known(
            g2,
            x0,
            y0,
            x1,
            y1,
            i,
        ) by {
            assert(corridor_step_known(g1, x0, y0, x1, y1, i));
            lemma_step_known_grows(g1, g2, x0, y0, x1, y1, i);
        }
    }
}

/// A coarse graph properly built for the pair in which some route joins
/// the two anchors.
#[verifier::opaque]
pub open spec fn coarse_reachable<A: AtlasModel>(
    gr: Graph,
    a: Coord,
    b: Coord,
    params: Params,
    atlas: &A,
) -> bool {
    coarse_graph_for(gr, a, b, params, atlas) && (exists|rt: Seq<int>|
        #[trigger] route_ok(gr.edges@, rt, 0, gr.end_node as int))
}

/// Some properly built coarse graph for the pair holds a route between
/// the anchors.
pub open spec fn pair_coarse_reachable<A: AtlasModel>(
    a: Coord,
    b: Coord,
    params: Params,
    atlas: &A,
) -> bool {
    exists|gr: Graph| #[trigger] coarse_reachable(gr, a, b, params, atlas)
}

/// Some properly built coarse graph for the pair holds no route between
/// the anchors.
pub open spec fn pair_coarse_unreachable<A: AtlasModel>(
    a: Coord,
    b: Coord,
    params: Params,
    atlas: &A,
) -> bool {
    exists|gr: Graph| #[trigger] coarse_unreachable(gr, a, b, params, atlas)
}

/// Two lattice cells are 8-neighbours: one step apart in `x`, `y` or
/// both.
pub open spec fn adjacent8(x1: int, y1: int, x2: int, y2: int) -> bool {
    -1 <= x2 - x1 <= 1 && -1 <= y2 - y1 <= 1 && !(x1 == x2 && y1 == y2)
}

/// The edge runs between the nodes of two interned 8-neighbour cells.
pub open spec fn edge_between_cells(gr: Graph, e: Edge) -> bool {
    exists|x1: int, y1: int, x2: int, y2: int|
        #![trigger cell_key(x1, y1), cell_key(x2, y2)]
        {
            &&& 0 <= x1 < 0x8000_0000
            &&& 0 <= y1 < 0x8000_0000
            &&& 0 <= x2 < 0x8000_0000
            &&& 0 <= y2 < 0x8000_0000
            &&& adjacent8(x1, y1, x2, y2)
            &&& gr.cmap@.contains_key(cell_key(x1, y1))
            &&& gr.cmap@.contains_key(cell_key(x2, y2))
            &&& gr.cmap@[cell_key(x1, y1)] == e.0
            &&& gr.cmap@[cell_key(x2, y2)] == e.1
        }
}

/// `v` is the node of some interned corner cell of the cell containing
/// the anchor node `i`.
pub open spec fn corner_value(gr: Graph, gs: int, g: int, i: int, v: int) -> bool {
    let cx = node_cell_x(gr, gs, g, i);
    let cy = node_cell_y(gr, gs, g, i);
    ||| (gr.cmap@.contains_key(cell_key(cx, cy)) && gr.cmap@[cell_key(cx, cy)] == v)
    ||| (gr.cmap@.contains_key(cell_key(cx + 1, cy)) && gr.cmap@[cell_key(cx + 1, cy)] == v)
    ||| (gr.cmap@.contains_key(cell_key(cx, cy + 1)) && gr.cmap@[cell_key(cx, cy + 1)] == v)
    ||| (gr.cmap@.contains_key(cell_key(cx + 1, cy + 1)) && gr.cmap@[cell_key(cx + 1, cy + 1)]
        == v)
}

/// The edge joins the anchor node `i` with a corner of its containing
/// cell, in either direction.
pub open spec fn edge_at_anchor(gr: Graph, gs: int, g: int, i: int, e: Edge) -> bool {
    ||| (e.0 == i && corner_value(gr, gs, g, i, e.1 as int))
    ||| (e.1 == i && corner_value(gr, gs, g, i, e.0 as int))
}

/// The node at `idx` is an interned lattice cell's node.
pub open spec fn node_is_cell(gr: Graph, idx: int) -> bool {
    exists|x: int, y: int|
        #![trigger cell_key(x, y)]
        0 <= x < 0x8000_0000 && 0 <= y < 0x8000_0000 && gr.cmap@.contains_key(cell_key(x, y))
            && gr.cmap@[cell_key(x, y)] == idx
}

/// `(x, y)` lies on the perimeter of some dragged square of the corridor
/// between the points `c0` and `c1`.
pub open spec fn corridor_has_cell(gr: Graph, c0: Coord, c1: Coord, x: int, y: int) -> bool {
    let x0 = point_cell_x(gr, gr.gs_pass2 as int, gr.g_pass2 as int, c0);
    let y0 = point_cell_y(gr, gr.gs_pass2 as int, gr.g_pass2 as int, c0);
    let x1 = point_cell_x(gr, gr.gs_pass2 as int, gr.g_pass2 as int, c1);
    let y1 = point_cell_y(gr, gr.gs_pass2 as int, gr.g_pass2 as int, c1);
    let cl = corridor_len(x0, y0, x1, y1);
    cl > 0 && (exists|i: int|
        #![trigger corridor_coord(x0, x1, cl, i)]
        0 <= i <= cl && {
            let xn = corridor_coord(x0, x1, cl, i);
            let yn = corridor_coord(y0, y1, cl, i);
            (x == xn && y == yn) || (x == xn + 1 && y == yn + 1) || (x == xn && y == yn + 1) || (x
                == xn + 1 && y == yn)
        })
}

/// `(x, y)` lies on the corridor of some consecutive pair of the path.
pub open spec fn key_in_corridor(gr: Graph, pts: Seq<Coord>, x: int, y: int) -> bool {
    exists|pi: int|
        #![trigger pts[pi]]
        0 <= pi < pts.len() - 1 && corridor_has_cell(gr, pts[pi], pts[pi + 1], x, y)
}

/// Cell membership in a corridor reads only the graph's fixed geometry.
proof fn lemma_corridor_has_cell_grows(g1: Graph, g2: Graph, c0: Coord, c1: Coord, x: int, y: int)
    requires
        g2.grows_from(g1),
        corridor_has_cell(g1, c0, c1, x, y),
    ensures
        corridor_has_cell(g2, c0, c1, x, y),
{
    let gs = g1.gs_pass2 as int;
    let g = g1.g_pass2 as int;
    assert(point_cell_x(g2, gs, g, c0) == point_cell_x(g1, gs, g, c0) && point_cell_y(g2, gs, g, c0)
        == point_cell_y(g1, gs, g, c0) && point_cell_x(g2, gs, g, c1) == point_cell_x(
        g1,
        gs,
        g,
        c1,
    ) && point_cell_y(g2, gs, g, c1) == point_cell_y(g1, gs, g, c1));
}

/// Corridor membership of an interned key survives growth of the graph.
pub proof fn lemma_key_in_corridor_grows(g1: Graph, g2: Graph, pts: Seq<Coord>, x: int, y: int)
    requires
        g2.grows_from(g1),
        key_in_corridor(g1, pts, x, y),
    ensures
        key_in_corridor(g2, pts, x, y),
{
    let pi = choose|pi: int|
        #![trigger pts[pi]]
        0 <= pi < pts.len() - 1 && corridor_has_cell(g1, pts[pi], pts[pi + 1], x, y);
    lemma_corridor_has_cell_grows(g1, g2, pts[pi], pts[pi + 1], x, y);
}

/// A cell-to-cell edge shape survives growth of the graph.
pub proof fn lemma_edge_between_cells_grows(g1: Graph, g2: Graph, e: Edge)
    requires
        g2.grows_from(g1),
        edge_between_cells(g1, e),
    ensures
        edge_between_cells(g2, e),
{
    let (x1, y1, x2, y2) = choose|x1: int, y1: int, x2: int, y2: int|
        #![trigger cell_key(x1, y1), cell_key(x2, y2)]
        {
            &&& 0 <= x1 < 0x8000_0000
            &&& 0 <= y1 < 0x8000_0000
            &&& 0 <= x2 < 0x8000_0000
            &&& 0 <= y2 < 0x8000_0000
            &&& adjacent8(x1, y1, x2, y2)
            &&& g1.cmap@.contains_key(cell_key(x1, y1))
            &&& g1.cmap@.contains_key(cell_key(x2, y2))
            &&& g1.cmap@[cell_key(x1, y1)] == e.0
            &&& g1.cmap@[cell_key(x2, y2)] == e.1
        };
    assert(g2.cmap@.contains_key(cell_key(x1, y1)) && g2.cmap@.contains_key(cell_key(x2, y2)));
}

/// An anchor-corner edge shape survives growth of the graph.
pub proof fn lemma_edge_at_anchor_grows(g1: Graph, g2: Graph, gs: int, g: int, i: int, e: Edge)
    requires
        g2.grows_from(g1),
        0 <= i < g1.nodes@.len(),
        edge_at_anchor(g1, gs, g, i, e),
    ensures
        edge_at_anchor(g2, gs, g, i, e),
{
    assert(g2.nodes@[i] == g1.nodes@[i]);
    assert(node_cell_x(g2, gs, g, i) == node_cell_x(g1, gs, g, i) && node_cell_y(g2, gs, g, i)
        == node_cell_y(g1, gs, g, i));
}

/// A cell-backed node stays cell-backed while the graph grows.
pub proof fn lemma_node_is_cell_grows(g1: Graph, g2: Graph, idx: int)
    requires
        g2.grows_from(g1),
        node_is_cell(g1, idx),
    ensures
        node_is_cell(g2, idx),
{
    let (x, y) = choose|x: int, y: int|
        #![trigger cell_key(x, y)]
        0 <= x < 0x8000_0000 && 0 <= y < 0x8000_0000 && g1.cmap@.contains_key(cell_key(x, y))
            && g1.cmap@[cell_key(x, y)] == idx;
    assert(g2.cmap@.contains_key(cell_key(x, y)));
}

/// One sweep extends a known column by one square: rows below carry
/// over, the square's own corners are fresh.
proof fn lemma_col_known_step(g1: Graph, g2: Graph, gs: int, g: int, x: int, y: int)
    requires
        g2.grows_from(g1),
        y == 0 || col_known(g1, gs, g, x, y),
        cell_admitted(g2, gs, g, x, y, true) ==> g2.cmap@.contains_key(cell_key(x, y)),
        cell_admitted(g2, gs, g, x + 1, y, true) ==> g2.cmap@.contains_key(cell_key(x + 1, y)),
        cell_admitted(g2, gs, g, x, y + 1, true) ==> g2.cmap@.contains_key(cell_key(x, y + 1)),
        cell_admitted(g2, gs, g, x + 1, y + 1, true) ==> g2.cmap@.contains_key(
            cell_key(x + 1, y + 1),
        ),
    ensures
        col_known(g2, gs, g, x, y + 1),
{
    assert forall|j: int|
        0 <= j <= y + 1 implies ((#[trigger] cell_admitted(g2, gs, g, x, j, true)
        ==> g2.cmap@.contains_key(cell_key(x, j))) && (cell_admitted(g2, gs, g, x + 1, j, true)
        ==> g2.cmap@.contains_key(cell_key(x + 1, j)))) by {
        if j < y {
            lemma_admitted_stable(g1, g2, gs, g, x, j, true);
            lemma_admitted_stable(g1, g2, gs, g, x + 1, j, true);
            assert(cell_admitted(g1, gs, g, x, j, true) ==> g1.cmap@.contains_key(cell_key(x, j)));
            assert(cell_admitted(g1, gs, g, x + 1, j, true) ==> g1.cmap@.contains_key(
                cell_key(x + 1, j),
            ));
            assert(g1.cmap@.contains_key(cell_key(x, j)) ==> g2.cmap@.contains_key(cell_key(x, j)));
            assert(g1.cmap@.contains_key(cell_key(x + 1, j)) ==> g2.cmap@.contains_key(
                cell_key(x + 1, j),
            ));
        }
    }
}

/// `k` is the intern key of one of the four corner cells of the cell
/// containing the anchor node `i`.
pub open spec fn is_corner_key(gr: Graph, gs: int, g: int, i: int, k: u64) -> bool {
    let cx = node_cell_x(gr, gs, g, i);
    let cy = node_cell_y(gr, gs, g, i);
    k == cell_key(cx, cy) || k == cell_key(cx + 1, cy) || k == cell_key(cx, cy + 1) || k
        == cell_key(cx + 1, cy + 1)
}

/// Every edge a connect call can produce runs between its two given
/// nodes, one way or the other.
proof fn lemma_connect_edges_shape<A: AtlasModel>(
    nodes: Seq<Coord>,
    barriers: Seq<Barrier>,
    iu: usize,
    ju: usize,
    atlas: &A,
)
    ensures
        forall|t: int|
            0 <= t < connect_edges(nodes, barriers, iu as int, ju as int, atlas).len() ==> ((
            #[trigger] connect_edges(nodes, barriers, iu as int, ju as int, atlas)[t]).0 == iu
                && connect_edges(nodes, barriers, iu as int, ju as int, atlas)[t].1 == ju) || (
            connect_edges(nodes, barriers, iu as int, ju as int, atlas)[t].0 == ju && connect_edges(
                nodes,
                barriers,
                iu as int,
                ju as int,
                atlas,
            )[t].1 == iu),
{
    let i = iu as int;
    let j = ju as int;
    let ce = connect_edges(nodes, barriers, i, j, atlas);
    assert forall|t: int| 0 <= t < ce.len() implies ((#[trigger] ce[t]).0 == iu && ce[t].1 == ju)
        || (ce[t].0 == ju && ce[t].1 == iu) by {
        assert(crate::path::step_clear(barriers, nodes[i], nodes[j]));
        let st1 = seg_time(nodes[i], nodes[j], atlas);
        let st2 = seg_time(nodes[j], nodes[i], atlas);
        if st1 is Some && st2 is Some {
            assert(ce == seq![(i as usize, j as usize, st1.unwrap() as u64)] + seq![
                (j as usize, i as usize, st2.unwrap() as u64),
            ]);
            if t == 0 {
                assert(ce[t] == (i as usize, j as usize, st1.unwrap() as u64));
            } else {
                assert(t == 1);
                assert(ce[t] == (j as usize, i as usize, st2.unwrap() as u64));
            }
        } else if st1 is Some {
            assert(ce == seq![(i as usize, j as usize, st1.unwrap() as u64)]
                + Seq::<Edge>::empty());
            assert(ce[t] == (i as usize, j as usize, st1.unwrap() as u64));
        } else if st2 is Some {
            assert(ce == Seq::<Edge>::empty() + seq![(j as usize, i as usize, st2.unwrap() as u64)]);
            assert(ce[t] == (j as usize, i as usize, st2.unwrap() as u64));
        } else {
            assert(ce.len() == 0);
        }
        assert(i as usize == iu && j as usize == ju);
    }
}

/// A directed weighted graph over lattice nodes between two endpoints.
pub struct Graph {
    /// The start endpoint.
    pub a: Coord,
    /// The end endpoint.
    pub b: Coord,
    /// The centre of the endpoint pair.
    pub o: Coord,
    /// One focal point of the covering ellipse.
    pub f1: Coord,
    /// The other focal point.
    pub f2: Coord,
    /// The ellipse's semi-major axis, millimetres.
    pub major: u64,
    /// Coarse grid spacing, millimetres.
    pub gs_pass1: i64,
    /// Fine grid spacing, millimetres.
    pub gs_pass2: i64,
    /// Coarse cells per axis.
    pub g_pass1: i64,
    /// Fine cells per axis.
    pub g_pass2: i64,
    /// The barriers no edge may cross.
    pub barriers: Vec<Barrier>,
    /// Lattice cell to node index.
    pub cmap: HashMap<u64, usize>,
    /// The edges built so far.
    pub edges: Vec<Edge>,
    /// The nodes built so far.
    pub nodes: Vec<Coord>,
    /// The node index of the end endpoint, set by the builders.
    pub end_node: usize,
}

impl Graph {
    /// Basic well-formedness: geometry in range, nodes in the planning
    /// area, barriers well-formed, edges within bounds, and the cell map
    /// pointing at stored nodes.
    pub open spec fn wf(self) -> bool {
        &&& in_bounds(self.a)
        &&& in_bounds(self.b)
        &&& in_bounds(self.o)
        &&& in_bounds(self.f1)
        &&& in_bounds(self.f2)
        &&& self.major <= 400_000_000
        &&& 1 <= self.gs_pass1 <= 1_000_000_000
        &&& 1 <= self.gs_pass2 <= 1_000_000_000
        &&& 1 <= self.g_pass1 <= 2_000_000_000
        &&& 1 <= self.g_pass2 <= 2_000_000_000
        &&& forall|i: int| 0 <= i < self.nodes@.len() ==> in_bounds(#[trigger] self.nodes@[i])
        &&& forall|i: int|
            0 <= i < self.barriers@.len() ==> barrier_wf(#[trigger] self.barriers@[i].points@)
        &&& edges_wf(self.edges@, self.nodes@.len() as int)
        &&& forall|k: u64|
            self.cmap@.contains_key(k) ==> (#[trigger] self.cmap@[k]) < self.nodes@.len()
    }

    /// All edges are valid for the given terrain.
    pub open spec fn edges_valid<A: AtlasModel>(self, atlas: &A) -> bool {
        graph_edges_valid(self.edges@, self.nodes@, self.barriers@, atlas)
    }

    /// An empty graph for the endpoint pair `(a, b)`: centre, covering
    /// ellipse and grid extents are derived from the parameters.  The
    /// semi-axes are capped at 400 km so that all products stay exact; a
    /// wider ellipse could not leave the planning area anyway.
    pub fn new(a: Coord, b: Coord, params: &Params) -> (r: Graph)
        requires
            in_bounds(a),
            in_bounds(b),
            params.wf(),
        ensures
            r.wf(),
            r.a == a,
            r.b == b,
            r.nodes@.len() == 0,
            r.edges@.len() == 0,
            r.barriers@.len() == params.barriers@.len(),
            forall|i: int|
                0 <= i < params.barriers@.len() ==> #[trigger] r.barriers@[i].points@
                    == params.barriers@[i].points@,
            r.gs_pass1 == params.grid_size_pass1,
            r.gs_pass2 == params.grid_size_pass2,
            r.o.e == tdiv(a.e + b.e, 2) && r.o.n == tdiv(a.n + b.n, 2),
            graph_geometry(a, b, *params, r),
            r.end_node == 0,
            r.cmap@ == Map::<u64, usize>::empty(),
    {
        let o = midpoint(a, b);
        let rr: u64 = dist_mm(a, o);
        proof {
            assert((rr as int) * (params.covering_length as int) <= 300_000_000_000_000
                && (rr as int) * (params.covering_width as int) <= 300_000_000_000_000 && 0 <= (
            rr as int) * (params.covering_length as int) && 0 <= (rr as int) * (
            params.covering_width as int)) by (nonlinear_arith)
                requires
                    0 <= rr <= 300_000_000,
                    0 <= params.covering_length <= 1_000_000,
                    0 <= params.covering_width <= 1_000_000,
            ;
        }
        let major128: u128 = (rr as u128) * (params.covering_length as u128) / 1000;
        let minor128: u128 = (rr as u128) * (params.covering_width as u128) / 1000;
        let major: u64 = if major128 > 400_000_000 {
            400_000_000
        } else {
            major128 as u64
        };
        let minor: u64 = if minor128 > 400_000_000 {
            400_000_000
        } else {
            minor128 as u64
        };
        let fsq: u64 = if major >= minor {
            proof {
                assert((major as int) * (major as int) <= 160_000_000_000_000_000 && (minor as int)
                    * (minor as int) <= (major as int) * (major as int)) by (nonlinear_arith)
                    requires
                        0 <= minor <= major <= 400_000_000,
                ;
            }
            major * major - minor * minor
        } else {
            0
        };
        let f0: u64 = isqrt_u64(fsq);
        let f: u64 = if f0 > major {
            major
        } else {
            f0
        };
        let (f1, f2) = if major == 0 {
            (o, o)
        } else {
            proof {
                assert(-120_000_000_000_000_000 <= (a.e - o.e) * (f as int)
                    <= 120_000_000_000_000_000 && -120_000_000_000_000_000 <= (a.n - o.n) * (
                f as int) <= 120_000_000_000_000_000 && -120_000_000_000_000_000 <= (b.e - o.e) * (
                f as int) <= 120_000_000_000_000_000 && -120_000_000_000_000_000 <= (b.n - o.n) * (
                f as int) <= 120_000_000_000_000_000) by (nonlinear_arith)
                    requires
                        -300_000_000 <= a.e - o.e <= 300_000_000,
                        -300_000_000 <= a.n - o.n <= 300_000_000,
                        -300_000_000 <= b.e - o.e <= 300_000_000,
                        -300_000_000 <= b.n - o.n <= 300_000_000,
                        0 <= f <= 400_000_000,
                ;
            }
            let de1: i64 = tdiv_i64((a.e - o.e) * (f as i64), major as i64);
            let dn1: i64 = tdiv_i64((a.n - o.n) * (f as i64), major as i64);
            let de2: i64 = tdiv_i64((b.e - o.e) * (f as i64), major as i64);
            let dn2: i64 = tdiv_i64((b.n - o.n) * (f as i64), major as i64);
            proof {
                assert((a.e - o.e) * (f as int) <= 400_000_000 * (major as int)
                    && -(400_000_000 * (major as int)) <= (a.e - o.e) * (f as int) && (a.n - o.n)
                    * (f as int) <= 400_000_000 * (major as int) && -(400_000_000 * (
                major as int)) <= (a.n - o.n) * (f as int) && (b.e - o.e) * (f as int)
                    <= 400_000_000 * (major as int) && -(400_000_000 * (major as int)) <= (b.n
                    - o.n) * (f as int) && (b.n - o.n) * (f as int) <= 400_000_000 * (major as int)
                    && -(400_000_000 * (major as int)) <= (b.e - o.e) * (f as int))
                    by (nonlinear_arith)
                    requires
                        -300_000_000 <= a.e - o.e <= 300_000_000,
                        -300_000_000 <= a.n - o.n <= 300_000_000,
                        -300_000_000 <= b.e - o.e <= 300_000_000,
                        -300_000_000 <= b.n - o.n <= 300_000_000,
                        0 <= f <= major,
                        1 <= major,
                ;
                crate::num::lemma_tdiv_bound(
                    (a.e - o.e) * (f as int),
                    major as int,
                    400_000_000,
                );
                crate::num::lemma_tdiv_bound(
                    (a.n - o.n) * (f as int),
                    major as int,
                    400_000_000,
                );
                crate::num::lemma_tdiv_bound(
                    (b.e - o.e) * (f as int),
                    major as int,
                    400_000_000,
                );
                crate::num::lemma_tdiv_bound(
                    (b.n - o.n) * (f as int),
                    major as int,
                    400_000_000,
                );
            }
            // the scaled offsets stay within the planning box only when
            // the offsets themselves do; clamp defensively
            let c1 = clamp_coord(o.e + de1, o.n + dn1);
            let c2 = clamp_coord(o.e + de2, o.n + dn2);
            (c1, c2)
        };
        let gp1: i64 = 2 * ((major as i64) / params.grid_size_pass1) + 1;
        let gp2: i64 = 2 * ((major as i64) / params.grid_size_pass2) + 1;
        Graph {
            a,
            b,
            o,
            f1,
            f2,
            major,
            gs_pass1: params.grid_size_pass1,
            gs_pass2: params.grid_size_pass2,
            g_pass1: gp1,
            g_pass2: gp2,
            barriers: copy_barriers(&params.barriers),
            cmap: HashMap::new(),
            edges: Vec::new(),
            nodes: Vec::new(),
            end_node: 0,
        }
    }

    /// The geometry and barriers of `g2` are those of `g1`, and `g2`'s
    /// nodes and edges extend `g1`'s.
    pub open spec fn grows_from(self, g1: Graph) -> bool {
        &&& self.a == g1.a
        &&& self.b == g1.b
        &&& self.o == g1.o
        &&& self.f1 == g1.f1
        &&& self.f2 == g1.f2
        &&& self.major == g1.major
        &&& self.gs_pass1 == g1.gs_pass1
        &&& self.gs_pass2 == g1.gs_pass2
        &&& self.g_pass1 == g1.g_pass1
        &&& self.g_pass2 == g1.g_pass2
        &&& self.barriers == g1.barriers
        &&& g1.nodes@.is_prefix_of(self.nodes@)
        &&& g1.edges@.is_prefix_of(self.edges@)
        &&& forall|k: u64|
            #[trigger] g1.cmap@.contains_key(k) ==> self.cmap@.contains_key(k) && self.cmap@[k]
                == g1.cmap@[k]
    }

    /// Add the lattice cell `(x, y)` of the grid with spacing `gs` and
    /// extent `g` as a node, unless it falls outside the planning area,
    /// outside the covering ellipse (when `check_area` is set), or outside
    /// the supported cell index range.  A cell already added answers with
    /// its existing node index.
    fn insert_node_from_grid_units(
        &mut self,
        gs: i64,
        g: i64,
        x: i64,
        y: i64,
        check_area: bool,
    ) -> (r: Option<usize>)
        requires
            old(self).wf(),
            1 <= gs <= 1_000_000_000,
            1 <= g <= 2_000_000_000,
            -4_000_000_000 <= x <= 4_000_000_000,
            -4_000_000_000 <= y <= 4_000_000_000,
        ensures
            final(self).wf(),
            final(self).grows_from(*old(self)),
            final(self).edges@ == old(self).edges@,
            final(self).end_node == old(self).end_node,
            r is Some <==> cell_admitted(*old(self), gs as int, g as int, x as int, y as int, check_area),
            r is None ==> *final(self) == *old(self),
            r matches Some(vi) ==> {
                &&& vi < final(self).nodes@.len()
                &&& final(self).cmap@.contains_key(cell_key(x as int, y as int))
                &&& final(self).cmap@[cell_key(x as int, y as int)] == vi
                &&& (old(self).cmap@.contains_key(cell_key(x as int, y as int)) ==> *final(self)
                    == *old(self) && vi == old(self).cmap@[cell_key(x as int, y as int)])
                &&& (!old(self).cmap@.contains_key(cell_key(x as int, y as int)) ==> {
                    &&& vi == old(self).nodes@.len()
                    &&& final(self).nodes@ == old(self).nodes@.push(
                        cell_coord(old(self).o, gs as int, g as int, x as int, y as int),
                    )
                    &&& final(self).cmap@ == old(self).cmap@.insert(
                        cell_key(x as int, y as int),
                        vi,
                    )
                })
            },
    {
        let half: i64 = (g - 1) / 2;
        proof {
            assert(-4_000_000_000_000_000_000 <= (x as int) * (gs as int)
                <= 4_000_000_000_000_000_000 && 0 <= (half as int) * (gs as int)
                <= 1_000_000_000_000_000_000) by (nonlinear_arith)
                requires
                    -4_000_000_000 <= x <= 4_000_000_000,
                    1 <= gs <= 1_000_000_000,
                    0 <= half <= 1_000_000_000,
            ;
            assert(-4_000_000_000_000_000_000 <= (y as int) * (gs as int)
                <= 4_000_000_000_000_000_000) by (nonlinear_arith)
                requires
                    -4_000_000_000 <= y <= 4_000_000_000,
                    1 <= gs <= 1_000_000_000,
            ;
        }
        let e128: i128 = (x as i128) * (gs as i128) + (self.o.e as i128) - (half as i128) * (
        gs as i128);
        let n128: i128 = (y as i128) * (gs as i128) + (self.o.n as i128) - (half as i128) * (
        gs as i128);
        if e128 < -100_000_000 || e128 > 100_000_000 || n128 < -100_000_000 || n128 > 100_000_000 {
            return None;
        }
        let c = Coord { e: e128 as i64, n: n128 as i64 };
        if check_area {
            let d1 = dist_mm(c, self.f1);
            let d2 = dist_mm(c, self.f2);
            if d1 + d2 > 2 * self.major {
                return None;
            }
        }
        if x < 0 || y < 0 || x >= 0x8000_0000 || y >= 0x8000_0000 {
            return None;
        }
        let key: u64 = (x as u64) * 0x1_0000_0000 + (y as u64);
        proof {
            assert(c == cell_coord(self.o, gs as int, g as int, x as int, y as int));
            assert(key == cell_key(x as int, y as int));
        }
        match self.cmap.get(&key) {
            Option::Some(vi) => Option::Some(*vi),
            Option::None => {
                let vi = self.nodes.len();
                self.nodes.push(c);
                self.cmap.insert(key, vi);
                proof {
                    assert(old(self).nodes@.is_prefix_of(self.nodes@));
                }
                Option::Some(vi)
            },
        }
    }

    /// Add a node at an exact coordinate, outside the lattice: endpoint
    /// anchors are never merged with lattice cells.
    fn insert_node_from_coord(&mut self, c: Coord) -> (r: usize)
        requires
            old(self).wf(),
            in_bounds(c),
        ensures
            final(self).wf(),
            final(self).grows_from(*old(self)),
            final(self).edges@ == old(self).edges@,
            final(self).end_node == old(self).end_node,
            final(self).nodes@ == old(self).nodes@.push(c),
            final(self).cmap == old(self).cmap,
            r == old(self).nodes@.len(),
    {
        let vi = self.nodes.len();
        self.nodes.push(c);
        proof {
            assert(old(self).nodes@.is_prefix_of(self.nodes@));
        }
        vi
    }

    /// Whether the lattice cell `(x, y)` has been added as a node.
    fn node_exists(&self, x: i64, y: i64) -> (r: bool)
        requires
            self.wf(),
        ensures
            r == (0 <= x < 0x8000_0000 && 0 <= y < 0x8000_0000 && self.cmap@.contains_key(
                cell_key(x as int, y as int),
            )),
    {
        if x < 0 || y < 0 || x >= 0x8000_0000 || y >= 0x8000_0000 {
            return false;
        }
        let key: u64 = (x as u64) * 0x1_0000_0000 + (y as u64);
        self.cmap.contains_key(&key)
    }

    /// Connect two nodes, both ways, where walkable: no edge is added for
    /// a step that crosses a barrier, and each direction gets an edge only
    /// when its traversal time is finite.
    fn connect<A: AtlasModel>(
        &mut self,
        c1: Option<usize>,
        c2: Option<usize>,
        atlas: &A,
    )
        requires
            old(self).wf(),
            old(self).edges_valid(atlas),
            c1 matches Some(i) ==> i < old(self).nodes@.len(),
            c2 matches Some(j) ==> j < old(self).nodes@.len(),
        ensures
            final(self).wf(),
            final(self).edges_valid(atlas),
            final(self).grows_from(*old(self)),
            final(self).nodes@ == old(self).nodes@,
            final(self).cmap == old(self).cmap,
            final(self).end_node == old(self).end_node,
            c1 is Some && c2 is Some ==> final(self).edges@ == old(self).edges@ + connect_edges(
                old(self).nodes@,
                old(self).barriers@,
                c1.unwrap() as int,
                c2.unwrap() as int,
                atlas,
            ),
            c1 is None || c2 is None ==> *final(self) == *old(self),
    {
        if let Option::Some(i) = c1 {
            if let Option::Some(j) = c2 {
                let ca = self.nodes[i];
                let cb = self.nodes[j];
                let nb = self.barriers.len();
                let mut bi: usize = 0;
                while bi < nb
                    invariant
                        nb == self.barriers@.len(),
                        bi <= nb,
                        *self == *old(self),
                        self.wf(),
                        self.edges_valid(atlas),
                        c1 == Option::<usize>::Some(i),
                        c2 == Option::<usize>::Some(j),
                        i < self.nodes@.len(),
                        j < self.nodes@.len(),
                        ca == self.nodes@[i as int],
                        cb == self.nodes@[j as int],
                        forall|t: int|
                            0 <= t < bi ==> !polyline_crosses(
                                (#[trigger] self.barriers@[t]).points@,
                                ca,
                                cb,
                            ),
                    decreases nb - bi,
                {
                    let crossing = self.barriers[bi].is_crossing(&ca, &cb);
                    if crossing {
                        proof {
                            assert(!crate::path::step_clear(old(self).barriers@, ca, cb));
                            let ce = connect_edges(
                                old(self).nodes@,
                                old(self).barriers@,
                                i as int,
                                j as int,
                                atlas,
                            );
                            assert(ce =~= Seq::<Edge>::empty());
                            assert(self.edges@ =~= old(self).edges@ + ce);
                        }
                        return;
                    }
                    bi = bi + 1;
                }
                proof {
                    crate::barrier::lemma_polyline_cross_symmetric_all(self.barriers@, ca, cb);
                }
                let ghost edges0 = self.edges@;
                let t1 = Segment::new(ca, cb).time(atlas);
                if let Option::Some(t) = t1 {
                    proof {
                        lemma_edges_valid_push(
                            self.edges@,
                            self.nodes@,
                            self.barriers@,
                            atlas,
                            (i, j, t),
                        );
                    }
                    self.edges.push((i, j, t));
                }
                let ghost edges1 = self.edges@;
                let t2 = Segment::new(cb, ca).time(atlas);
                if let Option::Some(t) = t2 {
                    proof {
                        lemma_edges_valid_push(
                            self.edges@,
                            self.nodes@,
                            self.barriers@,
                            atlas,
                            (j, i, t),
                        );
                    }
                    self.edges.push((j, i, t));
                }
                proof {
                    assert(old(self).edges@.is_prefix_of(self.edges@));
                    assert(ca == old(self).nodes@[i as int] && cb == old(self).nodes@[j as int]);
                    assert(crate::path::step_clear(old(self).barriers@, ca, cb));
                    let ce = connect_edges(
                        old(self).nodes@,
                        old(self).barriers@,
                        i as int,
                        j as int,
                        atlas,
                    );
                    match (seg_time(ca, cb, atlas), seg_time(cb, ca, atlas)) {
                        (Option::Some(ta), Option::Some(tb)) => {
                            assert(ce =~= seq![(i, j, ta as u64)] + seq![(j, i, tb as u64)]);
                            assert(self.edges@ =~= old(self).edges@ + ce);
                        },
                        (Option::Some(ta), Option::None) => {
                            assert(ce =~= seq![(i, j, ta as u64)] + Seq::<Edge>::empty());
                            assert(self.edges@ =~= old(self).edges@ + ce);
                        },
                        (Option::None, Option::Some(tb)) => {
                            assert(ce =~= Seq::<Edge>::empty() + seq![(j, i, tb as u64)]);
                            assert(self.edges@ =~= old(self).edges@ + ce);
                        },
                        (Option::None, Option::None) => {
                            assert(ce =~= Seq::<Edge>::empty() + Seq::<Edge>::empty());
                            assert(self.edges@ =~= old(self).edges@ + ce);
                        },
                    }
                }
            }
        }
    }

    /// The lattice cell of a coordinate on the grid with spacing `gs` and
    /// extent `g`.
    fn grid_units_for_node(&self, c: &Coord, gs: i64, g: i64) -> (r: (i64, i64))
        requires
            self.wf(),
            in_bounds(*c),
            1 <= gs <= 1_000_000_000,
            1 <= g <= 2_000_000_000,
        ensures
            -3_000_000_000 <= r.0 <= 3_000_000_000,
            -3_000_000_000 <= r.1 <= 3_000_000_000,
            r.0 == tdiv(c.e - self.o.e, gs as int) + (g - 1) as int / 2,
            r.1 == tdiv(c.n - self.o.n, gs as int) + (g - 1) as int / 2,
    {
        let half: i64 = (g - 1) / 2;
        proof {
            assert(200_000_000 * (gs as int) >= 200_000_000) by (nonlinear_arith)
                requires
                    gs >= 1,
            ;
            crate::num::lemma_tdiv_bound(c.e - self.o.e, gs as int, 200_000_000);
            crate::num::lemma_tdiv_bound(c.n - self.o.n, gs as int, 200_000_000);
        }
        let x = tdiv_i64(c.e - self.o.e, gs) + half;
        let y = tdiv_i64(c.n - self.o.n, gs) + half;
        (x, y)
    }

    /// Attach an endpoint anchor to the grid: add the four corners of its
    /// containing cell, with no ellipse check, and connect the anchor to
    /// each.
    /// Intern the four corner cells of the lattice cell `(x, y)`, with no
    /// area check.  Afterwards every admissible corner is interned, no key
    /// beyond the four corners was added, and every new node is a corner
    /// cell's node.
    #[verifier::rlimit(100)]
    #[verifier::spinoff_prover]
    fn intern_corners<A: AtlasModel>(
        &mut self,
        x: i64,
        y: i64,
        gs: i64,
        g: i64,
        atlas: &A,
    ) -> (r: (Option<usize>, Option<usize>, Option<usize>, Option<usize>))
        requires
            old(self).wf(),
            old(self).edges_valid(atlas),
            cells_assoc(*old(self), gs as int, g as int),
            1 <= gs <= 1_000_000_000,
            1 <= g <= 2_000_000_000,
            -3_000_000_000 <= x <= 3_000_000_000,
            -3_000_000_000 <= y <= 3_000_000_000,
        ensures
            final(self).wf(),
            final(self).edges_valid(atlas),
            final(self).grows_from(*old(self)),
            final(self).end_node == old(self).end_node,
            final(self).edges@ == old(self).edges@,
            cells_assoc(*final(self), gs as int, g as int),
            r.0 is Some <==> cell_admitted(*old(self), gs as int, g as int, x as int, y as int, false),
            r.1 is Some <==> cell_admitted(
                *old(self),
                gs as int,
                g as int,
                x + 1 as int,
                y as int,
                false,
            ),
            r.2 is Some <==> cell_admitted(
                *old(self),
                gs as int,
                g as int,
                x as int,
                y + 1 as int,
                false,
            ),
            r.3 is Some <==> cell_admitted(
                *old(self),
                gs as int,
                g as int,
                x + 1 as int,
                y + 1 as int,
                false,
            ),
            r.0 matches Some(v) ==> v < final(self).nodes@.len() && final(self).cmap@.contains_key(
                cell_key(x as int, y as int),
            ) && final(self).cmap@[cell_key(x as int, y as int)] == v,
            r.1 matches Some(v) ==> v < final(self).nodes@.len() && final(self).cmap@.contains_key(
                cell_key(x + 1 as int, y as int),
            ) && final(self).cmap@[cell_key(x + 1 as int, y as int)] == v,
            r.2 matches Some(v) ==> v < final(self).nodes@.len() && final(self).cmap@.contains_key(
                cell_key(x as int, y + 1 as int),
            ) && final(self).cmap@[cell_key(x as int, y + 1 as int)] == v,
            r.3 matches Some(v) ==> v < final(self).nodes@.len() && final(self).cmap@.contains_key(
                cell_key(x + 1 as int, y + 1 as int),
            ) && final(self).cmap@[cell_key(x + 1 as int, y + 1 as int)] == v,
            forall|k: u64|
                #[trigger] final(self).cmap@.contains_key(k) ==> old(self).cmap@.contains_key(k)
                    || k == cell_key(x as int, y as int) || k == cell_key(x + 1 as int, y as int)
                    || k == cell_key(x as int, y + 1 as int) || k == cell_key(
                    x + 1 as int,
                    y + 1 as int,
                ),
            forall|idx: int|
                old(self).nodes@.len() <= idx < final(self).nodes@.len() ==> #[trigger] node_is_cell(
                    *final(self),
                    idx,
                ),
    {
        let ghost g0 = *self;
        let s1 = self.insert_node_from_grid_units(gs, g, x, y, false);
        proof {
            lemma_edges_valid_extend(self.edges@, g0.nodes@, self.nodes@, self.barriers@, atlas);
            lemma_assoc_after_insert(g0, *self, gs as int, g as int, x as int, y as int, s1);
        }
        let ghost g1 = *self;
        let s2 = self.insert_node_from_grid_units(gs, g, x + 1, y, false);
        proof {
            lemma_edges_valid_extend(self.edges@, g1.nodes@, self.nodes@, self.barriers@, atlas);
            lemma_assoc_after_insert(g1, *self, gs as int, g as int, x + 1 as int, y as int, s2);
        }
        let ghost g2 = *self;
        let s3 = self.insert_node_from_grid_units(gs, g, x, y + 1, false);
        proof {
            lemma_edges_valid_extend(self.edges@, g2.nodes@, self.nodes@, self.barriers@, atlas);
            lemma_assoc_after_insert(g2, *self, gs as int, g as int, x as int, y + 1 as int, s3);
        }
        let ghost g3 = *self;
        let s4 = self.insert_node_from_grid_units(gs, g, x + 1, y + 1, false);
        proof {
            lemma_edges_valid_extend(self.edges@, g3.nodes@, self.nodes@, self.barriers@, atlas);
            lemma_assoc_after_insert(
                g3,
                *self,
                gs as int,
                g as int,
                x + 1 as int,
                y + 1 as int,
                s4,
            );
            lemma_admitted_stable(g0, g1, gs as int, g as int, x + 1 as int, y as int, false);
            lemma_admitted_stable(g0, g2, gs as int, g as int, x as int, y + 1 as int, false);
            lemma_admitted_stable(g0, g3, gs as int, g as int, x + 1 as int, y + 1 as int, false);
            assert forall|idx: int|
                g0.nodes@.len() <= idx < self.nodes@.len() implies #[trigger] node_is_cell(
                *self,
                idx,
            ) by {
                if idx < g1.nodes@.len() {
                    assert(self.cmap@.contains_key(cell_key(x as int, y as int))
                        && self.cmap@[cell_key(x as int, y as int)] == idx);
                } else if idx < g2.nodes@.len() {
                    assert(self.cmap@.contains_key(cell_key(x + 1 as int, y as int))
                        && self.cmap@[cell_key(x + 1 as int, y as int)] == idx);
                } else if idx < g3.nodes@.len() {
                    assert(self.cmap@.contains_key(cell_key(x as int, y + 1 as int))
                        && self.cmap@[cell_key(x as int, y + 1 as int)] == idx);
                } else {
                    assert(self.cmap@.contains_key(cell_key(x + 1 as int, y + 1 as int))
                        && self.cmap@[cell_key(x + 1 as int, y + 1 as int)] == idx);
                }
            }
        }
        (s1, s2, s3, s4)
    }

    #[verifier::rlimit(100)]
    #[verifier::spinoff_prover]
    fn connect_end_node<A: AtlasModel>(&mut self, c: Option<usize>, gs: i64, g: i64, atlas: &A)
        requires
            old(self).wf(),
            old(self).edges_valid(atlas),
            cells_assoc(*old(self), gs as int, g as int),
            1 <= gs <= 1_000_000_000,
            1 <= g <= 2_000_000_000,
            c matches Some(i) ==> i < old(self).nodes@.len(),
        ensures
            final(self).wf(),
            final(self).edges_valid(atlas),
            final(self).grows_from(*old(self)),
            final(self).end_node == old(self).end_node,
            cells_assoc(*final(self), gs as int, g as int),
            c matches Some(i) ==> anchor_linked(*final(self), i as int, gs as int, g as int, atlas),
            c is None ==> *final(self) == *old(self),
            c matches Some(i) ==> forall|k: u64|
                #[trigger] final(self).cmap@.contains_key(k) ==> old(self).cmap@.contains_key(k)
                    || is_corner_key(*old(self), gs as int, g as int, i as int, k),
            c is Some ==> forall|idx: int|
                old(self).nodes@.len() <= idx < final(self).nodes@.len() ==> #[trigger] node_is_cell(
                    *final(self),
                    idx,
                ),
            c matches Some(i) ==> forall|k: int|
                old(self).edges@.len() <= k < final(self).edges@.len() ==> edge_at_anchor(
                    *final(self),
                    gs as int,
                    g as int,
                    i as int,
                    #[trigger] final(self).edges@[k],
                ),
    {
        if let Option::Some(i) = c {
            let cc = self.nodes[i];
            let (x, y) = self.grid_units_for_node(&cc, gs, g);
            proof {
                assert(x as int == node_cell_x(*old(self), gs as int, g as int, i as int));
                assert(y as int == node_cell_y(*old(self), gs as int, g as int, i as int));
            }
            let ghost g0 = *self;
            let (s1, s2, s3, s4) = self.intern_corners(x, y, gs, g, atlas);
            let ghost g4 = *self;
            self.connect(c, s1, atlas);
            proof {
                lemma_assoc_same_cmap(g4, *self, gs as int, g as int);
                if s1 is Some {
                    lemma_subsumed_after_connect(g4, *self, i as int, s1.unwrap() as int, atlas);
                }
            }
            let ghost g5 = *self;
            self.connect(c, s2, atlas);
            proof {
                lemma_assoc_same_cmap(g5, *self, gs as int, g as int);
                if s1 is Some {
                    lemma_subsumed_grows(g5, *self, i as int, s1.unwrap() as int, atlas);
                }
                if s2 is Some {
                    lemma_subsumed_after_connect(g5, *self, i as int, s2.unwrap() as int, atlas);
                }
            }
            let ghost g6 = *self;
            self.connect(c, s3, atlas);
            proof {
                lemma_assoc_same_cmap(g6, *self, gs as int, g as int);
                if s1 is Some {
                    lemma_subsumed_grows(g6, *self, i as int, s1.unwrap() as int, atlas);
                }
                if s2 is Some {
                    lemma_subsumed_grows(g6, *self, i as int, s2.unwrap() as int, atlas);
                }
                if s3 is Some {
                    lemma_subsumed_after_connect(g6, *self, i as int, s3.unwrap() as int, atlas);
                }
            }
            let ghost g7 = *self;
            self.connect(c, s4, atlas);
            proof {
                lemma_assoc_same_cmap(g7, *self, gs as int, g as int);
                if s1 is Some {
                    lemma_subsumed_grows(g7, *self, i as int, s1.unwrap() as int, atlas);
                }
                if s2 is Some {
                    lemma_subsumed_grows(g7, *self, i as int, s2.unwrap() as int, atlas);
                }
                if s3 is Some {
                    lemma_subsumed_grows(g7, *self, i as int, s3.unwrap() as int, atlas);
                }
                if s4 is Some {
                    lemma_subsumed_after_connect(g7, *self, i as int, s4.unwrap() as int, atlas);
                }
                assert(node_cell_x(*self, gs as int, g as int, i as int) == x as int
                    && node_cell_y(*self, gs as int, g as int, i as int) == y as int);
                lemma_admitted_stable(g0, *self, gs as int, g as int, x as int, y as int, false);
                lemma_admitted_stable(
                    g0,
                    *self,
                    gs as int,
                    g as int,
                    x + 1 as int,
                    y as int,
                    false,
                );
                lemma_admitted_stable(
                    g0,
                    *self,
                    gs as int,
                    g as int,
                    x as int,
                    y + 1 as int,
                    false,
                );
                lemma_admitted_stable(
                    g0,
                    *self,
                    gs as int,
                    g as int,
                    x + 1 as int,
                    y + 1 as int,
                    false,
                );
                assert(corner_linked(*self, i as int, gs as int, g as int, x as int, y as int, atlas));
                assert(corner_linked(
                    *self,
                    i as int,
                    gs as int,
                    g as int,
                    x + 1 as int,
                    y as int,
                    atlas,
                ));
                assert(corner_linked(
                    *self,
                    i as int,
                    gs as int,
                    g as int,
                    x as int,
                    y + 1 as int,
                    atlas,
                ));
                assert(corner_linked(
                    *self,
                    i as int,
                    gs as int,
                    g as int,
                    x + 1 as int,
                    y + 1 as int,
                    atlas,
                ));
                // the interning inventory carries through the four connects
                assert(self.cmap@ == g4.cmap@ && self.nodes@ == g4.nodes@);
                assert forall|k: u64| #[trigger] self.cmap@.contains_key(k) implies old(
                    self,
                ).cmap@.contains_key(k) || is_corner_key(
                    *old(self),
                    gs as int,
                    g as int,
                    i as int,
                    k,
                ) by {
                    assert(g4.cmap@.contains_key(k));
                }
                assert forall|idx: int|
                    old(self).nodes@.len() <= idx < self.nodes@.len() implies #[trigger] node_is_cell(
                    *self,
                    idx,
                ) by {
                    assert(node_is_cell(g4, idx));
                    lemma_node_is_cell_grows(g4, *self, idx);
                }
                assert forall|k: int|
                    old(self).edges@.len() <= k < self.edges@.len() implies edge_at_anchor(
                    *self,
                    gs as int,
                    g as int,
                    i as int,
                    #[trigger] self.edges@[k],
                ) by {
                    let e = self.edges@[k];
                    if k < g5.edges@.len() {
                        let v = s1.unwrap();
                        lemma_connect_edges_shape(g4.nodes@, g4.barriers@, i, v, atlas);
                        assert(g5.edges@[k] == e);
                    } else if k < g6.edges@.len() {
                        let v = s2.unwrap();
                        lemma_connect_edges_shape(g5.nodes@, g5.barriers@, i, v, atlas);
                        assert(g6.edges@[k] == e);
                    } else if k < g7.edges@.len() {
                        let v = s3.unwrap();
                        lemma_connect_edges_shape(g6.nodes@, g6.barriers@, i, v, atlas);
                        assert(g7.edges@[k] == e);
                    } else {
                        let v = s4.unwrap();
                        lemma_connect_edges_shape(g7.nodes@, g7.barriers@, i, v, atlas);
                    }
                }
            }
        }
    }

    /// Add a candidate node of the coarse pass: admitted only inside the
    /// covering ellipse.
    pub fn add_pass1_node(&mut self, x: i64, y: i64) -> (r: Option<usize>)
        requires
            old(self).wf(),
            -3_000_000_000 <= x <= 3_000_000_000,
            -3_000_000_000 <= y <= 3_000_000_000,
        ensures
            final(self).wf(),
            final(self).grows_from(*old(self)),
            final(self).edges@ == old(self).edges@,
            final(self).end_node == old(self).end_node,
            r is Some <==> cell_admitted(
                *old(self),
                old(self).gs_pass1 as int,
                old(self).g_pass1 as int,
                x as int,
                y as int,
                true,
            ),
            r is None ==> *final(self) == *old(self),
            r matches Some(vi) ==> {
                &&& vi < final(self).nodes@.len()
                &&& final(self).cmap@.contains_key(cell_key(x as int, y as int))
                &&& final(self).cmap@[cell_key(x as int, y as int)] == vi
                &&& (old(self).cmap@.contains_key(cell_key(x as int, y as int)) ==> *final(self)
                    == *old(self))
                &&& (!old(self).cmap@.contains_key(cell_key(x as int, y as int)) ==> {
                    &&& vi == old(self).nodes@.len()
                    &&& final(self).nodes@ == old(self).nodes@.push(
                        cell_coord(
                            old(self).o,
                            old(self).gs_pass1 as int,
                            old(self).g_pass1 as int,
                            x as int,
                            y as int,
                        ),
                    )
                    &&& final(self).cmap@ == old(self).cmap@.insert(
                        cell_key(x as int, y as int),
                        vi,
                    )
                })
            },
    {
        let gs = self.gs_pass1;
        let g = self.g_pass1;
        self.insert_node_from_grid_units(gs, g, x, y, true)
    }

    /// Connect a fresh fine-pass node to one neighbouring cell, when that
    /// cell already has a node.
    fn connect_pass2_neighbor<A: AtlasModel>(
        &mut self,
        c: Option<usize>,
        xn: i64,
        yn: i64,
        atlas: &A,
    )
        requires
            old(self).wf(),
            old(self).edges_valid(atlas),
            cells_assoc(*old(self), old(self).gs_pass2 as int, old(self).g_pass2 as int),
            -3_000_000_002 <= xn <= 3_000_000_002,
            -3_000_000_002 <= yn <= 3_000_000_002,
            c matches Some(i) ==> i < old(self).nodes@.len(),
        ensures
            final(self).wf(),
            final(self).edges_valid(atlas),
            final(self).grows_from(*old(self)),
            final(self).end_node == old(self).end_node,
            cells_assoc(*final(self), final(self).gs_pass2 as int, final(self).g_pass2 as int),
            final(self).cmap@ == old(self).cmap@,
            final(self).nodes@ == old(self).nodes@,
            c is None ==> final(self).edges@ == old(self).edges@,
            c matches Some(ci) ==> forall|k: int|
                old(self).edges@.len() <= k < final(self).edges@.len() ==> {
                    &&& 0 <= xn < 0x8000_0000
                    &&& 0 <= yn < 0x8000_0000
                    &&& old(self).cmap@.contains_key(cell_key(xn as int, yn as int))
                    &&& (((#[trigger] final(self).edges@[k]).0 == ci && old(self).cmap@[cell_key(
                        xn as int,
                        yn as int,
                    )] == final(self).edges@[k].1) || (final(self).edges@[k].1 == ci && old(
                        self,
                    ).cmap@[cell_key(xn as int, yn as int)] == final(self).edges@[k].0))
                },
    {
        if !self.node_exists(xn, yn) {
            return;
        }
        let gs = self.gs_pass2;
        let g = self.g_pass2;
        let ghost g0 = *self;
        let cn = self.insert_node_from_grid_units(gs, g, xn, yn, false);
        proof {
            lemma_edges_valid_extend(self.edges@, g0.nodes@, self.nodes@, self.barriers@, atlas);
            lemma_assoc_after_insert(g0, *self, gs as int, g as int, xn as int, yn as int, cn);
        }
        let ghost g1 = *self;
        self.connect(c, cn, atlas);
        proof {
            lemma_assoc_same_cmap(g1, *self, gs as int, g as int);
        }
    }

    /// Add a fine-pass node and connect it to every neighbouring cell that
    /// already has one.
    #[verifier::rlimit(100)]
    #[verifier::spinoff_prover]
    pub fn add_pass2_node<A: AtlasModel>(&mut self, x: i64, y: i64, atlas: &A)
        requires
            old(self).wf(),
            old(self).edges_valid(atlas),
            cells_assoc(*old(self), old(self).gs_pass2 as int, old(self).g_pass2 as int),
            -3_000_000_001 <= x <= 3_000_000_001,
            -3_000_000_001 <= y <= 3_000_000_001,
        ensures
            final(self).wf(),
            final(self).edges_valid(atlas),
            final(self).grows_from(*old(self)),
            final(self).end_node == old(self).end_node,
            cells_assoc(*final(self), final(self).gs_pass2 as int, final(self).g_pass2 as int),
            0 <= x < 0x8000_0000 && 0 <= y < 0x8000_0000 && old(self).cmap@.contains_key(
                cell_key(x as int, y as int),
            ) ==> *final(self) == *old(self),
            cell_admitted(
                *old(self),
                old(self).gs_pass2 as int,
                old(self).g_pass2 as int,
                x as int,
                y as int,
                false,
            ) ==> final(self).cmap@.contains_key(cell_key(x as int, y as int)),
            forall|k: u64|
                #[trigger] final(self).cmap@.contains_key(k) ==> old(self).cmap@.contains_key(k)
                    || (0 <= x < 0x8000_0000 && 0 <= y < 0x8000_0000 && k == cell_key(
                    x as int,
                    y as int,
                )),
            final(self).nodes@.len() == old(self).nodes@.len() || (final(self).nodes@.len() == old(
                self,
            ).nodes@.len() + 1 && 0 <= x < 0x8000_0000 && 0 <= y < 0x8000_0000
                && final(self).cmap@.contains_key(cell_key(x as int, y as int))
                && final(self).cmap@[cell_key(x as int, y as int)] == old(self).nodes@.len()),
            forall|k: int|
                old(self).edges@.len() <= k < final(self).edges@.len() ==> edge_between_cells(
                    *final(self),
                    #[trigger] final(self).edges@[k],
                ),
    {
        if self.node_exists(x, y) {
            return;
        }
        let gs = self.gs_pass2;
        let g = self.g_pass2;
        let ghost g0 = *self;
        let c = self.insert_node_from_grid_units(gs, g, x, y, false);
        proof {
            lemma_edges_valid_extend(self.edges@, g0.nodes@, self.nodes@, self.barriers@, atlas);
            lemma_assoc_after_insert(g0, *self, gs as int, g as int, x as int, y as int, c);
        }
        let ghost gn0 = *self;
        self.connect_pass2_neighbor(c, x - 1, y - 1, atlas);
        let ghost gn1 = *self;
        self.connect_pass2_neighbor(c, x, y - 1, atlas);
        let ghost gn2 = *self;
        self.connect_pass2_neighbor(c, x + 1, y - 1, atlas);
        let ghost gn3 = *self;
        self.connect_pass2_neighbor(c, x - 1, y, atlas);
        let ghost gn4 = *self;
        self.connect_pass2_neighbor(c, x + 1, y, atlas);
        let ghost gn5 = *self;
        self.connect_pass2_neighbor(c, x - 1, y + 1, atlas);
        let ghost gn6 = *self;
        self.connect_pass2_neighbor(c, x, y + 1, atlas);
        let ghost gn7 = *self;
        self.connect_pass2_neighbor(c, x + 1, y + 1, atlas);
        proof {
            if c is Some {
                let ci = c.unwrap();
                assert(self.cmap@ == gn0.cmap@);
                assert(self.cmap@.contains_key(cell_key(x as int, y as int)) && self.cmap@[cell_key(
                    x as int,
                    y as int,
                )] == ci);
                assert(0 <= x < 0x8000_0000 && 0 <= y < 0x8000_0000);
                assert forall|k: int|
                    gn0.edges@.len() <= k < self.edges@.len() implies edge_between_cells(
                    *self,
                    #[trigger] self.edges@[k],
                ) by {
                    let e = self.edges@[k];
                    if k < gn1.edges@.len() {
                        assert(gn1.edges@[k] == e);
                    } else if k < gn2.edges@.len() {
                        assert(gn2.edges@[k] == e);
                    } else if k < gn3.edges@.len() {
                        assert(gn3.edges@[k] == e);
                    } else if k < gn4.edges@.len() {
                        assert(gn4.edges@[k] == e);
                    } else if k < gn5.edges@.len() {
                        assert(gn5.edges@[k] == e);
                    } else if k < gn6.edges@.len() {
                        assert(gn6.edges@[k] == e);
                    } else if k < gn7.edges@.len() {
                        assert(gn7.edges@[k] == e);
                    }
                }
            } else {
                assert(self.edges@ == g0.edges@);
            }
        }
    }

    /// What the builders guarantee: the graph is well-formed, node 0 is
    /// the start endpoint, the recorded end node is the end endpoint, and
    /// every edge is valid for the terrain the graph was built over.
    pub open spec fn built<A: AtlasModel>(self, atlas: &A) -> bool {
        &&& self.wf()
        &&& self.edges_valid(atlas)
        &&& self.nodes@.len() >= 2
        &&& self.nodes@[0] == self.a
        &&& 1 <= self.end_node < self.nodes@.len()
        &&& self.nodes@[self.end_node as int] == self.b
    }

    /// Connect the four corner nodes of one swept unit square pairwise,
    /// in the triangulated pattern of the coarse pass.
    #[verifier::rlimit(100)]
    #[verifier::spinoff_prover]
    fn link_square<A: AtlasModel>(
        &mut self,
        c1: Option<usize>,
        c2: Option<usize>,
        c3: Option<usize>,
        c4: Option<usize>,
        x: i64,
        y: i64,
        atlas: &A,
    )
        requires
            old(self).wf(),
            old(self).edges_valid(atlas),
            cells_assoc(*old(self), old(self).gs_pass1 as int, old(self).g_pass1 as int),
            0 <= x < old(self).g_pass1,
            0 <= y < old(self).g_pass1,
            old(self).g_pass1 <= 2_000_000_000,
            c1 matches Some(i) ==> i < old(self).nodes@.len() && old(self).cmap@.contains_key(
                cell_key(x as int, y as int),
            ) && old(self).cmap@[cell_key(x as int, y as int)] == i,
            c2 matches Some(i) ==> i < old(self).nodes@.len() && old(self).cmap@.contains_key(
                cell_key(x + 1 as int, y as int),
            ) && old(self).cmap@[cell_key(x + 1 as int, y as int)] == i,
            c3 matches Some(i) ==> i < old(self).nodes@.len() && old(self).cmap@.contains_key(
                cell_key(x as int, y + 1 as int),
            ) && old(self).cmap@[cell_key(x as int, y + 1 as int)] == i,
            c4 matches Some(i) ==> i < old(self).nodes@.len() && old(self).cmap@.contains_key(
                cell_key(x + 1 as int, y + 1 as int),
            ) && old(self).cmap@[cell_key(x + 1 as int, y + 1 as int)] == i,
            cell_admitted(
                *old(self),
                old(self).gs_pass1 as int,
                old(self).g_pass1 as int,
                x as int,
                y as int,
                true,
            ) ==> c1 is Some,
            cell_admitted(
                *old(self),
                old(self).gs_pass1 as int,
                old(self).g_pass1 as int,
                x + 1 as int,
                y as int,
                true,
            ) ==> c2 is Some,
            cell_admitted(
                *old(self),
                old(self).gs_pass1 as int,
                old(self).g_pass1 as int,
                x as int,
                y + 1 as int,
                true,
            ) ==> c3 is Some,
            cell_admitted(
                *old(self),
                old(self).gs_pass1 as int,
                old(self).g_pass1 as int,
                x + 1 as int,
                y + 1 as int,
                true,
            ) ==> c4 is Some,
        ensures
            final(self).wf(),
            final(self).edges_valid(atlas),
            final(self).grows_from(*old(self)),
            final(self).end_node == old(self).end_node,
            final(self).cmap@ == old(self).cmap@,
            final(self).nodes@ == old(self).nodes@,
            cells_assoc(*final(self), final(self).gs_pass1 as int, final(self).g_pass1 as int),
            square_linked(*final(self), x as int, y as int, atlas),
            forall|k: int|
                old(self).edges@.len() <= k < final(self).edges@.len() ==> edge_between_cells(
                    *final(self),
                    #[trigger] final(self).edges@[k],
                ),
    {
        let gs = self.gs_pass1;
        let g = self.g_pass1;
        let ghost gc0 = *self;
        self.connect(c1, c2, atlas);
        proof {
            lemma_assoc_same_cmap(gc0, *self, gs as int, g as int);
            if c1 is Some && c2 is Some {
                lemma_subsumed_after_connect(gc0, *self, c1.unwrap() as int, c2.unwrap() as int, atlas);
            }
        }
        let ghost gc1 = *self;
        self.connect(c1, c3, atlas);
        proof {
            lemma_assoc_same_cmap(gc1, *self, gs as int, g as int);
            if c1 is Some && c2 is Some {
                lemma_subsumed_grows(gc1, *self, c1.unwrap() as int, c2.unwrap() as int, atlas);
            }
            if c1 is Some && c3 is Some {
                lemma_subsumed_after_connect(gc1, *self, c1.unwrap() as int, c3.unwrap() as int, atlas);
            }
        }
        let ghost gc2 = *self;
        self.connect(c1, c4, atlas);
        proof {
            lemma_assoc_same_cmap(gc2, *self, gs as int, g as int);
            if c1 is Some && c2 is Some {
                lemma_subsumed_grows(gc2, *self, c1.unwrap() as int, c2.unwrap() as int, atlas);
            }
            if c1 is Some && c3 is Some {
                lemma_subsumed_grows(gc2, *self, c1.unwrap() as int, c3.unwrap() as int, atlas);
            }
            if c1 is Some && c4 is Some {
                lemma_subsumed_after_connect(gc2, *self, c1.unwrap() as int, c4.unwrap() as int, atlas);
            }
        }
        let ghost gc3 = *self;
        self.connect(c2, c3, atlas);
        proof {
            lemma_assoc_same_cmap(gc3, *self, gs as int, g as int);
            if c1 is Some && c2 is Some {
                lemma_subsumed_grows(gc3, *self, c1.unwrap() as int, c2.unwrap() as int, atlas);
            }
            if c1 is Some && c3 is Some {
                lemma_subsumed_grows(gc3, *self, c1.unwrap() as int, c3.unwrap() as int, atlas);
            }
            if c1 is Some && c4 is Some {
                lemma_subsumed_grows(gc3, *self, c1.unwrap() as int, c4.unwrap() as int, atlas);
            }
            if c2 is Some && c3 is Some {
                lemma_subsumed_after_connect(gc3, *self, c2.unwrap() as int, c3.unwrap() as int, atlas);
            }
            assert(square_linked(*self, x as int, y as int, atlas));
            assert forall|k: int|
                gc0.edges@.len() <= k < self.edges@.len() implies edge_between_cells(
                *self,
                #[trigger] self.edges@[k],
            ) by {
                let e = self.edges@[k];
                if k < gc1.edges@.len() {
                    if c1 is Some && c2 is Some {
                        lemma_connect_edges_shape(
                            gc0.nodes@,
                            gc0.barriers@,
                            c1.unwrap(),
                            c2.unwrap(),
                            atlas,
                        );
                        assert(gc1.edges@[k] == e);
                        assert(self.cmap@.contains_key(cell_key(x as int, y as int))
                            && self.cmap@[cell_key(x as int, y as int)] == c1.unwrap());
                        assert(self.cmap@.contains_key(cell_key(x + 1 as int, y as int))
                            && self.cmap@[cell_key(x + 1 as int, y as int)] == c2.unwrap());
                    } else {
                        assert(gc1.edges@ == gc0.edges@);
                    }
                } else if k < gc2.edges@.len() {
                    if c1 is Some && c3 is Some {
                        lemma_connect_edges_shape(
                            gc1.nodes@,
                            gc1.barriers@,
                            c1.unwrap(),
                            c3.unwrap(),
                            atlas,
                        );
                        assert(gc2.edges@[k] == e);
                        assert(self.cmap@.contains_key(cell_key(x as int, y as int))
                            && self.cmap@[cell_key(x as int, y as int)] == c1.unwrap());
                        assert(self.cmap@.contains_key(cell_key(x as int, y + 1 as int))
                            && self.cmap@[cell_key(x as int, y + 1 as int)] == c3.unwrap());
                    } else {
                        assert(gc2.edges@ == gc1.edges@);
                    }
                } else if k < gc3.edges@.len() {
                    if c1 is Some && c4 is Some {
                        lemma_connect_edges_shape(
                            gc2.nodes@,
                            gc2.barriers@,
                            c1.unwrap(),
                            c4.unwrap(),
                            atlas,
                        );
                        assert(gc3.edges@[k] == e);
                        assert(self.cmap@.contains_key(cell_key(x as int, y as int))
                            && self.cmap@[cell_key(x as int, y as int)] == c1.unwrap());
                        assert(self.cmap@.contains_key(cell_key(x + 1 as int, y + 1 as int))
                            && self.cmap@[cell_key(x + 1 as int, y + 1 as int)] == c4.unwrap());
                    } else {
                        assert(gc3.edges@ == gc2.edges@);
                    }
                } else {
                    if c2 is Some && c3 is Some {
                        lemma_connect_edges_shape(
                            gc3.nodes@,
                            gc3.barriers@,
                            c2.unwrap(),
                            c3.unwrap(),
                            atlas,
                        );
                        assert(self.cmap@.contains_key(cell_key(x + 1 as int, y as int))
                            && self.cmap@[cell_key(x + 1 as int, y as int)] == c2.unwrap());
                        assert(self.cmap@.contains_key(cell_key(x as int, y + 1 as int))
                            && self.cmap@[cell_key(x as int, y + 1 as int)] == c3.unwrap());
                    } else {
                        assert(self.edges@ == gc3.edges@);
                    }
                }
            }
        }
    }

    /// Process one unit square of the coarse sweep: intern its four
    /// corner cells where admitted and connect the four prescribed pairs.
    /// Afterwards each admitted corner is interned and the square is
    /// fully linked.
    #[verifier::rlimit(100)]
    #[verifier::spinoff_prover]
    fn sweep_square<A: AtlasModel>(&mut self, x: i64, y: i64, atlas: &A)
        requires
            old(self).wf(),
            old(self).edges_valid(atlas),
            cells_assoc(*old(self), old(self).gs_pass1 as int, old(self).g_pass1 as int),
            0 <= x < old(self).g_pass1,
            0 <= y < old(self).g_pass1,
        ensures
            final(self).wf(),
            final(self).edges_valid(atlas),
            final(self).grows_from(*old(self)),
            final(self).end_node == old(self).end_node,
            cells_assoc(*final(self), final(self).gs_pass1 as int, final(self).g_pass1 as int),
            cell_admitted(
                *final(self),
                final(self).gs_pass1 as int,
                final(self).g_pass1 as int,
                x as int,
                y as int,
                true,
            ) ==> final(self).cmap@.contains_key(cell_key(x as int, y as int)),
            cell_admitted(
                *final(self),
                final(self).gs_pass1 as int,
                final(self).g_pass1 as int,
                x + 1 as int,
                y as int,
                true,
            ) ==> final(self).cmap@.contains_key(cell_key(x + 1 as int, y as int)),
            cell_admitted(
                *final(self),
                final(self).gs_pass1 as int,
                final(self).g_pass1 as int,
                x as int,
                y + 1 as int,
                true,
            ) ==> final(self).cmap@.contains_key(cell_key(x as int, y + 1 as int)),
            cell_admitted(
                *final(self),
                final(self).gs_pass1 as int,
                final(self).g_pass1 as int,
                x + 1 as int,
                y + 1 as int,
                true,
            ) ==> final(self).cmap@.contains_key(cell_key(x + 1 as int, y + 1 as int)),
            square_linked(*final(self), x as int, y as int, atlas),
            forall|idx: int|
                old(self).nodes@.len() <= idx < final(self).nodes@.len() ==> #[trigger] node_is_cell(
                    *final(self),
                    idx,
                ),
            forall|k: int|
                old(self).edges@.len() <= k < final(self).edges@.len() ==> edge_between_cells(
                    *final(self),
                    #[trigger] final(self).edges@[k],
                ),
    {
        let gs = self.gs_pass1;
        let g = self.g_pass1;
        let ghost gtop = *self;
        let c1 = self.add_pass1_node(x, y);
        proof {
            lemma_edges_valid_extend(
                self.edges@,
                gtop.nodes@,
                self.nodes@,
                self.barriers@,
                atlas,
            );
            lemma_assoc_after_insert(
                gtop,
                *self,
                gs as int,
                g as int,
                x as int,
                y as int,
                c1,
            );
        }
        let ghost gi1 = *self;
        let c2 = self.add_pass1_node(x + 1, y);
        proof {
            lemma_edges_valid_extend(
                self.edges@,
                gi1.nodes@,
                self.nodes@,
                self.barriers@,
                atlas,
            );
            lemma_assoc_after_insert(
                gi1,
                *self,
                gs as int,
                g as int,
                x + 1 as int,
                y as int,
                c2,
            );
        }
        let ghost gi2 = *self;
        let c3 = self.add_pass1_node(x, y + 1);
        proof {
            lemma_edges_valid_extend(
                self.edges@,
                gi2.nodes@,
                self.nodes@,
                self.barriers@,
                atlas,
            );
            lemma_assoc_after_insert(
                gi2,
                *self,
                gs as int,
                g as int,
                x as int,
                y + 1 as int,
                c3,
            );
        }
        let ghost gi3 = *self;
        let c4 = self.add_pass1_node(x + 1, y + 1);
        proof {
            lemma_edges_valid_extend(
                self.edges@,
                gi3.nodes@,
                self.nodes@,
                self.barriers@,
                atlas,
            );
            lemma_assoc_after_insert(
                gi3,
                *self,
                gs as int,
                g as int,
                x + 1 as int,
                y + 1 as int,
                c4,
            );
        }
        let ghost gc0 = *self;
        proof {
            lemma_admitted_stable(gtop, *self, gs as int, g as int, x as int, y as int, true);
            lemma_admitted_stable(gi1, *self, gs as int, g as int, x + 1 as int, y as int, true);
            lemma_admitted_stable(gi2, *self, gs as int, g as int, x as int, y + 1 as int, true);
            lemma_admitted_stable(
                gi3,
                *self,
                gs as int,
                g as int,
                x + 1 as int,
                y + 1 as int,
                true,
            );
        }
        self.link_square(c1, c2, c3, c4, x, y, atlas);
        proof {
            // admission of this square's cells is the same question
            // at every state the four inserts saw
            lemma_admitted_stable(gtop, *self, gs as int, g as int, x as int, y as int, true);
            lemma_admitted_stable(
                gi1,
                *self,
                gs as int,
                g as int,
                x + 1 as int,
                y as int,
                true,
            );
            lemma_admitted_stable(
                gi2,
                *self,
                gs as int,
                g as int,
                x as int,
                y + 1 as int,
                true,
            );
            lemma_admitted_stable(
                gi3,
                *self,
                gs as int,
                g as int,
                x + 1 as int,
                y + 1 as int,
                true,
            );
            assert(cell_admitted(*self, gs as int, g as int, x as int, y as int, true)
                ==> self.cmap@.contains_key(cell_key(x as int, y as int)));
            assert(cell_admitted(*self, gs as int, g as int, x + 1 as int, y as int, true)
                ==> self.cmap@.contains_key(cell_key(x + 1 as int, y as int)));
            assert(cell_admitted(*self, gs as int, g as int, x as int, y + 1 as int, true)
                ==> self.cmap@.contains_key(cell_key(x as int, y + 1 as int)));
            assert(cell_admitted(
                *self,
                gs as int,
                g as int,
                x + 1 as int,
                y + 1 as int,
                true,
            ) ==> self.cmap@.contains_key(cell_key(x + 1 as int, y + 1 as int)));
            assert(square_linked(*self, x as int, y as int, atlas));
            assert forall|idx: int|
                gtop.nodes@.len() <= idx < self.nodes@.len() implies #[trigger] node_is_cell(
                *self,
                idx,
            ) by {
                if idx < gi1.nodes@.len() {
                    assert(node_is_cell(gi1, idx));
                    lemma_node_is_cell_grows(gi1, *self, idx);
                } else if idx < gi2.nodes@.len() {
                    assert(node_is_cell(gi2, idx));
                    lemma_node_is_cell_grows(gi2, *self, idx);
                } else if idx < gi3.nodes@.len() {
                    assert(node_is_cell(gi3, idx));
                    lemma_node_is_cell_grows(gi3, *self, idx);
                } else {
                    assert(idx < gc0.nodes@.len());
                    assert(node_is_cell(gc0, idx));
                    lemma_node_is_cell_grows(gc0, *self, idx);
                }
            }
            assert forall|k: int|
                gtop.edges@.len() <= k < self.edges@.len() implies edge_between_cells(
                *self,
                #[trigger] self.edges@[k],
            ) by {
                assert(gc0.edges@ == gtop.edges@);
            }
        }
    }

    /// Build the coarse graph: every lattice cell inside the covering
    /// ellipse becomes a node, neighbouring nodes are connected in a
    /// triangulated pattern, and the endpoint anchors are attached to
    /// their containing cells.  Afterwards the graph is complete for the
    /// sweep: every admitted cell is interned at its cell's point, every
    /// unit-square pair of admitted cells carries every edge its step is
    /// owed, and each anchor is linked to its cell's corners.
    #[verifier::rlimit(100)]
    #[verifier::spinoff_prover]
    pub fn build_graph_from_end_points<A: AtlasModel>(&mut self, atlas: &A)
        requires
            old(self).wf(),
            old(self).nodes@.len() == 0,
            old(self).edges@.len() == 0,
            old(self).cmap@ == Map::<u64, usize>::empty(),
        ensures
            final(self).built(atlas),
            final(self).a == old(self).a,
            final(self).b == old(self).b,
            final(self).barriers == old(self).barriers,
            final(self).gs_pass1 == old(self).gs_pass1,
            final(self).g_pass1 == old(self).g_pass1,
            final(self).gs_pass2 == old(self).gs_pass2,
            final(self).g_pass2 == old(self).g_pass2,
            final(self).o == old(self).o,
            final(self).f1 == old(self).f1,
            final(self).f2 == old(self).f2,
            final(self).major == old(self).major,
            coarse_complete(*final(self), atlas),
            anchor_linked(
                *final(self),
                0,
                final(self).gs_pass1 as int,
                final(self).g_pass1 as int,
                atlas,
            ),
            anchor_linked(
                *final(self),
                final(self).end_node as int,
                final(self).gs_pass1 as int,
                final(self).g_pass1 as int,
                atlas,
            ),
            forall|idx: int|
                0 <= idx < final(self).nodes@.len() && idx != 0 && idx != final(self).end_node
                    ==> #[trigger] node_is_cell(*final(self), idx),
            forall|k: int|
                0 <= k < final(self).edges@.len() ==> edge_between_cells(
                    *final(self),
                    #[trigger] final(self).edges@[k],
                ) || edge_at_anchor(
                    *final(self),
                    final(self).gs_pass1 as int,
                    final(self).g_pass1 as int,
                    0,
                    final(self).edges@[k],
                ) || edge_at_anchor(
                    *final(self),
                    final(self).gs_pass1 as int,
                    final(self).g_pass1 as int,
                    final(self).end_node as int,
                    final(self).edges@[k],
                ),
    {
        let g = self.g_pass1;
        let gs = self.gs_pass1;
        let ia = self.insert_node_from_coord(self.a);
        proof {
            assert(cells_assoc(*self, gs as int, g as int));
        }
        let ghost g_after_a = *self;
        let mut x: i64 = 0;
        while x < g
            invariant
                self.wf(),
                self.edges_valid(atlas),
                self.grows_from(g_after_a),
                self.end_node == g_after_a.end_node,
                self.nodes@.len() >= 1,
                self.nodes@[0] == self.a,
                g == self.g_pass1,
                gs == self.gs_pass1,
                1 <= g <= 2_000_000_000,
                0 <= x <= g,
                cells_assoc(*self, gs as int, g as int),
                x == 0 || coarse_nodes_upto(*self, x as int),
                coarse_squares_upto(*self, x as int, atlas),
                forall|idx: int|
                    1 <= idx < self.nodes@.len() ==> #[trigger] node_is_cell(*self, idx),
                forall|k: int|
                    0 <= k < self.edges@.len() ==> edge_between_cells(
                        *self,
                        #[trigger] self.edges@[k],
                    ),
            decreases g - x,
        {
            let mut y: i64 = 0;
            while y < g
                invariant
                    self.wf(),
                    self.edges_valid(atlas),
                    self.grows_from(g_after_a),
                    self.end_node == g_after_a.end_node,
                    self.nodes@.len() >= 1,
                    self.nodes@[0] == self.a,
                    g == self.g_pass1,
                    gs == self.gs_pass1,
                    1 <= g <= 2_000_000_000,
                    0 <= x < g,
                    0 <= y <= g,
                    cells_assoc(*self, gs as int, g as int),
                    x == 0 || coarse_nodes_upto(*self, x as int),
                    coarse_squares_upto(*self, x as int, atlas),
                    y == 0 || col_known(*self, gs as int, g as int, x as int, y as int),
                    forall|j: int| 0 <= j < y ==> #[trigger] square_linked(*self, x as int, j, atlas),
                    forall|idx: int|
                        1 <= idx < self.nodes@.len() ==> #[trigger] node_is_cell(*self, idx),
                    forall|k: int|
                        0 <= k < self.edges@.len() ==> edge_between_cells(
                            *self,
                            #[trigger] self.edges@[k],
                        ),
                decreases g - y,
            {
                let ghost gtop = *self;
                self.sweep_square(x, y, atlas);
                proof {
                    // this square's facts are fresh; earlier facts carry over
                    if x > 0 {
                        lemma_coarse_upto_grows(gtop, *self, x as int, atlas);
                    } else {
                        assert(coarse_squares_upto(*self, x as int, atlas));
                    }
                    lemma_col_known_step(gtop, *self, gs as int, g as int, x as int, y as int);
                    assert(col_known(*self, gs as int, g as int, x as int, y + 1 as int));
                    assert forall|j: int| 0 <= j < y + 1 implies #[trigger] square_linked(
                        *self,
                        x as int,
                        j,
                        atlas,
                    ) by {
                        if j < y {
                            assert(square_linked(gtop, x as int, j, atlas));
                            lemma_pair_linked_grows(gtop, *self, x as int, j, x + 1 as int, j, atlas);
                            lemma_pair_linked_grows(gtop, *self, x as int, j, x as int, j + 1, atlas);
                            lemma_pair_linked_grows(
                                gtop,
                                *self,
                                x as int,
                                j,
                                x + 1 as int,
                                j + 1,
                                atlas,
                            );
                            lemma_pair_linked_grows(
                                gtop,
                                *self,
                                x + 1 as int,
                                j,
                                x as int,
                                j + 1,
                                atlas,
                            );
                        }
                    }
                    assert forall|idx: int|
                        1 <= idx < self.nodes@.len() implies #[trigger] node_is_cell(
                        *self,
                        idx,
                    ) by {
                        if idx < gtop.nodes@.len() {
                            assert(node_is_cell(gtop, idx));
                            lemma_node_is_cell_grows(gtop, *self, idx);
                        } else {
                            assert(node_is_cell(*self, idx));
                        }
                    }
                    assert forall|k: int|
                        0 <= k < self.edges@.len() implies edge_between_cells(
                        *self,
                        #[trigger] self.edges@[k],
                    ) by {
                        if k < gtop.edges@.len() {
                            assert(self.edges@[k] == gtop.edges@[k]);
                            assert(edge_between_cells(gtop, gtop.edges@[k]));
                            lemma_edge_between_cells_grows(gtop, *self, gtop.edges@[k]);
                        } else {
                            assert(edge_between_cells(*self, self.edges@[k]));
                        }
                    }
                }
                y = y + 1;
            }
            proof {
                assert(coarse_nodes_upto(*self, x + 1 as int)) by {
                    assert forall|i: int, j: int|
                        0 <= i <= x + 1 && 0 <= j <= self.g_pass1 && cell_admitted(
                        *self,
                        self.gs_pass1 as int,
                        self.g_pass1 as int,
                        i,
                        j,
                        true,
                    ) implies self.cmap@.contains_key(#[trigger] cell_key(i, j)) by {
                        if i == x as int || i == x + 1 {
                            assert(col_known(*self, gs as int, g as int, x as int, g as int));
                            assert(cell_key(x as int, j) == cell_key(x as int, j));
                            assert(gs == self.gs_pass1 && g == self.g_pass1);
                            assert((cell_admitted(*self, gs as int, g as int, x as int, j, true)
                                ==> self.cmap@.contains_key(cell_key(x as int, j))) && (
                            cell_admitted(*self, gs as int, g as int, x + 1 as int, j, true)
                                ==> self.cmap@.contains_key(cell_key(x + 1 as int, j))));
                        } else {
                            assert(x > 0 && i <= x);
                        }
                    }
                }
                assert(coarse_squares_upto(*self, x + 1 as int, atlas)) by {
                    assert forall|i: int, j: int|
                        0 <= i < x + 1 && 0 <= j < self.g_pass1 implies #[trigger] square_linked(
                        *self,
                        i,
                        j,
                        atlas,
                    ) by {
                        if i < x {
                        }
                    }
                }
            }
            x = x + 1;
        }
        let ghost g_loop = *self;
        self.connect_end_node(Option::Some(ia), gs, g, atlas);
        proof {
            assert(self.nodes@[0] == g_loop.nodes@[0]);
            lemma_coarse_upto_grows(g_loop, *self, g as int, atlas);
        }
        let ghost g_a = *self;
        let ib = self.insert_node_from_coord(self.b);
        proof {
            lemma_edges_valid_extend(self.edges@, g_a.nodes@, self.nodes@, self.barriers@, atlas);
            lemma_assoc_same_cmap(g_a, *self, gs as int, g as int);
            lemma_coarse_upto_grows(g_a, *self, g as int, atlas);
            lemma_anchor_linked_grows(g_a, *self, ia as int, gs as int, g as int, atlas);
            assert(self.nodes@[0] == g_a.nodes@[0]);
            assert(self.nodes@[ib as int] == self.b);
        }
        let ghost g_ib = *self;
        self.end_node = ib;
        proof {
            assert(self.grows_from(g_ib));
            lemma_coarse_upto_grows(g_ib, *self, g as int, atlas);
            lemma_anchor_linked_grows(g_ib, *self, ia as int, gs as int, g as int, atlas);
            lemma_assoc_same_cmap(g_ib, *self, gs as int, g as int);
        }
        let ghost g_b = *self;
        self.connect_end_node(Option::Some(ib), gs, g, atlas);
        proof {
            assert(self.nodes@[0] == g_b.nodes@[0]);
            assert(self.nodes@[ib as int] == g_b.nodes@[ib as int]);
            lemma_coarse_upto_grows(g_b, *self, g as int, atlas);
            lemma_anchor_linked_grows(g_b, *self, 0, gs as int, g as int, atlas);
            assert(ia == 0 && self.end_node == ib && self.gs_pass1 == gs && self.g_pass1 == g);
            assert(self.grows_from(g_loop) && self.grows_from(g_a));
            assert(g_b.edges@ == g_a.edges@);
            assert forall|idx: int|
                0 <= idx < self.nodes@.len() && idx != 0 && idx
                    != self.end_node implies #[trigger] node_is_cell(*self, idx) by {
                if idx < g_loop.nodes@.len() {
                    assert(node_is_cell(g_loop, idx));
                    lemma_node_is_cell_grows(g_loop, *self, idx);
                } else if idx < g_a.nodes@.len() {
                    assert(node_is_cell(g_a, idx));
                    lemma_node_is_cell_grows(g_a, *self, idx);
                } else if idx < g_b.nodes@.len() {
                    assert(idx == ib as int);
                } else {
                    assert(node_is_cell(*self, idx));
                }
            }
            assert forall|k: int|
                0 <= k < self.edges@.len() implies edge_between_cells(
                *self,
                #[trigger] self.edges@[k],
            ) || edge_at_anchor(*self, gs as int, g as int, 0, self.edges@[k]) || edge_at_anchor(
                *self,
                gs as int,
                g as int,
                self.end_node as int,
                self.edges@[k],
            ) by {
                let e = self.edges@[k];
                if k < g_loop.edges@.len() {
                    assert(e == g_loop.edges@[k]);
                    assert(edge_between_cells(g_loop, e));
                    lemma_edge_between_cells_grows(g_loop, *self, e);
                } else if k < g_a.edges@.len() {
                    assert(e == g_a.edges@[k]);
                    assert(edge_at_anchor(g_a, gs as int, g as int, 0, e));
                    lemma_edge_at_anchor_grows(g_a, *self, gs as int, g as int, 0, e);
                } else if k < g_b.edges@.len() {
                    assert(false);
                } else {
                    assert(edge_at_anchor(*self, gs as int, g as int, ib as int, e));
                }
            }
        }
    }

    /// Build the fine corridor graph: drag a one-cell square along each
    /// step of the given coarse path, instantiating the square's
    /// perimeter cells, then attach the endpoint anchors.
    #[verifier::rlimit(100)]
    #[verifier::spinoff_prover]
    pub fn build_graph_from_path<A: AtlasModel>(&mut self, path: &Path, atlas: &A)
        requires
            old(self).wf(),
            old(self).nodes@.len() == 0,
            old(self).edges@.len() == 0,
            old(self).cmap@ == Map::<u64, usize>::empty(),
            points_in_bounds(path.points@),
        ensures
            final(self).built(atlas),
            final(self).a == old(self).a,
            final(self).b == old(self).b,
            final(self).barriers == old(self).barriers,
            cells_assoc(*final(self), final(self).gs_pass2 as int, final(self).g_pass2 as int),
            anchor_linked(
                *final(self),
                0,
                final(self).gs_pass2 as int,
                final(self).g_pass2 as int,
                atlas,
            ),
            anchor_linked(
                *final(self),
                final(self).end_node as int,
                final(self).gs_pass2 as int,
                final(self).g_pass2 as int,
                atlas,
            ),
            forall|pi: int|
                0 <= pi < path.points@.len() - 1 ==> #[trigger] corridor_pair_known(
                    *final(self),
                    path.points@[pi],
                    path.points@[pi + 1],
                ),
            forall|x: int, y: int|
                0 <= x < 0x8000_0000 && 0 <= y < 0x8000_0000 && final(self).cmap@.contains_key(
                    #[trigger] cell_key(x, y),
                ) ==> key_in_corridor(*final(self), path.points@, x, y) || is_corner_key(
                    *final(self),
                    final(self).gs_pass2 as int,
                    final(self).g_pass2 as int,
                    0,
                    cell_key(x, y),
                ) || is_corner_key(
                    *final(self),
                    final(self).gs_pass2 as int,
                    final(self).g_pass2 as int,
                    final(self).end_node as int,
                    cell_key(x, y),
                ),
            forall|idx: int|
                0 <= idx < final(self).nodes@.len() && idx != 0 && idx != final(self).end_node
                    ==> #[trigger] node_is_cell(*final(self), idx),
            forall|k: int|
                0 <= k < final(self).edges@.len() ==> edge_between_cells(
                    *final(self),
                    #[trigger] final(self).edges@[k],
                ) || edge_at_anchor(
                    *final(self),
                    final(self).gs_pass2 as int,
                    final(self).g_pass2 as int,
                    0,
                    final(self).edges@[k],
                ) || edge_at_anchor(
                    *final(self),
                    final(self).gs_pass2 as int,
                    final(self).g_pass2 as int,
                    final(self).end_node as int,
                    final(self).edges@[k],
                ),
    {
        let g = self.g_pass2;
        let gs = self.gs_pass2;
        let ia = self.insert_node_from_coord(self.a);
        proof {
            assert(cells_assoc(*self, gs as int, g as int));
        }
        let ghost g_after_a = *self;
        let np = path.points.len();
        let limit: usize = if np == 0 {
            0
        } else {
            np - 1
        };
        let mut pi: usize = 0;
        while pi < limit
            invariant
                self.wf(),
                self.edges_valid(atlas),
                self.grows_from(g_after_a),
                self.end_node == g_after_a.end_node,
                self.nodes@.len() >= 1,
                self.nodes@[0] == self.a,
                cells_assoc(*self, gs as int, g as int),
                g == self.g_pass2,
                gs == self.gs_pass2,
                1 <= g <= 2_000_000_000,
                np == path.points@.len(),
                limit <= np,
                np == 0 ==> limit == 0,
                np > 0 ==> limit == np - 1,
                points_in_bounds(path.points@),
                pi <= limit,
                forall|p: int|
                    0 <= p < pi ==> #[trigger] corridor_pair_known(
                        *self,
                        path.points@[p],
                        path.points@[p + 1],
                    ),
                forall|x2: int, y2: int|
                    0 <= x2 < 0x8000_0000 && 0 <= y2 < 0x8000_0000 && self.cmap@.contains_key(
                        #[trigger] cell_key(x2, y2),
                    ) ==> key_in_corridor(*self, path.points@, x2, y2),
                forall|idx: int|
                    1 <= idx < self.nodes@.len() ==> #[trigger] node_is_cell(*self, idx),
                forall|k: int|
                    0 <= k < self.edges@.len() ==> edge_between_cells(
                        *self,
                        #[trigger] self.edges@[k],
                    ),
            decreases limit - pi,
        {
            let c0 = path.points[pi];
            let c1 = path.points[pi + 1];
            let (x0, y0) = self.grid_units_for_node(&c0, gs, g);
            let (x1, y1) = self.grid_units_for_node(&c1, gs, g);
            proof {
                assert(x0 as int == point_cell_x(*self, gs as int, g as int, c0) && y0 as int
                    == point_cell_y(*self, gs as int, g as int, c0) && x1 as int == point_cell_x(
                    *self,
                    gs as int,
                    g as int,
                    c1,
                ) && y1 as int == point_cell_y(*self, gs as int, g as int, c1));
            }
            let ghost g_pair = *self;
            let dx: i64 = if x1 > x0 {
                x1 - x0
            } else {
                x0 - x1
            };
            let dy: i64 = if y1 > y0 {
                y1 - y0
            } else {
                y0 - y1
            };
            let clen: i64 = if dx > dy {
                dx
            } else {
                dy
            };
            if clen > 0 {
                let mut i: i64 = 0;
                while i <= clen
                    invariant
                        self.wf(),
                        self.edges_valid(atlas),
                        self.grows_from(g_after_a),
                        self.end_node == g_after_a.end_node,
                        self.nodes@.len() >= 1,
                        self.nodes@[0] == self.a,
                        g == self.g_pass2,
                        gs == self.gs_pass2,
                        1 <= g <= 2_000_000_000,
                        cells_assoc(*self, gs as int, g as int),
                        0 <= i <= clen + 1,
                        1 <= clen <= 6_000_000_000,
                        clen == (if dx > dy { dx } else { dy }),
                        0 <= dx <= 6_000_000_000,
                        0 <= dy <= 6_000_000_000,
                        -3_000_000_000 <= x0 <= 3_000_000_000,
                        -3_000_000_000 <= x1 <= 3_000_000_000,
                        -3_000_000_000 <= y0 <= 3_000_000_000,
                        -3_000_000_000 <= y1 <= 3_000_000_000,
                        np == path.points@.len(),
                        pi + 1 < np,
                        points_in_bounds(path.points@),
                        clen as int == corridor_len(x0 as int, y0 as int, x1 as int, y1 as int),
                        x0 as int == point_cell_x(*self, gs as int, g as int, c0),
                        y0 as int == point_cell_y(*self, gs as int, g as int, c0),
                        x1 as int == point_cell_x(*self, gs as int, g as int, c1),
                        y1 as int == point_cell_y(*self, gs as int, g as int, c1),
                        c0 == path.points@[pi as int],
                        c1 == path.points@[pi as int + 1],
                        forall|t: int|
                            0 <= t < i ==> #[trigger] corridor_step_known(
                                *self,
                                x0 as int,
                                y0 as int,
                                x1 as int,
                                y1 as int,
                                t,
                            ),
                        forall|p: int|
                            0 <= p < pi ==> #[trigger] corridor_pair_known(
                                *self,
                                path.points@[p],
                                path.points@[p + 1],
                            ),
                        forall|x2: int, y2: int|
                            0 <= x2 < 0x8000_0000 && 0 <= y2 < 0x8000_0000
                                && self.cmap@.contains_key(#[trigger] cell_key(x2, y2))
                                ==> key_in_corridor(*self, path.points@, x2, y2),
                        forall|idx: int|
                            1 <= idx < self.nodes@.len() ==> #[trigger] node_is_cell(*self, idx),
                        forall|k: int|
                            0 <= k < self.edges@.len() ==> edge_between_cells(
                                *self,
                                #[trigger] self.edges@[k],
                            ),
                    decreases clen + 1 - i,
                {
                    let xn: i64 = if x1 > x0 {
                        let d: i64 = x1 - x0;
                        proof {
                            lemma_corridor_step(d as int, i as int, clen as int);
                        }
                        let q: i128 = ((d as i128) * (i as i128)) / (clen as i128);
                        (q as i64) + x0
                    } else {
                        let d: i64 = x0 - x1;
                        proof {
                            lemma_corridor_step(d as int, i as int, clen as int);
                        }
                        let q: i128 = ((d as i128) * (i as i128)) / (clen as i128);
                        x0 - (q as i64)
                    };
                    let yn: i64 = if y1 > y0 {
                        let d: i64 = y1 - y0;
                        proof {
                            lemma_corridor_step(d as int, i as int, clen as int);
                        }
                        let q: i128 = ((d as i128) * (i as i128)) / (clen as i128);
                        (q as i64) + y0
                    } else {
                        let d: i64 = y0 - y1;
                        proof {
                            lemma_corridor_step(d as int, i as int, clen as int);
                        }
                        let q: i128 = ((d as i128) * (i as i128)) / (clen as i128);
                        y0 - (q as i64)
                    };
                    proof {
                        assert(xn as int == corridor_coord(x0 as int, x1 as int, clen as int, i as int)
                            && yn as int == corridor_coord(
                            y0 as int,
                            y1 as int,
                            clen as int,
                            i as int,
                        ));
                    }
                    let ghost gstep = *self;
                    let ghost ga0 = *self;
                    self.add_pass2_node(xn, yn, atlas);
                    let ghost ga1 = *self;
                    self.add_pass2_node(xn + 1, yn + 1, atlas);
                    let ghost ga2 = *self;
                    self.add_pass2_node(xn, yn + 1, atlas);
                    let ghost ga3 = *self;
                    self.add_pass2_node(xn + 1, yn, atlas);
                    proof {
                        lemma_admitted_stable(
                            ga0,
                            *self,
                            gs as int,
                            g as int,
                            xn as int,
                            yn as int,
                            false,
                        );
                        lemma_admitted_stable(
                            ga1,
                            *self,
                            gs as int,
                            g as int,
                            xn + 1 as int,
                            yn + 1 as int,
                            false,
                        );
                        lemma_admitted_stable(
                            ga2,
                            *self,
                            gs as int,
                            g as int,
                            xn as int,
                            yn + 1 as int,
                            false,
                        );
                        lemma_admitted_stable(
                            ga3,
                            *self,
                            gs as int,
                            g as int,
                            xn + 1 as int,
                            yn as int,
                            false,
                        );
                        assert(corridor_step_known(
                            *self,
                            x0 as int,
                            y0 as int,
                            x1 as int,
                            y1 as int,
                            i as int,
                        ));
                        assert forall|t: int| 0 <= t < i + 1 implies #[trigger] corridor_step_known(
                            *self,
                            x0 as int,
                            y0 as int,
                            x1 as int,
                            y1 as int,
                            t,
                        ) by {
                            if t < i {
                                assert(corridor_step_known(
                                    gstep,
                                    x0 as int,
                                    y0 as int,
                                    x1 as int,
                                    y1 as int,
                                    t,
                                ));
                                lemma_step_known_grows(
                                    gstep,
                                    *self,
                                    x0 as int,
                                    y0 as int,
                                    x1 as int,
                                    y1 as int,
                                    t,
                                );
                            }
                        }
                        assert forall|p: int| 0 <= p < pi implies #[trigger] corridor_pair_known(
                            *self,
                            path.points@[p],
                            path.points@[p + 1],
                        ) by {
                            assert(corridor_pair_known(
                                gstep,
                                path.points@[p],
                                path.points@[p + 1],
                            ));
                            lemma_pair_known_grows(gstep, *self, path.points@[p], path.points@[p + 1]);
                        }
                        assert(point_cell_x(*self, gs as int, g as int, c0) == x0 as int
                            && point_cell_y(*self, gs as int, g as int, c0) == y0 as int
                            && point_cell_x(*self, gs as int, g as int, c1) == x1 as int
                            && point_cell_y(*self, gs as int, g as int, c1) == y1 as int);
                        assert forall|x2: int, y2: int|
                            0 <= x2 < 0x8000_0000 && 0 <= y2 < 0x8000_0000
                                && self.cmap@.contains_key(
                                #[trigger] cell_key(x2, y2),
                            ) implies key_in_corridor(*self, path.points@, x2, y2) by {
                            if gstep.cmap@.contains_key(cell_key(x2, y2)) {
                                lemma_key_in_corridor_grows(gstep, *self, path.points@, x2, y2);
                            } else {
                                let k = cell_key(x2, y2);
                                if ga1.cmap@.contains_key(k) {
                                    lemma_cell_key_injective(x2, y2, xn as int, yn as int);
                                } else if ga2.cmap@.contains_key(k) {
                                    lemma_cell_key_injective(x2, y2, xn + 1 as int, yn + 1 as int);
                                } else if ga3.cmap@.contains_key(k) {
                                    lemma_cell_key_injective(x2, y2, xn as int, yn + 1 as int);
                                } else {
                                    lemma_cell_key_injective(x2, y2, xn + 1 as int, yn as int);
                                }
                                assert(corridor_coord(
                                    x0 as int,
                                    x1 as int,
                                    clen as int,
                                    i as int,
                                ) == xn as int && corridor_coord(
                                    y0 as int,
                                    y1 as int,
                                    clen as int,
                                    i as int,
                                ) == yn as int);
                                assert(corridor_has_cell(*self, c0, c1, x2, y2));
                                assert(path.points@[pi as int] == c0);
                            }
                        }
                        assert forall|idx: int|
                            1 <= idx < self.nodes@.len() implies #[trigger] node_is_cell(
                            *self,
                            idx,
                        ) by {
                            if idx < gstep.nodes@.len() {
                                assert(node_is_cell(gstep, idx));
                                lemma_node_is_cell_grows(gstep, *self, idx);
                            } else if idx < ga1.nodes@.len() {
                                assert(node_is_cell(ga1, idx));
                                lemma_node_is_cell_grows(ga1, *self, idx);
                            } else if idx < ga2.nodes@.len() {
                                assert(node_is_cell(ga2, idx));
                                lemma_node_is_cell_grows(ga2, *self, idx);
                            } else if idx < ga3.nodes@.len() {
                                assert(node_is_cell(ga3, idx));
                                lemma_node_is_cell_grows(ga3, *self, idx);
                            } else {
                                assert(node_is_cell(*self, idx));
                            }
                        }
                        assert forall|k: int|
                            0 <= k < self.edges@.len() implies edge_between_cells(
                            *self,
                            #[trigger] self.edges@[k],
                        ) by {
                            if k < gstep.edges@.len() {
                                assert(self.edges@[k] == gstep.edges@[k]);
                                lemma_edge_between_cells_grows(gstep, *self, gstep.edges@[k]);
                            } else if k < ga1.edges@.len() {
                                assert(self.edges@[k] == ga1.edges@[k]);
                                lemma_edge_between_cells_grows(ga1, *self, ga1.edges@[k]);
                            } else if k < ga2.edges@.len() {
                                assert(self.edges@[k] == ga2.edges@[k]);
                                lemma_edge_between_cells_grows(ga2, *self, ga2.edges@[k]);
                            } else if k < ga3.edges@.len() {
                                assert(self.edges@[k] == ga3.edges@[k]);
                                lemma_edge_between_cells_grows(ga3, *self, ga3.edges@[k]);
                            } else {
                                assert(edge_between_cells(*self, self.edges@[k]));
                            }
                        }
                    }
                    i = i + 1;
                }
            }
            proof {
                assert(point_cell_x(*self, gs as int, g as int, c0) == point_cell_x(
                    g_pair,
                    gs as int,
                    g as int,
                    c0,
                ) && point_cell_y(*self, gs as int, g as int, c0) == point_cell_y(
                    g_pair,
                    gs as int,
                    g as int,
                    c0,
                ) && point_cell_x(*self, gs as int, g as int, c1) == point_cell_x(
                    g_pair,
                    gs as int,
                    g as int,
                    c1,
                ) && point_cell_y(*self, gs as int, g as int, c1) == point_cell_y(
                    g_pair,
                    gs as int,
                    g as int,
                    c1,
                ));
                assert(corridor_pair_known(*self, c0, c1));
                assert forall|p: int| 0 <= p < pi + 1 implies #[trigger] corridor_pair_known(
                    *self,
                    path.points@[p],
                    path.points@[p + 1],
                ) by {
                    if p < pi {
                        assert(corridor_pair_known(*self, path.points@[p], path.points@[p + 1]));
                    } else {
                        assert(c0 == path.points@[p] && c1 == path.points@[p + 1]);
                    }
                }
            }
            pi = pi + 1;
        }
        let ghost g_loop = *self;
        self.connect_end_node(Option::Some(ia), gs, g, atlas);
        proof {
            assert(self.nodes@[0] == g_loop.nodes@[0]);
            assert forall|p: int| 0 <= p < path.points@.len() - 1 implies #[trigger] corridor_pair_known(
                *self,
                path.points@[p],
                path.points@[p + 1],
            ) by {
                assert(corridor_pair_known(g_loop, path.points@[p], path.points@[p + 1]));
                lemma_pair_known_grows(g_loop, *self, path.points@[p], path.points@[p + 1]);
            }
        }
        let ghost g_a = *self;
        let ib = self.insert_node_from_coord(self.b);
        proof {
            lemma_edges_valid_extend(self.edges@, g_a.nodes@, self.nodes@, self.barriers@, atlas);
            lemma_assoc_same_cmap(g_a, *self, gs as int, g as int);
            lemma_anchor_linked_grows(g_a, *self, ia as int, gs as int, g as int, atlas);
            assert forall|p: int| 0 <= p < path.points@.len() - 1 implies #[trigger] corridor_pair_known(
                *self,
                path.points@[p],
                path.points@[p + 1],
            ) by {
                assert(corridor_pair_known(g_a, path.points@[p], path.points@[p + 1]));
                lemma_pair_known_grows(g_a, *self, path.points@[p], path.points@[p + 1]);
            }
            assert(self.nodes@[0] == g_a.nodes@[0]);
            assert(self.nodes@[ib as int] == self.b);
        }
        let ghost g_ib = *self;
        self.end_node = ib;
        proof {
            assert(self.grows_from(g_ib));
            lemma_assoc_same_cmap(g_ib, *self, gs as int, g as int);
            lemma_anchor_linked_grows(g_ib, *self, ia as int, gs as int, g as int, atlas);
            assert forall|p: int| 0 <= p < path.points@.len() - 1 implies #[trigger] corridor_pair_known(
                *self,
                path.points@[p],
                path.points@[p + 1],
            ) by {
                assert(corridor_pair_known(g_ib, path.points@[p], path.points@[p + 1]));
                lemma_pair_known_grows(g_ib, *self, path.points@[p], path.points@[p + 1]);
            }
        }
        let ghost g_b = *self;
        self.connect_end_node(Option::Some(ib), gs, g, atlas);
        proof {
            assert(self.nodes@[0] == g_b.nodes@[0]);
            assert(self.nodes@[ib as int] == g_b.nodes@[ib as int]);
            lemma_anchor_linked_grows(g_b, *self, 0, gs as int, g as int, atlas);
            assert forall|p: int| 0 <= p < path.points@.len() - 1 implies #[trigger] corridor_pair_known(
                *self,
                path.points@[p],
                path.points@[p + 1],
            ) by {
                assert(corridor_pair_known(g_b, path.points@[p], path.points@[p + 1]));
                lemma_pair_known_grows(g_b, *self, path.points@[p], path.points@[p + 1]);
            }
            assert(ia == 0 && self.end_node == ib && self.gs_pass2 == gs && self.g_pass2 == g);
            assert(self.grows_from(g_loop) && self.grows_from(g_a));
            assert(g_b.cmap@ == g_a.cmap@ && g_b.edges@ == g_a.edges@);
            assert forall|x: int, y: int|
                0 <= x < 0x8000_0000 && 0 <= y < 0x8000_0000 && self.cmap@.contains_key(
                    #[trigger] cell_key(x, y),
                ) implies key_in_corridor(*self, path.points@, x, y) || is_corner_key(
                *self,
                gs as int,
                g as int,
                0,
                cell_key(x, y),
            ) || is_corner_key(*self, gs as int, g as int, ib as int, cell_key(x, y)) by {
                let k = cell_key(x, y);
                if g_b.cmap@.contains_key(k) {
                    if g_loop.cmap@.contains_key(k) {
                        assert(key_in_corridor(g_loop, path.points@, x, y));
                        lemma_key_in_corridor_grows(g_loop, *self, path.points@, x, y);
                    } else {
                        assert(is_corner_key(g_loop, gs as int, g as int, 0, k));
                        assert(self.nodes@[0] == g_loop.nodes@[0]);
                        assert(node_cell_x(*self, gs as int, g as int, 0) == node_cell_x(
                            g_loop,
                            gs as int,
                            g as int,
                            0,
                        ) && node_cell_y(*self, gs as int, g as int, 0) == node_cell_y(
                            g_loop,
                            gs as int,
                            g as int,
                            0,
                        ));
                        assert(is_corner_key(*self, gs as int, g as int, 0, k));
                    }
                } else {
                    assert(is_corner_key(g_b, gs as int, g as int, ib as int, k));
                    assert(node_cell_x(*self, gs as int, g as int, ib as int) == node_cell_x(
                        g_b,
                        gs as int,
                        g as int,
                        ib as int,
                    ) && node_cell_y(*self, gs as int, g as int, ib as int) == node_cell_y(
                        g_b,
                        gs as int,
                        g as int,
                        ib as int,
                    ));
                    assert(is_corner_key(*self, gs as int, g as int, ib as int, k));
                }
            }
            assert forall|idx: int|
                0 <= idx < self.nodes@.len() && idx != 0 && idx
                    != self.end_node implies #[trigger] node_is_cell(*self, idx) by {
                if idx < g_loop.nodes@.len() {
                    assert(node_is_cell(g_loop, idx));
                    lemma_node_is_cell_grows(g_loop, *self, idx);
                } else if idx < g_a.nodes@.len() {
                    assert(node_is_cell(g_a, idx));
                    lemma_node_is_cell_grows(g_a, *self, idx);
                } else if idx < g_b.nodes@.len() {
                    assert(idx == ib as int);
                } else {
                    assert(node_is_cell(*self, idx));
                }
            }
            assert forall|k: int|
                0 <= k < self.edges@.len() implies edge_between_cells(
                *self,
                #[trigger] self.edges@[k],
            ) || edge_at_anchor(*self, gs as int, g as int, 0, self.edges@[k]) || edge_at_anchor(
                *self,
                gs as int,
                g as int,
                self.end_node as int,
                self.edges@[k],
            ) by {
                let e = self.edges@[k];
                if k < g_loop.edges@.len() {
                    assert(e == g_loop.edges@[k]);
                    assert(edge_between_cells(g_loop, e));
                    lemma_edge_between_cells_grows(g_loop, *self, e);
                } else if k < g_a.edges@.len() {
                    assert(e == g_a.edges@[k]);
                    assert(edge_at_anchor(g_a, gs as int, g as int, 0, e));
                    lemma_edge_at_anchor_grows(g_a, *self, gs as int, g as int, 0, e);
                } else if k < g_b.edges@.len() {
                    assert(false);
                } else {
                    assert(edge_at_anchor(*self, gs as int, g as int, ib as int, e));
                }
            }
        }
    }

    /// The coordinates a node-id sequence stands for.
    pub open spec fn coords_of(nodes: Seq<Coord>, ids: Seq<int>) -> Seq<Coord> {
        ids.map_values(|id: int| nodes[id])
    }

    /// Find a least-time path from the start anchor to the end anchor.
    /// The returned polyline runs from `a` to `b` along graph edges, and
    /// its underlying route weighs no more than any route between the
    /// anchors; `None` comes back exactly when the anchors are not
    /// connected.
    pub fn shortest_path(&self) -> (r: Option<Path>)
        requires
            self.wf(),
            self.nodes@.len() >= 1,
            self.end_node < self.nodes@.len(),
        ensures
            r matches Some(p) ==> {
                &&& p.points@.len() >= 1
                &&& p.points@[0] == self.nodes@[0]
                &&& p.points@.last() == self.nodes@[self.end_node as int]
                &&& exists|rt: Seq<int>|
                    {
                        &&& #[trigger] route_ok(self.edges@, rt, 0, self.end_node as int)
                        &&& p.points@ == Graph::coords_of(
                            self.nodes@,
                            route_nodes(self.edges@, rt, 0),
                        )
                        &&& forall|rt2: Seq<int>|
                            route_ok(self.edges@, rt2, 0, self.end_node as int) ==> route_weight(
                                self.edges@,
                                rt2,
                            ) >= route_weight(self.edges@, rt)
                    }
            },
            r is None ==> forall|rt: Seq<int>|
                !route_ok(self.edges@, rt, 0, self.end_node as int),
    {
        match dijkstra(self.nodes.len(), &self.edges, 0, self.end_node) {
            Option::Some((ids, total)) => {
                let mut pts: Vec<Coord> = Vec::new();
                let nids = ids.len();
                let mut k: usize = 0;
                while k < nids
                    invariant
                        nids == ids@.len(),
                        k <= nids,
                        pts@.len() == k,
                        forall|t: int| 0 <= t < nids ==> (#[trigger] ids@[t]) < self.nodes@.len(),
                        forall|t: int|
                            0 <= t < k ==> #[trigger] pts@[t] == self.nodes@[ids@[t] as int],
                    decreases nids - k,
                {
                    let id = ids[k];
                    pts.push(self.nodes[id]);
                    k = k + 1;
                }
                proof {
                    let rt = choose|rt: Seq<int>|
                        route_ok(self.edges@, rt, 0, self.end_node as int) && route_weight(
                            self.edges@,
                            rt,
                        ) == total && ids@.map_values(|x: usize| x as int) == #[trigger] route_nodes(
                            self.edges@,
                            rt,
                            0,
                        );
                    assert(pts@ =~= Graph::coords_of(self.nodes@, route_nodes(self.edges@, rt, 0)));
                    assert(pts@[0] == self.nodes@[0]) by {
                        assert(ids@[0] == 0);
                    }
                    assert(pts@.last() == self.nodes@[self.end_node as int]) by {
                        assert(ids@.last() == self.end_node);
                    }
                }
                Option::Some(Path { points: pts })
            },
            Option::None => Option::None,
        }
    }

    /// The number of nodes built so far.
    pub fn num_nodes(&self) -> (r: usize)
        ensures
            r == self.nodes@.len(),
    {
        self.nodes.len()
    }

    /// The number of edges built so far.
    pub fn num_edges(&self) -> (r: usize)
        ensures
            r == self.edges@.len(),
    {
        self.edges.len()
    }
}

/// A point with each component clamped into the planning area.
pub open spec fn clamp_spec(e: int, n: int) -> Coord {
    Coord {
        e: (if e > 100_000_000 {
            100_000_000int
        } else if e < -100_000_000 {
            -100_000_000int
        } else {
            e
        }) as i64,
        n: (if n > 100_000_000 {
            100_000_000int
        } else if n < -100_000_000 {
            -100_000_000int
        } else {
            n
        }) as i64,
    }
}

/// The derived geometry `Graph::new` owes: the centre of the endpoint
/// pair, the capped semi-major axis, the focal points on the endpoint
/// axis, and the grid extents, each computed exactly as documented.
pub open spec fn graph_geometry(a: Coord, b: Coord, params: Params, gr: Graph) -> bool {
    let o = Coord { e: tdiv(a.e + b.e, 2) as i64, n: tdiv(a.n + b.n, 2) as i64 };
    let rr = crate::coord::seg_len(a, o);
    let major0 = (rr * params.covering_length) / 1000;
    let major: int = if major0 > 400_000_000 {
        400_000_000
    } else {
        major0
    };
    let minor0 = (rr * params.covering_width) / 1000;
    let minor: int = if minor0 > 400_000_000 {
        400_000_000
    } else {
        minor0
    };
    let fsq: int = if major >= minor {
        major * major - minor * minor
    } else {
        0
    };
    let f0 = crate::num::sqrt_of(fsq);
    let f: int = if f0 > major {
        major
    } else {
        f0
    };
    &&& gr.o == o
    &&& gr.major == major
    &&& gr.gs_pass1 == params.grid_size_pass1
    &&& gr.gs_pass2 == params.grid_size_pass2
    &&& gr.g_pass1 == 2 * (major / (params.grid_size_pass1 as int)) + 1
    &&& gr.g_pass2 == 2 * (major / (params.grid_size_pass2 as int)) + 1
    &&& (major == 0 ==> gr.f1 == o && gr.f2 == o)
    &&& (major != 0 ==> gr.f1 == clamp_spec(
        o.e + tdiv((a.e - o.e) * f, major),
        o.n + tdiv((a.n - o.n) * f, major),
    ) && gr.f2 == clamp_spec(
        o.e + tdiv((b.e - o.e) * f, major),
        o.n + tdiv((b.n - o.n) * f, major),
    ))
}

/// A point with both components clamped into the planning area.
fn clamp_coord(e: i64, n: i64) -> (r: Coord)
    requires
        -2_000_000_000 <= e <= 2_000_000_000,
        -2_000_000_000 <= n <= 2_000_000_000,
    ensures
        in_bounds(r),
        r == clamp_spec(e as int, n as int),
{
    let ce: i64 = if e > 100_000_000 {
        100_000_000
    } else if e < -100_000_000 {
        -100_000_000
    } else {
        e
    };
    let cn: i64 = if n > 100_000_000 {
        100_000_000
    } else if n < -100_000_000 {
        -100_000_000
    } else {
        n
    };
    Coord { e: ce, n: cn }
}

/// A copy of a barrier list holding the same polylines.
fn copy_barriers(bs: &Vec<Barrier>) -> (r: Vec<Barrier>)
    ensures
        r@.len() == bs@.len(),
        forall|i: int| 0 <= i < bs@.len() ==> #[trigger] r@[i].points@ == bs@[i].points@,
{
    let mut r: Vec<Barrier> = Vec::new();
    let mut i: usize = 0;
    let n = bs.len();
    while i < n
        invariant
            n == bs@.len(),
            i <= n,
            r@.len() == i,
            forall|j: int| 0 <= j < i ==> #[trigger] r@[j].points@ == bs@[j].points@,
        decreases n - i,
    {
        r.push(bs[i].clone());
        proof {
            assert(r@[i as int].points@ == bs@[i as int].points@);
        }
        i = i + 1;
    }
    r
}

/// A polyline produced by the search over a built graph is a walkable
/// track: it runs along valid edges, so every step has a finite time and
/// crosses no barrier, and both its ends are graph nodes.
pub proof fn lemma_built_path_ok<A: AtlasModel>(g: Graph, p: Path, atlas: &A)
    requires
        g.wf(),
        g.edges_valid(atlas),
        g.end_node < g.nodes@.len(),
        p.points@.len() >= 1,
        exists|rt: Seq<int>|
            #[trigger] route_ok(g.edges@, rt, 0, g.end_node as int) && p.points@
                == Graph::coords_of(g.nodes@, route_nodes(g.edges@, rt, 0)),
    ensures
        crate::path::path_ok(p.points@, g.barriers@, atlas),
        g.end_node >= 1 ==> p.points@.len() >= 2,
{
    let rt = choose|rt: Seq<int>|
        #[trigger] route_ok(g.edges@, rt, 0, g.end_node as int) && p.points@ == Graph::coords_of(
            g.nodes@,
            route_nodes(g.edges@, rt, 0),
        );
    crate::search::lemma_route_nodes_adjacent(g.edges@, rt, 0);
    let ns = route_nodes(g.edges@, rt, 0);
    assert(p.points@.len() == ns.len() && ns.len() == rt.len() + 1);
    assert forall|k: int| 0 <= k < ns.len() implies 0 <= #[trigger] ns[k] < g.nodes@.len() by {
        if k == 0 {
            assert(ns[0] == 0);
        } else {
            assert(ns[k] == g.edges@[rt[k - 1]].1 as int);
            assert(edges_wf(g.edges@, g.nodes@.len() as int));
            assert(0 <= rt[k - 1] < g.edges@.len());
            assert((g.edges@[rt[k - 1]]).0 < g.nodes@.len() && g.edges@[rt[k - 1]].1
                < g.nodes@.len());
        }
    }
    assert(crate::path::points_in_bounds(p.points@)) by {
        assert forall|k: int| 0 <= k < p.points@.len() implies in_bounds(
            #[trigger] p.points@[k],
        ) by {
            assert(p.points@[k] == g.nodes@[ns[k]]);
        }
    }
    assert forall|k: int| 0 <= k < p.points@.len() - 1 implies (#[trigger] seg_time(
        p.points@[k],
        p.points@[k + 1],
        atlas,
    )) is Some && crate::path::step_clear(g.barriers@, p.points@[k], p.points@[k + 1]) by {
        let ei = rt[k];
        assert(g.edges@[ei].0 == ns[k] && g.edges@[ei].1 == ns[k + 1]);
        let e = g.edges@[ei];
        assert(e.0 < g.nodes@.len() && e.1 < g.nodes@.len() && seg_time(
            g.nodes@[e.0 as int],
            g.nodes@[e.1 as int],
            atlas,
        ) == Some(e.2 as int) && forall|j: int|
            0 <= j < g.barriers@.len() ==> !polyline_crosses(
                (#[trigger] g.barriers@[j]).points@,
                g.nodes@[e.0 as int],
                g.nodes@[e.1 as int],
            ));
        assert(p.points@[k] == g.nodes@[ns[k]] && p.points@[k + 1] == g.nodes@[ns[k + 1]]);
    }
    if g.end_node >= 1 {
        if rt.len() == 0 {
            assert(g.end_node as int == 0);
            assert(false);
        }
    }
}

/// A track that is walkable among one barrier list is walkable among any
/// list holding the same polylines.
pub proof fn lemma_path_ok_barriers<A: AtlasModel>(
    ps: Seq<Coord>,
    bs1: Seq<Barrier>,
    bs2: Seq<Barrier>,
    atlas: &A,
)
    requires
        crate::path::path_ok(ps, bs1, atlas),
        bs1.len() == bs2.len(),
        forall|j: int| 0 <= j < bs1.len() ==> #[trigger] bs1[j].points@ == bs2[j].points@,
    ensures
        crate::path::path_ok(ps, bs2, atlas),
{
    assert forall|i: int| 0 <= i < ps.len() - 1 implies (#[trigger] seg_time(
        ps[i],
        ps[i + 1],
        atlas,
    )) is Some && crate::path::step_clear(bs2, ps[i], ps[i + 1]) by {
        assert(seg_time(ps[i], ps[i + 1], atlas) is Some && crate::path::step_clear(
            bs1,
            ps[i],
            ps[i + 1],
        ));
        assert forall|j: int| 0 <= j < bs2.len() implies !polyline_crosses(
            (#[trigger] bs2[j]).points@,
            ps[i],
            ps[i + 1],
        ) by {
            assert(!polyline_crosses((bs1[j]).points@, ps[i], ps[i + 1]));
        }
    }
}

/// One corridor interpolation step stays between the endpoints: with
/// `0 <= i <= c` and `d >= 0`, the scaled offset `d * i / c` lies in
/// `[0, d]`.
proof fn lemma_corridor_step(d: int, i: int, c: int)
    requires
        0 <= d <= 6_000_000_000,
        0 < c <= 6_000_000_000,
        0 <= i <= c,
    ensures
        0 <= (d * i) / c <= d,
        0 <= d * i <= 36_000_000_000_000_000_000,
{
    assert(0 <= d * i <= 36_000_000_000_000_000_000) by (nonlinear_arith)
        requires
            0 <= d <= 6_000_000_000 && 0 <= i <= 6_000_000_000,
    ;
    assert(d * i <= c * d) by (nonlinear_arith)
        requires
            0 <= i <= c && 0 <= d,
    ;
    vstd::arithmetic::div_mod::lemma_multiply_divide_le(d * i, c, d);
    vstd::arithmetic::mul::lemma_mul_nonnegative(d, i);
    vstd::arithmetic::div_mod::lemma_div_pos_is_pos(d * i, c);
}

} // verus!
