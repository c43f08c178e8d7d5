//! End-to-end planning scenarios over synthetic terrains.

use stivalg::atlas::{BandAtlas, FlatAtlas, SlopeAtlas};
use stivalg::barrier::Barrier;
use stivalg::coord::Coord;
use stivalg::params::Params;
use stivalg::path::{plan, Path, PlanError};

fn params_with_points(points: Vec<Coord>) -> Params {
    let mut p = Params::from_config();
    p.points = points;
    p
}

#[test]
fn flat_terrain_straight_line() {
    let atlas = FlatAtlas {};
    let params = params_with_points(vec![Coord::new(0, 0), Coord::new(100_000, 0)]);
    let path = plan(&params, &atlas).unwrap();
    assert_eq!(path.points[0], Coord::new(0, 0));
    assert_eq!(*path.points.last().unwrap(), Coord::new(100_000, 0));
    let len = path.len();
    assert!(len >= 100_000 && len <= 102_000, "length {} mm", len);
    let time = path.calculate_time(&atlas).unwrap();
    assert!(
        time >= 120_000_000_000 && time <= 123_000_000_000,
        "time {} ns",
        time
    );
    assert_eq!(path.elevation(&atlas), 0);
    assert_eq!(path.descent(&atlas), 0);
}

#[test]
fn uphill_terrain_time_and_climb() {
    // a constant 0.1 eastward grade
    let atlas = SlopeAtlas { de: 100, dn: 0 };
    let params = params_with_points(vec![Coord::new(0, 0), Coord::new(100_000, 0)]);
    let path = plan(&params, &atlas).unwrap();
    assert_eq!(path.points[0], Coord::new(0, 0));
    assert_eq!(*path.points.last().unwrap(), Coord::new(100_000, 0));
    // pace at slope 0.1 over gradient 0.1: 1.977777 s/m, for 100 m
    let time = path.calculate_time(&atlas).unwrap();
    assert!(
        time >= 195_000_000_000 && time <= 203_000_000_000,
        "time {} ns",
        time
    );
    // climbs roughly ten metres
    let climb = path.elevation(&atlas);
    assert!(
        climb >= 9_500_000 && climb <= 11_000_000,
        "climb {} um",
        climb
    );
}

#[test]
fn steep_band_is_avoidable() {
    // a steep but walkable band across the middle
    let atlas = BandAtlas {
        lo: 40_000,
        hi: 60_000,
        de: 900,
        dn: 0,
    };
    let params = params_with_points(vec![Coord::new(0, 0), Coord::new(100_000, 0)]);
    let path = plan(&params, &atlas).unwrap();
    assert_eq!(path.points[0], Coord::new(0, 0));
    assert_eq!(*path.points.last().unwrap(), Coord::new(100_000, 0));
    // crossing the band costs far more than flat ground
    let time = path.calculate_time(&atlas).unwrap();
    assert!(time > 120_000_000_000, "time {} ns", time);
}

#[test]
fn barrier_is_never_crossed() {
    let atlas = FlatAtlas {};
    let mut params = params_with_points(vec![Coord::new(0, 0), Coord::new(100_000, 0)]);
    let wall = Barrier::from_vec(vec![Coord::new(50_000, -50_000), Coord::new(50_000, 50_000)]);
    params.barriers = vec![wall];
    let path = plan(&params, &atlas).unwrap();
    assert_eq!(path.points[0], Coord::new(0, 0));
    assert_eq!(*path.points.last().unwrap(), Coord::new(100_000, 0));
    let wall2 = Barrier::from_vec(vec![Coord::new(50_000, -50_000), Coord::new(50_000, 50_000)]);
    for w in path.points.windows(2) {
        assert!(!wall2.is_crossing(&w[0], &w[1]));
    }
    // the wall sits on a lattice column, so the cheapest non-crossing
    // track may pivot on a vertex exactly on the wall; it can never be
    // shorter than the straight line
    assert!(path.len() >= 100_000);
}

#[test]
fn impassable_strip_is_unreachable() {
    // a strip steeper than 45 degrees across the whole covering ellipse
    let atlas = BandAtlas {
        lo: 30_000,
        hi: 70_000,
        de: 1500,
        dn: 0,
    };
    let params = params_with_points(vec![Coord::new(0, 0), Coord::new(100_000, 0)]);
    let r = plan(&params, &atlas);
    assert_eq!(r.unwrap_err(), PlanError::Unreachable { pair: 0 });
}

#[test]
fn too_few_waypoints_is_refused() {
    let atlas = FlatAtlas {};
    let params = params_with_points(vec![Coord::new(0, 0)]);
    assert_eq!(plan(&params, &atlas).unwrap_err(), PlanError::TooFewWaypoints);
    let empty = params_with_points(vec![]);
    assert_eq!(plan(&empty, &atlas).unwrap_err(), PlanError::TooFewWaypoints);
}

#[test]
fn relaxation_merges_collinear_points() {
    // a flat track of 51 points two metres apart converges to a handful of
    // points spaced between the merge and split thresholds
    let atlas = FlatAtlas {};
    let mut pts = Vec::new();
    for k in 0..51i64 {
        pts.push(Coord::new(k * 2000, 0));
    }
    let mut path = Path { points: pts };
    let barriers: Vec<Barrier> = Vec::new();
    path.optimize(&barriers, &atlas);
    assert_eq!(path.points[0], Coord::new(0, 0));
    assert_eq!(*path.points.last().unwrap(), Coord::new(100_000, 0));
    assert!(path.points.len() <= 12, "still {} points", path.points.len());
    // the track stays on the axis, so its time is exactly the flat pace
    assert_eq!(path.calculate_time(&atlas).unwrap(), 120_000_000_000);
    for w in path.points.windows(2) {
        let d = (w[1].e - w[0].e).abs();
        assert!(d <= 20_000, "spacing {} mm", d);
    }
}

#[test]
fn replanning_gives_equal_paths() {
    let atlas = BandAtlas {
        lo: 40_000,
        hi: 60_000,
        de: 400,
        dn: 300,
    };
    let mut params = params_with_points(vec![Coord::new(0, 0), Coord::new(100_000, 10_000)]);
    params.barriers = vec![Barrier::from_vec(vec![
        Coord::new(70_000, -20_000),
        Coord::new(70_000, 20_000),
    ])];
    let p1 = plan(&params, &atlas).unwrap();
    let p2 = plan(&params, &atlas).unwrap();
    assert_eq!(p1.points, p2.points);
}
