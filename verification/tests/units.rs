//! Unit tests for the walker, the cost model, barriers, the search and
//! the configuration.

use stivalg::atlas::{AtlasModel, FlatAtlas, GridAtlas, GradSample, SlopeAtlas};
use stivalg::barrier::Barrier;
use stivalg::config::Config;
use stivalg::coord::Coord;
use stivalg::expander::StiKeywordExpander;
use stivalg::field::Field;
use stivalg::params::{default_track_name, Params};
use stivalg::path::Segment;
use stivalg::search::dijkstra;

#[test]
fn walk_lengths_sum_to_segment_length() {
    let seg = Segment::new(Coord::new(150, 250), Coord::new(12_450, 7_850));
    let fields = seg.fields();
    let total: u64 = fields.iter().map(|f| f.1).sum();
    assert_eq!(total, seg.len());
    assert_eq!(fields[0].0, Field::new(0, 0));
    assert_eq!(fields.last().unwrap().0, Field::new(12, 7));
}

#[test]
fn walk_covers_adjacent_cells() {
    // a diagonal crossing several cells, also with negative coordinates
    let seg = Segment::new(Coord::new(-2_500, -1_500), Coord::new(3_500, 2_500));
    let fields = seg.fields();
    assert_eq!(fields[0].0, Field::new(-3, -2));
    assert_eq!(fields.last().unwrap().0, Field::new(3, 2));
    for w in fields.windows(2) {
        let dx = (w[1].0.x - w[0].0.x).abs();
        let dy = (w[1].0.y - w[0].0.y).abs();
        assert!(dx <= 1 && dy <= 1 && dx + dy >= 1);
    }
    let total: u64 = fields.iter().map(|f| f.1).sum();
    assert_eq!(total, seg.len());
}

#[test]
fn walk_of_a_point_is_one_cell() {
    let seg = Segment::new(Coord::new(500, 500), Coord::new(500, 500));
    let fields = seg.fields();
    assert_eq!(fields.len(), 1);
    assert_eq!(fields[0], (Field::new(0, 0), 0));
}

#[test]
fn crossing_steps_toward_the_far_field() {
    // leaving cell (0, 0) eastwards: the crossing sits on the east edge
    let f = Field::new(0, 0);
    let (c, next) = f
        .crossing(&Coord::new(500, 500), &Coord::new(2500, 500))
        .unwrap();
    assert_eq!(next, Field::new(1, 0));
    assert_eq!(c, Coord::new(1000, 500));
    // the end's own field yields nothing
    assert!(Field::new(2, 0)
        .crossing(&Coord::new(500, 500), &Coord::new(2500, 500))
        .is_none());
    // a diagonal through the shared corner steps both axes at once
    let g = Field::new(0, 0);
    let (c2, next2) = g
        .crossing(&Coord::new(0, 0), &Coord::new(2000, 2000))
        .unwrap();
    assert_eq!(next2, Field::new(1, 1));
    assert_eq!(c2, Coord::new(1000, 1000));
}

#[test]
fn pace_matches_the_knot_table() {
    // base pace on level ground: 1.2 s/m
    assert_eq!(Segment::time_by_steepness(0, 0), 1_200_000);
    // a 0.1 uphill grade over a 0.1 gradient: 1.977777 s/m
    assert_eq!(Segment::time_by_steepness(100, 100), 1_977_777);
    // the gentle downhill dip: 0.5 s/m plus the penalty at -0.18
    assert_eq!(Segment::time_by_steepness(-180, 180), 1_400_000);
    // the steepest walkable climb: 60 s/m plus the penalty
    assert_eq!(Segment::time_by_steepness(1000, 1000), 65_000_000);
    // knot interiors interpolate linearly
    assert_eq!(Segment::time_by_steepness(90, 90), 1_200_000 + 250_000 + 450_000);
}

#[test]
fn segment_time_on_flat_ground_is_exact() {
    let atlas = FlatAtlas {};
    let seg = Segment::new(Coord::new(0, 0), Coord::new(100_000, 0));
    assert_eq!(seg.time(&atlas), Some(120_000_000_000));
    let back = Segment::new(Coord::new(100_000, 0), Coord::new(0, 0));
    assert_eq!(back.time(&atlas), seg.time(&atlas));
}

#[test]
fn segment_time_rejects_too_steep_ground() {
    let atlas = SlopeAtlas { de: 800, dn: 700 };
    let seg = Segment::new(Coord::new(0, 0), Coord::new(10_000, 0));
    assert_eq!(seg.time(&atlas), None);
    let edge = SlopeAtlas { de: 600, dn: 800 };
    assert!(seg.time(&edge).is_some());
}

#[test]
fn steeper_uphill_segment_takes_longer() {
    let seg = Segment::new(Coord::new(0, 0), Coord::new(10_000, 0));
    let t1 = seg.time(&SlopeAtlas { de: 100, dn: 0 }).unwrap();
    let t2 = seg.time(&SlopeAtlas { de: 200, dn: 0 }).unwrap();
    assert!(t1 < t2);
}

#[test]
fn steeper_downhill_segment_takes_longer() {
    let seg = Segment::new(Coord::new(0, 0), Coord::new(10_000, 0));
    let t1 = seg.time(&SlopeAtlas { de: -100, dn: 0 }).unwrap();
    let t2 = seg.time(&SlopeAtlas { de: -200, dn: 0 }).unwrap();
    assert!(t1 < t2);
}

#[test]
fn segment_height_counts_only_climb() {
    let atlas = SlopeAtlas { de: 100, dn: 0 };
    let up = Segment::new(Coord::new(0, 0), Coord::new(10_000, 0));
    assert_eq!(up.height(&atlas), 1_000_000);
    let down = Segment::new(Coord::new(10_000, 0), Coord::new(0, 0));
    assert_eq!(down.height(&atlas), 0);
}

#[test]
fn grid_atlas_reads_its_samples() {
    // a 3 x 2 window of cells anchored at cell (10, 20)
    let mut samples = Vec::new();
    for k in 0..6 {
        samples.push(GradSample {
            de: k * 10,
            dn: -k,
        });
    }
    let atlas = GridAtlas {
        x0: 10,
        y0: 20,
        width: 3,
        height: 2,
        samples,
    };
    // inside the window: row-major lookup by cell
    assert_eq!(
        atlas.gradient(Coord::new(10_500, 20_500)),
        GradSample { de: 0, dn: 0 }
    );
    assert_eq!(
        atlas.gradient(Coord::new(12_999, 20_001)),
        GradSample { de: 20, dn: -2 }
    );
    assert_eq!(
        atlas.gradient(Coord::new(11_500, 21_900)),
        GradSample { de: 40, dn: -4 }
    );
    // outside the window the terrain is flat
    assert_eq!(
        atlas.gradient(Coord::new(9_999, 20_500)),
        GradSample { de: 0, dn: 0 }
    );
    assert_eq!(
        atlas.gradient(Coord::new(10_500, 22_000)),
        GradSample { de: 0, dn: 0 }
    );
}

#[test]
fn grid_atlas_plans_like_its_uniform_counterpart() {
    // a window holding the same gradient everywhere behaves like the
    // inclined plane over tracks inside it
    let slope = SlopeAtlas { de: 100, dn: 0 };
    let samples = vec![GradSample { de: 100, dn: 0 }; 400 * 400];
    let grid = GridAtlas {
        x0: -200,
        y0: -200,
        width: 400,
        height: 400,
        samples,
    };
    let seg = Segment::new(Coord::new(0, 0), Coord::new(50_000, 10_000));
    assert_eq!(seg.time(&grid), seg.time(&slope));
    assert_eq!(seg.height(&grid), seg.height(&slope));
}

#[test]
fn height_sums_the_unsaturated_slope() {
    // a three-to-one grade counts in full
    let atlas = SlopeAtlas { de: 3000, dn: 0 };
    let seg = Segment::new(Coord::new(0, 0), Coord::new(10_000, 0));
    assert_eq!(seg.height(&atlas), 30_000_000);
}

#[test]
fn relaxation_never_worsens_the_track() {
    // a zigzag over an incline: the relaxed track costs no more
    let atlas = SlopeAtlas { de: 150, dn: 100 };
    let mut pts = Vec::new();
    for k in 0..21i64 {
        pts.push(Coord::new(k * 4000, if k % 2 == 0 { 0 } else { 6000 }));
    }
    let mut path = stivalg::path::Path { points: pts };
    let before = path.calculate_time(&atlas).unwrap();
    let barriers: Vec<Barrier> = Vec::new();
    path.optimize(&barriers, &atlas);
    let after = path.calculate_time(&atlas).unwrap();
    assert!(after <= before, "worsened: {} -> {}", before, after);
    assert_eq!(path.points[0], Coord::new(0, 0));
    assert_eq!(*path.points.last().unwrap(), Coord::new(80_000, 0));
}

#[test]
fn barrier_crossing_is_strict_and_symmetric() {
    let wall = Barrier::from_vec(vec![Coord::new(0, -1000), Coord::new(0, 1000)]);
    let a = Coord::new(-500, 0);
    let b = Coord::new(500, 0);
    assert!(wall.is_crossing(&a, &b));
    assert!(wall.is_crossing(&b, &a));
    // touching the wall's end is not a crossing
    let c = Coord::new(0, 1000);
    assert!(!wall.is_crossing(&a, &c));
    // running alongside is not a crossing
    let d = Coord::new(500, 800);
    assert!(!wall.is_crossing(&b, &d));
}

#[test]
fn barrier_distance_projects_onto_edges() {
    let mut wall = Barrier::new();
    assert_eq!(wall.len(), 0);
    wall.add_point(Coord::new(0, 0));
    wall.add_point(Coord::new(1000, 0));
    assert_eq!(wall.len(), 2);
    // beside the midpoint: plain perpendicular distance
    assert_eq!(wall.distance_sq(&Coord::new(500, 300)), Some(90_000));
    // beyond the end: distance to the endpoint
    assert_eq!(wall.distance_sq(&Coord::new(1300, 400)), Some(250_000));
    wall.update_point(1, Coord::new(0, 1000));
    assert_eq!(wall.distance_sq(&Coord::new(200, 500)), Some(40_000));
}

#[test]
fn search_finds_the_cheapest_route() {
    // 0 -> 1 -> 3 is cheaper than the direct 0 -> 3
    let edges: Vec<(usize, usize, u64)> = vec![
        (0, 1, 10),
        (1, 3, 10),
        (0, 3, 100),
        (0, 2, 1),
        (2, 0, 1),
        (3, 0, 10),
    ];
    let (ids, total) = dijkstra(4, &edges, 0, 3).unwrap();
    assert_eq!(total, 20);
    assert_eq!(ids, vec![0, 1, 3]);
}

#[test]
fn search_reports_unreachable_nodes() {
    let edges: Vec<(usize, usize, u64)> = vec![(0, 1, 5), (1, 0, 5)];
    assert!(dijkstra(3, &edges, 0, 2).is_none());
}

#[test]
fn search_breaks_ties_toward_low_ids() {
    // two equally cheap routes; the lower-id middle node wins
    let edges: Vec<(usize, usize, u64)> = vec![(0, 2, 5), (0, 1, 5), (1, 3, 5), (2, 3, 5)];
    let (ids, total) = dijkstra(4, &edges, 0, 3).unwrap();
    assert_eq!(total, 10);
    assert_eq!(ids, vec![0, 1, 3]);
}

#[test]
fn search_handles_equal_endpoints() {
    let edges: Vec<(usize, usize, u64)> = vec![];
    let (ids, total) = dijkstra(1, &edges, 0, 0).unwrap();
    assert_eq!(ids, vec![0]);
    assert_eq!(total, 0);
}

#[test]
fn params_parse_decimal_values() {
    let mut p = Params::from_config();
    assert!(p.set("grid_size_pass1", "12.5").is_ok());
    assert_eq!(p.grid_size_pass1, 12_500);
    assert!(p.set("covering_length", "1.25").is_ok());
    assert_eq!(p.covering_length, 1250);
    assert!(p.set("covering_width", "2").is_ok());
    assert_eq!(p.covering_width, 2000);
    assert!(p.set("grid_size_pass2", "-0.5").is_ok());
    assert_eq!(p.grid_size_pass2, -500);
    assert!(p.set("path_width_pass2", "1000.1234").is_ok());
    assert_eq!(p.path_width_pass2, 1_000_123);
}

#[test]
fn params_reject_bad_values_and_names() {
    let mut p = Params::from_config();
    assert!(p.set("grid_size_pass1", "abc").is_err());
    assert_eq!(p.grid_size_pass1, 25_000);
    assert!(p.set("grid_size_pass1", "1.2.3").is_err());
    assert!(p.set("grid_size_pass1", "").is_err());
    assert!(p.set("no_such_parameter", "1").is_err());
    assert!(p.set("track_name", "Ski trip").is_ok());
    assert_eq!(p.track_name, "Ski trip");
}

#[test]
fn defaults_match_the_documented_values() {
    let p = Params::from_config();
    assert_eq!(p.grid_size_pass1, 25_000);
    assert_eq!(p.grid_size_pass2, 1000);
    assert_eq!(p.covering_length, 1100);
    assert_eq!(p.covering_width, 1100);
    assert_eq!(p.path_width_pass2, 1_000_000);
    assert_eq!(p.track_name, "Stivalg");
    assert_eq!(default_track_name(), "Stivalg");
}

#[test]
fn pace_grows_with_the_grade_both_ways() {
    // uphill: each sample costs strictly more than the gentler one
    let ups = [1i64, 50, 179, 180, 300, 360, 500, 580, 700, 830];
    for w in ups.windows(2) {
        assert!(
            Segment::time_by_steepness(w[0], w[0]) < Segment::time_by_steepness(w[1], w[1]),
            "pace not increasing between {} and {}",
            w[0],
            w[1]
        );
    }
    // downhill: the gradient penalty outweighs the quicker pace
    let downs = [-1i64, -50, -179, -180, -181, -300, -360, -500, -580, -830];
    for w in downs.windows(2) {
        assert!(
            Segment::time_by_steepness(w[0], -w[0]) < Segment::time_by_steepness(w[1], -w[1]),
            "pace not increasing between {} and {}",
            w[0],
            w[1]
        );
    }
}

#[test]
fn append_joins_at_the_shared_point() {
    let mut a = stivalg::path::Path::new();
    a.push(Coord::new(0, 0));
    a.push(Coord::new(1000, 0));
    let mut b = stivalg::path::Path::new();
    b.push(Coord::new(1000, 0));
    b.push(Coord::new(2000, 500));
    a.append(&mut b);
    assert_eq!(
        a.points,
        vec![Coord::new(0, 0), Coord::new(1000, 0), Coord::new(2000, 500)]
    );
    assert!(b.points.is_empty());
}

#[test]
fn from_points_mirrors_plan() {
    let atlas = FlatAtlas {};
    let mut params = Params::from_config();
    params.points = vec![Coord::new(0, 0), Coord::new(30_000, 40_000)];
    let p = stivalg::path::Path::from_points(&params, &atlas).unwrap();
    assert_eq!(p.points[0], Coord::new(0, 0));
    assert_eq!(*p.points.last().unwrap(), Coord::new(30_000, 40_000));
    // 50 m as the crow flies on flat ground
    assert!(p.len() >= 50_000 && p.len() <= 51_500);
}

#[test]
fn params_need_a_whole_part() {
    let mut p = Params::from_config();
    assert!(p.set("grid_size_pass1", ".5").is_err());
    assert!(p.set("grid_size_pass1", "-").is_err());
    assert!(p.set("grid_size_pass1", "7.").is_ok());
    assert_eq!(p.grid_size_pass1, 7000);
}

#[test]
fn config_map_dir_appends_one_slash() {
    let c = Config {
        maps: "/data/maps".to_string(),
        headless: true,
        params_fname: String::new(),
        command: String::new(),
    };
    assert_eq!(c.map_dir(), "/data/maps/");
    let d = Config {
        maps: "/data/maps/".to_string(),
        headless: false,
        params_fname: String::new(),
        command: String::new(),
    };
    assert_eq!(d.map_dir(), "/data/maps/");
}

#[test]
fn expander_lists_the_settable_parameters() {
    let e = StiKeywordExpander::new();
    let params = e.expand_param();
    assert_eq!(
        params,
        vec![
            "covering_length",
            "covering_width",
            "grid_size_pass1",
            "grid_size_pass2",
            "path_width_pass2"
        ]
    );
    assert_eq!(e.expand_coord(), vec!["from-map"]);
}
