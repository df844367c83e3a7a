use hmwiz::config::{check_config, side_levels, Config, ConfigError, Gravity};
use hmwiz::displace::{diamond_square, next_spread, point_request, Displacement, Point};
use hmwiz::envelope::{EnvelopeError, ThreeDEnvelope, TwoDEnvelope};
use hmwiz::error::{LayoutError, SampleError, TerrainError};
use hmwiz::generate::{generate, generate_with, setup_grid};
use hmwiz::grid::{Grid, Orientation};
use hmwiz::layout::{goal_points, GuidePoint, PointKind};
use hmwiz::normalize::stretch;
use hmwiz::sampling::{
    clamp_height, decayed_bias, gravitated_mode, legal_range, neighbor_average, scale_gravity,
    Sampler, SeededRng,
};

/// Records every request and answers with a fixed rule.
struct Recorder {
    calls: Vec<(i32, i32, i32, u32)>,
    answer: fn(i32, i32, i32) -> i32,
}

impl Sampler for Recorder {
    fn sample(&mut self, low: i32, high: i32, mode: i32, spread: u32) -> i32 {
        self.calls.push((low, high, mode, spread));
        (self.answer)(low, high, mode)
    }
}

fn mode_of(_low: i32, _high: i32, mode: i32) -> i32 {
    mode
}

fn far_above(_low: i32, _high: i32, _mode: i32) -> i32 {
    1_000_000
}

fn open_envelope(n: usize, lo: i32, hi: i32) -> ThreeDEnvelope {
    let axis = vec![(0usize, (lo, hi)), (n - 1, (lo, hi))];
    ThreeDEnvelope::new(axis.clone(), axis, 1).unwrap()
}

fn corner_grid(n: usize, h: i32) -> Grid<Point> {
    let mut g = Grid::new(n, n, Orientation::RowMajor, Point::Empty);
    for &(r, c) in &[(0, 0), (0, n - 1), (n - 1, 0), (n - 1, n - 1)] {
        g.set(r, c, Point::Fixed(h));
    }
    g
}

fn params(slope: u32) -> Displacement {
    Displacement { min_height: 0, max_height: 255, max_slope: slope, roughness: 50, gravity: None }
}

fn small_config(n: usize, n_hi: usize, n_lo: usize) -> Config {
    let mut c = Config::default(n, n, n_hi, 100, None, n_lo, None, 50);
    c.margin_width = 2;
    c.max_slope = 255;
    c
}

#[test]
fn grid_row_major_and_col_major_store() {
    let mut g = Grid::new(2, 3, Orientation::RowMajor, 0u8);
    g.set(1, 2, 7);
    g.set(0, 1, 4);
    assert_eq!(g.get(1, 2), 7);
    assert_eq!(g.get_rank(0), vec![0, 4, 0]);
    assert_eq!(g.get_rank(1), vec![0, 0, 7]);
    assert_eq!(g.get_range(1, 1, 3), vec![0, 7]);
    assert_eq!(g.get_slices(), vec![vec![0, 4, 0], vec![0, 0, 7]]);
    let mut h = Grid::new(2, 3, Orientation::ColMajor, 0u8);
    h.set(1, 2, 7);
    assert_eq!(h.get_rank(2), vec![0, 7]);
    assert_eq!(h.get_slices().len(), 3);
    assert_eq!(h.get_flat(5), 7);
}

#[test]
fn envelope_midway_between_margin_and_open_guide() {
    let env = TwoDEnvelope::new(vec![(10, (0, 255)), (0, (0, 0))], 1).unwrap();
    assert_eq!(env.minmax_at_point(5), Ok((0, 5)));
    let steep = TwoDEnvelope::new(vec![(0, (0, 0)), (10, (0, 255))], 100).unwrap();
    assert_eq!(steep.minmax_at_point(5), Ok((0, 255)));
    assert_eq!(env.minmax_at_point(0), Ok((0, 0)));
    assert_eq!(env.minmax_at_point(10), Ok((0, 255)));
    assert_eq!(env.minmax_at_point(8), Ok((0, 255)));
}

#[test]
fn envelope_bounds_relax_away_from_anchor() {
    let env = TwoDEnvelope::new(vec![(0, (0, 0)), (20, (0, 255))], 3).unwrap();
    let mut last_max = -1;
    for x in 0..=10 {
        let (lo, hi) = env.minmax_at_point(x).unwrap();
        assert_eq!(lo, 0);
        assert!(hi >= last_max);
        last_max = hi;
    }
    assert_eq!(last_max, 30);
}

#[test]
fn envelope_construction_errors() {
    assert_eq!(TwoDEnvelope::new(vec![(0, (0, 0))], 1).unwrap_err(), EnvelopeError::TooFewPoints);
    assert_eq!(
        TwoDEnvelope::new(vec![(0, (5, 1)), (4, (0, 9))], 1).unwrap_err(),
        EnvelopeError::InvertedBand
    );
    assert_eq!(
        TwoDEnvelope::new(vec![(3, (0, 1)), (4, (0, 9)), (3, (2, 2))], 1).unwrap_err(),
        EnvelopeError::DuplicateLocation
    );
    let env = TwoDEnvelope::new(vec![(2, (0, 0)), (6, (0, 9))], 1).unwrap();
    assert_eq!(env.minmax_at_point(1), Err(EnvelopeError::OutOfRange));
    assert_eq!(env.minmax_at_point(7), Err(EnvelopeError::OutOfRange));
}

#[test]
fn two_axis_envelope_intersects_bands() {
    let h = vec![(0, (0, 0)), (8, (0, 100))];
    let v = vec![(0, (50, 60)), (8, (50, 60))];
    let env = ThreeDEnvelope::new(h.clone(), v, 10).unwrap();
    assert_eq!(env.minmax_at_point((3, 8)), Ok((50, 60)));
    assert_eq!(env.minmax_at_point((3, 2)), Err(EnvelopeError::EmptyIntersection));
    assert_eq!(env.minmax_at_point((9, 2)), Err(EnvelopeError::OutOfRange));
    let bad = ThreeDEnvelope::new(h, vec![(1, (0, 0))], 1);
    assert_eq!(bad.unwrap_err(), EnvelopeError::TooFewPoints);
}

#[test]
fn stretch_hits_target_extremes_and_is_idempotent() {
    let mut g = Grid::new(2, 2, Orientation::RowMajor, 0i32);
    g.set(0, 0, 3);
    g.set(0, 1, 5);
    g.set(1, 0, 7);
    g.set(1, 1, 9);
    stretch(&mut g, 0, 255);
    assert_eq!(g.get_slices(), vec![vec![0, 85], vec![170, 255]]);
    let once = g.clone();
    stretch(&mut g, 0, 255);
    assert_eq!(g.get_slices(), once.get_slices());
}

#[test]
fn stretch_of_flat_grid_goes_to_target_min() {
    let mut g = Grid::new(2, 2, Orientation::RowMajor, 9i32);
    stretch(&mut g, 10, 20);
    assert_eq!(g.get_slices(), vec![vec![10, 10], vec![10, 10]]);
}

#[test]
fn stretch_already_in_range_is_a_no_op() {
    let mut g = Grid::new(1, 3, Orientation::RowMajor, 0i32);
    g.set(0, 1, 100);
    g.set(0, 2, 255);
    stretch(&mut g, 0, 255);
    assert_eq!(g.get_rank(0), vec![0, 100, 255]);
}

#[test]
fn first_diamond_step_range_on_five_by_five() {
    let mut g = corner_grid(5, 0);
    let env = open_envelope(5, 0, 255);
    let mut rec = Recorder { calls: Vec::new(), answer: mode_of };
    diamond_square(&mut g, 2, &env, &params(1), &mut rec).unwrap();
    assert_eq!(rec.calls[0].0, 0);
    assert_eq!(rec.calls[0].1, 2);
    assert_eq!(rec.calls[0].2, 0);
    match g.get(2, 2) {
        Point::Computed(h) => assert!((0..=2).contains(&h)),
        other => panic!("centre not computed: {:?}", other),
    }
}

#[test]
fn every_cell_is_assigned_for_each_size() {
    for levels in 0..5u32 {
        let n = (1usize << levels) + 1;
        let mut g = corner_grid(n, 10);
        let env = open_envelope(n, 0, 255);
        let mut rng = SeededRng::new(7);
        diamond_square(&mut g, levels, &env, &params(255), &mut rng).unwrap();
        for r in 0..n {
            for c in 0..n {
                let p = g.get(r, c);
                assert_ne!(p, Point::Empty);
                if let Point::Computed(h) = p {
                    assert!((0..=255).contains(&h));
                }
            }
        }
        assert_eq!(g.get(0, 0), Point::Fixed(10));
    }
}

#[test]
fn every_cell_is_assigned_at_slope_one_with_mode_draws() {
    for levels in 0..6u32 {
        let n = (1usize << levels) + 1;
        let mut g = corner_grid(n, 0);
        let env = open_envelope(n, 0, 255);
        let mut rec = Recorder { calls: Vec::new(), answer: mode_of };
        diamond_square(&mut g, levels, &env, &params(1), &mut rec).unwrap();
        for r in 0..n {
            for c in 0..n {
                assert_ne!(g.get(r, c), Point::Empty);
            }
        }
    }
}

#[test]
fn out_of_range_draws_are_clamped() {
    let mut g = corner_grid(3, 0);
    let env = open_envelope(3, 0, 255);
    let mut rec = Recorder { calls: Vec::new(), answer: far_above };
    diamond_square(&mut g, 1, &env, &params(5), &mut rec).unwrap();
    assert_eq!(g.get(1, 1), Point::Computed(5));
}

#[test]
fn inverted_range_is_reported() {
    let mut g = corner_grid(3, 0);
    g.set(2, 2, Point::Fixed(100));
    let env = open_envelope(3, 0, 255);
    let mut rec = Recorder { calls: Vec::new(), answer: mode_of };
    let r = diamond_square(&mut g, 1, &env, &params(1), &mut rec);
    assert_eq!(r, Err(TerrainError::Sample(SampleError::InvertedRange)));
}

#[test]
fn envelope_gaps_are_reported_by_the_engine() {
    let mut g = corner_grid(3, 0);
    let narrow = vec![(0usize, (0, 255)), (1, (0, 255))];
    let wide = vec![(0usize, (0, 255)), (2, (0, 255))];
    let env = ThreeDEnvelope::new(narrow, wide.clone(), 1).unwrap();
    let mut rec = Recorder { calls: Vec::new(), answer: mode_of };
    let r = diamond_square(&mut g, 1, &env, &params(1), &mut rec);
    assert_eq!(r, Err(TerrainError::Envelope(EnvelopeError::OutOfRange)));
    let mut g = corner_grid(3, 0);
    let pinched = vec![(0usize, (0, 0)), (2, (0, 0))];
    let high = vec![(0usize, (9, 9)), (2, (9, 9))];
    let env = ThreeDEnvelope::new(pinched, high, 1).unwrap();
    let r = diamond_square(&mut g, 1, &env, &params(1), &mut rec);
    assert_eq!(r, Err(TerrainError::Envelope(EnvelopeError::EmptyIntersection)));
    assert_eq!(g.get(1, 1), Point::Empty);
}

#[test]
fn degenerate_range_is_settled_without_sampling() {
    let mut g = corner_grid(3, 40);
    let env = open_envelope(3, 0, 255);
    let mut rec = Recorder { calls: Vec::new(), answer: far_above };
    diamond_square(&mut g, 1, &env, &params(0), &mut rec).unwrap();
    assert!(rec.calls.is_empty());
    assert_eq!(g.get(1, 1), Point::Computed(40));
}

#[test]
fn zero_slope_run_is_flat() {
    let mut g = corner_grid(9, 77);
    let env = open_envelope(9, 0, 255);
    let mut rec = Recorder { calls: Vec::new(), answer: far_above };
    diamond_square(&mut g, 3, &env, &params(0), &mut rec).unwrap();
    assert!(rec.calls.is_empty());
    for r in 0..9 {
        for c in 0..9 {
            match g.get(r, c) {
                Point::Fixed(h) | Point::Computed(h) => assert_eq!(h, 77),
                Point::Empty => panic!("cell left empty"),
            }
        }
    }
}

#[test]
fn generation_without_guide_points_is_reproducible() {
    let mut c = small_config(17, 0, 0);
    c.margin_width = 0;
    c.margin_height = 20;
    let a = generate(&c, 42).unwrap();
    let b = generate(&c, 42).unwrap();
    assert_eq!(a.grid.get_slices(), b.grid.get_slices());
    assert_eq!(a.guides.len(), 4);
    assert_eq!(a.grid.get(0, 0), 20);
    assert_eq!((a.min, a.max), (0, 255));
}

#[test]
fn generation_with_nothing_random_is_flat_at_margin_height() {
    let mut c = small_config(17, 0, 0);
    c.max_slope = 0;
    c.margin_height = 30;
    let e = generate(&c, 99).unwrap();
    for row in e.grid.get_slices() {
        assert!(row.iter().all(|&h| h == 30));
    }
}

#[test]
fn generation_keeps_guide_heights() {
    let c = small_config(33, 3, 2);
    let e = generate(&c, 5).unwrap();
    assert_eq!(e.guides.len(), 9);
    for p in &e.guides {
        assert_eq!(e.grid.get(p.row, p.col), p.height);
    }
    let mut rec = Recorder { calls: Vec::new(), answer: mode_of };
    let mut rng = SeededRng::new(5);
    let f = generate_with(&c, &mut rng, &mut rec).unwrap();
    assert_eq!(f.grid.rows(), 33);
}

#[test]
fn layout_sets_are_disjoint_and_inside() {
    let c = small_config(17, 6, 6);
    let mut rng = SeededRng::new(11);
    let lay = goal_points(&c, &mut rng).unwrap();
    assert_eq!(lay.high.len(), 6);
    assert_eq!(lay.low.len(), 6);
    for h in &lay.high {
        assert_eq!(h.kind, PointKind::High);
        assert!(h.row >= 2 && h.row <= 14 && h.col >= 2 && h.col <= 14);
        assert!((100..=255).contains(&h.height));
        for l in &lay.low {
            assert!(h.row != l.row || h.col != l.col);
        }
    }
    for l in &lay.low {
        assert!((0..=50).contains(&l.height));
    }
    assert_eq!(lay.anchors.len(), 4);
    assert_eq!(lay.all_points().len(), 16);
    let sorted = lay.sorted_points();
    assert_eq!(sorted.len(), 16);
    for w in sorted.windows(2) {
        assert!((w[0].row, w[0].col) < (w[1].row, w[1].col));
    }
    assert_eq!((sorted[0].row, sorted[0].col), (0, 0));
    assert_eq!((sorted[15].row, sorted[15].col), (16, 16));
}

#[test]
fn too_many_points_is_a_layout_error() {
    let c = small_config(9, 13, 13);
    let mut rng = SeededRng::new(1);
    let r = goal_points(&c, &mut rng);
    assert_eq!(r.unwrap_err(), TerrainError::Layout(LayoutError::TooManyPoints));
    assert_eq!(generate(&c, 3).unwrap_err(), TerrainError::Layout(LayoutError::TooManyPoints));
}

#[test]
fn crowded_interior_can_exhaust_retries() {
    let mut c = small_config(5, 5, 4);
    c.margin_width = 1;
    let mut exhausted = 0;
    for seed in 0..200u64 {
        let mut rng = SeededRng::new(seed);
        match goal_points(&c, &mut rng) {
            Ok(lay) => assert_eq!(lay.high.len() + lay.low.len(), 9),
            Err(e) => {
                assert_eq!(e, TerrainError::Layout(LayoutError::RetriesExceeded));
                exhausted += 1;
            }
        }
    }
    assert!(exhausted > 0);
}

#[test]
fn unreachable_guide_heights_are_a_config_error() {
    let mut c = small_config(9, 1, 0);
    c.hi_min = 300;
    c.hi_max = 400;
    let mut rng = SeededRng::new(0);
    assert_eq!(
        goal_points(&c, &mut rng).unwrap_err(),
        TerrainError::Config(ConfigError::GuideRangeOutOfReach)
    );
    c.n_hi = 0;
    c.n_lo = 1;
    c.lo_min = -20;
    c.lo_max = -1;
    assert_eq!(check_config(&c), Err(ConfigError::GuideRangeOutOfReach));
}

#[test]
fn unused_guide_ranges_are_not_checked() {
    let mut c = small_config(9, 0, 0);
    c.hi_min = 400;
    c.hi_max = 300;
    c.lo_min = 60;
    c.lo_max = 50;
    let mut rng = SeededRng::new(0);
    let lay = goal_points(&c, &mut rng).unwrap();
    assert!(lay.high.is_empty() && lay.low.is_empty());
    assert_eq!(lay.anchors.len(), 4);
}

#[test]
fn config_errors() {
    let base = small_config(17, 0, 0);
    assert_eq!(check_config(&base), Ok(4));
    let mut c = base;
    c.size = (16, 16);
    assert_eq!(check_config(&c), Err(ConfigError::SizeNotPowerOfTwoPlusOne));
    c.size = (17, 9);
    assert_eq!(check_config(&c), Err(ConfigError::SizeNotPowerOfTwoPlusOne));
    let mut c = base;
    c.margin_width = 9;
    assert_eq!(check_config(&c), Err(ConfigError::MarginTooWide));
    let mut c = base;
    c.min_height = 300;
    assert_eq!(check_config(&c), Err(ConfigError::HeightRangeInverted));
    let mut c = base;
    c.margin_height = -1;
    assert_eq!(check_config(&c), Err(ConfigError::MarginHeightOutOfRange));
    let mut c = base;
    c.n_lo = 1;
    c.lo_min = 60;
    assert_eq!(check_config(&c), Err(ConfigError::GuideRangeInverted));
    let mut c = base;
    c.roughness = 101;
    assert_eq!(check_config(&c), Err(ConfigError::RoughnessOutOfRange));
    let mut c = base;
    c.gravity = Some(Gravity { target: 10, strength: 150 });
    assert_eq!(check_config(&c), Err(ConfigError::GravityOutOfRange));
    assert_eq!(generate(&c, 0).unwrap_err(), TerrainError::Config(ConfigError::GravityOutOfRange));
}

#[test]
fn side_levels_recognises_sides() {
    assert_eq!(side_levels(2), Some(0));
    assert_eq!(side_levels(3), Some(1));
    assert_eq!(side_levels(1025), Some(10));
    assert_eq!(side_levels(32769), Some(15));
    assert_eq!(side_levels(65537), None);
    assert_eq!(side_levels(1024), None);
    assert_eq!(side_levels(0), None);
    assert_eq!(side_levels(1), None);
}

#[test]
fn config_defaults() {
    let c = Config::default(64, 32, 3, 100, None, 2, Some(5), 40);
    assert_eq!(c.size, (32, 64));
    assert_eq!(c.hi_max, 255);
    assert_eq!(c.lo_min, 5);
    assert_eq!(c.margin_width, 16);
    assert_eq!(c.max_slope, 1);
    assert!(c.gravity.is_none());
}

#[test]
fn legal_range_intersects_every_bound() {
    assert_eq!(legal_range(&vec![0, 0, 0, 0], 2, 1, 0, 255, (0, 255)), Ok((0, 2)));
    assert_eq!(legal_range(&vec![10, 14], 3, 2, 0, 255, (0, 12)), Ok((8, 12)));
    assert_eq!(legal_range(&vec![0, 100], 1, 1, 0, 255, (0, 255)), Err(SampleError::InvertedRange));
}

#[test]
fn neighbour_average_rounds_down() {
    assert_eq!(neighbor_average(&vec![1, 2]), 1);
    assert_eq!(neighbor_average(&vec![-3, 0]), -2);
    assert_eq!(neighbor_average(&vec![4, 4, 5, 5]), 4);
}

#[test]
fn gravity_helpers() {
    assert_eq!(gravitated_mode(0, 100, 40, 90, 50), 65);
    assert_eq!(gravitated_mode(0, 100, 40, 0, 25), 30);
    assert_eq!(gravitated_mode(0, 50, 40, 200, 100), 50);
    assert_eq!(gravitated_mode(0, 10, 0, 10, 50), 0);
    assert_eq!(gravitated_mode(0, 10, 12, 0, 50), 10);
    assert_eq!(scale_gravity(80, 0, 8, 16), 80);
    assert_eq!(scale_gravity(80, 0, 4, 16), 40);
    assert_eq!(scale_gravity(80, 0, 0, 16), 0);
    assert_eq!(decayed_bias(80, 0), 80);
    assert_eq!(decayed_bias(80, 3), 10);
    assert_eq!(decayed_bias(80, 40), 0);
    assert_eq!(clamp_height(0, 10, -4), 0);
    assert_eq!(clamp_height(0, 10, 14), 10);
    assert_eq!(clamp_height(0, 10, 4), 4);
}

#[test]
fn point_requests_combine_range_mean_and_gravity() {
    let p = params(2);
    assert_eq!(point_request(&vec![10, 14], 3, &p, (0, 255), 0, 4, 4, 8), Ok((8, 16, 12)));
    assert_eq!(point_request(&vec![0, 100], 1, &p, (0, 255), 0, 4, 4, 8), Err(SampleError::InvertedRange));
    let mut q = params(100);
    q.gravity = Some(Gravity { target: 200, strength: 100 });
    assert_eq!(point_request(&vec![10, 10, 10, 10], 2, &q, (0, 255), 100, 2, 2, 4), Ok((0, 210, 200)));
    assert_eq!(point_request(&vec![10, 10, 10, 10], 2, &q, (0, 255), 100, 1, 2, 4), Ok((0, 210, 105)));
    assert_eq!(point_request(&vec![0, 0], 2, &q, (0, 255), 100, 2, 2, 4), Ok((0, 200, 0)));
}

#[test]
fn spread_decays_by_roughness() {
    assert_eq!(next_spread(255, 50), 127);
    assert_eq!(next_spread(127, 50), 63);
    assert_eq!(next_spread(10, 100), 10);
    assert_eq!(next_spread(10, 0), 0);
}

#[test]
fn gravity_pulls_mode_toward_target() {
    let mut g = corner_grid(5, 10);
    let env = open_envelope(5, 0, 255);
    let mut p = params(100);
    p.gravity = Some(Gravity { target: 200, strength: 100 });
    let mut rec = Recorder { calls: Vec::new(), answer: mode_of };
    diamond_square(&mut g, 2, &env, &p, &mut rec).unwrap();
    assert_eq!(rec.calls[0], (0, 210, 200, 255));
}

#[test]
fn seeded_draws_stay_in_bounds() {
    let mut rng = SeededRng::new(9);
    for _ in 0..100 {
        let v = rng.draw_between(-3, 4);
        assert!((-3..=4).contains(&v));
    }
    let mut a = SeededRng::new(9);
    let mut b = SeededRng::new(9);
    assert_eq!(a.sample(0, 100, 50, 10), b.sample(0, 100, 50, 10));
}

#[test]
fn seeded_draws_vary() {
    let mut rng = SeededRng::new(3);
    let first = rng.draw_between(0, 1_000_000);
    let mut differs = false;
    for _ in 0..20 {
        if rng.draw_between(0, 1_000_000) != first {
            differs = true;
        }
    }
    assert!(differs);
    let mut other = SeededRng::new(4);
    let a: Vec<i64> = (0..8).map(|_| rng.draw_between(0, 1_000_000)).collect();
    let b: Vec<i64> = (0..8).map(|_| other.draw_between(0, 1_000_000)).collect();
    assert_ne!(a, b);
}

#[test]
fn setup_grid_fixes_guides() {
    let pts = vec![
        GuidePoint { row: 0, col: 0, height: 3, kind: PointKind::Anchor },
        GuidePoint { row: 1, col: 2, height: 9, kind: PointKind::High },
    ];
    let g = setup_grid(3, &pts).unwrap();
    assert_eq!(g.orientation(), Orientation::RowMajor);
    assert_eq!(g.get(0, 0), Point::Fixed(3));
    assert_eq!(g.get(1, 2), Point::Fixed(9));
    assert_eq!(g.get(2, 2), Point::Empty);
    assert_eq!(setup_grid(4, &pts).unwrap_err(), ConfigError::SizeNotPowerOfTwoPlusOne);
}

#[test]
fn guides_too_close_for_the_slope() {
    assert_eq!(
        TwoDEnvelope::new(vec![(0, (0, 0)), (2, (200, 255))], 1).unwrap_err(),
        EnvelopeError::TooSteep
    );
    assert!(TwoDEnvelope::new(vec![(0, (0, 0)), (2, (200, 255))], 100).is_ok());
}
