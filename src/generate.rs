//! One generation run: layout, displacement, and the finished elevation grid.
use vstd::prelude::*;
use crate::config::{config_error, is_side, pow2, side_levels, Config, ConfigError};
use crate::displace::{
    respects, same_shape, all_set, diamond_square, fill_class, flat_run, is_pow2, nbr, point_height, Displacement, Point,
};
use crate::error::{LayoutError, TerrainError};
use crate::grid::{Grid, Orientation};
use crate::layout::{
    corner_anchors, goal_points, interior_count, layout_ok, locations_disjoint, locations_distinct,
    same_loc, GuidePoint, Layout,
};
use crate::sampling::{SeededRng, Sampler};

verus! {

/// The finished elevations of a run, the range they were generated in, and
/// the guide points that were fixed before displacement.
#[derive(Debug, Clone)]
pub struct Elevations {
    pub grid: Grid<i32>,
    pub min: i32,
    pub max: i32,
    pub guides: Vec<GuidePoint>,
}

pub open spec fn height_of(p: Point) -> int {
    match p {
        Point::Empty => 0,
        Point::Fixed(h) => h as int,
        Point::Computed(h) => h as int,
    }
}

/// Whether some guide point sits at `(r, c)`.
pub open spec fn guide_at(s: Seq<GuidePoint>, r: int, c: int) -> bool {
    exists|i: int| 0 <= i < s.len() && (#[trigger] s[i]).row == r && s[i].col == c
}

fn append_points(dst: &mut Vec<GuidePoint>, src: &Vec<GuidePoint>)
    ensures
        final(dst)@ == old(dst)@ + src@,
{
    let mut i: usize = 0;
    while i < src.len()
        invariant
            i <= src@.len(),
            dst@ == old(dst)@ + src@.subrange(0, i as int),
        decreases src@.len() - i,
    {
        dst.push(src[i]);
        i = i + 1;
        assert(dst@ =~= old(dst)@ + src@.subrange(0, i as int));
    }
    assert(src@.subrange(0, src@.len() as int) =~= src@);
}

/// `a` comes before `b` in row-major order of location.
pub open spec fn loc_before(a: GuidePoint, b: GuidePoint) -> bool {
    a.row < b.row || (a.row == b.row && a.col < b.col)
}

/// Locations strictly increase in row-major order.
pub open spec fn sorted_by_loc(s: Seq<GuidePoint>) -> bool {
    forall|i: int, j: int| 0 <= i < j < s.len() ==> loc_before(#[trigger] s[i], #[trigger] s[j])
}

/// Inserts `p` at its place in a list sorted by location; `p`'s location is new.
fn insert_by_loc(sorted: &mut Vec<GuidePoint>, p: GuidePoint)
    requires
        sorted_by_loc(old(sorted)@),
        forall|m: int| 0 <= m < old(sorted)@.len() ==> !same_loc(#[trigger] old(sorted)@[m], p),
    ensures
        sorted_by_loc(final(sorted)@),
        final(sorted)@.len() == old(sorted)@.len() + 1,
        forall|q: GuidePoint| final(sorted)@.contains(q) <==> (old(sorted)@.contains(q) || q == p),
{
    let mut k: usize = 0;
    while k < sorted.len() && (sorted[k].row < p.row || (sorted[k].row == p.row && sorted[k].col < p.col))
        invariant
            k <= sorted@.len(),
            forall|m: int| 0 <= m < k ==> loc_before(#[trigger] sorted@[m], p),
        decreases sorted@.len() - k,
    {
        k = k + 1;
    }
    let ghost before = sorted@;
    proof {
        if k < before.len() {
            assert(!same_loc(before[k as int], p));
            assert(loc_before(p, before[k as int]));
        }
        assert forall|m: int| k <= m < before.len() implies loc_before(p, #[trigger] before[m]) by {
            if m > k {
                assert(loc_before(before[k as int], before[m]));
            }
        }
    }
    sorted.insert(k, p);
    proof {
        before.insert_ensures(k as int, p);
        let after = sorted@;
        assert forall|a: int, b: int| 0 <= a < b < after.len() implies loc_before(#[trigger] after[a], #[trigger] after[b]) by {
            if a < k && b < k {
                assert(after[a] == before[a] && after[b] == before[b]);
            } else if a < k && b == k {
                assert(after[a] == before[a]);
            } else if a < k {
                assert(after[a] == before[a] && after[b] == before[b - 1]);
            } else if a == k {
                assert(after[b] == before[b - 1]);
            } else {
                assert(after[a] == before[a - 1] && after[b] == before[b - 1]);
            }
        }
        assert forall|q: GuidePoint| after.contains(q) <==> (before.contains(q) || q == p) by {
            if after.contains(q) {
                let m = choose|m: int| 0 <= m < after.len() && after[m] == q;
                if m < k {
                    assert(before[m] == q);
                } else if m > k {
                    assert(before[m - 1] == q);
                }
            }
            if before.contains(q) {
                let m = choose|m: int| 0 <= m < before.len() && before[m] == q;
                if m < k {
                    assert(after[m] == q);
                } else {
                    assert(after[m + 1] == q);
                }
            }
            if q == p {
                assert(after[k as int] == q);
            }
        }
    }
}

impl Layout {
    /// Every guide point once, ordered by location (row first, then column).
    pub fn sorted_points(&self) -> (r: Vec<GuidePoint>)
        requires
            locations_distinct(self.anchors@ + self.high@ + self.low@),
        ensures
            sorted_by_loc(r@),
            r@.len() == self.anchors@.len() + self.high@.len() + self.low@.len(),
            forall|q: GuidePoint| r@.contains(q) <==> (self.anchors@ + self.high@ + self.low@).contains(q),
    {
        let all = self.all_points();
        let mut out: Vec<GuidePoint> = Vec::new();
        let mut i: usize = 0;
        while i < all.len()
            invariant
                i <= all@.len(),
                out@.len() == i,
                locations_distinct(all@),
                sorted_by_loc(out@),
                forall|q: GuidePoint| out@.contains(q) <==> all@.subrange(0, i as int).contains(q),
            decreases all@.len() - i,
        {
            let p = all[i];
            proof {
                assert forall|m: int| 0 <= m < out@.len() implies !same_loc(#[trigger] out@[m], p) by {
                    assert(out@.contains(out@[m]));
                    let a = choose|a: int| 0 <= a < i && all@.subrange(0, i as int)[a] == out@[m];
                    assert(all@[a] == out@[m]);
                    assert(!same_loc(all@[a], all@[i as int]));
                }
            }
            insert_by_loc(&mut out, p);
            proof {
                let pre = all@.subrange(0, i + 1);
                let short = all@.subrange(0, i as int);
                assert forall|q: GuidePoint| out@.contains(q) <==> pre.contains(q) by {
                    if pre.contains(q) {
                        let a = choose|a: int| 0 <= a < pre.len() && pre[a] == q;
                        if a < i {
                            assert(short[a] == q);
                        }
                    }
                    if short.contains(q) {
                        let a = choose|a: int| 0 <= a < short.len() && short[a] == q;
                        assert(pre[a] == q);
                    }
                    if q == p {
                        assert(pre[i as int] == q);
                    }
                }
            }
            i = i + 1;
        }
        proof {
            assert(all@.subrange(0, all@.len() as int) =~= all@);
        }
        out
    }

    /// Every guide point: the anchors, then the high points, then the low ones.
    pub fn all_points(&self) -> (r: Vec<GuidePoint>)
        ensures
            r@ == self.anchors@ + self.high@ + self.low@,
    {
        let mut all: Vec<GuidePoint> = Vec::new();
        append_points(&mut all, &self.anchors);
        append_points(&mut all, &self.high);
        append_points(&mut all, &self.low);
        assert(all@ =~= self.anchors@ + self.high@ + self.low@);
        all
    }
}

/// A working grid for the displacement engine: square with side `n`, which must
/// be `2^k + 1`, row-major, holding each guide point as a fixed cell and nothing else.
pub fn setup_grid(n: usize, points: &Vec<GuidePoint>) -> (r: Result<Grid<Point>, ConfigError>)
    requires
        locations_distinct(points@),
        forall|i: int| 0 <= i < points@.len() ==> (#[trigger] points@[i]).row < n && points@[i].col < n,
    ensures
        !is_side(n as int) <==> r == Err::<Grid<Point>, _>(ConfigError::SizeNotPowerOfTwoPlusOne),
        r matches Ok(g) ==> ({
            &&& g.wf()
            &&& g.nrows() == n
            &&& g.ncols() == n
            &&& g.orient() == Orientation::RowMajor
            &&& forall|i: int|
                0 <= i < points@.len() ==> g.cell((#[trigger] points@[i]).row as int, points@[i].col as int)
                    == Point::Fixed(points@[i].height)
            &&& forall|r: int, c: int|
                g.in_bounds(r, c) && !guide_at(points@, r, c) ==> #[trigger] g.cell(r, c) == Point::Empty
        }),
{
    match side_levels(n) {
        Some(k) => {
            proof {
                crate::config::lemma_pow2_monotone(k as nat, crate::config::MAX_LEVELS as nat);
                crate::config::lemma_pow2_max_levels();
                assert(is_side(n as int));
            }
            Ok(fixed_grid(n, points))
        },
        None => Err(ConfigError::SizeNotPowerOfTwoPlusOne),
    }
}

fn fixed_grid(n: usize, points: &Vec<GuidePoint>) -> (g: Grid<Point>)
    requires
        n <= 0x8001,
        locations_distinct(points@),
        forall|i: int| 0 <= i < points@.len() ==> (#[trigger] points@[i]).row < n && points@[i].col < n,
    ensures
        g.wf(),
        g.nrows() == n,
        g.ncols() == n,
        g.orient() == Orientation::RowMajor,
        forall|i: int|
            0 <= i < points@.len() ==> g.cell((#[trigger] points@[i]).row as int, points@[i].col as int)
                == Point::Fixed(points@[i].height),
        forall|r: int, c: int|
            g.in_bounds(r, c) && !guide_at(points@, r, c) ==> #[trigger] g.cell(r, c) == Point::Empty,
{
    proof {
        assert((n as int) * (n as int) <= 0x8001 * 0x8001) by (nonlinear_arith)
            requires
                0 <= n <= 0x8001,
        ;
    }
    let mut g = Grid::new(n, n, Orientation::RowMajor, Point::Empty);
    proof {
        assert forall|r: int, c: int| g.in_bounds(r, c) implies #[trigger] g.cell(r, c) == Point::Empty by {
            crate::grid::lemma_flat_index(n as int, n as int, Orientation::RowMajor, r, c, r, c);
        }
    }
    let mut i: usize = 0;
    while i < points.len()
        invariant
            g.wf(),
            g.nrows() == n,
            g.ncols() == n,
            g.orient() == Orientation::RowMajor,
            i <= points@.len(),
            locations_distinct(points@),
            forall|k: int| 0 <= k < points@.len() ==> (#[trigger] points@[k]).row < n && points@[k].col < n,
            forall|k: int|
                0 <= k < i ==> g.cell((#[trigger] points@[k]).row as int, points@[k].col as int)
                    == Point::Fixed(points@[k].height),
            forall|r: int, c: int|
                g.in_bounds(r, c) && !guide_at(points@.subrange(0, i as int), r, c) ==> #[trigger] g.cell(r, c)
                    == Point::Empty,
        decreases points@.len() - i,
    {
        let p = points[i];
        g.set(p.row, p.col, Point::Fixed(p.height));
        proof {
            assert forall|k: int| 0 <= k < i + 1 implies g.cell((#[trigger] points@[k]).row as int, points@[k].col as int)
                == Point::Fixed(points@[k].height) by {
                if k < i {
                    assert(!same_loc(points@[k], points@[i as int]));
                }
            }
            assert forall|r: int, c: int|
                g.in_bounds(r, c) && !guide_at(points@.subrange(0, i + 1), r, c) implies #[trigger] g.cell(r, c)
                    == Point::Empty by {
                assert(points@.subrange(0, i + 1)[i as int] == p);
                if guide_at(points@.subrange(0, i as int), r, c) {
                    let k = choose|k: int| 0 <= k < i && (#[trigger] points@.subrange(0, i as int)[k]).row == r
                        && points@.subrange(0, i as int)[k].col == c;
                    assert(points@.subrange(0, i + 1)[k] == points@.subrange(0, i as int)[k]);
                }
            }
        }
        i = i + 1;
    }
    proof {
        assert(points@.subrange(0, points@.len() as int) =~= points@);
    }
    g
}

/// The heights of a fully assigned working grid.
fn heights_of(grid: &Grid<Point>) -> (out: Grid<i32>)
    requires
        grid.wf(),
        grid.nrows() <= 0x8001,
        grid.ncols() == grid.nrows(),
        all_set(*grid),
    ensures
        out.wf(),
        out.nrows() == grid.nrows(),
        out.ncols() == grid.ncols(),
        forall|r: int, c: int| out.in_bounds(r, c) ==> #[trigger] out.cell(r, c) == height_of(grid.cell(r, c)),
{
    let n = grid.rows();
    proof {
        assert((n as int) * (n as int) <= 0x8001 * 0x8001) by (nonlinear_arith)
            requires
                0 <= n <= 0x8001,
        ;
    }
    let mut out = Grid::new(n, n, Orientation::RowMajor, 0i32);
    let mut r: usize = 0;
    while r < n
        invariant
            grid.wf(),
            grid.nrows() == n,
            grid.ncols() == n,
            out.wf(),
            out.nrows() == n,
            out.ncols() == n,
            r <= n,
            forall|rr: int, cc: int| 0 <= rr < r && 0 <= cc < n ==> #[trigger] out.cell(rr, cc) == height_of(grid.cell(rr, cc)),
        decreases n - r,
    {
        let mut c: usize = 0;
        while c < n
            invariant
                grid.wf(),
                grid.nrows() == n,
                grid.ncols() == n,
                out.wf(),
                out.nrows() == n,
                out.ncols() == n,
                r < n,
                c <= n,
                forall|rr: int, cc: int|
                    0 <= cc < n && (0 <= rr < r || (rr == r && cc < c)) ==> #[trigger] out.cell(rr, cc)
                        == height_of(grid.cell(rr, cc)),
            decreases n - c,
        {
            let h = match grid.get(r, c) {
                Point::Empty => 0,
                Point::Fixed(h) => h,
                Point::Computed(h) => h,
            };
            out.set(r, c, h);
            c = c + 1;
        }
        r = r + 1;
    }
    out
}

/// Anchors, high points and low points of a layout never share a location.
proof fn lemma_layout_distinct(lay: Layout, l: usize, mw: usize, mh: i32)
    requires
        l >= 1,
        lay.anchors@ == corner_anchors(l, mh),
        locations_distinct(lay.high@),
        locations_distinct(lay.low@),
        locations_disjoint(lay.high@, lay.low@),
        forall|i: int| 0 <= i < lay.high@.len() ==> crate::layout::in_interior(#[trigger] lay.high@[i], l as int, mw as int),
        forall|i: int| 0 <= i < lay.low@.len() ==> crate::layout::in_interior(#[trigger] lay.low@[i], l as int, mw as int),
    ensures
        locations_distinct(lay.anchors@ + lay.high@ + lay.low@),
{
    let a = lay.anchors@;
    let h = lay.high@;
    let w = lay.low@;
    let s = a + h + w;
    assert forall|i: int, j: int| 0 <= i < j < s.len() implies !same_loc(#[trigger] s[i], #[trigger] s[j]) by {
        let na = a.len() as int;
        let nh = h.len() as int;
        if j < na {
        } else if j < na + nh {
            assert(s[j] == h[j - na]);
            if i >= na {
                assert(s[i] == h[i - na]);
            }
        } else {
            assert(s[j] == w[j - na - nh]);
            if i >= na + nh {
                assert(s[i] == w[i - na - nh]);
            } else if i >= na {
                assert(s[i] == h[i - na]);
            }
        }
    }
}

/// Lays out guide points with `rng`, fixes them in a working grid and fills
/// the rest with diamond-square displacement drawing heights from `sampler`.
pub fn generate_with<S: Sampler>(config: &Config, rng: &mut SeededRng, sampler: &mut S) -> (r: Result<
    Elevations,
    TerrainError,
>)
    ensures
        config_error(*config) matches Some(e) ==> r == Err::<Elevations, _>(TerrainError::Config(e)),
        config_error(*config) is None && config.n_hi + config.n_lo > interior_count(
            config.size.0 - 1,
            config.margin_width as int,
        ) ==> r == Err::<Elevations, _>(TerrainError::Layout(LayoutError::TooManyPoints)),
        r matches Ok(e) ==> generated(*config, e),
        r matches Err(TerrainError::Config(_)) ==> config_error(*config) is Some,
        r == Err::<Elevations, _>(TerrainError::Layout(LayoutError::TooManyPoints)) ==> config.n_hi
            + config.n_lo > interior_count(config.size.0 - 1, config.margin_width as int),
        r matches Err(e) ==> !(e is Envelope),
        nothing_random(*config) ==> (r matches Ok(e) && flat_at(e, config.margin_height as int)),
{
    let layout = match goal_points(config, rng) {
        Ok(lay) => lay,
        Err(e) => {
            return Err(e);
        },
    };
    let levels = match crate::config::check_config(config) {
        Ok(k) => k,
        Err(e) => {
            return Err(TerrainError::Config(e));
        },
    };
    fill_layout(config, levels, layout, sampler)
}

/// Generates a terrain from `config`, drawing every random choice from one
/// generator seeded with `seed`.
pub fn generate(config: &Config, seed: u64) -> (r: Result<Elevations, TerrainError>)
    ensures
        config_error(*config) matches Some(e) ==> r == Err::<Elevations, _>(TerrainError::Config(e)),
        config_error(*config) is None && config.n_hi + config.n_lo > interior_count(
            config.size.0 - 1,
            config.margin_width as int,
        ) ==> r == Err::<Elevations, _>(TerrainError::Layout(LayoutError::TooManyPoints)),
        r matches Ok(e) ==> generated(*config, e),
        r matches Err(TerrainError::Config(_)) ==> config_error(*config) is Some,
        r == Err::<Elevations, _>(TerrainError::Layout(LayoutError::TooManyPoints)) ==> config.n_hi
            + config.n_lo > interior_count(config.size.0 - 1, config.margin_width as int),
        r matches Err(e) ==> !(e is Envelope),
        nothing_random(*config) ==> (r matches Ok(e) && flat_at(e, config.margin_height as int)),
{
    let mut rng = SeededRng::new(seed);
    let layout = match goal_points(config, &mut rng) {
        Ok(lay) => lay,
        Err(e) => {
            return Err(e);
        },
    };
    let levels = match crate::config::check_config(config) {
        Ok(k) => k,
        Err(e) => {
            return Err(TerrainError::Config(e));
        },
    };
    fill_layout(config, levels, layout, &mut rng)
}

/// A configuration that leaves nothing to chance: no high or low points and a
/// zero slope, so every cell is pinned to the margin height.
pub open spec fn nothing_random(config: Config) -> bool {
    config_error(config) is None && config.n_hi == 0 && config.n_lo == 0 && config.max_slope == 0
}

/// Every cell of the result holds `h`.
pub open spec fn flat_at(e: Elevations, h: int) -> bool {
    forall|r: int, c: int| e.grid.in_bounds(r, c) ==> #[trigger] e.grid.cell(r, c) == h
}

/// The `k`-th neighbour of `(r, c)` at distance `h` is outside the grid or
/// within `h * slope` of it.
pub open spec fn near_nbr(g: Grid<i32>, r: int, c: int, h: int, slope: int, k: int) -> bool {
    let (nr, nc) = nbr(r, c, h, k);
    g.in_bounds(nr, nc) ==> -(h * slope) <= g.cell(r, c) - g.cell(nr, nc) <= h * slope
}

/// `(r, c)` was filled at some level, at distance `h` from its neighbours
/// there, and lies within `h * slope` of each of them.
pub open spec fn level_fill(g: Grid<i32>, r: int, c: int, slope: int) -> bool {
    exists|h: int|
        is_pow2(h) && fill_class(r, c, h) && near_nbr(g, r, c, h, slope, 0) && near_nbr(g, r, c, h, slope, 1)
            && near_nbr(g, r, c, h, slope, 2) && #[trigger] near_nbr(g, r, c, h, slope, 3)
}

/// What a successful run hands back: a square grid of the configured side in
/// which every guide point keeps its height and every cell lies in
/// `[min_height, max_height]`, with that range reported.
pub open spec fn generated(config: Config, e: Elevations) -> bool {
    &&& e.grid.wf()
    &&& e.grid.nrows() == config.size.0
    &&& e.grid.ncols() == config.size.1
    &&& e.min == config.min_height
    &&& e.max == config.max_height
    &&& locations_distinct(e.guides@)
    &&& e.guides@.len() == 4 + config.n_hi + config.n_lo
    &&& forall|i: int|
        0 <= i < e.guides@.len() ==> e.grid.cell((#[trigger] e.guides@[i]).row as int, e.guides@[i].col as int)
            == e.guides@[i].height
    &&& forall|r: int, c: int|
        e.grid.in_bounds(r, c) ==> config.min_height <= #[trigger] e.grid.cell(r, c) <= config.max_height
    &&& forall|r: int, c: int|
        e.grid.in_bounds(r, c) && !guide_at(e.guides@, r, c) ==> #[trigger] level_fill(
            e.grid,
            r,
            c,
            config.max_slope as int,
        )
}

/// The margin envelope serves every cell of the grid, with the margin height in every band.
proof fn lemma_margin_envelope(env: crate::envelope::ThreeDEnvelope, l: int, mh: int, gmin: int, gmax: int, r: int, c: int)
    requires
        env.wf(),
        crate::layout::guides_fit(env.horizontal().points(), l, mh, gmin, gmax),
        crate::layout::guides_fit(env.vertical().points(), l, mh, gmin, gmax),
        0 <= r <= l,
        0 <= c <= l,
    ensures
        !crate::displace::env_fails(env, r, c),
        crate::envelope::covers(env.horizontal().points(), c),
        crate::envelope::covers(env.vertical().points(), r),
        crate::displace::env_band(env, r, c).0 <= mh <= crate::displace::env_band(env, r, c).1,
{
    let h = env.horizontal().points();
    let v = env.vertical().points();
    assert(h.last() == h[h.len() - 1]);
    assert(v.last() == v[v.len() - 1]);
    crate::envelope::lemma_band_contains(h, env.horizontal().slope(), c, mh);
    crate::envelope::lemma_band_contains(v, env.horizontal().slope(), r, mh);
}

/// Guide points keep their heights, and every height lies in the global range.
proof fn lemma_guide_heights(
    config: Config,
    layout: Layout,
    points: Seq<GuidePoint>,
    seeded: Grid<Point>,
    grid: Grid<Point>,
    heights: Grid<i32>,
    params: Displacement,
)
    requires
        config_error(config) is None,
        layout_ok(layout, config),
        points == layout.anchors@ + layout.high@ + layout.low@,
        same_shape(seeded, grid),
        params.min_height == config.min_height,
        params.max_height == config.max_height,
        respects(seeded, grid, layout.envelope, config.min_height as int, config.max_height as int),
        all_set(grid),
        heights.nrows() == grid.nrows(),
        heights.ncols() == grid.ncols(),
        forall|r: int, c: int| heights.in_bounds(r, c) ==> #[trigger] heights.cell(r, c) == height_of(grid.cell(r, c)),
        forall|i: int|
            0 <= i < points.len() ==> seeded.in_bounds((#[trigger] points[i]).row as int, points[i].col as int)
                && seeded.cell(points[i].row as int, points[i].col as int) == Point::Fixed(points[i].height),
        forall|r: int, c: int| seeded.in_bounds(r, c) && !guide_at(points, r, c) ==> #[trigger] seeded.cell(r, c) == Point::Empty,
    ensures
        forall|i: int|
            0 <= i < points.len() ==> heights.cell((#[trigger] points[i]).row as int, points[i].col as int)
                == points[i].height,
        forall|r: int, c: int|
            heights.in_bounds(r, c) ==> config.min_height <= #[trigger] heights.cell(r, c) <= config.max_height,
{
    assert forall|i: int| 0 <= i < points.len() implies heights.cell((#[trigger] points[i]).row as int, points[i].col as int)
        == points[i].height by {
        let p = points[i];
        assert(seeded.cell(p.row as int, p.col as int) == Point::Fixed(p.height));
        assert(grid.cell(p.row as int, p.col as int) == seeded.cell(p.row as int, p.col as int));
    }
    assert forall|r: int, c: int|
        heights.in_bounds(r, c) implies config.min_height <= #[trigger] heights.cell(r, c)
            <= config.max_height by {
        if guide_at(points, r, c) {
            let i = choose|i: int| 0 <= i < points.len() && (#[trigger] points[i]).row == r && points[i].col == c;
            let p = points[i];
            assert(seeded.cell(r, c) == Point::Fixed(p.height));
            let na = layout.anchors@.len() as int;
            let nh = layout.high@.len() as int;
            if i >= na + nh {
                assert(p == layout.low@[i - na - nh]);
            } else if i >= na {
                assert(p == layout.high@[i - na]);
            }
        } else {
            assert(seeded.cell(r, c) == Point::Empty);
            assert(grid.cell(r, c) != Point::Empty);
        }
    }
}

/// Runs the engine under the margin envelope, which never fails.
fn run_engine<S: Sampler>(
    grid: &mut Grid<Point>,
    levels: u32,
    config: &Config,
    layout: &Layout,
    params: &Displacement,
    sampler: &mut S,
) -> (res: Result<(), TerrainError>)
    requires
        old(grid).wf(),
        levels <= crate::config::MAX_LEVELS,
        old(grid).nrows() == pow2(levels as nat) + 1,
        old(grid).ncols() == old(grid).nrows(),
        old(grid).cell(0, 0) != Point::Empty,
        old(grid).cell(0, pow2(levels as nat) as int) != Point::Empty,
        old(grid).cell(pow2(levels as nat) as int, 0) != Point::Empty,
        old(grid).cell(pow2(levels as nat) as int, pow2(levels as nat) as int) != Point::Empty,
        layout.envelope.wf(),
        params.wf(),
        crate::layout::guides_fit(layout.envelope.horizontal().points(), pow2(levels as nat) as int, config.margin_height as int, config.min_height as int, config.max_height as int),
        crate::layout::guides_fit(layout.envelope.vertical().points(), pow2(levels as nat) as int, config.margin_height as int, config.min_height as int, config.max_height as int),
    ensures
        same_shape(*old(grid), *final(grid)),
        respects(*old(grid), *final(grid), layout.envelope, params.min_height as int, params.max_height as int),
        res is Ok ==> all_set(*final(grid)),
        res is Ok ==> forall|r: int, c: int|
            old(grid).in_bounds(r, c) && #[trigger] old(grid).cell(r, c) == Point::Empty ==> crate::displace::settled(
                *final(grid),
                layout.envelope,
                *params,
                r,
                c,
            ),
        res matches Err(e) ==> e is Sample,
        forall|fh: int|
            #[trigger] flat_run(*old(grid), layout.envelope, *params, fh) ==> res is Ok && forall|r: int, c: int|
                final(grid).in_bounds(r, c) ==> #[trigger] final(grid).cell(r, c) != Point::Empty
                    && point_height(final(grid).cell(r, c)) == fh,
{
    let filled = diamond_square(grid, levels, &layout.envelope, params, sampler);
    proof {
        if filled matches Err(TerrainError::Envelope(_)) {
            let (r, c) = choose|r: int, c: int| grid.in_bounds(r, c) && #[trigger] crate::displace::env_fails(layout.envelope, r, c);
            lemma_margin_envelope(layout.envelope, pow2(levels as nat) as int, config.margin_height as int, config.min_height as int, config.max_height as int, r, c);
        }
    }
    filled
}

/// Cells that the engine filled keep, in the height grid, the slope bound of their level.
proof fn lemma_level_fill(
    seeded: Grid<Point>,
    grid: Grid<Point>,
    heights: Grid<i32>,
    env: crate::envelope::ThreeDEnvelope,
    params: Displacement,
    points: Seq<GuidePoint>,
)
    requires
        same_shape(seeded, grid),
        heights.nrows() == grid.nrows(),
        heights.ncols() == grid.ncols(),
        forall|r: int, c: int| heights.in_bounds(r, c) ==> #[trigger] heights.cell(r, c) == height_of(grid.cell(r, c)),
        forall|r: int, c: int|
            seeded.in_bounds(r, c) && #[trigger] seeded.cell(r, c) == Point::Empty ==> crate::displace::settled(
                grid,
                env,
                params,
                r,
                c,
            ),
        forall|r: int, c: int| seeded.in_bounds(r, c) && !guide_at(points, r, c) ==> #[trigger] seeded.cell(r, c) == Point::Empty,
    ensures
        forall|r: int, c: int|
            heights.in_bounds(r, c) && !guide_at(points, r, c) ==> #[trigger] level_fill(
                heights,
                r,
                c,
                params.max_slope as int,
            ),
{
    assert forall|r: int, c: int|
        heights.in_bounds(r, c) && !guide_at(points, r, c) implies #[trigger] level_fill(
        heights,
        r,
        c,
        params.max_slope as int,
    ) by {
        assert(seeded.cell(r, c) == Point::Empty);
        let h = choose|h: int| crate::displace::settled_at(grid, env, params, r, c, h);
        assert forall|k: int| 0 <= k < 4 implies near_nbr(heights, r, c, h, params.max_slope as int, k) by {
            let (nr, nc) = nbr(r, c, h, k);
            if heights.in_bounds(nr, nc) {
                crate::displace::lemma_settled_near(grid, env, params, r, c, h, k);
                assert(heights.cell(nr, nc) == height_of(grid.cell(nr, nc)));
                assert(heights.cell(r, c) == height_of(grid.cell(r, c)));
            }
        }
        assert(near_nbr(heights, r, c, h, params.max_slope as int, 0));
        assert(near_nbr(heights, r, c, h, params.max_slope as int, 1));
        assert(near_nbr(heights, r, c, h, params.max_slope as int, 2));
        assert(near_nbr(heights, r, c, h, params.max_slope as int, 3));
    }
}

fn fill_layout<S: Sampler>(config: &Config, levels: u32, layout: Layout, sampler: &mut S) -> (r: Result<
    Elevations,
    TerrainError,
>)
    requires
        config_error(*config) is None,
        levels <= crate::config::MAX_LEVELS,
        config.size.0 == pow2(levels as nat) + 1,
        layout_ok(layout, *config),
    ensures
        r matches Ok(e) ==> generated(*config, e),
        r matches Err(e) ==> e is Sample,
        nothing_random(*config) ==> (r matches Ok(e) && flat_at(e, config.margin_height as int)),
{
    proof {
        crate::config::lemma_pow2_monotone(0, levels as nat);
        crate::config::lemma_pow2_monotone(levels as nat, crate::config::MAX_LEVELS as nat);
        crate::config::lemma_pow2_max_levels();
    }
    let n = config.size.0;
    let l = n - 1;
    let points = layout.all_points();
    proof {
        assert forall|i: int| 0 <= i < layout.high@.len() implies crate::layout::in_interior(
            #[trigger] layout.high@[i],
            l as int,
            config.margin_width as int,
        ) by {}
        assert forall|i: int| 0 <= i < layout.low@.len() implies crate::layout::in_interior(
            #[trigger] layout.low@[i],
            l as int,
            config.margin_width as int,
        ) by {}
        lemma_layout_distinct(layout, l, config.margin_width, config.margin_height);
        assert forall|i: int| 0 <= i < points@.len() implies (#[trigger] points@[i]).row < n
            && points@[i].col < n by {
            let na = layout.anchors@.len() as int;
            let nh = layout.high@.len() as int;
            if i >= na + nh {
                assert(points@[i] == layout.low@[i - na - nh]);
            } else if i >= na {
                assert(points@[i] == layout.high@[i - na]);
            }
        }
    }
    let mut grid = fixed_grid(n, &points);
    proof {
        assert(points@[0] == layout.anchors@[0]);
        assert(points@[1] == layout.anchors@[1]);
        assert(points@[2] == layout.anchors@[2]);
        assert(points@[3] == layout.anchors@[3]);
    }
    let params = Displacement {
        min_height: config.min_height,
        max_height: config.max_height,
        max_slope: config.max_slope,
        roughness: config.roughness,
        gravity: config.gravity,
    };
    let ghost seeded = grid;
    proof {
        if nothing_random(*config) {
            let mh = config.margin_height as int;
            assert(points@.len() == 4);
            assert forall|r: int, c: int| grid.in_bounds(r, c) implies {
                &&& crate::envelope::covers(layout.envelope.horizontal().points(), c)
                &&& crate::envelope::covers(layout.envelope.vertical().points(), r)
                &&& crate::displace::env_band(layout.envelope, r, c).0 <= mh <= crate::displace::env_band(layout.envelope, r, c).1
                &&& (#[trigger] grid.cell(r, c) != Point::Empty ==> point_height(grid.cell(r, c)) == mh)
            } by {
                lemma_margin_envelope(layout.envelope, l as int, mh, config.min_height as int, config.max_height as int, r, c);
                if grid.cell(r, c) != Point::Empty {
                    assert(guide_at(points@, r, c));
                    let i = choose|i: int| 0 <= i < points@.len() && (#[trigger] points@[i]).row == r && points@[i].col == c;
                    assert(points@[i] == layout.anchors@[i]);
                }
            }
            assert(flat_run(grid, layout.envelope, params, mh));
        }
    }
    let filled = run_engine(&mut grid, levels, config, &layout, &params, sampler);
    match filled {
        Ok(()) => {},
        Err(e) => {
            return Err(e);
        },
    }
    let heights = heights_of(&grid);
    proof {
        lemma_guide_heights(*config, layout, points@, seeded, grid, heights, params);
        lemma_level_fill(seeded, grid, heights, layout.envelope, params, points@);
    }
    proof {
        if nothing_random(*config) {
            assert(flat_run(seeded, layout.envelope, params, config.margin_height as int));
            assert forall|r: int, c: int| heights.in_bounds(r, c) implies #[trigger] heights.cell(r, c)
                == config.margin_height by {
                assert(grid.in_bounds(r, c));
            }
        }
    }
    let e = Elevations { grid: heights, min: config.min_height, max: config.max_height, guides: points };
    proof {
        assert forall|r: int, c: int|
            e.grid.in_bounds(r, c) && !guide_at(e.guides@, r, c) implies #[trigger] level_fill(
                e.grid,
                r,
                c,
                config.max_slope as int,
            ) by {
            assert(heights.in_bounds(r, c) && !guide_at(points@, r, c));
            assert(level_fill(heights, r, c, params.max_slope as int));
        }
    }
    Ok(e)
}

} // verus!
