//! Guide-point layout: randomly placed high and low targets, corner anchors,
//! and the margin envelope that bounds their heights.
use vstd::prelude::*;
use crate::config::{check_config, config_error, Config};
use crate::displace::env_band;
use crate::envelope::{
    band_max, band_min, build_error, lemma_band_contains, lemma_band_within, lemma_sorted_unique,
    loc, strictly_sorted, AxisPoint, ThreeDEnvelope,
};
use crate::error::{LayoutError, TerrainError};
use crate::sampling::SeededRng;

verus! {

/// Draws allowed per point before placement gives up.
pub const RANDOM_POINT_MAX_TRIES: usize = 10;

#[derive(Debug, Clone, Copy, PartialEq, Eq, Structural)]
pub enum PointKind {
    High,
    Low,
    Anchor,
}

/// A pre-placed target elevation.
#[derive(Debug, Clone, Copy, PartialEq, Eq, Structural)]
pub struct GuidePoint {
    pub row: usize,
    pub col: usize,
    pub height: i32,
    pub kind: PointKind,
}

/// The guide points of one run and the envelope they were placed under.
#[derive(Debug, Clone)]
pub struct Layout {
    pub high: Vec<GuidePoint>,
    pub low: Vec<GuidePoint>,
    pub anchors: Vec<GuidePoint>,
    pub envelope: ThreeDEnvelope,
}

pub open spec fn same_loc(a: GuidePoint, b: GuidePoint) -> bool {
    a.row == b.row && a.col == b.col
}

/// No two points share a location.
pub open spec fn locations_distinct(s: Seq<GuidePoint>) -> bool {
    forall|i: int, j: int| 0 <= i < j < s.len() ==> !same_loc(#[trigger] s[i], #[trigger] s[j])
}

/// No point of `a` shares a location with a point of `b`.
pub open spec fn locations_disjoint(a: Seq<GuidePoint>, b: Seq<GuidePoint>) -> bool {
    forall|i: int, j: int|
        0 <= i < a.len() && 0 <= j < b.len() ==> !same_loc(#[trigger] a[i], #[trigger] b[j])
}

/// First row (and column) of the region where guide points may go: the
/// margin, and never the boundary itself.
pub open spec fn inner_first(mw: int) -> int {
    if mw >= 1 {
        mw
    } else {
        1
    }
}

/// Number of cells where guide points may go on a grid whose last index is `l`.
pub open spec fn interior_count(l: int, mw: int) -> int {
    let side = l - 2 * inner_first(mw) + 1;
    if side > 0 {
        side * side
    } else {
        0
    }
}

pub open spec fn in_interior(p: GuidePoint, l: int, mw: int) -> bool {
    inner_first(mw) <= p.row <= l - inner_first(mw) && inner_first(mw) <= p.col <= l - inner_first(mw)
}

/// The margin envelope of one axis whose last index is `l`: pinned to `mh` at
/// both ends, free in `[gmin, gmax]` from `mw` cells inward.
pub open spec fn margin_axis(l: usize, mw: usize, mh: i32, gmin: i32, gmax: i32) -> Seq<AxisPoint> {
    if mw == 0 {
        seq![(0usize, (gmin, gmax)), (l, (gmin, gmax))]
    } else if 2 * mw == l {
        seq![(0usize, (mh, mh)), (mw, (gmin, gmax)), (l, (mh, mh))]
    } else {
        let inner_end = (l - mw) as usize;
        seq![(0usize, (mh, mh)), (mw, (gmin, gmax)), (inner_end, (gmin, gmax)), (l, (mh, mh))]
    }
}

/// An axis envelope spanning `[0, l]` whose every band contains `mh` and lies in `[gmin, gmax]`.
pub open spec fn guides_fit(g: Seq<AxisPoint>, l: int, mh: int, gmin: int, gmax: int) -> bool {
    &&& g.len() >= 2
    &&& loc(g[0]) == 0
    &&& loc(g.last()) == l
    &&& forall|i: int|
        0 <= i < g.len() ==> gmin <= band_min(#[trigger] g[i]) <= mh <= band_max(g[i]) <= gmax
}

/// Every point's height lies in `[lo, hi]`.
pub open spec fn heights_within(s: Seq<GuidePoint>, lo: int, hi: int) -> bool {
    forall|i: int| 0 <= i < s.len() ==> lo <= (#[trigger] s[i]).height <= hi
}

/// Points placed with `kind`, heights in `[hmin, hmax]` and in the envelope band.
pub open spec fn placed(
    s: Seq<GuidePoint>,
    kind: PointKind,
    hmin: int,
    hmax: int,
    env: ThreeDEnvelope,
    l: int,
    mw: int,
) -> bool {
    forall|i: int|
        0 <= i < s.len() ==> {
            let p = #[trigger] s[i];
            &&& p.kind == kind
            &&& in_interior(p, l, mw)
            &&& hmin <= p.height <= hmax
            &&& env_band(env, p.row as int, p.col as int).0 <= p.height <= env_band(
                env,
                p.row as int,
                p.col as int,
            ).1
        }
}

/// What a successful layout for `config` holds: the requested numbers of high
/// and low points at distinct interior locations, the two sets disjoint, each
/// height in its requested range, in the global range and in the envelope band;
/// the four corners at the margin height; and the margin envelope itself.
pub open spec fn layout_ok(lay: Layout, config: Config) -> bool {
    let l = (config.size.0 - 1) as usize;
    let mw = config.margin_width;
    let mh = config.margin_height;
    let gmin = config.min_height;
    let gmax = config.max_height;
    &&& lay.high@.len() == config.n_hi
    &&& lay.low@.len() == config.n_lo
    &&& locations_distinct(lay.high@)
    &&& locations_distinct(lay.low@)
    &&& locations_disjoint(lay.high@, lay.low@)
    &&& placed(lay.high@, PointKind::High, config.hi_min as int, config.hi_max as int, lay.envelope, l as int, mw as int)
    &&& placed(lay.low@, PointKind::Low, config.lo_min as int, config.lo_max as int, lay.envelope, l as int, mw as int)
    &&& heights_within(lay.high@, gmin as int, gmax as int)
    &&& heights_within(lay.low@, gmin as int, gmax as int)
    &&& lay.anchors@ == corner_anchors(l, mh)
    &&& lay.envelope.wf()
    &&& lay.envelope.horizontal().slope() == config.max_slope
    &&& lay.envelope.horizontal().points() == margin_axis(l, mw, mh, gmin, gmax)
    &&& lay.envelope.vertical().points() == margin_axis(l, mw, mh, gmin, gmax)
    &&& guides_fit(lay.envelope.horizontal().points(), l as int, mh as int, gmin as int, gmax as int)
    &&& guides_fit(lay.envelope.vertical().points(), l as int, mh as int, gmin as int, gmax as int)
}

/// The four corners of a grid whose last index is `l`, at height `mh`.
pub open spec fn corner_anchors(l: usize, mh: i32) -> Seq<GuidePoint> {
    seq![
        GuidePoint { row: 0, col: 0, height: mh, kind: PointKind::Anchor },
        GuidePoint { row: 0, col: l, height: mh, kind: PointKind::Anchor },
        GuidePoint { row: l, col: 0, height: mh, kind: PointKind::Anchor },
        GuidePoint { row: l, col: l, height: mh, kind: PointKind::Anchor },
    ]
}

/// Inside the margins the margin envelope leaves the whole global range open.
pub proof fn lemma_interior_band(l: usize, mw: usize, mh: i32, gmin: i32, gmax: i32, slope: int, x: int)
    requires
        l >= 1,
        2 * mw <= l,
        gmin <= mh <= gmax,
        slope >= 0,
        inner_first(mw as int) <= x <= l - inner_first(mw as int),
    ensures
        crate::envelope::band_at(margin_axis(l, mw, mh, gmin, gmax), slope, x) == (gmin as int, gmax as int),
{
    reveal_with_fuel(crate::envelope::seg_index, 3);
    let g = margin_axis(l, mw, mh, gmin, gmax);
    if mw == 0 {
        let d = crate::envelope::min_int(x - 0, l - x);
        assert(d * slope >= 0) by (nonlinear_arith)
            requires
                d >= 0,
                slope >= 0,
        ;
    } else if 2 * mw == l {
        assert(x == mw);
    } else if x == mw {
    } else {
        let d = crate::envelope::min_int(x - mw, (l - mw) - x);
        assert(d * slope >= 0) by (nonlinear_arith)
            requires
                d >= 0,
                slope >= 0,
        ;
    }
}

/// Builds the margin envelope of one axis (see `margin_axis`).
fn margin_guides(l: usize, mw: usize, mh: i32, gmin: i32, gmax: i32) -> (r: Vec<AxisPoint>)
    requires
        l >= 1,
        2 * mw <= l,
        gmin <= mh <= gmax,
    ensures
        r@ == margin_axis(l, mw, mh, gmin, gmax),
        forall|slope: int| slope >= 0 ==> #[trigger] build_error(r@, slope) is None,
        strictly_sorted(r@),
        guides_fit(r@, l as int, mh as int, gmin as int, gmax as int),
{
    let r = if mw == 0 {
        vec![(0usize, (gmin, gmax)), (l, (gmin, gmax))]
    } else if 2 * mw == l {
        vec![(0usize, (mh, mh)), (mw, (gmin, gmax)), (l, (mh, mh))]
    } else {
        let inner_end = l - mw;
        vec![(0usize, (mh, mh)), (mw, (gmin, gmax)), (inner_end, (gmin, gmax)), (l, (mh, mh))]
    };
    proof {
        assert(r@ =~= margin_axis(l, mw, mh, gmin, gmax));
        let g = r@;
        assert forall|i: int, j: int| 0 <= i < j < g.len() implies (#[trigger] g[i]).0 != (
        #[trigger] g[j]).0 by {}
        assert(!crate::envelope::has_duplicate(g));
        assert forall|i: int| 0 <= i < g.len() implies (#[trigger] g[i]).1.0 <= g[i].1.1 by {}
        assert(!crate::envelope::has_inverted(g));
        assert(g.last() == g[g.len() - 1]);
        assert forall|slope: int| slope >= 0 implies #[trigger] build_error(g, slope) is None by {
            assert forall|i: int, j: int| 0 <= i < g.len() && 0 <= j < g.len() implies !(band_min(#[trigger] g[i])
                - crate::envelope::gap(g[i], g[j]) * slope > band_max(#[trigger] g[j])) by {
                let d = crate::envelope::gap(g[i], g[j]);
                assert(d * slope >= 0) by (nonlinear_arith)
                    requires
                        d >= 0,
                        slope >= 0,
                ;
            }
        }
    }
    r
}

/// Whether some point of `points` sits at `(row, col)`.
fn location_taken(points: &Vec<GuidePoint>, row: usize, col: usize) -> (r: bool)
    ensures
        r <==> exists|i: int| 0 <= i < points@.len() && (#[trigger] points@[i]).row == row && points@[i].col == col,
{
    let mut i: usize = 0;
    while i < points.len()
        invariant
            i <= points@.len(),
            forall|k: int| 0 <= k < i ==> !((#[trigger] points@[k]).row == row && points@[k].col == col),
        decreases points@.len() - i,
    {
        if points[i].row == row && points[i].col == col {
            return true;
        }
        i = i + 1;
    }
    false
}

/// Whether no point of `a` or `b` sits at `loc`.
pub open spec fn free_loc(loc: (usize, usize), a: Seq<GuidePoint>, b: Seq<GuidePoint>) -> bool {
    &&& !(exists|k: int| 0 <= k < a.len() && (#[trigger] a[k]).row == loc.0 && a[k].col == loc.1)
    &&& !(exists|k: int| 0 <= k < b.len() && (#[trigger] b[k]).row == loc.0 && b[k].col == loc.1)
}

/// The first drawn candidate location that neither `a` nor `b` occupies;
/// `None` when every candidate collides, which ends placement with an error.
pub fn first_free(candidates: &Vec<(usize, usize)>, a: &Vec<GuidePoint>, b: &Vec<GuidePoint>) -> (r: Option<
    (usize, usize),
>)
    ensures
        r is None <==> forall|i: int| 0 <= i < candidates@.len() ==> !free_loc(#[trigger] candidates@[i], a@, b@),
        r matches Some(loc) ==> exists|i: int|
            0 <= i < candidates@.len() && #[trigger] candidates@[i] == loc && free_loc(loc, a@, b@) && forall|j: int|
                0 <= j < i ==> !free_loc(#[trigger] candidates@[j], a@, b@),
{
    let mut i: usize = 0;
    while i < candidates.len()
        invariant
            i <= candidates@.len(),
            forall|j: int| 0 <= j < i ==> !free_loc(#[trigger] candidates@[j], a@, b@),
        decreases candidates@.len() - i,
    {
        let (row, col) = candidates[i];
        if !location_taken(a, row, col) && !location_taken(b, row, col) {
            proof {
                assert(candidates@[i as int] == (row, col));
            }
            return Some((row, col));
        }
        i = i + 1;
    }
    None
}

/// Places `count` points of `kind` at free interior locations (free of each
/// other and of `others`), each with a height drawn from `[hmin, hmax]`
/// narrowed to the envelope band at its location.
fn place_points(
    kind: PointKind,
    count: usize,
    hmin: i32,
    hmax: i32,
    others: &Vec<GuidePoint>,
    env: &ThreeDEnvelope,
    l: usize,
    mw: usize,
    config: &Config,
    rng: &mut SeededRng,
) -> (r: Result<Vec<GuidePoint>, TerrainError>)
    requires
        env.wf(),
        1 <= l <= 0x4000_0000,
        count == 0 || interior_count(l as int, mw as int) >= 1,
        guides_fit(env.horizontal().points(), l as int, config.margin_height as int, config.min_height as int, config.max_height as int),
        guides_fit(env.vertical().points(), l as int, config.margin_height as int, config.min_height as int, config.max_height as int),
        env.horizontal().points() == margin_axis(l, mw, config.margin_height, config.min_height, config.max_height),
        env.vertical().points() == margin_axis(l, mw, config.margin_height, config.min_height, config.max_height),
        2 * mw <= l,
        config.min_height <= config.margin_height <= config.max_height,
        count > 0 ==> hmin <= hmax && hmax >= config.min_height && hmin <= config.max_height,
    ensures
        r matches Ok(v) ==> heights_within(v@, config.min_height as int, config.max_height as int),
        r matches Ok(v) ==> v@.len() == count && locations_distinct(v@) && locations_disjoint(
            v@,
            others@,
        ) && placed(v@, kind, hmin as int, hmax as int, *env, l as int, mw as int),
        r matches Err(e) ==> e == TerrainError::Layout(LayoutError::RetriesExceeded),
        count == 0 ==> r is Ok,
{
    let first: usize = if mw >= 1 {
        mw
    } else {
        1
    };
    let mut out: Vec<GuidePoint> = Vec::new();
    let mut i: usize = 0;
    while i < count
        invariant
            env.wf(),
            1 <= l <= 0x4000_0000,
            count == 0 || interior_count(l as int, mw as int) >= 1,
            guides_fit(env.horizontal().points(), l as int, config.margin_height as int, config.min_height as int, config.max_height as int),
            guides_fit(env.vertical().points(), l as int, config.margin_height as int, config.min_height as int, config.max_height as int),
            env.horizontal().points() == margin_axis(l, mw, config.margin_height, config.min_height, config.max_height),
            env.vertical().points() == margin_axis(l, mw, config.margin_height, config.min_height, config.max_height),
            2 * mw <= l,
            config.min_height <= config.margin_height <= config.max_height,
            count > 0 ==> hmin <= hmax && hmax >= config.min_height && hmin <= config.max_height,
            heights_within(out@, config.min_height as int, config.max_height as int),
            first == inner_first(mw as int),
            i <= count,
            out@.len() == i,
            locations_distinct(out@),
            locations_disjoint(out@, others@),
            placed(out@, kind, hmin as int, hmax as int, *env, l as int, mw as int),
        decreases count - i,
    {
        let mut candidates: Vec<(usize, usize)> = Vec::new();
        let mut tries: usize = 0;
        while tries < RANDOM_POINT_MAX_TRIES
            invariant
                first == inner_first(mw as int),
                first <= l - first,
                l <= 0x4000_0000,
                tries <= RANDOM_POINT_MAX_TRIES,
                candidates@.len() == tries,
                forall|k: int| 0 <= k < tries ==> first <= (#[trigger] candidates@[k]).0 <= l - first
                    && first <= candidates@[k].1 <= l - first,
            decreases RANDOM_POINT_MAX_TRIES - tries,
        {
            let row = rng.draw_between(first as i64, (l - first) as i64) as usize;
            let col = rng.draw_between(first as i64, (l - first) as i64) as usize;
            candidates.push((row, col));
            tries = tries + 1;
        }
        let found = first_free(&candidates, &out, others);
        let (row, col) = match found {
            Some(loc) => loc,
            None => {
                return Err(TerrainError::Layout(LayoutError::RetriesExceeded));
            },
        };
        proof {
            let h = env.horizontal().points();
            let v = env.vertical().points();
            let sl = env.horizontal().slope();
            let mh = config.margin_height as int;
            assert(h.last() == h[h.len() - 1]);
            assert(v.last() == v[v.len() - 1]);
            lemma_band_contains(h, sl, col as int, mh);
            lemma_band_contains(v, sl, row as int, mh);
            lemma_band_within(h, sl, col as int, config.min_height as int, config.max_height as int);
            lemma_band_within(v, sl, row as int, config.min_height as int, config.max_height as int);
            lemma_interior_band(l, mw, config.margin_height, config.min_height, config.max_height, sl, col as int);
            lemma_interior_band(l, mw, config.margin_height, config.min_height, config.max_height, sl, row as int);
        }
        let band = match env.minmax_at_point((row, col)) {
            Ok(b) => b,
            Err(e) => {
                return Err(TerrainError::Envelope(e));
            },
        };
        let lo: i32 = if band.0 >= hmin {
            band.0
        } else {
            hmin
        };
        let hi: i32 = if band.1 <= hmax {
            band.1
        } else {
            hmax
        };
        let height = rng.draw_between(lo as i64, hi as i64) as i32;
        let p = GuidePoint { row, col, height, kind };
        let ghost before = out@;
        out.push(p);
        proof {
            assert forall|a: int, b: int| 0 <= a < b < out@.len() implies !same_loc(
                #[trigger] out@[a],
                #[trigger] out@[b],
            ) by {
                if b == i {
                    assert(out@[a] == before[a]);
                } else {
                    assert(out@[a] == before[a] && out@[b] == before[b]);
                }
            }
            assert forall|a: int, b: int| 0 <= a < out@.len() && 0 <= b < others@.len() implies !same_loc(
                #[trigger] out@[a],
                #[trigger] others@[b],
            ) by {
                if a < i {
                    assert(out@[a] == before[a]);
                }
            }
            assert forall|a: int| 0 <= a < out@.len() implies config.min_height <= (#[trigger] out@[a]).height
                <= config.max_height by {
                if a < i {
                    assert(out@[a] == before[a]);
                }
            }
            assert forall|a: int| 0 <= a < out@.len() implies {
                let q = #[trigger] out@[a];
                &&& q.kind == kind
                &&& in_interior(q, l as int, mw as int)
                &&& hmin <= q.height <= hmax
                &&& env_band(*env, q.row as int, q.col as int).0 <= q.height <= env_band(
                    *env,
                    q.row as int,
                    q.col as int,
                ).1
            } by {
                if a < i {
                    assert(out@[a] == before[a]);
                }
            }
        }
        i = i + 1;
    }
    Ok(out)
}

/// Lays out the guide points of a run: `n_hi` high points with heights in
/// `[hi_min, hi_max]`, `n_lo` low points with heights in `[lo_min, lo_max]`,
/// all at distinct interior locations, and the four corners at the margin height.
pub fn goal_points(config: &Config, rng: &mut SeededRng) -> (r: Result<Layout, TerrainError>)
    ensures
        config_error(*config) matches Some(e) ==> r == Err::<Layout, _>(TerrainError::Config(e)),
        config_error(*config) is None && config.n_hi + config.n_lo > interior_count(
            config.size.0 - 1,
            config.margin_width as int,
        ) ==> r == Err::<Layout, _>(TerrainError::Layout(LayoutError::TooManyPoints)),
        r matches Ok(lay) ==> config_error(*config) is None && layout_ok(lay, *config),
        r matches Err(e) ==> (e is Config || e == TerrainError::Layout(LayoutError::TooManyPoints) || e
            == TerrainError::Layout(LayoutError::RetriesExceeded)),
        r matches Err(e) && e is Config ==> config_error(*config) is Some,
        config_error(*config) is None && config.n_hi == 0 && config.n_lo == 0 ==> r is Ok,
        r == Err::<Layout, _>(TerrainError::Layout(LayoutError::TooManyPoints)) ==> config.n_hi + config.n_lo > interior_count(
            config.size.0 - 1,
            config.margin_width as int,
        ),
{
    let levels = match check_config(config) {
        Ok(k) => k,
        Err(e) => {
            return Err(TerrainError::Config(e));
        },
    };
    proof {
        crate::config::lemma_pow2_monotone(0, levels as nat);
        crate::config::lemma_pow2_monotone(levels as nat, crate::config::MAX_LEVELS as nat);
        crate::config::lemma_pow2_max_levels();
    }
    let l: usize = config.size.0 - 1;
    let mw = config.margin_width;
    let first: usize = if mw >= 1 {
        mw
    } else {
        1
    };
    let count: u128 = if l + 1 > 2 * first {
        let side = (l + 1 - 2 * first) as u128;
        proof {
            assert((side as int) * (side as int) <= 0x4000_0001 * 0x4000_0001) by (nonlinear_arith)
                requires
                    0 <= side <= 0x4000_0001,
            ;
        }
        side * side
    } else {
        0
    };
    if (config.n_hi as u128) + (config.n_lo as u128) > count {
        return Err(TerrainError::Layout(LayoutError::TooManyPoints));
    }
    let axis = margin_guides(l, mw, config.margin_height, config.min_height, config.max_height);
    let axis2 = margin_guides(l, mw, config.margin_height, config.min_height, config.max_height);
    let envelope = match ThreeDEnvelope::new(axis, axis2, config.max_slope) {
        Ok(e) => e,
        Err(e) => {
            return Err(TerrainError::Envelope(e));
        },
    };
    proof {
        lemma_sorted_unique(envelope.horizontal().points(), margin_axis(l, mw, config.margin_height, config.min_height, config.max_height));
        lemma_sorted_unique(envelope.vertical().points(), margin_axis(l, mw, config.margin_height, config.min_height, config.max_height));
    }
    let none: Vec<GuidePoint> = Vec::new();
    let high = match place_points(
        PointKind::High,
        config.n_hi,
        config.hi_min,
        config.hi_max,
        &none,
        &envelope,
        l,
        mw,
        config,
        rng,
    ) {
        Ok(v) => v,
        Err(e) => {
            return Err(e);
        },
    };
    let low = match place_points(
        PointKind::Low,
        config.n_lo,
        config.lo_min,
        config.lo_max,
        &high,
        &envelope,
        l,
        mw,
        config,
        rng,
    ) {
        Ok(v) => v,
        Err(e) => {
            return Err(e);
        },
    };
    let mh = config.margin_height;
    let anchors = vec![
        GuidePoint { row: 0, col: 0, height: mh, kind: PointKind::Anchor },
        GuidePoint { row: 0, col: l, height: mh, kind: PointKind::Anchor },
        GuidePoint { row: l, col: 0, height: mh, kind: PointKind::Anchor },
        GuidePoint { row: l, col: l, height: mh, kind: PointKind::Anchor },
    ];
    proof {
        assert(anchors@ =~= corner_anchors(l, mh));
        assert forall|i: int, j: int| 0 <= i < high@.len() && 0 <= j < low@.len() implies !same_loc(
            #[trigger] high@[i],
            #[trigger] low@[j],
        ) by {
            assert(!same_loc(low@[j], high@[i]));
        }
    }
    Ok(Layout { high, low, anchors, envelope })
}

} // verus!
