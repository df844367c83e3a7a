//! Slope envelopes: the admissible elevation band at each location.
use vstd::prelude::*;

verus! {

/// Why an envelope could not be built or queried.
#[derive(Debug, Clone, Copy, PartialEq, Eq, Structural)]
pub enum EnvelopeError {
    /// Fewer than two guide points.
    TooFewPoints,
    /// A guide point's own band has `min > max`.
    InvertedBand,
    /// Two guide points share a location.
    DuplicateLocation,
    /// Two guide points are too close for the slope: one's minimum, lowered by
    /// their distance times the slope, still lies above the other's maximum.
    TooSteep,
    /// The queried location lies before the first or after the last guide point.
    OutOfRange,
    /// The horizontal and vertical bands do not overlap at the queried cell.
    EmptyIntersection,
}

/// A guide point of an axis envelope: its location and its `(min, max)` band.
pub type AxisPoint = (usize, (i32, i32));

pub open spec fn loc(p: AxisPoint) -> int {
    p.0 as int
}

pub open spec fn band_min(p: AxisPoint) -> int {
    p.1.0 as int
}

pub open spec fn band_max(p: AxisPoint) -> int {
    p.1.1 as int
}

pub open spec fn min_int(a: int, b: int) -> int {
    if a <= b {
        a
    } else {
        b
    }
}

pub open spec fn max_int(a: int, b: int) -> int {
    if a >= b {
        a
    } else {
        b
    }
}

/// Locations strictly increase along the sequence.
pub open spec fn strictly_sorted(g: Seq<AxisPoint>) -> bool {
    forall|i: int, j: int| 0 <= i < j < g.len() ==> loc(#[trigger] g[i]) < loc(#[trigger] g[j])
}

/// Guide points ordered by strictly increasing location, each with `min <= max`.
pub open spec fn guides_wf(g: Seq<AxisPoint>) -> bool {
    &&& g.len() >= 2
    &&& strictly_sorted(g)
    &&& forall|i: int| 0 <= i < g.len() ==> band_min(#[trigger] g[i]) <= band_max(g[i])
}

/// Whether `x` lies between the first and the last guide point.
pub open spec fn covers(g: Seq<AxisPoint>, x: int) -> bool {
    g.len() >= 2 && loc(g[0]) <= x <= loc(g.last())
}

/// Index of the segment `[g[i], g[i+1]]` that holds `x`, searching from `i`.
pub open spec fn seg_index(g: Seq<AxisPoint>, x: int, i: int) -> int
    decreases g.len() - i,
{
    if i + 2 >= g.len() || x <= loc(g[i + 1]) {
        i
    } else {
        seg_index(g, x, i + 1)
    }
}

/// Whether `x` is at least as close to `a` as to `b`.
pub open spec fn nearer_first(a: AxisPoint, b: AxisPoint, x: int) -> bool {
    x - loc(a) <= loc(b) - x
}

/// Band at `x` inside the segment `[a, b]`: extrapolated from the nearer guide
/// point by `distance * slope`, then intersected with the hull of both bands.
pub open spec fn band_between(a: AxisPoint, b: AxisPoint, x: int, slope: int) -> (int, int) {
    let near = if nearer_first(a, b, x) {
        a
    } else {
        b
    };
    let d = min_int(x - loc(a), loc(b) - x);
    let hull_lo = min_int(band_min(a), band_min(b));
    let hull_hi = max_int(band_max(a), band_max(b));
    (max_int(band_min(near) - d * slope, hull_lo), min_int(band_max(near) + d * slope, hull_hi))
}

/// The band of the envelope `g` at a covered location `x`.
pub open spec fn band_at(g: Seq<AxisPoint>, slope: int, x: int) -> (int, int) {
    let i = seg_index(g, x, 0);
    band_between(g[i], g[i + 1], x, slope)
}

/// Whether the input holds a guide point whose band is inverted.
pub open spec fn has_inverted(p: Seq<AxisPoint>) -> bool {
    exists|i: int| 0 <= i < p.len() && band_min(#[trigger] p[i]) > band_max(p[i])
}

/// Whether two guide points of the input share a location.
pub open spec fn has_duplicate(p: Seq<AxisPoint>) -> bool {
    exists|i: int, j: int| 0 <= i < j < p.len() && loc(#[trigger] p[i]) == loc(#[trigger] p[j])
}

/// Distance between two guide points.
pub open spec fn gap(a: AxisPoint, b: AxisPoint) -> int {
    if loc(a) <= loc(b) {
        loc(b) - loc(a)
    } else {
        loc(a) - loc(b)
    }
}

/// Whether two guide points of `p` cannot be joined within `slope`.
pub open spec fn has_steep(p: Seq<AxisPoint>, slope: int) -> bool {
    exists|i: int, j: int|
        0 <= i < p.len() && 0 <= j < p.len() && band_min(#[trigger] p[i]) - gap(p[i], p[j]) * slope
            > band_max(#[trigger] p[j])
}

/// The error that building an envelope from `p` meets first, if any.
pub open spec fn build_error(p: Seq<AxisPoint>, slope: int) -> Option<EnvelopeError> {
    if p.len() < 2 {
        Some(EnvelopeError::TooFewPoints)
    } else if has_inverted(p) {
        Some(EnvelopeError::InvertedBand)
    } else if has_duplicate(p) {
        Some(EnvelopeError::DuplicateLocation)
    } else if has_steep(p, slope) {
        Some(EnvelopeError::TooSteep)
    } else {
        None
    }
}

/// Whether two guide points of `points` cannot be joined within `max_slope`.
fn steep_pair(points: &Vec<AxisPoint>, max_slope: u32) -> (r: bool)
    ensures
        r == has_steep(points@, max_slope as int),
{
    let n = points.len();
    let s = max_slope as i128;
    let mut i: usize = 0;
    while i < n
        invariant
            n == points@.len(),
            s == max_slope,
            i <= n,
            forall|a: int, b: int|
                0 <= a < i && 0 <= b < n ==> !(band_min(#[trigger] points@[a]) - gap(points@[a], points@[b])
                    * (max_slope as int) > band_max(#[trigger] points@[b])),
        decreases n - i,
    {
        let mut j: usize = 0;
        while j < n
            invariant
                n == points@.len(),
                s == max_slope,
                i < n,
                j <= n,
                forall|a: int, b: int|
                    0 <= a < i && 0 <= b < n ==> !(band_min(#[trigger] points@[a]) - gap(points@[a], points@[b])
                        * (max_slope as int) > band_max(#[trigger] points@[b])),
                forall|b: int|
                    0 <= b < j ==> !(band_min(points@[i as int]) - gap(points@[i as int], #[trigger] points@[b])
                        * (max_slope as int) > band_max(points@[b])),
            decreases n - j,
        {
            let (la, (mina, _)) = points[i];
            let (lb, (_, maxb)) = points[j];
            let d: i128 = if la <= lb {
                (lb - la) as i128
            } else {
                (la - lb) as i128
            };
            proof {
                assert(0 <= (d as int) * (max_slope as int) <= 0x1_0000_0000_0000_0000_0000_0000)
                    by (nonlinear_arith)
                    requires
                        0 <= d <= usize::MAX,
                        0 <= max_slope <= u32::MAX,
                ;
            }
            if mina as i128 - d * s > maxb as i128 {
                proof {
                    assert(band_min(points@[i as int]) - gap(points@[i as int], points@[j as int]) * (max_slope as int)
                        > band_max(points@[j as int]));
                }
                return true;
            }
            j = j + 1;
        }
        i = i + 1;
    }
    false
}

/// `a` and `b` hold the same elements, each once.
pub open spec fn same_points(a: Seq<AxisPoint>, b: Seq<AxisPoint>) -> bool {
    &&& a.len() == b.len()
    &&& forall|i: int| 0 <= i < a.len() ==> b.contains(#[trigger] a[i])
    &&& forall|i: int| 0 <= i < b.len() ==> a.contains(#[trigger] b[i])
}

proof fn lemma_prefix_push(s: Seq<AxisPoint>, j: int)
    requires
        0 <= j < s.len(),
    ensures
        forall|q: AxisPoint|
            s.subrange(0, j + 1).contains(q) <==> (s.subrange(0, j).contains(q) || q == s[j]),
{
    assert(s.subrange(0, j + 1) =~= s.subrange(0, j).push(s[j]));
    assert forall|q: AxisPoint|
        s.subrange(0, j + 1).contains(q) <==> (s.subrange(0, j).contains(q) || q == s[j]) by {
        let pre = s.subrange(0, j + 1);
        let short = s.subrange(0, j);
        if pre.contains(q) {
            let a = choose|a: int| 0 <= a < pre.len() && pre[a] == q;
            if a < j {
                assert(short[a] == q);
            }
        }
        if short.contains(q) {
            let a = choose|a: int| 0 <= a < short.len() && short[a] == q;
            assert(pre[a] == q);
        }
        if q == s[j] {
            assert(pre[j] == q);
        }
    }
}

/// Inserts `p` at its place in a strictly sorted sequence; refuses a location already present.
fn insert_point(sorted: &mut Vec<AxisPoint>, p: AxisPoint) -> (ok: bool)
    requires
        strictly_sorted(old(sorted)@),
    ensures
        ok <==> !(exists|m: int| 0 <= m < old(sorted)@.len() && loc(#[trigger] old(sorted)@[m]) == loc(p)),
        !ok ==> final(sorted)@ == old(sorted)@,
        ok ==> final(sorted)@.len() == old(sorted)@.len() + 1,
        ok ==> strictly_sorted(final(sorted)@),
        ok ==> forall|q: AxisPoint| final(sorted)@.contains(q) <==> (old(sorted)@.contains(q) || q == p),
{
    let mut k: usize = 0;
    while k < sorted.len() && sorted[k].0 < p.0
        invariant
            k <= sorted@.len(),
            forall|m: int| 0 <= m < k ==> loc(#[trigger] sorted@[m]) < loc(p),
        decreases sorted@.len() - k,
    {
        k = k + 1;
    }
    if k < sorted.len() && sorted[k].0 == p.0 {
        return false;
    }
    let ghost old_sorted = sorted@;
    proof {
        assert forall|m: int| k <= m < old_sorted.len() implies loc(p) < loc(#[trigger] old_sorted[m]) by {
            if m > k {
                assert(loc(old_sorted[k as int]) < loc(old_sorted[m]));
            }
        }
        assert forall|m: int| 0 <= m < old_sorted.len() implies loc(#[trigger] old_sorted[m]) != loc(p) by {
            if m >= k {
                assert(loc(p) < loc(old_sorted[m]));
            }
        }
    }
    sorted.insert(k, p);
    proof {
        old_sorted.insert_ensures(k as int, p);
        let ins = sorted@;
        assert forall|a: int, b: int| 0 <= a < b < ins.len() implies loc(#[trigger] ins[a]) < loc(
            #[trigger] ins[b],
        ) by {
            if a < k && b < k {
                assert(ins[a] == old_sorted[a] && ins[b] == old_sorted[b]);
            } else if a < k && b == k {
                assert(ins[a] == old_sorted[a]);
            } else if a < k {
                assert(ins[a] == old_sorted[a] && ins[b] == old_sorted[b - 1]);
            } else if a == k {
                assert(ins[b] == old_sorted[b - 1]);
            } else {
                assert(ins[a] == old_sorted[a - 1] && ins[b] == old_sorted[b - 1]);
            }
        }
        assert forall|q: AxisPoint| ins.contains(q) <==> (old_sorted.contains(q) || q == p) by {
            if ins.contains(q) {
                let m = choose|m: int| 0 <= m < ins.len() && ins[m] == q;
                if m < k {
                    assert(old_sorted[m] == q);
                } else if m > k {
                    assert(old_sorted[m - 1] == q);
                }
            }
            if old_sorted.contains(q) {
                let m = choose|m: int| 0 <= m < old_sorted.len() && old_sorted[m] == q;
                if m < k {
                    assert(ins[m] == q);
                } else {
                    assert(ins[m + 1] == q);
                }
            }
            if q == p {
                assert(ins[k as int] == q);
            }
        }
    }
    true
}

/// The segment found from `i` brackets `x`.
pub proof fn lemma_seg_index(g: Seq<AxisPoint>, x: int, i: int)
    requires
        guides_wf(g),
        covers(g, x),
        0 <= i,
        i + 1 < g.len(),
        loc(g[i]) <= x,
    ensures
        i <= seg_index(g, x, i),
        seg_index(g, x, i) + 1 < g.len(),
        loc(g[seg_index(g, x, i)]) <= x <= loc(g[seg_index(g, x, i) + 1]),
    decreases g.len() - i,
{
    if i + 2 >= g.len() || x <= loc(g[i + 1]) {
        assert(g.last() == g[g.len() - 1]);
    } else {
        lemma_seg_index(g, x, i + 1);
    }
}

/// A one-dimensional envelope along one axis of the grid.
#[derive(Debug, Clone)]
pub struct TwoDEnvelope {
    guidepoints: Vec<AxisPoint>,
    max_slope: u32,
}

impl TwoDEnvelope {
    /// The guide points, ordered by location.
    pub closed spec fn points(&self) -> Seq<AxisPoint> {
        self.guidepoints@
    }

    pub closed spec fn slope(&self) -> int {
        self.max_slope as int
    }

    pub open spec fn wf(&self) -> bool {
        guides_wf(self.points()) && self.slope() >= 0
    }

    /// Builds an envelope from guide points in any order.
    pub fn new(points: Vec<AxisPoint>, max_slope: u32) -> (r: Result<Self, EnvelopeError>)
        ensures
            build_error(points@, max_slope as int) matches Some(e) ==> r == Err::<Self, _>(e),
            build_error(points@, max_slope as int) is None ==> (r matches Ok(env) && env.wf() && env.slope()
                == max_slope && same_points(env.points(), points@)),
    {
        if points.len() < 2 {
            return Err(EnvelopeError::TooFewPoints);
        }
        let mut i: usize = 0;
        while i < points.len()
            invariant
                points@.len() >= 2,
                i <= points@.len(),
                forall|k: int| 0 <= k < i ==> band_min(#[trigger] points@[k]) <= band_max(points@[k]),
            decreases points@.len() - i,
        {
            if points[i].1.0 > points[i].1.1 {
                proof {
                    assert(band_min(points@[i as int]) > band_max(points@[i as int]));
                }
                return Err(EnvelopeError::InvertedBand);
            }
            i = i + 1;
        }
        let mut sorted: Vec<AxisPoint> = Vec::new();
        let mut j: usize = 0;
        while j < points.len()
            invariant
                points@.len() >= 2,
                j <= points@.len(),
                sorted@.len() == j,
                !has_inverted(points@),
                strictly_sorted(sorted@),
                forall|q: AxisPoint| sorted@.contains(q) <==> points@.subrange(0, j as int).contains(q),
                forall|a: int, b: int|
                    0 <= a < b < j ==> loc(#[trigger] points@[a]) != loc(#[trigger] points@[b]),
            decreases points@.len() - j,
        {
            let p = points[j];
            let ghost before = sorted@;
            proof {
                lemma_prefix_push(points@, j as int);
            }
            if !insert_point(&mut sorted, p) {
                proof {
                    let m = choose|m: int| 0 <= m < before.len() && loc(before[m]) == loc(p);
                    assert(before.contains(before[m]));
                    assert(points@.subrange(0, j as int).contains(before[m]));
                    let a = choose|a: int| 0 <= a < j && points@.subrange(0, j as int)[a] == before[m];
                    assert(loc(points@[a]) == loc(points@[j as int]));
                }
                return Err(EnvelopeError::DuplicateLocation);
            }
            proof {
                assert forall|a: int| 0 <= a < j implies loc(#[trigger] points@[a]) != loc(p) by {
                    assert(points@.subrange(0, j as int)[a] == points@[a]);
                    assert(points@.subrange(0, j as int).contains(points@[a]));
                    assert(before.contains(points@[a]));
                }
            }
            j = j + 1;
        }
        proof {
            assert(points@.subrange(0, points@.len() as int) =~= points@);
            assert forall|a: int| 0 <= a < sorted@.len() implies band_min(#[trigger] sorted@[a])
                <= band_max(sorted@[a]) by {
                assert(sorted@.contains(sorted@[a]));
                let k = choose|k: int| 0 <= k < points@.len() && points@[k] == sorted@[a];
            }
            assert forall|a: int| 0 <= a < points@.len() implies sorted@.contains(#[trigger] points@[a]) by {
                assert(points@.contains(points@[a]));
            }
            assert forall|a: int| 0 <= a < sorted@.len() implies points@.contains(#[trigger] sorted@[a]) by {
                assert(sorted@.contains(sorted@[a]));
            }
        }
        if steep_pair(&points, max_slope) {
            return Err(EnvelopeError::TooSteep);
        }
        Ok(TwoDEnvelope { guidepoints: sorted, max_slope })
    }

    /// The admissible `(min, max)` band at `point`.
    pub fn minmax_at_point(&self, point: usize) -> (r: Result<(i32, i32), EnvelopeError>)
        requires
            self.wf(),
        ensures
            !covers(self.points(), point as int) ==> r == Err::<(i32, i32), _>(EnvelopeError::OutOfRange),
            covers(self.points(), point as int) ==> (r matches Ok(b) && b.0 <= b.1 && (b.0 as int, b.1 as int)
                == band_at(self.points(), self.slope(), point as int)),
    {
        let g = &self.guidepoints;
        let n = g.len();
        if point < g[0].0 || point > g[n - 1].0 {
            return Err(EnvelopeError::OutOfRange);
        }
        let ghost x = point as int;
        proof {
            assert(g@.last() == g@[n - 1]);
            lemma_seg_index(g@, x, 0);
        }
        let mut i: usize = 0;
        while i + 2 < n && point > g[i + 1].0
            invariant
                guides_wf(g@),
                covers(g@, x),
                x == point,
                n == g@.len(),
                i + 1 < n,
                loc(g@[i as int]) <= x,
                seg_index(g@, x, 0) == seg_index(g@, x, i as int),
            decreases n - i,
        {
            i = i + 1;
        }
        proof {
            lemma_seg_index(g@, x, i as int);
        }
        let a = g[i];
        let b = g[i + 1];
        let da: usize = point - a.0;
        let db: usize = b.0 - point;
        let near = if da <= db {
            a
        } else {
            b
        };
        let d: usize = if da <= db {
            da
        } else {
            db
        };
        proof {
            assert(0 <= (d as int) * (self.max_slope as int) <= 0x1_0000_0000_0000_0000_0000_0000)
                by (nonlinear_arith)
                requires
                    0 <= d <= usize::MAX,
                    0 <= self.max_slope <= u32::MAX,
            ;
            assert(band_min(a) <= band_max(a));
            assert(band_min(b) <= band_max(b));
        }
        let ds: i128 = (d as i128) * (self.max_slope as i128);
        let hull_lo: i32 = if a.1.0 <= b.1.0 {
            a.1.0
        } else {
            b.1.0
        };
        let hull_hi: i32 = if a.1.1 >= b.1.1 {
            a.1.1
        } else {
            b.1.1
        };
        let lo_raw: i128 = near.1.0 as i128 - ds;
        let hi_raw: i128 = near.1.1 as i128 + ds;
        let lo: i32 = if lo_raw >= hull_lo as i128 {
            lo_raw as i32
        } else {
            hull_lo
        };
        let hi: i32 = if hi_raw <= hull_hi as i128 {
            hi_raw as i32
        } else {
            hull_hi
        };
        Ok((lo, hi))
    }
}

/// The band of a two-axis envelope at `(row, col)`: the intersection of the
/// horizontal band at `col` and the vertical band at `row`.
pub open spec fn cell_band(h: Seq<AxisPoint>, v: Seq<AxisPoint>, slope: int, row: int, col: int) -> (int, int) {
    let hb = band_at(h, slope, col);
    let vb = band_at(v, slope, row);
    (max_int(hb.0, vb.0), min_int(hb.1, vb.1))
}

/// The envelope of a grid: a horizontal envelope over columns and a vertical one over rows.
#[derive(Debug, Clone)]
pub struct ThreeDEnvelope {
    h_env: TwoDEnvelope,
    v_env: TwoDEnvelope,
}

impl ThreeDEnvelope {
    pub closed spec fn horizontal(&self) -> TwoDEnvelope {
        self.h_env
    }

    pub closed spec fn vertical(&self) -> TwoDEnvelope {
        self.v_env
    }

    pub open spec fn wf(&self) -> bool {
        self.horizontal().wf() && self.vertical().wf() && self.horizontal().slope()
            == self.vertical().slope()
    }

    /// Builds both axis envelopes; the horizontal one is checked first.
    pub fn new(hpoints: Vec<AxisPoint>, vpoints: Vec<AxisPoint>, max_slope: u32) -> (r: Result<
        Self,
        EnvelopeError,
    >)
        ensures
            build_error(hpoints@, max_slope as int) matches Some(e) ==> r == Err::<Self, _>(e),
            build_error(hpoints@, max_slope as int) is None ==> (build_error(vpoints@, max_slope as int) matches Some(e) ==> r == Err::<
                Self,
                _,
            >(e)),
            build_error(hpoints@, max_slope as int) is None && build_error(vpoints@, max_slope as int) is None ==> (r matches Ok(env)
                && env.wf() && env.horizontal().slope() == max_slope && same_points(
                env.horizontal().points(),
                hpoints@,
            ) && same_points(env.vertical().points(), vpoints@)),
    {
        let h_env = match TwoDEnvelope::new(hpoints, max_slope) {
            Ok(e) => e,
            Err(e) => {
                return Err(e);
            },
        };
        let v_env = match TwoDEnvelope::new(vpoints, max_slope) {
            Ok(e) => e,
            Err(e) => {
                return Err(e);
            },
        };
        Ok(ThreeDEnvelope { h_env, v_env })
    }

    /// The admissible `(min, max)` band at `(row, col)`.
    pub fn minmax_at_point(&self, point: (usize, usize)) -> (r: Result<(i32, i32), EnvelopeError>)
        requires
            self.wf(),
        ensures
            ({
                let (row, col) = point;
                let h = self.horizontal().points();
                let v = self.vertical().points();
                let b = cell_band(h, v, self.horizontal().slope(), row as int, col as int);
                &&& (!covers(h, col as int) || !covers(v, row as int)) ==> r == Err::<(i32, i32), _>(
                    EnvelopeError::OutOfRange,
                )
                &&& (covers(h, col as int) && covers(v, row as int) && b.0 > b.1) ==> r == Err::<
                    (i32, i32),
                    _,
                >(EnvelopeError::EmptyIntersection)
                &&& (covers(h, col as int) && covers(v, row as int) && b.0 <= b.1) ==> (r matches Ok(
                    rb,
                ) && rb.0 as int == b.0 && rb.1 as int == b.1)
            }),
    {
        let (row, col) = point;
        let (hmin, hmax) = match self.h_env.minmax_at_point(col) {
            Ok(b) => b,
            Err(e) => {
                return Err(e);
            },
        };
        let (vmin, vmax) = match self.v_env.minmax_at_point(row) {
            Ok(b) => b,
            Err(e) => {
                return Err(e);
            },
        };
        let min = if hmin >= vmin {
            hmin
        } else {
            vmin
        };
        let max = if hmax <= vmax {
            hmax
        } else {
            vmax
        };
        if min > max {
            return Err(EnvelopeError::EmptyIntersection);
        }
        Ok((min, max))
    }
}

/// A strictly sorted arrangement of a set of guide points is unique.
pub proof fn lemma_sorted_unique(a: Seq<AxisPoint>, b: Seq<AxisPoint>)
    requires
        strictly_sorted(a),
        strictly_sorted(b),
        same_points(a, b),
    ensures
        a == b,
{
    assert forall|i: int| 0 <= i < a.len() implies a[i] == b[i] by {
        lemma_sorted_prefix(a, b, i);
    }
    assert(a =~= b);
}

proof fn lemma_sorted_prefix(a: Seq<AxisPoint>, b: Seq<AxisPoint>, i: int)
    requires
        strictly_sorted(a),
        strictly_sorted(b),
        same_points(a, b),
        0 <= i < a.len(),
    ensures
        forall|k: int| 0 <= k <= i ==> a[k] == b[k],
    decreases i,
{
    if i > 0 {
        lemma_sorted_prefix(a, b, i - 1);
    }
    assert(b.contains(a[i]));
    let j = choose|j: int| 0 <= j < b.len() && b[j] == a[i];
    assert(a.contains(b[i]));
    let m = choose|m: int| 0 <= m < a.len() && a[m] == b[i];
    if j < i {
        assert(a[j] == b[j]);
        assert(loc(a[j]) < loc(a[i]));
    }
    if m < i {
        assert(a[m] == b[m]);
        assert(loc(b[m]) < loc(b[i]));
    }
    if j > i {
        assert(loc(b[i]) < loc(b[j]));
        if m > i {
            assert(loc(a[i]) < loc(a[m]));
        }
    }
}

/// When every guide band contains `m`, so does the band at every covered location.
pub proof fn lemma_band_contains(g: Seq<AxisPoint>, slope: int, x: int, m: int)
    requires
        guides_wf(g),
        covers(g, x),
        slope >= 0,
        forall|i: int| 0 <= i < g.len() ==> band_min(#[trigger] g[i]) <= m <= band_max(g[i]),
    ensures
        band_at(g, slope, x).0 <= m <= band_at(g, slope, x).1,
{
    lemma_seg_index(g, x, 0);
    let i = seg_index(g, x, 0);
    let a = g[i];
    let b = g[i + 1];
    let d = min_int(x - loc(a), loc(b) - x);
    assert(d * slope >= 0) by (nonlinear_arith)
        requires
            d >= 0,
            slope >= 0,
    ;
}

/// When every guide band lies in `[lo, hi]`, so does the band at every covered location.
pub proof fn lemma_band_within(g: Seq<AxisPoint>, slope: int, x: int, lo: int, hi: int)
    requires
        guides_wf(g),
        covers(g, x),
        forall|i: int| 0 <= i < g.len() ==> lo <= band_min(#[trigger] g[i]) && band_max(g[i]) <= hi,
    ensures
        lo <= band_at(g, slope, x).0,
        band_at(g, slope, x).1 <= hi,
{
    lemma_seg_index(g, x, 0);
    let i = seg_index(g, x, 0);
    assert(lo <= band_min(g[i]) && lo <= band_min(g[i + 1]));
    assert(band_max(g[i]) <= hi && band_max(g[i + 1]) <= hi);
}

/// Moving away from the nearer guide point of a segment never tightens the band:
/// its lower bound does not rise and its upper bound does not fall.
pub proof fn lemma_band_relaxes(env: &TwoDEnvelope, x1: int, x2: int)
    requires
        env.wf(),
        covers(env.points(), x1),
        covers(env.points(), x2),
        seg_index(env.points(), x1, 0) == seg_index(env.points(), x2, 0),
        ({
            let g = env.points();
            let i = seg_index(g, x1, 0);
            let a = g[i];
            let b = g[i + 1];
            &&& nearer_first(a, b, x1) == nearer_first(a, b, x2)
            &&& nearer_first(a, b, x1) ==> x1 <= x2
            &&& !nearer_first(a, b, x1) ==> x2 <= x1
        }),
    ensures
        band_at(env.points(), env.slope(), x2).0 <= band_at(env.points(), env.slope(), x1).0,
        band_at(env.points(), env.slope(), x1).1 <= band_at(env.points(), env.slope(), x2).1,
{
    let g = env.points();
    let s = env.slope();
    lemma_seg_index(g, x1, 0);
    lemma_seg_index(g, x2, 0);
    let i = seg_index(g, x1, 0);
    let a = g[i];
    let b = g[i + 1];
    let d1 = min_int(x1 - loc(a), loc(b) - x1);
    let d2 = min_int(x2 - loc(a), loc(b) - x2);
    assert(d1 <= d2);
    assert(d1 * s <= d2 * s) by (nonlinear_arith)
        requires
            d1 <= d2,
            0 <= s,
    ;
}

} // verus!
