//! The diamond-square displacement engine.
use vstd::prelude::*;
use crate::config::{pow2, Gravity, MAX_LEVELS};
use crate::envelope::{cell_band, covers, min_int, ThreeDEnvelope};
use crate::error::{SampleError, TerrainError};
use crate::grid::Grid;
use crate::sampling::{
    legal_bounds,
    clamp_height, decayed_bias, gravitated_mode, legal_range, neighbor_average, scale_gravity,
    Sampler,
};

verus! {

/// A cell of the working grid.
#[derive(Debug, Clone, Copy, PartialEq, Eq, Structural)]
pub enum Point {
    /// Not assigned yet.
    Empty,
    /// Set before displacement starts (a corner, an anchor or a guide point).
    Fixed(i32),
    /// Assigned by the displacement engine.
    Computed(i32),
}

/// Bounds and shape parameters of a displacement run.
#[derive(Debug, Clone, Copy)]
pub struct Displacement {
    pub min_height: i32,
    pub max_height: i32,
    pub max_slope: u32,
    /// Per-level decay of the perturbation scale, in percent.
    pub roughness: u32,
    pub gravity: Option<Gravity>,
}

impl Displacement {
    pub open spec fn wf(&self) -> bool {
        &&& self.min_height <= self.max_height
        &&& self.roughness <= 100
        &&& (self.gravity matches Some(g) ==> g.strength <= 100)
    }
}

/// The envelope band at `(r, c)`.
pub open spec fn env_band(env: ThreeDEnvelope, r: int, c: int) -> (int, int) {
    cell_band(env.horizontal().points(), env.vertical().points(), env.horizontal().slope(), r, c)
}

/// Whether `after` only fills empty cells of `before`, each with a height inside
/// the global range and the envelope band.
pub open spec fn respects(
    before: Grid<Point>,
    after: Grid<Point>,
    env: ThreeDEnvelope,
    gmin: int,
    gmax: int,
) -> bool {
    forall|r: int, c: int|
        before.in_bounds(r, c) ==> {
            let b = before.cell(r, c);
            let a = #[trigger] after.cell(r, c);
            &&& b != Point::Empty ==> a == b
            &&& b == Point::Empty ==> (a == Point::Empty || (a matches Point::Computed(v) && gmin <= v
                <= gmax && env_band(env, r, c).0 <= v <= env_band(env, r, c).1))
        }
}

/// The height held by an assigned cell.
pub open spec fn point_height(p: Point) -> int {
    match p {
        Point::Empty => 0,
        Point::Fixed(v) => v as int,
        Point::Computed(v) => v as int,
    }
}

/// A run in which nothing is left to chance: the slope is zero, `h` lies in the
/// global range and in the envelope band of every cell, and every assigned
/// cell holds `h`.
pub open spec fn flat_run(g: Grid<Point>, env: ThreeDEnvelope, params: Displacement, h: int) -> bool {
    &&& params.max_slope == 0
    &&& params.min_height <= h <= params.max_height
    &&& forall|r: int, c: int|
        g.in_bounds(r, c) ==> {
            &&& covers(env.horizontal().points(), c)
            &&& covers(env.vertical().points(), r)
            &&& env_band(env, r, c).0 <= h <= env_band(env, r, c).1
            &&& (#[trigger] g.cell(r, c) != Point::Empty ==> point_height(g.cell(r, c)) == h)
        }
}

/// Whether `h` is a power of two.
pub open spec fn is_pow2(h: int) -> bool {
    exists|k: nat| h == pow2(k)
}

/// Whether `(r, c)` is filled at the level whose new points lie at distance `h`
/// from their neighbours: a diamond centre or a square-step cell of spacing `2h`.
pub open spec fn fill_class(r: int, c: int, h: int) -> bool {
    let d = 2 * h;
    &&& h >= 1
    &&& (diamond_cell(r, c, d, h) || (r % d == h && c % d == 0) || (r % d == 0 && c % d == h))
}

/// The `k`-th neighbour (`k < 4`) of `(r, c)` at distance `h`: the diagonal ones
/// for a diamond centre, the orthogonal ones otherwise.
pub open spec fn nbr(r: int, c: int, h: int, k: int) -> (int, int) {
    if diamond_cell(r, c, 2 * h, h) {
        if k == 0 {
            (r - h, c - h)
        } else if k == 1 {
            (r - h, c + h)
        } else if k == 2 {
            (r + h, c - h)
        } else {
            (r + h, c + h)
        }
    } else {
        if k == 0 {
            (r - h, c)
        } else if k == 1 {
            (r + h, c)
        } else if k == 2 {
            (r, c - h)
        } else {
            (r, c + h)
        }
    }
}

/// The height of the `k`-th neighbour, when it lies in the grid and is assigned.
pub open spec fn nbr_entry(g: Grid<Point>, r: int, c: int, h: int, k: int) -> Seq<i32> {
    let (nr, nc) = nbr(r, c, h, k);
    if g.in_bounds(nr, nc) && g.cell(nr, nc) != Point::Empty {
        seq![point_height(g.cell(nr, nc)) as i32]
    } else {
        seq![]
    }
}

/// The heights of the assigned neighbours of `(r, c)` at distance `h`, in order.
pub open spec fn nbr_heights(g: Grid<Point>, r: int, c: int, h: int) -> Seq<i32> {
    nbr_entry(g, r, c, h, 0) + nbr_entry(g, r, c, h, 1) + nbr_entry(g, r, c, h, 2) + nbr_entry(
        g,
        r,
        c,
        h,
        3,
    )
}

/// The `k`-th neighbour is outside the grid or assigned.
pub open spec fn nbr_ok(g: Grid<Point>, r: int, c: int, h: int, k: int) -> bool {
    let (nr, nc) = nbr(r, c, h, k);
    g.in_bounds(nr, nc) ==> g.cell(nr, nc) != Point::Empty
}

/// Every neighbour of `(r, c)` at distance `h` that lies in the grid is assigned.
pub open spec fn nbrs_set(g: Grid<Point>, r: int, c: int, h: int) -> bool {
    nbr_ok(g, r, c, h, 0) && nbr_ok(g, r, c, h, 1) && nbr_ok(g, r, c, h, 2) && nbr_ok(g, r, c, h, 3)
}

/// The legal range of `(r, c)` at distance `h` from its neighbours in `g`.
pub open spec fn level_bounds(
    g: Grid<Point>,
    env: ThreeDEnvelope,
    params: Displacement,
    r: int,
    c: int,
    h: int,
) -> (int, int) {
    legal_bounds(
        nbr_heights(g, r, c, h),
        h,
        params.max_slope as int,
        params.min_height as int,
        params.max_height as int,
        env_band(env, r, c),
    )
}

/// `(r, c)` was computed at distance `h`, all its neighbours there assigned,
/// and its height lies in the legal range they give.
pub open spec fn settled_at(g: Grid<Point>, env: ThreeDEnvelope, params: Displacement, r: int, c: int, h: int) -> bool {
    &&& is_pow2(h)
    &&& fill_class(r, c, h)
    &&& nbrs_set(g, r, c, h)
    &&& g.cell(r, c) matches Point::Computed(v) && level_bounds(g, env, params, r, c, h).0 <= v
        <= level_bounds(g, env, params, r, c, h).1
}

pub open spec fn settled(g: Grid<Point>, env: ThreeDEnvelope, params: Displacement, r: int, c: int) -> bool {
    exists|h: int| settled_at(g, env, params, r, c, h)
}

/// `(r, c)` is still empty although all its neighbours at distance `h` are
/// assigned, and the legal range they give is empty.
pub open spec fn stuck_at(g: Grid<Point>, env: ThreeDEnvelope, params: Displacement, r: int, c: int, h: int) -> bool {
    &&& is_pow2(h)
    &&& fill_class(r, c, h)
    &&& nbrs_set(g, r, c, h)
    &&& g.cell(r, c) == Point::Empty
    &&& level_bounds(g, env, params, r, c, h).0 > level_bounds(g, env, params, r, c, h).1
}

pub open spec fn stuck(g: Grid<Point>, env: ThreeDEnvelope, params: Displacement, r: int, c: int) -> bool {
    exists|h: int| stuck_at(g, env, params, r, c, h)
}

/// The envelope cannot give a band at `(r, c)`: a location lies outside an axis
/// envelope, or the two axis bands do not meet.
pub open spec fn env_fails(env: ThreeDEnvelope, r: int, c: int) -> bool {
    ||| !covers(env.horizontal().points(), c)
    ||| !covers(env.vertical().points(), r)
    ||| env_band(env, r, c).0 > env_band(env, r, c).1
}

/// Some cell of `g` is stuck.
pub open spec fn some_stuck(g: Grid<Point>, env: ThreeDEnvelope, params: Displacement) -> bool {
    exists|r: int, c: int| g.in_bounds(r, c) && #[trigger] stuck(g, env, params, r, c)
}

/// The envelope cannot give a band at some cell of `g`.
pub open spec fn some_env_fail(g: Grid<Point>, env: ThreeDEnvelope) -> bool {
    exists|r: int, c: int| g.in_bounds(r, c) && #[trigger] env_fails(env, r, c)
}

/// How the first cell of a pass, `(h, h)`, decides the pass before any draw:
/// when it is empty, an envelope that fails there ends the pass with an
/// envelope error, and otherwise an empty legal range ends it with a sample error.
pub open spec fn first_cell_decides(
    g: Grid<Point>,
    env: ThreeDEnvelope,
    params: Displacement,
    h: int,
    res: Result<(), TerrainError>,
) -> bool {
    g.cell(h, h) == Point::Empty ==> {
        &&& env_fails(env, h, h) ==> (res matches Err(TerrainError::Envelope(_)))
        &&& !env_fails(env, h, h) && level_bounds(g, env, params, h, h, h).0 > level_bounds(
            g,
            env,
            params,
            h,
            h,
            h,
        ).1 ==> res == Err::<(), _>(TerrainError::Sample(SampleError::InvertedRange))
    }
}

/// The first cell of a pass raised no error.
pub open spec fn first_cell_passed(g: Grid<Point>, env: ThreeDEnvelope, params: Displacement, h: int) -> bool {
    g.cell(h, h) == Point::Empty ==> !env_fails(env, h, h) && level_bounds(g, env, params, h, h, h).0
        <= level_bounds(g, env, params, h, h, h).1
}

/// Every cell that `g` filled beyond `orig` is settled.
pub open spec fn engine_ok(orig: Grid<Point>, g: Grid<Point>, env: ThreeDEnvelope, params: Displacement) -> bool {
    forall|r: int, c: int|
        orig.in_bounds(r, c) && orig.cell(r, c) == Point::Empty && #[trigger] g.cell(r, c) != Point::Empty
            ==> settled(g, env, params, r, c)
}

/// A cell that stays put keeps its settlement while its assigned neighbours stay put.
proof fn lemma_settled_kept(
    g1: Grid<Point>,
    g2: Grid<Point>,
    env: ThreeDEnvelope,
    params: Displacement,
    r: int,
    c: int,
)
    requires
        same_shape(g1, g2),
        g1.in_bounds(r, c),
        forall|rr: int, cc: int| g1.in_bounds(rr, cc) && g1.cell(rr, cc) != Point::Empty ==> #[trigger] g2.cell(rr, cc) == g1.cell(rr, cc),
        settled(g1, env, params, r, c),
    ensures
        settled(g2, env, params, r, c),
{
    let h = choose|h: int| settled_at(g1, env, params, r, c, h);
    assert(g2.cell(r, c) == g1.cell(r, c));
    assert(nbr_entry(g1, r, c, h, 0) == nbr_entry(g2, r, c, h, 0));
    assert(nbr_entry(g1, r, c, h, 1) == nbr_entry(g2, r, c, h, 1));
    assert(nbr_entry(g1, r, c, h, 2) == nbr_entry(g2, r, c, h, 2));
    assert(nbr_entry(g1, r, c, h, 3) == nbr_entry(g2, r, c, h, 3));
    assert(settled_at(g2, env, params, r, c, h));
}

/// Filling one cell `(r, c)`, settled, keeps every earlier filled cell settled.
proof fn lemma_engine_ok_step(
    orig: Grid<Point>,
    g1: Grid<Point>,
    g2: Grid<Point>,
    env: ThreeDEnvelope,
    params: Displacement,
    r: int,
    c: int,
)
    requires
        same_shape(orig, g1),
        same_shape(g1, g2),
        engine_ok(orig, g1, env, params),
        forall|rr: int, cc: int| g1.in_bounds(rr, cc) && (rr != r || cc != c) ==> #[trigger] g2.cell(rr, cc) == g1.cell(rr, cc),
        g1.cell(r, c) != Point::Empty ==> g2.cell(r, c) == g1.cell(r, c),
        g1.cell(r, c) == Point::Empty && g2.cell(r, c) != Point::Empty ==> settled(g2, env, params, r, c),
    ensures
        engine_ok(orig, g2, env, params),
{
    assert forall|rr: int, cc: int|
        orig.in_bounds(rr, cc) && orig.cell(rr, cc) == Point::Empty && #[trigger] g2.cell(rr, cc) != Point::Empty
            implies settled(g2, env, params, rr, cc) by {
        if g1.cell(rr, cc) != Point::Empty {
            assert(settled(g1, env, params, rr, cc));
            assert forall|a: int, b: int| g1.in_bounds(a, b) && g1.cell(a, b) != Point::Empty implies #[trigger] g2.cell(a, b) == g1.cell(a, b) by {}
            lemma_settled_kept(g1, g2, env, params, rr, cc);
        }
    }
}

proof fn lemma_engine_ok_trans(
    a: Grid<Point>,
    b: Grid<Point>,
    c: Grid<Point>,
    env: ThreeDEnvelope,
    params: Displacement,
)
    requires
        same_shape(a, b),
        same_shape(b, c),
        engine_ok(a, b, env, params),
        engine_ok(b, c, env, params),
        respects(b, c, env, params.min_height as int, params.max_height as int),
    ensures
        engine_ok(a, c, env, params),
{
    assert forall|r: int, col: int|
        a.in_bounds(r, col) && a.cell(r, col) == Point::Empty && #[trigger] c.cell(r, col) != Point::Empty
            implies settled(c, env, params, r, col) by {
        if b.cell(r, col) != Point::Empty {
            assert(settled(b, env, params, r, col));
            assert forall|x: int, y: int| b.in_bounds(x, y) && b.cell(x, y) != Point::Empty implies #[trigger] c.cell(x, y) == b.cell(x, y) by {}
            lemma_settled_kept(b, c, env, params, r, col);
        }
    }
}

/// A settled cell lies within `h * max_slope` of each of its neighbours at distance `h`.
pub proof fn lemma_settled_near(
    g: Grid<Point>,
    env: ThreeDEnvelope,
    params: Displacement,
    r: int,
    c: int,
    h: int,
    k: int,
)
    requires
        settled_at(g, env, params, r, c, h),
        0 <= k < 4,
        g.in_bounds(nbr(r, c, h, k).0, nbr(r, c, h, k).1),
    ensures
        -(h * params.max_slope) <= point_height(g.cell(r, c)) - point_height(
            g.cell(nbr(r, c, h, k).0, nbr(r, c, h, k).1),
        ) <= h * params.max_slope,
{
    let s = nbr_heights(g, r, c, h);
    let e0 = nbr_entry(g, r, c, h, 0);
    let e1 = nbr_entry(g, r, c, h, 1);
    let e2 = nbr_entry(g, r, c, h, 2);
    let e3 = nbr_entry(g, r, c, h, 3);
    let x = point_height(g.cell(nbr(r, c, h, k).0, nbr(r, c, h, k).1)) as i32;
    let idx = if k == 0 {
        0
    } else if k == 1 {
        e0.len() as int
    } else if k == 2 {
        (e0.len() + e1.len()) as int
    } else {
        (e0.len() + e1.len() + e2.len()) as int
    };
    assert(nbr_ok(g, r, c, h, k));
    assert(s[idx] == x);
    crate::normalize::lemma_extremes(s);
    assert(crate::sampling::seq_min(s) <= x <= crate::sampling::seq_max(s));
}

/// Every cell whose row and column are `ro` and `co` modulo `d` is assigned.
pub open spec fn lattice_set(g: Grid<Point>, d: int, ro: int, co: int) -> bool {
    forall|r: int, c: int|
        g.in_bounds(r, c) && r % d == ro && c % d == co ==> #[trigger] g.cell(r, c) != Point::Empty
}

/// Every cell is assigned.
pub open spec fn all_set(g: Grid<Point>) -> bool {
    forall|r: int, c: int| g.in_bounds(r, c) ==> #[trigger] g.cell(r, c) != Point::Empty
}

pub open spec fn same_shape(a: Grid<Point>, b: Grid<Point>) -> bool {
    a.wf() && b.wf() && a.nrows() == b.nrows() && a.ncols() == b.ncols() && a.orient() == b.orient()
}

proof fn lemma_respects_trans(
    a: Grid<Point>,
    b: Grid<Point>,
    c: Grid<Point>,
    env: ThreeDEnvelope,
    gmin: int,
    gmax: int,
)
    requires
        same_shape(a, b),
        same_shape(b, c),
        respects(a, b, env, gmin, gmax),
        respects(b, c, env, gmin, gmax),
    ensures
        respects(a, c, env, gmin, gmax),
{
    assert forall|r: int, col: int| a.in_bounds(r, col) implies {
        let x = a.cell(r, col);
        let z = #[trigger] c.cell(r, col);
        &&& x != Point::Empty ==> z == x
        &&& x == Point::Empty ==> (z == Point::Empty || (z matches Point::Computed(v) && gmin <= v
            <= gmax && env_band(env, r, col).0 <= v <= env_band(env, r, col).1))
    } by {
        assert(b.in_bounds(r, col) && same_shape(b, c));
        if a.cell(r, col) == Point::Empty && b.cell(r, col) != Point::Empty {
            assert(c.cell(r, col) == b.cell(r, col));
        }
    }
}

proof fn lemma_respects_refl(a: Grid<Point>, env: ThreeDEnvelope, gmin: int, gmax: int)
    ensures
        respects(a, a, env, gmin, gmax),
{
}

proof fn lemma_div_parts(x: int, d: int)
    requires
        0 <= x,
        0 < d,
    ensures
        x == d * (x / d) + x % d,
        0 <= x % d < d,
        0 <= x / d,
{
    vstd::arithmetic::div_mod::lemma_fundamental_div_mod(x, d);
    vstd::arithmetic::div_mod::lemma_mod_bound(x, d);
    vstd::arithmetic::div_mod::lemma_div_pos_is_pos(x, d);
}

proof fn lemma_quot(x: int, d: int, q: int, m: int)
    requires
        0 < d,
        0 <= m < d,
        x == d * q + m,
    ensures
        x % d == m,
        x / d == q,
{
    assert(x == q * d + m) by (nonlinear_arith)
        requires
            x == d * q + m,
    ;
    vstd::arithmetic::div_mod::lemma_fundamental_div_mod_converse(x, d, q, m);
}

/// Stepping by `d` keeps the class modulo `d`.
proof fn lemma_next_class(x: int, d: int)
    requires
        0 <= x,
        0 < d,
    ensures
        (x + d) % d == x % d,
{
    lemma_div_parts(x, d);
    let q = x / d;
    assert(x + d == d * (q + 1) + x % d) by (nonlinear_arith)
        requires
            x == d * q + x % d,
    ;
    lemma_quot(x + d, d, q + 1, x % d);
}

/// A cell in the middle class along an axis of side `d * m` has both
/// neighbours at distance `h` inside the axis, each on the coarse lattice.
proof fn lemma_center(r: int, d: int, h: int, m: int)
    requires
        d == 2 * h,
        h >= 1,
        0 <= r <= d * m,
        r % d == h,
    ensures
        r >= h,
        r + h <= d * m,
        (r - h) % d == 0,
        (r + h) % d == 0,
{
    lemma_div_parts(r, d);
    let q = r / d;
    assert(r == d * q + h);
    assert(q < m) by (nonlinear_arith)
        requires
            r == d * q + h,
            r <= d * m,
            h >= 1,
            d >= 2,
    ;
    assert(r + h == d * (q + 1)) by (nonlinear_arith)
        requires
            r == d * q + h,
            d == 2 * h,
    ;
    assert(d * (q + 1) <= d * m) by (nonlinear_arith)
        requires
            q + 1 <= m,
            d >= 0,
    ;
    lemma_quot(r - h, d, q, 0);
    lemma_quot(r + h, d, q + 1, 0);
}

/// A middle-class position has both neighbours at distance `h` on the coarse lattice.
proof fn lemma_mid(x: int, d: int, h: int)
    requires
        d == 2 * h,
        h >= 1,
        0 <= x,
        x % d == h,
    ensures
        x >= h,
        (x - h) % d == 0,
        (x + h) % d == 0,
{
    lemma_div_parts(x, d);
    let q = x / d;
    assert(x + h == d * (q + 1)) by (nonlinear_arith)
        requires
            x == d * q + h,
            d == 2 * h,
    ;
    lemma_quot(x - h, d, q, 0);
    lemma_quot(x + h, d, q + 1, 0);
}

/// A coarse-lattice position moved by `h` lands in the middle class.
proof fn lemma_edge(r: int, d: int, h: int)
    requires
        d == 2 * h,
        h >= 1,
        0 <= r,
        r % d == 0,
    ensures
        (r + h) % d == h,
        r >= h ==> (r - h) % d == h,
{
    lemma_div_parts(r, d);
    let q = r / d;
    assert(r == d * q);
    lemma_quot(r + h, d, q, h);
    if r >= h {
        assert(q >= 1) by (nonlinear_arith)
            requires
                r == d * q,
                r >= h,
                h >= 1,
                q >= 0,
        ;
        assert(r - h == d * (q - 1) + h) by (nonlinear_arith)
            requires
                r == d * q,
                d == 2 * h,
        ;
        lemma_quot(r - h, d, q - 1, h);
    }
}

/// Two positions of one class less than `d` apart coincide.
proof fn lemma_same_class(x: int, r: int, d: int)
    requires
        0 < d,
        0 <= r <= x < r + d,
        x % d == r % d,
    ensures
        x == r,
{
    lemma_div_parts(x, d);
    lemma_div_parts(r, d);
    let qx = x / d;
    let qr = r / d;
    assert(qx == qr) by (nonlinear_arith)
        requires
            x == d * qx + x % d,
            r == d * qr + r % d,
            x % d == r % d,
            r <= x < r + d,
            0 < d,
    ;
}

/// Multiples of `h` are exactly the positions of class `0` or `h` modulo `2h`.
proof fn lemma_half_class(x: int, d: int, h: int)
    requires
        d == 2 * h,
        h >= 1,
        0 <= x,
    ensures
        x % h == 0 <==> (x % d == 0 || x % d == h),
{
    lemma_div_parts(x, d);
    lemma_div_parts(x, h);
    let q = x / d;
    if x % d == 0 {
        assert(x == h * (2 * q)) by (nonlinear_arith)
            requires
                x == d * q,
                d == 2 * h,
        ;
        lemma_quot(x, h, 2 * q, 0);
    } else if x % d == h {
        assert(x == h * (2 * q + 1)) by (nonlinear_arith)
            requires
                x == d * q + h,
                d == 2 * h,
        ;
        lemma_quot(x, h, 2 * q + 1, 0);
    } else if x % h == 0 {
        let p = x / h;
        lemma_div_parts(p, 2);
        assert(x == h * p);
        if p % 2 == 0 {
            assert(x == d * (p / 2)) by (nonlinear_arith)
                requires
                    x == h * p,
                    p == 2 * (p / 2),
                    d == 2 * h,
            ;
            lemma_quot(x, d, p / 2, 0);
        } else {
            assert(x == d * (p / 2) + h) by (nonlinear_arith)
                requires
                    x == h * p,
                    p == 2 * (p / 2) + 1,
                    d == 2 * h,
            ;
            lemma_quot(x, d, p / 2, h);
        }
    }
}

/// Positions that are multiples of `l` within `[0, l]` are the two ends.
proof fn lemma_ends(r: int, l: int)
    requires
        0 <= r <= l,
        0 < l,
        r % l == 0,
    ensures
        r == 0 || r == l,
{
    lemma_div_parts(r, l);
    let q = r / l;
    assert(r == l * q);
    assert(q == 0 || q == 1) by (nonlinear_arith)
        requires
            r == l * q,
            0 <= r <= l,
            0 < l,
            q >= 0,
    ;
    if q == 0 {
        assert(r == 0) by (nonlinear_arith)
            requires
                r == l * q,
                q == 0,
        ;
    } else {
        assert(r == l) by (nonlinear_arith)
            requires
                r == l * q,
                q == 1,
        ;
    }
}

proof fn lemma_all_equal(s: Seq<i32>, h: int)
    requires
        s.len() >= 1,
        forall|k: int| 0 <= k < s.len() ==> #[trigger] s[k] == h,
    ensures
        crate::sampling::seq_max(s) == h,
        crate::sampling::seq_min(s) == h,
    decreases s.len(),
{
    if s.len() > 1 {
        let t = s.drop_last();
        assert forall|k: int| 0 <= k < t.len() implies #[trigger] t[k] == h by {
            assert(t[k] == s[k]);
        }
        lemma_all_equal(t, h);
    }
}

/// Appends the height of `(r, c)` to `hs` when that cell is assigned.
fn push_if_set(grid: &Grid<Point>, r: usize, c: usize, hs: &mut Vec<i32>)
    requires
        grid.wf(),
        grid.in_bounds(r as int, c as int),
    ensures
        grid.cell(r as int, c as int) != Point::Empty ==> final(hs)@ == old(hs)@.push(
            point_height(grid.cell(r as int, c as int)) as i32,
        ),
        grid.cell(r as int, c as int) == Point::Empty ==> final(hs)@ == old(hs)@,
{
    match grid.get(r, c) {
        Point::Empty => {},
        Point::Fixed(v) => hs.push(v),
        Point::Computed(v) => hs.push(v),
    }
}

/// The pull on a point at `(r, c)` of a grid whose last index is `last`: the
/// level's bias scaled by the point's distance from the nearer edge, on
/// whichever axis is nearer.
pub open spec fn gravity_pull(bias: int, r: int, c: int, last: int) -> int {
    min_int(bias * 2 * min_int(r, last - r) / last, bias * 2 * min_int(c, last - c) / last)
}

/// The mode requested for a new point with the given neighbour heights and legal range.
pub open spec fn request_mode(
    heights: Seq<i32>,
    params: Displacement,
    low: int,
    high: int,
    bias: int,
    r: int,
    c: int,
    last: int,
) -> int {
    let avg = crate::sampling::seq_sum(heights) / (heights.len() as int);
    match params.gravity {
        Some(g) => crate::sampling::pulled_mode(low, high, avg, g.target as int, gravity_pull(bias, r, c, last)),
        None => crate::sampling::pulled_mode(low, high, avg, avg, 0),
    }
}

/// What is asked of the sampler for a new point at `(r, c)`, `dist` away from
/// the known `heights`, inside `band`: its legal range (see `legal_bounds`) and
/// its mode, the neighbour mean rounded down and pulled by gravity (see
/// `request_mode`); or an error when the range is empty.
pub fn point_request(
    heights: &Vec<i32>,
    dist: usize,
    params: &Displacement,
    band: (i32, i32),
    bias: u32,
    r: usize,
    c: usize,
    last: usize,
) -> (res: Result<(i32, i32, i32), SampleError>)
    requires
        1 <= heights@.len() <= 4,
        params.wf(),
        bias <= 100,
        1 <= last,
        r <= last,
        c <= last,
    ensures
        ({
            let b = legal_bounds(
                heights@,
                dist as int,
                params.max_slope as int,
                params.min_height as int,
                params.max_height as int,
                (band.0 as int, band.1 as int),
            );
            &&& b.0 > b.1 ==> res == Err::<(i32, i32, i32), _>(SampleError::InvertedRange)
            &&& b.0 <= b.1 ==> (res matches Ok(q) && q.0 as int == b.0 && q.1 as int == b.1 && q.2 as int
                == request_mode(heights@, *params, b.0, b.1, bias as int, r as int, c as int, last as int))
        }),
        res matches Ok(q) ==> q.0 <= q.2 <= q.1,
{
    let (low, high) = match legal_range(
        heights,
        dist,
        params.max_slope,
        params.min_height,
        params.max_height,
        band,
    ) {
        Ok(lh) => lh,
        Err(e) => {
            return Err(e);
        },
    };
    let avg = neighbor_average(heights);
    let (target, pull) = match params.gravity {
        Some(g) => {
            let by_row = scale_gravity(bias, 0, r, last);
            let by_col = scale_gravity(bias, 0, c, last);
            let pull = if by_row <= by_col {
                by_row
            } else {
                by_col
            };
            (g.target, pull)
        },
        None => (avg, 0),
    };
    let mode = gravitated_mode(low, high, avg, target, pull);
    Ok((low, high, mode))
}

/// The perturbation scale of the next level: this one's, times `roughness` percent.
pub fn next_spread(spread: u32, roughness: u32) -> (r: u32)
    requires
        roughness <= 100,
    ensures
        r == (spread as int) * (roughness as int) / 100,
{
    proof {
        assert((spread as int) * (roughness as int) <= (spread as int) * 100) by (nonlinear_arith)
            requires
                roughness <= 100,
                spread >= 0,
        ;
    }
    ((spread as u64) * (roughness as u64) / 100) as u32
}

/// Fills cell `(r, c)` from its assigned neighbours at distance `h`: the
/// diagonal ones when `diagonal`, the orthogonal ones otherwise.
fn settle_cell<S: Sampler>(
    grid: &mut Grid<Point>,
    r: usize,
    c: usize,
    h: usize,
    diagonal: bool,
    spread: u32,
    bias: u32,
    env: &ThreeDEnvelope,
    params: &Displacement,
    sampler: &mut S,
) -> (res: Result<(), TerrainError>)
    requires
        old(grid).wf(),
        old(grid).nrows() == old(grid).ncols(),
        2 <= old(grid).nrows() <= 0x4000_0001,
        old(grid).in_bounds(r as int, c as int),
        1 <= h <= 0x4000_0000,
        is_pow2(h as int),
        fill_class(r as int, c as int, h as int),
        diagonal == diamond_cell(r as int, c as int, 2 * h, h as int),
        nbrs_set(*old(grid), r as int, c as int, h as int),
        diagonal ==> (r >= h && c >= h && old(grid).cell(r - h, c - h) != Point::Empty),
        !diagonal ==> ((r >= h && old(grid).cell(r - h, c as int) != Point::Empty) || (c >= h
            && old(grid).cell(r as int, c - h) != Point::Empty)),
        env.wf(),
        params.wf(),
        bias <= 100,
    ensures
        same_shape(*old(grid), *final(grid)),
        respects(*old(grid), *final(grid), *env, params.min_height as int, params.max_height as int),
        res is Ok ==> final(grid).cell(r as int, c as int) != Point::Empty,
        res matches Err(e) ==> (e is Sample || e is Envelope),
        forall|h: int| #[trigger] flat_run(*old(grid), *env, *params, h) ==> res is Ok && flat_run(*final(grid), *env, *params, h),
        forall|rr: int, cc: int|
            old(grid).in_bounds(rr, cc) && (rr != r || cc != c) ==> #[trigger] final(grid).cell(rr, cc)
                == old(grid).cell(rr, cc),
        old(grid).cell(r as int, c as int) != Point::Empty ==> final(grid).cell(r as int, c as int)
            == old(grid).cell(r as int, c as int),
        old(grid).cell(r as int, c as int) == Point::Empty && res is Ok ==> settled_at(
            *final(grid),
            *env,
            *params,
            r as int,
            c as int,
            h as int,
        ),
        res is Err ==> *final(grid) == *old(grid),
        res matches Err(TerrainError::Sample(_)) ==> stuck_at(*old(grid), *env, *params, r as int, c as int, h as int),
        res matches Err(TerrainError::Envelope(_)) ==> env_fails(*env, r as int, c as int),
        old(grid).cell(r as int, c as int) == Point::Empty && env_fails(*env, r as int, c as int) ==> res matches Err(
            TerrainError::Envelope(_),
        ),
        old(grid).cell(r as int, c as int) == Point::Empty && !env_fails(*env, r as int, c as int) && level_bounds(
            *old(grid),
            *env,
            *params,
            r as int,
            c as int,
            h as int,
        ).0 > level_bounds(*old(grid), *env, *params, r as int, c as int, h as int).1 ==> res == Err::<
            (),
            _,
        >(TerrainError::Sample(SampleError::InvertedRange)),
{
    proof {
        lemma_respects_refl(*grid, *env, params.min_height as int, params.max_height as int);
    }
    let ghost start = *grid;
    let ghost (ri, ci, hi) = (r as int, c as int, h as int);
    match grid.get(r, c) {
        Point::Empty => {},
        _ => {
            return Ok(());
        },
    }
    let n = grid.rows();
    let mut hs: Vec<i32> = Vec::new();
    if diagonal {
        if r >= h && c >= h {
            push_if_set(grid, r - h, c - h, &mut hs);
        }
        assert(hs@ =~= nbr_entry(start, ri, ci, hi, 0));
        if r >= h && c + h < n {
            push_if_set(grid, r - h, c + h, &mut hs);
        }
        assert(hs@ =~= nbr_entry(start, ri, ci, hi, 0) + nbr_entry(start, ri, ci, hi, 1));
        if r + h < n && c >= h {
            push_if_set(grid, r + h, c - h, &mut hs);
        }
        assert(hs@ =~= nbr_entry(start, ri, ci, hi, 0) + nbr_entry(start, ri, ci, hi, 1) + nbr_entry(
            start,
            ri,
            ci,
            hi,
            2,
        ));
        if r + h < n && c + h < n {
            push_if_set(grid, r + h, c + h, &mut hs);
        }
    } else {
        if r >= h {
            push_if_set(grid, r - h, c, &mut hs);
        }
        assert(hs@ =~= nbr_entry(start, ri, ci, hi, 0));
        if r + h < n {
            push_if_set(grid, r + h, c, &mut hs);
        }
        assert(hs@ =~= nbr_entry(start, ri, ci, hi, 0) + nbr_entry(start, ri, ci, hi, 1));
        if c >= h {
            push_if_set(grid, r, c - h, &mut hs);
        }
        assert(hs@ =~= nbr_entry(start, ri, ci, hi, 0) + nbr_entry(start, ri, ci, hi, 1) + nbr_entry(
            start,
            ri,
            ci,
            hi,
            2,
        ));
        if c + h < n {
            push_if_set(grid, r, c + h, &mut hs);
        }
    }
    assert(hs@ =~= nbr_heights(start, ri, ci, hi));
    proof {
        assert forall|h: int| #[trigger] flat_run(start, *env, *params, h) implies (forall|k: int|
            0 <= k < hs@.len() ==> #[trigger] hs@[k] == h) by {
        }
    }
    let band = match env.minmax_at_point((r, c)) {
        Ok(b) => b,
        Err(e) => {
            return Err(TerrainError::Envelope(e));
        },
    };
    proof {
        assert forall|h: int| #[trigger] flat_run(start, *env, *params, h) implies band.0 <= h <= band.1 && hs@.len() >= 1
            && crate::sampling::seq_max(hs@) == h && crate::sampling::seq_min(hs@) == h by {
            assert(start.cell(r as int, c as int) == Point::Empty);
            lemma_all_equal(hs@, h);
        }
    }
    let (low, high, mode) = match point_request(&hs, h, params, band, bias, r, c, n - 1) {
        Ok(req) => req,
        Err(e) => {
            return Err(TerrainError::Sample(e));
        },
    };
    let v = if low == high {
        low
    } else {
        let drawn = sampler.sample(low, high, mode, spread);
        clamp_height(low, high, drawn)
    };
    grid.set(r, c, Point::Computed(v));
    proof {
        assert(nbr_entry(start, ri, ci, hi, 0) == nbr_entry(*grid, ri, ci, hi, 0));
        assert(nbr_entry(start, ri, ci, hi, 1) == nbr_entry(*grid, ri, ci, hi, 1));
        assert(nbr_entry(start, ri, ci, hi, 2) == nbr_entry(*grid, ri, ci, hi, 2));
        assert(nbr_entry(start, ri, ci, hi, 3) == nbr_entry(*grid, ri, ci, hi, 3));
        assert(settled_at(*grid, *env, *params, ri, ci, hi));
        assert forall|h: int| #[trigger] flat_run(start, *env, *params, h) implies flat_run(*grid, *env, *params, h) by {
            assert(low == h && high == h);
            assert forall|rr: int, cc: int| grid.in_bounds(rr, cc) implies {
                &&& covers(env.horizontal().points(), cc)
                &&& covers(env.vertical().points(), rr)
                &&& env_band(*env, rr, cc).0 <= h <= env_band(*env, rr, cc).1
                &&& (#[trigger] grid.cell(rr, cc) != Point::Empty ==> point_height(grid.cell(rr, cc)) == h)
            } by {
                assert(start.in_bounds(rr, cc));
                let _ = start.cell(rr, cc);
            }
        }
    }
    Ok(())
}

/// Whether `(r, c)` is a diamond centre at spacing `d`.
pub open spec fn diamond_cell(r: int, c: int, d: int, h: int) -> bool {
    r % d == h && c % d == h
}

/// The column class of square-step cells in row `r`.
pub open spec fn row_class(r: int, d: int, h: int) -> int {
    if r % d == 0 {
        h
    } else {
        0
    }
}

/// Fills every diamond centre at spacing `d` from its four diagonal corners.
fn diamond_step<S: Sampler>(
    grid: &mut Grid<Point>,
    d: usize,
    h: usize,
    spread: u32,
    bias: u32,
    env: &ThreeDEnvelope,
    params: &Displacement,
    sampler: &mut S,
) -> (res: Result<(), TerrainError>)
    requires
        old(grid).wf(),
        old(grid).nrows() == old(grid).ncols(),
        2 <= old(grid).nrows() <= 0x4000_0001,
        d == 2 * h,
        1 <= h,
        is_pow2(h as int),
        d <= old(grid).nrows() - 1,
        (old(grid).nrows() - 1) % (d as int) == 0,
        lattice_set(*old(grid), d as int, 0, 0),
        env.wf(),
        params.wf(),
        bias <= 100,
    ensures
        same_shape(*old(grid), *final(grid)),
        respects(*old(grid), *final(grid), *env, params.min_height as int, params.max_height as int),
        res is Ok ==> lattice_set(*final(grid), d as int, 0, 0) && lattice_set(
            *final(grid),
            d as int,
            h as int,
            h as int,
        ),
        res matches Err(e) ==> (e is Sample || e is Envelope),
        engine_ok(*old(grid), *final(grid), *env, *params),
        res matches Err(TerrainError::Sample(_)) ==> some_stuck(*final(grid), *env, *params),
        res matches Err(TerrainError::Envelope(_)) ==> some_env_fail(*final(grid), *env),
        first_cell_decides(*old(grid), *env, *params, h as int, res),
        forall|fh: int| #[trigger] flat_run(*old(grid), *env, *params, fh) ==> res is Ok && flat_run(*final(grid), *env, *params, fh),
{
    let n = grid.rows();
    let ghost orig = *grid;
    let ghost gmin = params.min_height as int;
    let ghost gmax = params.max_height as int;
    let ghost m = (n - 1) as int / (d as int);
    proof {
        lemma_div_parts((n - 1) as int, d as int);
        lemma_respects_refl(*grid, *env, gmin, gmax);
        lemma_quot(h as int, d as int, 0, h as int);
        assert forall|rr: int, cc: int|
            grid.in_bounds(rr, cc) && diamond_cell(rr, cc, d as int, h as int) && rr < h implies #[trigger] grid.cell(
            rr,
            cc,
        ) != Point::Empty by {
            lemma_div_parts(rr, d as int);
        }
    }
    let mut r: usize = h;
    while r < n
        invariant
            orig == *old(grid),
            same_shape(orig, *grid),
            grid.nrows() == n,
            grid.ncols() == n,
            2 <= n <= 0x4000_0001,
            d == 2 * h,
            1 <= h,
            d <= n - 1,
            n - 1 == d * m,
            env.wf(),
            params.wf(),
            bias <= 100,
            gmin == params.min_height,
            gmax == params.max_height,
            respects(orig, *grid, *env, gmin, gmax),
            engine_ok(orig, *grid, *env, *params),
            is_pow2(h as int),
            forall|fh: int| #[trigger] flat_run(orig, *env, *params, fh) ==> flat_run(*grid, *env, *params, fh),
            lattice_set(*grid, d as int, 0, 0),
            r % d == h,
            h <= r < n + d,
            r == h ==> *grid == orig,
            r > h ==> first_cell_passed(orig, *env, *params, h as int),
            forall|rr: int, cc: int|
                grid.in_bounds(rr, cc) && diamond_cell(rr, cc, d as int, h as int) && rr < r
                    ==> #[trigger] grid.cell(rr, cc) != Point::Empty,
        decreases n + d - r,
    {
        proof {
            lemma_quot(h as int, d as int, 0, h as int);
            assert forall|rr: int, cc: int|
                grid.in_bounds(rr, cc) && diamond_cell(rr, cc, d as int, h as int) && (rr < r || (rr == r
                    && cc < h)) implies #[trigger] grid.cell(rr, cc) != Point::Empty by {
                lemma_div_parts(cc, d as int);
            }
        }
        let mut c: usize = h;
        while c < n
            invariant
                orig == *old(grid),
                same_shape(orig, *grid),
                grid.nrows() == n,
                grid.ncols() == n,
                2 <= n <= 0x4000_0001,
                d == 2 * h,
                1 <= h,
                d <= n - 1,
                n - 1 == d * m,
                env.wf(),
                params.wf(),
                bias <= 100,
                gmin == params.min_height,
                gmax == params.max_height,
                respects(orig, *grid, *env, gmin, gmax),
                engine_ok(orig, *grid, *env, *params),
                is_pow2(h as int),
                forall|fh: int| #[trigger] flat_run(orig, *env, *params, fh) ==> flat_run(*grid, *env, *params, fh),
                lattice_set(*grid, d as int, 0, 0),
                r % d == h,
                h <= r < n,
                c % d == h,
                h <= c < n + d,
                r == h && c == h ==> *grid == orig,
                r > h || c > h ==> first_cell_passed(orig, *env, *params, h as int),
                forall|rr: int, cc: int|
                    grid.in_bounds(rr, cc) && diamond_cell(rr, cc, d as int, h as int) && (rr < r
                        || (rr == r && cc < c)) ==> #[trigger] grid.cell(rr, cc) != Point::Empty,
            decreases n + d - c,
        {
            proof {
                lemma_center(r as int, d as int, h as int, m);
                lemma_center(c as int, d as int, h as int, m);
                assert(grid.cell(r - h, c - h) != Point::Empty);
            }
            proof {
                let (ri, ci, hi) = (r as int, c as int, h as int);
                assert(grid.cell(ri - hi, ci + hi) != Point::Empty);
                assert(grid.cell(ri + hi, ci - hi) != Point::Empty);
                assert(grid.cell(ri + hi, ci + hi) != Point::Empty);
                assert(nbrs_set(*grid, ri, ci, hi));
            }
            let ghost before = *grid;
            let step = settle_cell(grid, r, c, h, true, spread, bias, env, params, sampler);
            proof {
                lemma_respects_trans(orig, before, *grid, *env, gmin, gmax);
                lemma_engine_ok_step(orig, before, *grid, *env, *params, r as int, c as int);
                if step matches Err(TerrainError::Sample(_)) {
                    assert(stuck(*grid, *env, *params, r as int, c as int));
                }
                if step matches Err(TerrainError::Envelope(_)) {
                    assert(env_fails(*env, r as int, c as int));
                }
                if r == h && c == h {
                    assert(before == orig);
                    if step is Ok {
                        assert(first_cell_passed(orig, *env, *params, h as int));
                    }
                }
            }
            if let Err(e) = step {
                return Err(e);
            }
            proof {
                assert forall|rr: int, cc: int|
                    grid.in_bounds(rr, cc) && diamond_cell(rr, cc, d as int, h as int) && (rr < r || (
                    rr == r && cc < c + d)) implies #[trigger] grid.cell(rr, cc) != Point::Empty by {
                    if rr == r && cc >= c {
                        lemma_same_class(cc, c as int, d as int);
                    } else {
                        assert(before.cell(rr, cc) != Point::Empty);
                    }
                }
                lemma_next_class(c as int, d as int);
            }
            c = c + d;
        }
        proof {
            lemma_next_class(r as int, d as int);
            assert forall|rr: int, cc: int|
                grid.in_bounds(rr, cc) && diamond_cell(rr, cc, d as int, h as int) && rr < r
                    + d implies #[trigger] grid.cell(rr, cc) != Point::Empty by {
                if rr >= r {
                    lemma_same_class(rr, r as int, d as int);
                    lemma_div_parts(cc, d as int);
                }
            }
        }
        r = r + d;
    }
    Ok(())
}

/// Fills every square-step cell at spacing `d` from its orthogonal neighbours at distance `h`.
fn square_step<S: Sampler>(
    grid: &mut Grid<Point>,
    d: usize,
    h: usize,
    spread: u32,
    bias: u32,
    env: &ThreeDEnvelope,
    params: &Displacement,
    sampler: &mut S,
) -> (res: Result<(), TerrainError>)
    requires
        old(grid).wf(),
        old(grid).nrows() == old(grid).ncols(),
        2 <= old(grid).nrows() <= 0x4000_0001,
        d == 2 * h,
        1 <= h,
        is_pow2(h as int),
        d <= old(grid).nrows() - 1,
        (old(grid).nrows() - 1) % (d as int) == 0,
        lattice_set(*old(grid), d as int, 0, 0),
        lattice_set(*old(grid), d as int, h as int, h as int),
        env.wf(),
        params.wf(),
        bias <= 100,
    ensures
        same_shape(*old(grid), *final(grid)),
        respects(*old(grid), *final(grid), *env, params.min_height as int, params.max_height as int),
        res is Ok ==> lattice_set(*final(grid), h as int, 0, 0),
        res matches Err(e) ==> (e is Sample || e is Envelope),
        engine_ok(*old(grid), *final(grid), *env, *params),
        res matches Err(TerrainError::Sample(_)) ==> some_stuck(*final(grid), *env, *params),
        res matches Err(TerrainError::Envelope(_)) ==> some_env_fail(*final(grid), *env),
        forall|fh: int| #[trigger] flat_run(*old(grid), *env, *params, fh) ==> res is Ok && flat_run(*final(grid), *env, *params, fh),
{
    let n = grid.rows();
    let ghost orig = *grid;
    let ghost gmin = params.min_height as int;
    let ghost gmax = params.max_height as int;
    proof {
        lemma_respects_refl(*grid, *env, gmin, gmax);
        lemma_quot(0, h as int, 0, 0);
    }
    let mut r: usize = 0;
    while r < n
        invariant
            orig == *old(grid),
            same_shape(orig, *grid),
            grid.nrows() == n,
            grid.ncols() == n,
            2 <= n <= 0x4000_0001,
            d == 2 * h,
            1 <= h,
            d <= n - 1,
            env.wf(),
            params.wf(),
            bias <= 100,
            gmin == params.min_height,
            gmax == params.max_height,
            respects(orig, *grid, *env, gmin, gmax),
            engine_ok(orig, *grid, *env, *params),
            is_pow2(h as int),
            forall|fh: int| #[trigger] flat_run(orig, *env, *params, fh) ==> flat_run(*grid, *env, *params, fh),
            lattice_set(*grid, d as int, 0, 0),
            lattice_set(*grid, d as int, h as int, h as int),
            r % h == 0,
            r < n + h,
            forall|rr: int, cc: int|
                grid.in_bounds(rr, cc) && rr % (h as int) == 0 && cc % (d as int) == row_class(
                    rr,
                    d as int,
                    h as int,
                ) && rr < r ==> #[trigger] grid.cell(rr, cc) != Point::Empty,
        decreases n + h - r,
    {
        proof {
            lemma_half_class(r as int, d as int, h as int);
        }
        let c0: usize = if r % d == 0 {
            h
        } else {
            0
        };
        proof {
            lemma_quot(c0 as int, d as int, 0, c0 as int);
            assert forall|rr: int, cc: int|
                grid.in_bounds(rr, cc) && rr % (h as int) == 0 && cc % (d as int) == row_class(
                    rr,
                    d as int,
                    h as int,
                ) && (rr < r || (rr == r && cc < c0)) implies #[trigger] grid.cell(rr, cc)
                != Point::Empty by {
                lemma_div_parts(cc, d as int);
            }
        }
        let mut c: usize = c0;
        while c < n
            invariant
                orig == *old(grid),
                same_shape(orig, *grid),
                grid.nrows() == n,
                grid.ncols() == n,
                2 <= n <= 0x4000_0001,
                d == 2 * h,
                1 <= h,
                d <= n - 1,
                env.wf(),
                params.wf(),
                bias <= 100,
                gmin == params.min_height,
                gmax == params.max_height,
                respects(orig, *grid, *env, gmin, gmax),
                engine_ok(orig, *grid, *env, *params),
                is_pow2(h as int),
                forall|fh: int| #[trigger] flat_run(orig, *env, *params, fh) ==> flat_run(*grid, *env, *params, fh),
                lattice_set(*grid, d as int, 0, 0),
                lattice_set(*grid, d as int, h as int, h as int),
                r % h == 0,
                r % d == 0 || r % d == h,
                r < n,
                c0 == row_class(r as int, d as int, h as int),
                c % d == c0,
                c0 <= c < n + d,
                forall|rr: int, cc: int|
                    grid.in_bounds(rr, cc) && rr % (h as int) == 0 && cc % (d as int) == row_class(
                        rr,
                        d as int,
                        h as int,
                    ) && (rr < r || (rr == r && cc < c)) ==> #[trigger] grid.cell(rr, cc) != Point::Empty,
            decreases n + d - c,
        {
            proof {
                if r % d == 0 {
                    lemma_div_parts(c as int, d as int);
                    assert(c >= h);
                    lemma_quot((c - h) as int, d as int, (c as int) / (d as int), 0);
                    assert(grid.cell(r as int, c - h) != Point::Empty);
                } else {
                    lemma_div_parts(r as int, d as int);
                    assert(r >= h);
                    lemma_quot((r - h) as int, d as int, (r as int) / (d as int), 0);
                    assert(grid.cell(r - h, c as int) != Point::Empty);
                }
            }
            proof {
                let (ri, ci, hi, di) = (r as int, c as int, h as int, d as int);
                if r % d == 0 {
                    lemma_edge(ri, di, hi);
                    lemma_mid(ci, di, hi);
                } else {
                    lemma_mid(ri, di, hi);
                    lemma_edge(ci, di, hi);
                }
                assert(nbr_ok(*grid, ri, ci, hi, 0));
                assert(nbr_ok(*grid, ri, ci, hi, 1));
                assert(nbr_ok(*grid, ri, ci, hi, 2));
                assert(nbr_ok(*grid, ri, ci, hi, 3));
            }
            let ghost before = *grid;
            let step = settle_cell(grid, r, c, h, false, spread, bias, env, params, sampler);
            proof {
                lemma_respects_trans(orig, before, *grid, *env, gmin, gmax);
                lemma_engine_ok_step(orig, before, *grid, *env, *params, r as int, c as int);
                if step matches Err(TerrainError::Sample(_)) {
                    assert(stuck(*grid, *env, *params, r as int, c as int));
                }
                if step matches Err(TerrainError::Envelope(_)) {
                    assert(env_fails(*env, r as int, c as int));
                }
            }
            if let Err(e) = step {
                return Err(e);
            }
            proof {
                assert forall|rr: int, cc: int|
                    grid.in_bounds(rr, cc) && rr % (h as int) == 0 && cc % (d as int) == row_class(
                        rr,
                        d as int,
                        h as int,
                    ) && (rr < r || (rr == r && cc < c + d)) implies #[trigger] grid.cell(rr, cc)
                    != Point::Empty by {
                    if rr == r && cc >= c {
                        lemma_same_class(cc, c as int, d as int);
                    } else {
                        assert(before.cell(rr, cc) != Point::Empty);
                    }
                }
                lemma_next_class(c as int, d as int);
            }
            c = c + d;
        }
        proof {
            assert forall|rr: int, cc: int|
                grid.in_bounds(rr, cc) && rr % (h as int) == 0 && cc % (d as int) == row_class(
                    rr,
                    d as int,
                    h as int,
                ) && rr < r + h implies #[trigger] grid.cell(rr, cc) != Point::Empty by {
                if rr >= r {
                    lemma_same_class(rr, r as int, h as int);
                    lemma_div_parts(cc, d as int);
                }
            }
            lemma_div_parts(r as int, h as int);
            let q = (r as int) / (h as int);
            assert((r + h) as int == (h as int) * (q + 1)) by (nonlinear_arith)
                requires
                    r as int == (h as int) * q + 0,
            ;
            lemma_quot((r + h) as int, h as int, q + 1, 0);
        }
        r = r + h;
    }
    proof {
        assert forall|rr: int, cc: int|
            grid.in_bounds(rr, cc) && rr % (h as int) == 0 && cc % (h as int) == 0 implies #[trigger] grid.cell(
            rr,
            cc,
        ) != Point::Empty by {
            lemma_half_class(rr, d as int, h as int);
            lemma_half_class(cc, d as int, h as int);
        }
    }
    Ok(())
}

/// Fills every empty cell of a `2^levels + 1` square grid whose four corners
/// are set, one level per halving of the spacing, coarsest first. Cells that
/// are already set keep their value; each new height lies in
/// `[min_height, max_height]` and in the envelope band of its cell. When
/// nothing is left to chance (see `flat_run`) it succeeds with every cell at
/// that one height. An empty centre decides the run before any draw: an envelope
/// failing there, or an empty legal range from the four corners, ends it with
/// that error.
#[verifier::rlimit(40)]
pub fn diamond_square<S: Sampler>(
    grid: &mut Grid<Point>,
    levels: u32,
    env: &ThreeDEnvelope,
    params: &Displacement,
    sampler: &mut S,
) -> (res: Result<(), TerrainError>)
    requires
        old(grid).wf(),
        levels <= MAX_LEVELS,
        old(grid).nrows() == pow2(levels as nat) + 1,
        old(grid).ncols() == old(grid).nrows(),
        old(grid).cell(0, 0) != Point::Empty,
        old(grid).cell(0, pow2(levels as nat) as int) != Point::Empty,
        old(grid).cell(pow2(levels as nat) as int, 0) != Point::Empty,
        old(grid).cell(pow2(levels as nat) as int, pow2(levels as nat) as int) != Point::Empty,
        env.wf(),
        params.wf(),
    ensures
        same_shape(*old(grid), *final(grid)),
        respects(*old(grid), *final(grid), *env, params.min_height as int, params.max_height as int),
        res is Ok ==> all_set(*final(grid)),
        res is Ok ==> forall|r: int, c: int|
            old(grid).in_bounds(r, c) && #[trigger] old(grid).cell(r, c) == Point::Empty ==> settled(
                *final(grid),
                *env,
                *params,
                r,
                c,
            ),
        res matches Err(e) ==> (e is Sample || e is Envelope),
        res matches Err(TerrainError::Sample(_)) ==> some_stuck(*final(grid), *env, *params),
        res matches Err(TerrainError::Envelope(_)) ==> some_env_fail(*final(grid), *env),
        levels >= 1 ==> first_cell_decides(*old(grid), *env, *params, pow2((levels - 1) as nat) as int, res),
        forall|fh: int|
            #[trigger] flat_run(*old(grid), *env, *params, fh) ==> res is Ok && forall|r: int, c: int|
                final(grid).in_bounds(r, c) ==> #[trigger] final(grid).cell(r, c) != Point::Empty
                    && point_height(final(grid).cell(r, c)) == fh,
{
    let n = grid.rows();
    let ghost orig = *grid;
    let ghost gmin = params.min_height as int;
    let ghost gmax = params.max_height as int;
    proof {
        crate::config::lemma_pow2_monotone(levels as nat, MAX_LEVELS as nat);
        crate::config::lemma_pow2_max_levels();
        lemma_respects_refl(*grid, *env, gmin, gmax);
        let l = (n - 1) as int;
        crate::config::lemma_pow2_monotone(0, levels as nat);
        assert forall|r: int, c: int|
            grid.in_bounds(r, c) && r % l == 0 && c % l == 0 implies #[trigger] grid.cell(r, c)
            != Point::Empty by {
            lemma_ends(r, l);
            lemma_ends(c, l);
        }
        lemma_quot(l, l, 1, 0);
    }
    let mut dist: usize = n - 1;
    let ghost mut k: nat = levels as nat;
    let mut level: u32 = 0;
    let mut spread: u32 = (params.max_height as i64 - params.min_height as i64) as u32;
    while dist >= 2
        invariant
            orig == *old(grid),
            same_shape(orig, *grid),
            grid.nrows() == n,
            grid.ncols() == n,
            2 <= n <= 0x4000_0001,
            env.wf(),
            params.wf(),
            gmin == params.min_height,
            gmax == params.max_height,
            respects(orig, *grid, *env, gmin, gmax),
            engine_ok(orig, *grid, *env, *params),
            forall|fh: int| #[trigger] flat_run(orig, *env, *params, fh) ==> flat_run(*grid, *env, *params, fh),
            dist == pow2(k),
            k + level == levels,
            level == 0 ==> *grid == orig,
            level > 0 ==> first_cell_passed(orig, *env, *params, pow2((levels - 1) as nat) as int),
            n - 1 == dist * pow2(level as nat),
            1 <= dist <= n - 1,
            lattice_set(*grid, dist as int, 0, 0),
        decreases dist,
    {
        proof {
            assert(k >= 1);
            assert(pow2(k) == 2 * pow2((k - 1) as nat));
            lemma_quot((n - 1) as int, dist as int, pow2(level as nat) as int, 0);
        }
        let h = dist / 2;
        let bias: u32 = match params.gravity {
            Some(g) => decayed_bias(g.strength, level),
            None => 0,
        };
        proof {
            assert(h == pow2((k - 1) as nat));
            assert(is_pow2(h as int));
        }
        let ghost g0 = *grid;
        let step = diamond_step(grid, dist, h, spread, bias, env, params, sampler);
        proof {
            lemma_respects_trans(orig, g0, *grid, *env, gmin, gmax);
            lemma_engine_ok_trans(orig, g0, *grid, *env, *params);
            if level == 0 {
                assert(k == levels);
                assert(h == pow2((levels - 1) as nat));
                if step is Ok {
                    assert(first_cell_passed(orig, *env, *params, h as int));
                }
            }
        }
        if let Err(e) = step {
            return Err(e);
        }
        let ghost g1 = *grid;
        let step = square_step(grid, dist, h, spread, bias, env, params, sampler);
        proof {
            lemma_respects_trans(orig, g1, *grid, *env, gmin, gmax);
            lemma_engine_ok_trans(orig, g1, *grid, *env, *params);
        }
        if let Err(e) = step {
            return Err(e);
        }
        proof {
            assert(pow2((level + 1) as nat) == 2 * pow2(level as nat));
            assert((n - 1) as int == (h as int) * pow2((level + 1) as nat)) by (nonlinear_arith)
                requires
                    (n - 1) as int == (dist as int) * pow2(level as nat),
                    dist == 2 * h,
                    pow2((level + 1) as nat) == 2 * pow2(level as nat),
            ;
            k = (k - 1) as nat;
        }
        dist = h;
        level = level + 1;
        spread = next_spread(spread, params.roughness);
    }
    proof {
        assert forall|r: int, c: int| grid.in_bounds(r, c) implies #[trigger] grid.cell(r, c)
            != Point::Empty by {
            lemma_quot(r, 1, r, 0);
            lemma_quot(c, 1, c, 0);
        }
        assert forall|r: int, c: int|
            orig.in_bounds(r, c) && #[trigger] orig.cell(r, c) == Point::Empty implies settled(*grid, *env, *params, r, c) by {
            assert(grid.cell(r, c) != Point::Empty);
        }
        assert forall|fh: int| #[trigger] flat_run(orig, *env, *params, fh) implies forall|r: int, c: int|
            grid.in_bounds(r, c) ==> #[trigger] grid.cell(r, c) != Point::Empty && point_height(grid.cell(r, c)) == fh by {
            assert(flat_run(*grid, *env, *params, fh));
        }
    }
    Ok(())
}

} // verus!
