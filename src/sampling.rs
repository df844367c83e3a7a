//! Choosing the height of a single new point: its legal range, its mode and
//! the draw that settles it.
use vstd::prelude::*;
use rand::rngs::StdRng;
use crate::config::pow2;
use crate::envelope::{max_int, min_int};
use crate::error::SampleError;

verus! {

#[verifier::external_type_specification]
#[verifier::external_body]
pub struct ExStdRng(StdRng);

/// Relies on rand's `SeedableRng::seed_from_u64`: a generator built from the seed.
#[verifier::external_body]
fn rng_from_seed(seed: u64) -> StdRng {
    <StdRng as rand::SeedableRng>::seed_from_u64(seed)
}

/// Relies on rand's `Rng::gen_range` over an inclusive range: a value between both ends.
#[verifier::external_body]
fn uniform_between(rng: &mut StdRng, lo: i64, hi: i64) -> (r: i64)
    requires
        lo <= hi,
    ensures
        lo <= r <= hi,
{
    rand::Rng::gen_range(rng, lo..=hi)
}

/// A source of heights for new points.
pub trait Sampler {
    /// Draws a height for a point whose legal range is `[low, high]`, most
    /// likely near `mode`, with `spread` as the current perturbation scale.
    fn sample(&mut self, low: i32, high: i32, mode: i32, spread: u32) -> i32
        requires
            low <= mode <= high,
    ;
}

/// A seeded random source: the same seed gives the same stream of draws.
pub struct SeededRng {
    rng: StdRng,
}

impl SeededRng {
    pub fn new(seed: u64) -> Self {
        SeededRng { rng: rng_from_seed(seed) }
    }

    /// A draw from `[lo, hi]`.
    pub fn draw_between(&mut self, lo: i64, hi: i64) -> (r: i64)
        requires
            lo <= hi,
        ensures
            lo <= r <= hi,
    {
        uniform_between(&mut self.rng, lo, hi)
    }
}

impl Sampler for SeededRng {
    /// A uniform draw from the legal range narrowed to `spread` around the mode.
    fn sample(&mut self, low: i32, high: i32, mode: i32, spread: u32) -> i32 {
        let below = mode as i64 - spread as i64;
        let above = mode as i64 + spread as i64;
        let lo: i64 = if below > low as i64 {
            below
        } else {
            low as i64
        };
        let hi: i64 = if above < high as i64 {
            above
        } else {
            high as i64
        };
        self.draw_between(lo, hi) as i32
    }
}

pub open spec fn clamp(v: int, lo: int, hi: int) -> int {
    if v < lo {
        lo
    } else if v > hi {
        hi
    } else {
        v
    }
}

pub open spec fn seq_max(s: Seq<i32>) -> int
    decreases s.len(),
{
    if s.len() <= 1 {
        s[0] as int
    } else {
        max_int(seq_max(s.drop_last()), s.last() as int)
    }
}

pub open spec fn seq_min(s: Seq<i32>) -> int
    decreases s.len(),
{
    if s.len() <= 1 {
        s[0] as int
    } else {
        min_int(seq_min(s.drop_last()), s.last() as int)
    }
}

pub open spec fn seq_sum(s: Seq<i32>) -> int
    decreases s.len(),
{
    if s.len() == 0 {
        0
    } else {
        seq_sum(s.drop_last()) + s.last() as int
    }
}

/// The legal range of a new point at `dist` from each of the known `heights`:
/// within `dist * slope` of every one of them, inside `[gmin, gmax]` and inside `band`.
pub open spec fn legal_bounds(
    heights: Seq<i32>,
    dist: int,
    slope: int,
    gmin: int,
    gmax: int,
    band: (int, int),
) -> (int, int) {
    (
        max_int(max_int(gmin, band.0), seq_max(heights) - dist * slope),
        min_int(min_int(gmax, band.1), seq_min(heights) + dist * slope),
    )
}

/// The mode of a new point: a bound when `ideal` already lies at or beyond it;
/// otherwise `ideal` pulled `pull` percent of the way to `target`, kept in `[lo, hi]`.
pub open spec fn pulled_mode(lo: int, hi: int, ideal: int, target: int, pull: int) -> int {
    if ideal <= lo {
        lo
    } else if ideal >= hi {
        hi
    } else {
        clamp(ideal + (target - ideal) * pull / 100, lo, hi)
    }
}

proof fn lemma_seq_bounds(s: Seq<i32>)
    requires
        s.len() >= 1,
    ensures
        i32::MIN <= seq_min(s) <= seq_max(s) <= i32::MAX,
    decreases s.len(),
{
    if s.len() > 1 {
        lemma_seq_bounds(s.drop_last());
    }
}

/// `a / b` rounded toward negative infinity.
pub(crate) fn floor_div(a: i64, b: i64) -> (r: i64)
    requires
        b > 0,
        a > i64::MIN + b,
    ensures
        r == a / b,
{
    if a >= 0 {
        a / b
    } else {
        let q = (-a + b - 1) / b;
        proof {
            let num: int = -(a as int) + (b as int) - 1;
            let m: int = num % (b as int);
            vstd::arithmetic::div_mod::lemma_fundamental_div_mod(num, b as int);
            let qi: int = q as int;
            assert(q == num / (b as int));
            assert((a as int) == (-qi) * (b as int) + ((b as int) - 1 - m)) by (nonlinear_arith)
                requires
                    num == (b as int) * qi + m,
                    num == -(a as int) + (b as int) - 1,
            ;
            vstd::arithmetic::div_mod::lemma_fundamental_div_mod_converse(
                a as int,
                b as int,
                -qi,
                (b as int) - 1 - m,
            );
        }
        -q
    }
}

/// The mean of the known neighbour heights, rounded down.
pub fn neighbor_average(heights: &Vec<i32>) -> (r: i32)
    requires
        1 <= heights@.len() <= 4,
    ensures
        r == seq_sum(heights@) / (heights@.len() as int),
{
    let n = heights.len();
    let mut sum: i64 = 0;
    let mut i: usize = 0;
    while i < n
        invariant
            n == heights@.len(),
            n <= 4,
            i <= n,
            sum == seq_sum(heights@.subrange(0, i as int)),
            (i as int) * (i32::MIN as int) <= sum <= (i as int) * (i32::MAX as int),
        decreases n - i,
    {
        proof {
            assert(heights@.subrange(0, i + 1).drop_last() =~= heights@.subrange(0, i as int));
        }
        sum = sum + heights[i] as i64;
        i = i + 1;
    }
    proof {
        assert(heights@.subrange(0, n as int) =~= heights@);
    }
    let avg = floor_div(sum, n as i64);
    proof {
        let q = (sum as int) / (n as int);
        let m = (sum as int) % (n as int);
        vstd::arithmetic::div_mod::lemma_fundamental_div_mod(sum as int, n as int);
        assert(i32::MIN <= q <= i32::MAX) by (nonlinear_arith)
            requires
                sum == (n as int) * q + m,
                0 <= m < n,
                1 <= n,
                (n as int) * (i32::MIN as int) <= sum <= (n as int) * (i32::MAX as int),
        ;
    }
    avg as i32
}

/// The legal range of a new point (see `legal_bounds`), or an error when it is empty.
pub fn legal_range(
    heights: &Vec<i32>,
    dist: usize,
    max_slope: u32,
    gmin: i32,
    gmax: i32,
    band: (i32, i32),
) -> (r: Result<(i32, i32), SampleError>)
    requires
        heights@.len() >= 1,
    ensures
        ({
            let b = legal_bounds(
                heights@,
                dist as int,
                max_slope as int,
                gmin as int,
                gmax as int,
                (band.0 as int, band.1 as int),
            );
            &&& b.0 > b.1 ==> r == Err::<(i32, i32), _>(SampleError::InvertedRange)
            &&& b.0 <= b.1 ==> (r matches Ok(lh) && lh.0 as int == b.0 && lh.1 as int == b.1)
        }),
{
    let n = heights.len();
    let mut mx: i32 = heights[0];
    let mut mn: i32 = heights[0];
    let mut i: usize = 1;
    while i < n
        invariant
            n == heights@.len(),
            1 <= i <= n,
            mx == seq_max(heights@.subrange(0, i as int)),
            mn == seq_min(heights@.subrange(0, i as int)),
        decreases n - i,
    {
        proof {
            assert(heights@.subrange(0, i + 1).drop_last() =~= heights@.subrange(0, i as int));
        }
        if heights[i] > mx {
            mx = heights[i];
        }
        if heights[i] < mn {
            mn = heights[i];
        }
        i = i + 1;
    }
    proof {
        assert(heights@.subrange(0, n as int) =~= heights@);
        assert(0 <= (dist as int) * (max_slope as int) <= 0x1_0000_0000_0000_0000_0000_0000)
            by (nonlinear_arith)
            requires
                0 <= dist <= usize::MAX,
                0 <= max_slope <= u32::MAX,
        ;
    }
    let ds: i128 = (dist as i128) * (max_slope as i128);
    let floor_lo: i32 = if gmin >= band.0 {
        gmin
    } else {
        band.0
    };
    let ceil_hi: i32 = if gmax <= band.1 {
        gmax
    } else {
        band.1
    };
    let from_max: i128 = mx as i128 - ds;
    let from_min: i128 = mn as i128 + ds;
    let lo: i128 = if floor_lo as i128 >= from_max {
        floor_lo as i128
    } else {
        from_max
    };
    let hi: i128 = if ceil_hi as i128 <= from_min {
        ceil_hi as i128
    } else {
        from_min
    };
    if lo > hi {
        return Err(SampleError::InvertedRange);
    }
    Ok((lo as i32, hi as i32))
}

/// Returns the bound that `ideal` reaches, if it reaches one; otherwise pulls
/// `ideal` `pull` percent of the way toward `target`, kept inside `[lo, hi]`.
pub fn gravitated_mode(lo: i32, hi: i32, ideal: i32, target: i32, pull: u32) -> (r: i32)
    requires
        lo <= hi,
        pull <= 100,
    ensures
        r == pulled_mode(lo as int, hi as int, ideal as int, target as int, pull as int),
        lo <= r <= hi,
{
    if ideal <= lo {
        return lo;
    }
    if ideal >= hi {
        return hi;
    }
    proof {
        assert(-0x1_0000_0000 * 100 <= (target as int - ideal as int) * (pull as int) <= 0x1_0000_0000
            * 100) by (nonlinear_arith)
            requires
                -0x1_0000_0000 <= target as int - ideal as int <= 0x1_0000_0000,
                0 <= pull <= 100,
        ;
    }
    let product: i64 = (target as i64 - ideal as i64) * pull as i64;
    let shift = floor_div(product, 100);
    let moved: i64 = ideal as i64 + shift;
    if moved < lo as i64 {
        lo
    } else if moved > hi as i64 {
        hi
    } else {
        moved as i32
    }
}

/// Gravity scaled by the distance of `current` from the nearer end of
/// `[start, end]`: none at either end, all of it at the midpoint.
pub fn scale_gravity(gravity: u32, start: usize, current: usize, end: usize) -> (r: u32)
    requires
        start <= current <= end,
        start < end,
        gravity <= 100,
    ensures
        r == (gravity as int) * 2 * min_int(current - start, end - current) / ((end - start) as int),
        r <= gravity,
{
    let from_start = current - start;
    let from_end = end - current;
    let near: usize = if from_start <= from_end {
        from_start
    } else {
        from_end
    };
    let span = end - start;
    proof {
        assert((gravity as int) * 2 * (near as int) <= (gravity as int) * (span as int)) by (nonlinear_arith)
            requires
                2 * near <= span,
                0 <= gravity,
        ;
        assert((gravity as int) * 2 * (near as int) <= 100 * 2 * 0x1_0000_0000_0000_0000) by (nonlinear_arith)
            requires
                near <= usize::MAX,
                near >= 0,
                gravity <= 100,
        ;
        vstd::arithmetic::div_mod::lemma_div_is_ordered(
            (gravity as int) * 2 * (near as int),
            (gravity as int) * (span as int),
            span as int,
        );
        vstd::arithmetic::div_mod::lemma_div_multiples_vanish(gravity as int, span as int);
    }
    let scaled: u128 = (gravity as u128) * 2 * (near as u128) / (span as u128);
    proof {
        assert(near as int == min_int(current - start, end - current));
        assert(span as int == (end - start) as int);
        assert(scaled as int == (gravity as int) * 2 * (near as int) / (span as int));
        assert((gravity as int) * (span as int) == (span as int) * (gravity as int)) by (nonlinear_arith);
        assert((gravity as int) * (span as int) / (span as int) == gravity as int);
        assert(scaled <= gravity);
    }
    scaled as u32
}

pub proof fn lemma_pow2_add(a: nat, b: nat)
    ensures
        pow2(a + b) == pow2(a) * pow2(b),
    decreases b,
{
    if b == 0 {
        assert(pow2(0) == 1);
        assert(a + b == a);
    } else {
        lemma_pow2_add(a, (b - 1) as nat);
        assert(pow2(a + b) == 2 * pow2((a + b - 1) as nat));
        assert(pow2(b) == 2 * pow2((b - 1) as nat));
        assert((a + b - 1) as nat == a + (b - 1) as nat);
        assert(pow2(a) * (2 * pow2((b - 1) as nat)) == 2 * (pow2(a) * pow2((b - 1) as nat))) by (nonlinear_arith);
    }
}

/// The bias at `level`: the initial bias halved once per level, rounded down.
pub fn decayed_bias(initial: u32, level: u32) -> (r: u32)
    ensures
        r == (initial as int) / (pow2(level as nat) as int),
        r <= initial,
{
    let mut x: u32 = initial;
    let mut k: u32 = 0;
    while k < level && x > 0
        invariant
            k <= level,
            pow2(k as nat) > 0,
            x == (initial as int) / (pow2(k as nat) as int),
        decreases level - k,
    {
        proof {
            crate::config::lemma_pow2_monotone(0, (k + 1) as nat);
            vstd::arithmetic::div_mod::lemma_div_denominator(initial as int, pow2(k as nat) as int, 2);
            assert(pow2((k + 1) as nat) == pow2(k as nat) * 2);
        }
        x = x / 2;
        k = k + 1;
    }
    proof {
        if k < level {
            let rest = (level - k) as nat;
            lemma_pow2_add(k as nat, rest);
            crate::config::lemma_pow2_monotone(0, rest);
            vstd::arithmetic::div_mod::lemma_div_denominator(initial as int, pow2(k as nat) as int, pow2(rest) as int);
            assert(((k as nat) + rest) as nat == level as nat);
        }
        crate::config::lemma_pow2_monotone(0, level as nat);
        vstd::arithmetic::div_mod::lemma_div_is_ordered_by_denominator(
            initial as int,
            1,
            pow2(level as nat) as int,
        );
    }
    x
}

/// The height a draw settles to: the draw kept inside `[low, high]`.
pub fn clamp_height(low: i32, high: i32, drawn: i32) -> (r: i32)
    requires
        low <= high,
    ensures
        r == clamp(drawn as int, low as int, high as int),
{
    if drawn < low {
        low
    } else if drawn > high {
        high
    } else {
        drawn
    }
}

} // verus!
