//! One-dimensional height profiles walked between known points, each step
//! bounded by the slope and pulled by a per-segment gravity.
use vstd::prelude::*;
use crate::error::SampleError;
use crate::sampling::{clamp_height, floor_div, gravitated_mode, scale_gravity, Sampler, SeededRng};

verus! {

/// Strongest pull of a segment toward its low side, in percent.
pub const LO_GRAV: i64 = 90;

/// Strongest pull of a segment toward its high side, in percent (negative).
pub const HI_GRAV: i64 = -40;

/// Why a profile could not be walked.
#[derive(Debug, Clone, Copy, PartialEq, Eq, Structural)]
pub enum ProfileError {
    /// The first position holds no height.
    MissingStart,
    /// The last position holds no height, so the final segment has no end.
    MissingEnd,
    /// A step found no legal height.
    Sample(SampleError),
}

/// Whether every position holds a height, consecutive heights differ by at
/// most `slope`, and every height after the first lies in `[gmin, gmax]`.
pub open spec fn walked(p: Seq<Option<i32>>, slope: int, gmin: int, gmax: int) -> bool {
    &&& forall|x: int| 0 <= x < p.len() ==> (#[trigger] p[x]) is Some
    &&& forall|x: int| 0 < x < p.len() ==> gmin <= (#[trigger] p[x])->0 <= gmax
    &&& forall|x: int| 0 < x < p.len() ==> -slope <= (#[trigger] p[x])->0 - p[x - 1]->0 <= slope
}

proof fn lemma_walk_extend(before: Seq<Option<i32>>, x: int, next: i32, slope: int, gmin: int, gmax: int)
    requires
        0 <= x < before.len() - 1,
        walked(before.subrange(0, x + 1), slope, gmin, gmax),
        before[x] is Some,
        gmin <= next <= gmax,
        -slope <= next - before[x]->0 <= slope,
    ensures
        walked(before.update(x + 1, Some(next)).subrange(0, x + 2), slope, gmin, gmax),
{
    let p = before.update(x + 1, Some(next)).subrange(0, x + 2);
    let q = before.subrange(0, x + 1);
    assert(p =~= q.push(Some(next)));
    assert forall|k: int| 0 <= k < p.len() implies (#[trigger] p[k]) is Some by {
        if k < q.len() {
            assert(p[k] == q[k]);
        }
    }
    assert forall|k: int| 0 < k < p.len() implies gmin <= (#[trigger] p[k])->0 <= gmax by {
        if k < q.len() {
            assert(p[k] == q[k]);
        }
    }
    assert forall|k: int| 0 < k < p.len() implies -slope <= (#[trigger] p[k])->0 - p[k - 1]->0 <= slope by {
        if k < q.len() {
            assert(p[k] == q[k] && p[k - 1] == q[k - 1]);
        } else {
            assert(p[k - 1] == q[k - 1]);
            assert(q[k - 1] == before[x]);
        }
    }
}

/// Whether a step from `h` can land in `[gmin, gmax]`.
pub open spec fn in_reach(h: int, slope: int, gmin: int, gmax: int) -> bool {
    gmin - slope <= h <= gmax + slope
}

/// A segment's gravity: a draw from `[HI_GRAV, LO_GRAV]` percent.
pub fn get_gravity(rng: &mut SeededRng) -> (g: i32)
    ensures
        HI_GRAV <= g <= LO_GRAV,
{
    rng.draw_between(HI_GRAV, LO_GRAV) as i32
}

/// Index of the first position after `from` that holds a height.
fn next_known(points: &Vec<Option<i32>>, from: usize) -> (r: usize)
    requires
        from < points@.len() - 1,
        points@[points@.len() - 1] is Some,
    ensures
        from < r < points@.len(),
        points@[r as int] is Some,
        forall|k: int| from < k < r ==> (#[trigger] points@[k]) is None,
{
    let n = points.len();
    let mut x: usize = from + 1;
    while points[x].is_none()
        invariant
            n == points@.len(),
            from < x < points@.len(),
            points@[points@.len() - 1] is Some,
            forall|k: int| from < k < x ==> (#[trigger] points@[k]) is None,
        decreases points@.len() - x,
    {
        x = x + 1;
    }
    x
}

/// The height one step after `height` on the way to `goal`, which lies
/// `seg_end - x` steps ahead in the segment `[seg_start, seg_end]`.
fn profile_step<S: Sampler>(
    height: i32,
    goal: i64,
    seg_start: usize,
    x: usize,
    seg_end: usize,
    max_slope: u32,
    gmin: i32,
    gmax: i32,
    strength: u32,
    toward_low: bool,
    sampler: &mut S,
) -> (r: Result<i32, ProfileError>)
    requires
        seg_start <= x < seg_end,
        gmin <= gmax,
        strength <= 100,
        i32::MIN <= goal <= i32::MAX,
    ensures
        r matches Ok(v) ==> gmin <= v <= gmax && -(max_slope as int) <= v - height <= max_slope,
        r matches Err(e) ==> e == ProfileError::Sample(SampleError::InvertedRange),
        in_reach(height as int, max_slope as int, gmin as int, gmax as int) <==> r is Ok,
{
    let s = max_slope as i64;
    let h = height as i64;
    let lo: i64 = if h - s > gmin as i64 {
        h - s
    } else {
        gmin as i64
    };
    let hi: i64 = if h + s < gmax as i64 {
        h + s
    } else {
        gmax as i64
    };
    if lo > hi {
        return Err(ProfileError::Sample(SampleError::InvertedRange));
    }
    let low = lo as i32;
    let high = hi as i32;
    if low == high {
        return Ok(low);
    }
    // Any distance beyond 2^33 exceeds every possible rise, so capping it
    // there leaves the rounded-down quotient unchanged.
    let gap = (seg_end - x) as u64;
    let distance: i64 = if gap > 0x2_0000_0000 {
        0x2_0000_0000
    } else {
        gap as i64
    };
    let rise = goal - h;
    let step = floor_div(rise, distance);
    proof {
        let q = (rise as int) / (distance as int);
        let m = (rise as int) % (distance as int);
        vstd::arithmetic::div_mod::lemma_fundamental_div_mod(rise as int, distance as int);
        vstd::arithmetic::div_mod::lemma_mod_bound(rise as int, distance as int);
        assert(-0x1_0000_0000 <= q <= 0x1_0000_0000) by (nonlinear_arith)
            requires
                rise == distance * q + m,
                0 <= m < distance,
                1 <= distance,
                -0x1_0000_0000 <= rise <= 0x1_0000_0000,
        ;
    }
    let ideal_wide = h + step;
    let ideal: i32 = if ideal_wide < low as i64 {
        low
    } else if ideal_wide > high as i64 {
        high
    } else {
        ideal_wide as i32
    };
    let pull = scale_gravity(strength, seg_start, x, seg_end);
    let target = if toward_low {
        low
    } else {
        high
    };
    let mode = gravitated_mode(low, high, ideal, target, pull);
    let drawn = sampler.sample(low, high, mode, max_slope);
    Ok(clamp_height(low, high, drawn))
}

/// Fills every gap of `points` by walking from each known height toward the
/// next one: each step stays within `max_slope` of the previous height and
/// inside `[gmin, gmax]`, its mode aims straight at the segment's goal and is
/// pulled by the segment's gravity, strongest mid-segment. Known heights after
/// the first serve as goals and are overwritten by the walk.
pub fn walk_profile<S: Sampler>(
    points: &mut Vec<Option<i32>>,
    max_slope: u32,
    gmin: i32,
    gmax: i32,
    rng: &mut SeededRng,
    sampler: &mut S,
) -> (r: Result<(), ProfileError>)
    requires
        old(points)@.len() >= 1,
        gmin <= gmax,
    ensures
        final(points)@.len() == old(points)@.len(),
        old(points)@[0] is None ==> r == Err::<(), _>(ProfileError::MissingStart),
        old(points)@[0] is Some && old(points)@.last() is None ==> r == Err::<(), _>(
            ProfileError::MissingEnd,
        ),
        r is Ok ==> walked(final(points)@, max_slope as int, gmin as int, gmax as int),
        r is Ok ==> final(points)@[0] == old(points)@[0],
        r matches Err(e) ==> (e is Sample ==> e == ProfileError::Sample(SampleError::InvertedRange)),
        (old(points)@[0] matches Some(h0) && old(points)@.last() is Some && in_reach(
            h0 as int,
            max_slope as int,
            gmin as int,
            gmax as int,
        )) ==> r is Ok,
        r matches Err(ProfileError::Sample(_)) ==> (old(points)@[0] matches Some(h0) && !in_reach(
            h0 as int,
            max_slope as int,
            gmin as int,
            gmax as int,
        )),
{
    let n = points.len();
    let start = match points[0] {
        Some(h) => h,
        None => {
            return Err(ProfileError::MissingStart);
        },
    };
    if points[n - 1].is_none() {
        return Err(ProfileError::MissingEnd);
    }
    let ghost orig = points@;
    let s = max_slope as i64;
    let mut seg_start: usize = 0;
    while seg_start < n - 1
        invariant
            orig == old(points)@,
            n == points@.len(),
            n == orig.len(),
            n >= 1,
            seg_start < n,
            gmin <= gmax,
            points@[0] == orig[0],
            orig[0] == Some(start),
            s == max_slope,
            points@[seg_start as int] matches Some(hs) && (in_reach(start as int, max_slope as int, gmin as int, gmax as int)
                ==> in_reach(hs as int, max_slope as int, gmin as int, gmax as int)),
            seg_start == 0 ==> points@[0] == Some(start),
            points@[n - 1] is Some,
            walked(points@.subrange(0, seg_start + 1), max_slope as int, gmin as int, gmax as int),
            forall|k: int| seg_start < k < n ==> #[trigger] points@[k] == orig[k],
        decreases n - seg_start,
    {
        let seg_end = next_known(points, seg_start);
        let goal: i64 = match points[seg_end] {
            Some(h) => h as i64,
            None => 0,
        };
        let gravity = get_gravity(rng);
        let pull_toward_low = gravity >= 0;
        let strength: u32 = if gravity >= 0 {
            gravity as u32
        } else {
            (-gravity) as u32
        };
        let mut height: i32 = match points[seg_start] {
            Some(h) => h,
            None => start,
        };
        proof {
            assert(points@.subrange(0, seg_start + 1)[seg_start as int] == points@[seg_start as int]);
        }
        let mut x: usize = seg_start;
        while x < seg_end
            invariant
                orig == old(points)@,
                orig[0] == Some(start),
                i32::MIN <= goal <= i32::MAX,
                n == points@.len(),
                n == orig.len(),
                seg_start <= x <= seg_end < n,
                gmin <= gmax,
                s == max_slope,
                strength <= 100,
                points@[0] == orig[0],
                points@[n - 1] is Some || x < n - 1,
                seg_end < n - 1 ==> points@[n - 1] is Some,
                points@[x as int] == Some(height),
                in_reach(start as int, max_slope as int, gmin as int, gmax as int) ==> in_reach(height as int, max_slope as int, gmin as int, gmax as int),
                x == 0 ==> height == start,
                walked(points@.subrange(0, x + 1), max_slope as int, gmin as int, gmax as int),
                forall|k: int| x < k < n ==> #[trigger] points@[k] == orig[k],
                orig[n - 1] is Some,
            decreases seg_end - x,
        {
            let next = match profile_step(
                height,
                goal,
                seg_start,
                x,
                seg_end,
                max_slope,
                gmin,
                gmax,
                strength,
                pull_toward_low,
                sampler,
            ) {
                Ok(v) => v,
                Err(e) => {
                    return Err(e);
                },
            };
            let ghost before = points@;
            points.set(x + 1, Some(next));
            proof {
                lemma_walk_extend(before, x as int, next, max_slope as int, gmin as int, gmax as int);
                assert(points@ == before.update(x + 1, Some(next)));
            }
            height = next;
            x = x + 1;
        }
        seg_start = seg_end;
    }
    proof {
        assert(points@.subrange(0, n as int) =~= points@);
    }
    Ok(())
}

} // verus!
