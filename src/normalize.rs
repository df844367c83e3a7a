//! Affine rescaling of a finished grid into a target range.
use vstd::prelude::*;
use crate::grid::Grid;
use crate::sampling::{seq_max, seq_min};

verus! {

/// The affine map that sends `lo` to `tmin` and `hi` to `tmax`, rounding down;
/// a flat range `lo == hi` goes to `tmin`.
pub open spec fn rescale(v: int, lo: int, hi: int, tmin: int, tmax: int) -> int {
    if lo == hi {
        tmin
    } else {
        (v - lo) * (tmax - tmin) / (hi - lo) + tmin
    }
}

/// What stretching leaves in a flat store: unchanged when its extremes already
/// are `tmin` and `tmax`, else every value rescaled.
pub open spec fn stretched(s: Seq<i32>, tmin: int, tmax: int) -> Seq<i32> {
    if s.len() == 0 || (seq_min(s) == tmin && seq_max(s) == tmax) {
        s
    } else {
        s.map_values(|v: i32| rescale(v as int, seq_min(s), seq_max(s), tmin, tmax) as i32)
    }
}

pub(crate) proof fn lemma_extremes(s: Seq<i32>)
    requires
        s.len() >= 1,
    ensures
        forall|i: int| 0 <= i < s.len() ==> seq_min(s) <= #[trigger] s[i] <= seq_max(s),
        exists|i: int| 0 <= i < s.len() && s[i] == seq_min(s),
        exists|i: int| 0 <= i < s.len() && s[i] == seq_max(s),
    decreases s.len(),
{
    if s.len() > 1 {
        let t = s.drop_last();
        lemma_extremes(t);
        assert forall|i: int| 0 <= i < s.len() implies seq_min(s) <= #[trigger] s[i] <= seq_max(s) by {
            if i < t.len() {
                assert(t[i] == s[i]);
            }
        }
        let a = choose|i: int| 0 <= i < t.len() && t[i] == seq_min(t);
        let b = choose|i: int| 0 <= i < t.len() && t[i] == seq_max(t);
        assert(s[a] == t[a]);
        assert(s[b] == t[b]);
        if seq_min(s) != seq_min(t) {
            assert(s[s.len() - 1] == seq_min(s));
        }
        if seq_max(s) != seq_max(t) {
            assert(s[s.len() - 1] == seq_max(s));
        }
    } else {
        assert(s[0] == seq_min(s));
    }
}

/// A value that bounds every element from below and occurs is the minimum; likewise the maximum.
proof fn lemma_extreme_unique(s: Seq<i32>, lo: int, hi: int)
    requires
        s.len() >= 1,
        forall|i: int| 0 <= i < s.len() ==> lo <= #[trigger] s[i] <= hi,
        exists|i: int| 0 <= i < s.len() && s[i] == lo,
        exists|i: int| 0 <= i < s.len() && s[i] == hi,
    ensures
        seq_min(s) == lo,
        seq_max(s) == hi,
{
    lemma_extremes(s);
    let a = choose|i: int| 0 <= i < s.len() && s[i] == lo;
    let b = choose|i: int| 0 <= i < s.len() && s[i] == hi;
    let c = choose|i: int| 0 <= i < s.len() && s[i] == seq_min(s);
    let d = choose|i: int| 0 <= i < s.len() && s[i] == seq_max(s);
    assert(s[c] >= lo);
    assert(s[d] <= hi);
}

proof fn lemma_rescale_monotone(v1: int, v2: int, lo: int, hi: int, tmin: int, tmax: int)
    requires
        lo <= v1 <= v2 <= hi,
        tmin <= tmax,
    ensures
        tmin <= rescale(v1, lo, hi, tmin, tmax) <= rescale(v2, lo, hi, tmin, tmax) <= tmax,
        rescale(lo, lo, hi, tmin, tmax) == tmin,
        lo < hi ==> rescale(hi, lo, hi, tmin, tmax) == tmax,
{
    if lo < hi {
        let k = tmax - tmin;
        let w = hi - lo;
        assert(0 <= (v1 - lo) * k <= (v2 - lo) * k <= w * k) by (nonlinear_arith)
            requires
                0 <= v1 - lo <= v2 - lo <= w,
                0 <= k,
        ;
        vstd::arithmetic::div_mod::lemma_div_is_ordered((v1 - lo) * k, (v2 - lo) * k, w);
        vstd::arithmetic::div_mod::lemma_div_is_ordered((v2 - lo) * k, w * k, w);
        vstd::arithmetic::div_mod::lemma_div_is_ordered(0, (v1 - lo) * k, w);
        assert(w * k == k * w) by (nonlinear_arith);
        vstd::arithmetic::div_mod::lemma_div_multiples_vanish(k, w);
        assert((lo - lo) * k == 0);
    }
}

/// Stretching twice is stretching once; and a store that is not flat (or a
/// target that is one value) ends with its minimum at `tmin` and its maximum at `tmax`.
pub proof fn lemma_stretch_laws(s: Seq<i32>, tmin: int, tmax: int)
    requires
        i32::MIN <= tmin <= tmax <= i32::MAX,
    ensures
        stretched(stretched(s, tmin, tmax), tmin, tmax) == stretched(s, tmin, tmax),
        s.len() >= 1 && (seq_min(s) < seq_max(s) || tmin == tmax) ==> seq_min(stretched(s, tmin, tmax))
            == tmin && seq_max(stretched(s, tmin, tmax)) == tmax,
        forall|i: int|
            0 <= i < s.len() && !(seq_min(s) == tmin && seq_max(s) == tmax) ==> tmin
                <= #[trigger] stretched(s, tmin, tmax)[i] <= tmax,
{
    if s.len() >= 1 && !(seq_min(s) == tmin && seq_max(s) == tmax) {
        let lo = seq_min(s);
        let hi = seq_max(s);
        let t = stretched(s, tmin, tmax);
        lemma_extremes(s);
        assert forall|i: int| 0 <= i < t.len() implies tmin <= #[trigger] t[i] <= tmax
            && t[i] == rescale(s[i] as int, lo, hi, tmin, tmax) by {
            lemma_rescale_monotone(s[i] as int, s[i] as int, lo, hi, tmin, tmax);
        }
        if lo < hi || tmin == tmax {
            let a = choose|i: int| 0 <= i < s.len() && s[i] == lo;
            let b = choose|i: int| 0 <= i < s.len() && s[i] == hi;
            lemma_rescale_monotone(lo, lo, lo, hi, tmin, tmax);
            lemma_rescale_monotone(hi, hi, lo, hi, tmin, tmax);
            assert(t[a] == tmin);
            assert(t[b] == tmax);
            lemma_extreme_unique(t, tmin, tmax);
        } else {
            assert forall|i: int| 0 <= i < t.len() implies #[trigger] t[i] == tmin by {}
            assert(t[0] == tmin);
            lemma_extreme_unique(t, tmin, tmin);
            assert(t.map_values(|v: i32| rescale(v as int, tmin, tmin, tmin, tmax) as i32) =~= t);
        }
    }
}

/// The rescaled value of `v` (see `rescale`).
fn rescale_value(v: i32, lo: i32, hi: i32, tmin: i32, tmax: i32) -> (r: i32)
    requires
        lo <= v <= hi,
        tmin <= tmax,
    ensures
        r == rescale(v as int, lo as int, hi as int, tmin as int, tmax as int),
{
    proof {
        lemma_rescale_monotone(v as int, v as int, lo as int, hi as int, tmin as int, tmax as int);
    }
    if lo == hi {
        return tmin;
    }
    let off: u64 = (v as i64 - lo as i64) as u64;
    let k: u64 = (tmax as i64 - tmin as i64) as u64;
    let w: u64 = (hi as i64 - lo as i64) as u64;
    proof {
        assert((off as int) * (k as int) <= 0x1_0000_0000 * 0x1_0000_0000) by (nonlinear_arith)
            requires
                0 <= off <= 0x1_0000_0000,
                0 <= k <= 0x1_0000_0000,
        ;
    }
    let q: u128 = (off as u128) * (k as u128) / (w as u128);
    (q as i64 + tmin as i64) as i32
}

/// Rescales every value of `grid` affinely so that its extremes become
/// `target_min` and `target_max`; leaves it alone when they already are.
pub fn stretch(grid: &mut Grid<i32>, target_min: i32, target_max: i32)
    requires
        target_min <= target_max,
    ensures
        final(grid).values() == stretched(old(grid).values(), target_min as int, target_max as int),
        final(grid).nrows() == old(grid).nrows(),
        final(grid).ncols() == old(grid).ncols(),
        final(grid).orient() == old(grid).orient(),
{
    let n = grid.len();
    if n == 0 {
        return;
    }
    let ghost s = grid.values();
    let mut lo: i32 = grid.get_flat(0);
    let mut hi: i32 = lo;
    let mut i: usize = 1;
    while i < n
        invariant
            s == grid.values(),
            n == s.len(),
            1 <= i <= n,
            lo == seq_min(s.subrange(0, i as int)),
            hi == seq_max(s.subrange(0, i as int)),
        decreases n - i,
    {
        proof {
            assert(s.subrange(0, i + 1).drop_last() =~= s.subrange(0, i as int));
        }
        let v = grid.get_flat(i);
        if v < lo {
            lo = v;
        }
        if v > hi {
            hi = v;
        }
        i = i + 1;
    }
    proof {
        assert(s.subrange(0, n as int) =~= s);
        lemma_extremes(s);
    }
    if lo == target_min && hi == target_max {
        return;
    }
    let mut j: usize = 0;
    while j < n
        invariant
            n == s.len(),
            grid.values().len() == n,
            grid.nrows() == old(grid).nrows(),
            grid.ncols() == old(grid).ncols(),
            grid.orient() == old(grid).orient(),
            s == old(grid).values(),
            lo == seq_min(s),
            hi == seq_max(s),
            target_min <= target_max,
            forall|k: int| 0 <= k < s.len() ==> lo <= #[trigger] s[k] <= hi,
            forall|k: int|
                0 <= k < j ==> #[trigger] grid.values()[k] == rescale(
                    s[k] as int,
                    lo as int,
                    hi as int,
                    target_min as int,
                    target_max as int,
                ) as i32,
            forall|k: int| j <= k < n ==> #[trigger] grid.values()[k] == s[k],
        decreases n - j,
    {
        let v = grid.get_flat(j);
        let r = rescale_value(v, lo, hi, target_min, target_max);
        grid.set_flat(j, r);
        j = j + 1;
    }
    proof {
        assert(grid.values() =~= stretched(s, target_min as int, target_max as int));
    }
}

} // verus!
