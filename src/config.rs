//! Generation parameters and their validation.
use vstd::prelude::*;

verus! {

/// Largest number of halvings a grid may take: sides are at most `2^15 + 1`.
pub const MAX_LEVELS: u32 = 15;

pub open spec fn pow2(k: nat) -> nat
    decreases k,
{
    if k == 0 {
        1
    } else {
        2 * pow2((k - 1) as nat)
    }
}

pub proof fn lemma_pow2_monotone(a: nat, b: nat)
    requires
        a <= b,
    ensures
        1 <= pow2(a) <= pow2(b),
    decreases b,
{
    if b > 0 {
        if a < b {
            lemma_pow2_monotone(a, (b - 1) as nat);
        } else {
            lemma_pow2_monotone((a - 1) as nat, (b - 1) as nat);
        }
    }
}

pub proof fn lemma_pow2_max_levels()
    ensures
        pow2(MAX_LEVELS as nat) == 0x8000,
{
    reveal_with_fuel(pow2, 16);
}

/// Whether `n` has the form `2^k + 1` with at most `MAX_LEVELS` halvings.
pub open spec fn is_side(n: int) -> bool {
    exists|k: nat| k <= MAX_LEVELS && n == pow2(k) + 1
}

/// A large-scale bias that pulls coarse displacement toward a target height.
#[derive(Debug, Clone, Copy, PartialEq, Eq, Structural)]
pub struct Gravity {
    /// The height that coarse levels are pulled toward.
    pub target: i32,
    /// Pull at the coarsest level, in percent of the way to the target.
    pub strength: u32,
}

/// Parameters of one generation run.
#[derive(Debug, Clone, Copy)]
pub struct Config {
    pub max_height: i32,
    pub min_height: i32,
    /// Largest height change per cell of distance.
    pub max_slope: u32,
    /// `(rows, cols)`.
    pub size: (usize, usize),
    pub margin_width: usize,
    pub margin_height: i32,
    pub n_hi: usize,
    pub hi_min: i32,
    pub hi_max: i32,
    pub n_lo: usize,
    pub lo_min: i32,
    pub lo_max: i32,
    /// Per-level decay of the perturbation scale, in percent.
    pub roughness: u32,
    pub gravity: Option<Gravity>,
}

/// Why a configuration cannot drive a generation run.
#[derive(Debug, Clone, Copy, PartialEq, Eq, Structural)]
pub enum ConfigError {
    /// The grid is not square with a side of the form `2^n + 1`.
    SizeNotPowerOfTwoPlusOne,
    /// The margins leave no interior cell.
    MarginTooWide,
    /// `min_height > max_height`.
    HeightRangeInverted,
    /// The margin height lies outside `[min_height, max_height]`.
    MarginHeightOutOfRange,
    /// The height range of a requested kind of guide point is inverted.
    GuideRangeInverted,
    /// The height range of a requested kind of guide point misses `[min_height, max_height]`.
    GuideRangeOutOfReach,
    /// Roughness above one hundred percent.
    RoughnessOutOfRange,
    /// Gravity strength above one hundred percent, or a target out of range.
    GravityOutOfRange,
}

/// The first rule that `c` breaks, if any.
pub open spec fn config_error(c: Config) -> Option<ConfigError> {
    if c.size.0 != c.size.1 || !is_side(c.size.0 as int) {
        Some(ConfigError::SizeNotPowerOfTwoPlusOne)
    } else if 2 * c.margin_width > c.size.0 - 1 {
        Some(ConfigError::MarginTooWide)
    } else if c.min_height > c.max_height {
        Some(ConfigError::HeightRangeInverted)
    } else if c.margin_height < c.min_height || c.margin_height > c.max_height {
        Some(ConfigError::MarginHeightOutOfRange)
    } else if (c.n_hi > 0 && c.hi_min > c.hi_max) || (c.n_lo > 0 && c.lo_min > c.lo_max) {
        Some(ConfigError::GuideRangeInverted)
    } else if (c.n_hi > 0 && (c.hi_max < c.min_height || c.hi_min > c.max_height)) || (c.n_lo > 0 && (
    c.lo_max < c.min_height || c.lo_min > c.max_height)) {
        Some(ConfigError::GuideRangeOutOfReach)
    } else if c.roughness > 100 {
        Some(ConfigError::RoughnessOutOfRange)
    } else if c.gravity matches Some(g) && (g.strength > 100 || g.target < c.min_height || g.target
        > c.max_height) {
        Some(ConfigError::GravityOutOfRange)
    } else {
        None
    }
}

/// The number of halvings `k` with `n == 2^k + 1`, if there is one within `MAX_LEVELS`.
pub fn side_levels(n: usize) -> (r: Option<u32>)
    ensures
        r matches Some(k) ==> k <= MAX_LEVELS && n == pow2(k as nat) + 1,
        r is None ==> !is_side(n as int),
{
    let mut k: u32 = 0;
    let mut p: usize = 1;
    while n >= 2 && k < MAX_LEVELS && p < n - 1
        invariant
            k <= MAX_LEVELS,
            p == pow2(k as nat),
            n >= 2 ==> forall|j: nat| j < k ==> #[trigger] pow2(j) + 1 < n,
        decreases MAX_LEVELS - k,
    {
        proof {
            assert(pow2((k + 1) as nat) == 2 * pow2(k as nat));
            lemma_pow2_monotone(k as nat, MAX_LEVELS as nat);
            lemma_pow2_max_levels();
        }
        p = p * 2;
        k = k + 1;
    }
    if n >= 2 && p == n - 1 {
        return Some(k);
    }
    proof {
        assert forall|j: nat| j <= MAX_LEVELS implies pow2(j) + 1 != n by {
            if n >= 2 {
                if j > k {
                    lemma_pow2_monotone(k as nat, j);
                }
            } else {
                lemma_pow2_monotone(0, j);
            }
        }
    }
    None
}

/// Checks `c`; on success returns the number of halvings of its side.
pub fn check_config(c: &Config) -> (r: Result<u32, ConfigError>)
    ensures
        config_error(*c) matches Some(e) ==> r == Err::<u32, _>(e),
        config_error(*c) is None ==> (r matches Ok(k) && k <= MAX_LEVELS && c.size.0 == pow2(k as nat)
            + 1),
{
    let levels = match side_levels(c.size.0) {
        Some(k) => k,
        None => {
            return Err(ConfigError::SizeNotPowerOfTwoPlusOne);
        },
    };
    if c.size.0 != c.size.1 {
        return Err(ConfigError::SizeNotPowerOfTwoPlusOne);
    }
    proof {
        assert(is_side(c.size.0 as int));
    }
    if c.margin_width > (c.size.0 - 1) / 2 {
        return Err(ConfigError::MarginTooWide);
    }
    if c.min_height > c.max_height {
        return Err(ConfigError::HeightRangeInverted);
    }
    if c.margin_height < c.min_height || c.margin_height > c.max_height {
        return Err(ConfigError::MarginHeightOutOfRange);
    }
    if (c.n_hi > 0 && c.hi_min > c.hi_max) || (c.n_lo > 0 && c.lo_min > c.lo_max) {
        return Err(ConfigError::GuideRangeInverted);
    }
    if (c.n_hi > 0 && (c.hi_max < c.min_height || c.hi_min > c.max_height)) || (c.n_lo > 0 && (c.lo_max
        < c.min_height || c.lo_min > c.max_height)) {
        return Err(ConfigError::GuideRangeOutOfReach);
    }
    if c.roughness > 100 {
        return Err(ConfigError::RoughnessOutOfRange);
    }
    if let Some(g) = c.gravity {
        if g.strength > 100 || g.target < c.min_height || g.target > c.max_height {
            return Err(ConfigError::GravityOutOfRange);
        }
    }
    Ok(levels)
}

impl Config {
    /// A configuration of `height x width` cells with the usual defaults:
    /// heights in `[0, 255]`, slope one, margins of sixteen cells at height zero,
    /// roughness of one half and no gravity.
    pub fn default(
        width: usize,
        height: usize,
        n_hi: usize,
        hi_min: i32,
        hi_max: Option<i32>,
        n_lo: usize,
        lo_min: Option<i32>,
        lo_max: i32,
    ) -> (c: Self)
        ensures
            c.max_height == 255,
            c.min_height == 0,
            c.max_slope == 1,
            c.size == (height, width),
            c.margin_width == 16,
            c.margin_height == 0,
            c.n_hi == n_hi,
            c.hi_min == hi_min,
            c.hi_max == (match hi_max {
                Some(h) => h,
                None => 255,
            }),
            c.n_lo == n_lo,
            c.lo_min == (match lo_min {
                Some(h) => h,
                None => 0,
            }),
            c.lo_max == lo_max,
            c.roughness == 50,
            c.gravity is None,
    {
        Config {
            max_height: 255,
            min_height: 0,
            max_slope: 1,
            size: (height, width),
            margin_width: 16,
            margin_height: 0,
            n_hi,
            hi_min,
            hi_max: match hi_max {
                Some(h) => h,
                None => 255,
            },
            n_lo,
            lo_min: match lo_min {
                Some(h) => h,
                None => 0,
            },
            lo_max,
            roughness: 50,
            gravity: None,
        }
    }
}

} // verus!
