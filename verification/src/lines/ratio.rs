//! The line-fit evaluator: how far a line must stretch or shrink to reach the
//! target width, and what that costs.
//!
//! A ratio is kept as an exact fraction of two integers. Its cost is counted
//! in whole demerits: the ratio is first cut to whole thousandths, and the
//! cube of that is again cut to a whole number, both toward zero.

use vstd::prelude::*;
use crate::lines::scanner::Breakpoint;

verus! {

/// The adjustment ratio of a line: the share of its stretchability (if it is
/// positive) or of its shrinkability (if it is negative) that the line needs
/// to reach the target width.
#[derive(Debug, Clone, Copy, PartialEq, Eq, Structural)]
pub enum Ratio {
    /// The line is too wide and cannot shrink at all.
    NegInfinity,
    /// The line is too wide: the ratio is `-num / den`.
    Shrink { num: u128, den: u128 },
    /// The line fits or is too narrow: the ratio is `num / den`.
    Stretch { num: u128, den: u128 },
    /// The line is too narrow and cannot stretch at all.
    PosInfinity,
}

impl Ratio {
    /// The ratio is a number: not one of the two infinities.
    pub open spec fn is_finite(self) -> bool {
        self is Shrink || self is Stretch
    }

    /// The numerator of a finite ratio, with its sign.
    pub open spec fn numer(self) -> int {
        match self {
            Ratio::Shrink { num, .. } => -(num as int),
            Ratio::Stretch { num, .. } => num as int,
            _ => 0,
        }
    }

    /// The denominator of a finite ratio.
    pub open spec fn denom(self) -> int {
        match self {
            Ratio::Shrink { den, .. } => den as int,
            Ratio::Stretch { den, .. } => den as int,
            _ => 0,
        }
    }

    /// The ratio is below -1: the line cannot shrink enough.
    pub open spec fn too_tight(self) -> bool {
        match self {
            Ratio::NegInfinity => true,
            Ratio::Shrink { num, den } => num > den,
            _ => false,
        }
    }

    /// The ratio lies between -1 and `ratio_max`, both included.
    pub open spec fn within(self, ratio_max: u16) -> bool {
        &&& self.is_finite()
        &&& self.denom() > 0
        &&& -self.denom() <= self.numer() <= ratio_max * self.denom()
    }

    /// The optimizer may end a line with this ratio: it lies within the
    /// tolerance, or the line is infinitely loose, which is allowed at the
    /// highest cost.
    pub open spec fn admissible(self, ratio_max: u16) -> bool {
        self.within(ratio_max) || self is PosInfinity
    }

    /// The cost of stretching or shrinking by this ratio: 100 times the
    /// cube of its size, and the highest cost of the tolerance for a line
    /// that cannot be adjusted at all.
    pub open spec fn base_demerit(self, ratio_max: u16) -> nat {
        match self {
            Ratio::Shrink { num, den } => cubic_demerit(thousandths(num as nat, den as nat)),
            Ratio::Stretch { num, den } => cubic_demerit(thousandths(num as nat, den as nat)),
            _ => max_base_demerit(ratio_max),
        }
    }

    /// Neither part of the fraction is beyond what the totals of a paragraph
    /// can come to.
    pub open spec fn in_range(self) -> bool {
        self.is_finite() ==> self.denom() <= total_limit() && -total_limit() <= self.numer()
            <= total_limit()
    }

    /// Whether the ratio is below -1.
    pub fn is_too_tight(&self) -> (tight: bool)
        ensures
            tight == self.too_tight(),
    {
        match self {
            Ratio::NegInfinity => true,
            Ratio::Shrink { num, den } => *num > *den,
            _ => false,
        }
    }

    /// Whether the ratio lies between -1 and `ratio_max`.
    pub fn is_within(&self, ratio_max: u16) -> (within: bool)
        ensures
            within == self.within(ratio_max),
    {
        match self {
            Ratio::Shrink { num, den } => *den > 0 && *num <= *den,
            Ratio::Stretch { num, den } => {
                if *den == 0 {
                    false
                } else {
                    let quotient: u128 = *num / *den;
                    let remainder: u128 = *num % *den;
                    let limit: u128 = ratio_max as u128;
                    proof {
                        lemma_quotient_against_limit(*num as int, *den as int, limit as int);
                    }
                    quotient < limit || (quotient == limit && remainder == 0)
                }
            },
            _ => false,
        }
    }

    /// Whether the optimizer may end a line with this ratio.
    pub fn is_admissible(&self, ratio_max: u16) -> (admissible: bool)
        ensures
            admissible == self.admissible(ratio_max),
    {
        match self {
            Ratio::PosInfinity => true,
            _ => self.is_within(ratio_max),
        }
    }

    /// The cost of a line with this ratio.
    pub fn demerit(&self, ratio_max: u16) -> (demerit: u64)
        requires
            self.admissible(ratio_max),
            self.in_range(),
        ensures
            demerit == self.base_demerit(ratio_max),
            demerit <= max_base_demerit(ratio_max),
    {
        proof {
            lemma_base_demerit_bounded(*self, ratio_max);
        }
        match self {
            Ratio::Shrink { num, den } => cube_of_thousandths(*num, *den, 1),
            Ratio::Stretch { num, den } => {
                let limit: u16 = if ratio_max < 1 {
                    1
                } else {
                    ratio_max
                };
                assert(*num <= limit * *den) by (nonlinear_arith)
                    requires
                        *num <= ratio_max * *den,
                        ratio_max <= limit,
                ;
                cube_of_thousandths(*num, *den, limit)
            },
            _ => highest_demerit(ratio_max),
        }
    }
}

/// The largest total that the nodes of one paragraph can add up to: as many
/// nodes as a `Vec` holds, each as wide as a `u32` allows.
pub open spec fn total_limit() -> int {
    usize::MAX * u32::MAX
}

/// `num / den` in whole thousandths, cut toward zero.
pub open spec fn thousandths(num: nat, den: nat) -> nat {
    if den == 0 {
        0
    } else {
        (1000 * num) / den
    }
}

/// 100 times the cube of a ratio of `t` thousandths, cut toward zero.
pub open spec fn cubic_demerit(t: nat) -> nat {
    (100 * (t * t * t)) / 1_000_000_000
}

/// The cost of the loosest ratio that a tolerance of `ratio_max` accepts, or
/// of the tightest one (-1), whichever costs more.
pub open spec fn max_base_demerit(ratio_max: u16) -> nat {
    if ratio_max < 1 {
        100
    } else {
        (100 * (ratio_max * ratio_max * ratio_max)) as nat
    }
}

/// The adjustment ratio of the line that starts at `from` and ends at `to`.
pub open spec fn line_ratio(from: Breakpoint, to: Breakpoint, target_width: u32) -> Ratio {
    let line_width = to.total_width - from.total_width;
    let stretch = to.total_stretchability - from.total_stretchability;
    let shrink = to.total_shrinkability - from.total_shrinkability;
    if line_width < target_width {
        if stretch <= 0 {
            Ratio::PosInfinity
        } else {
            Ratio::Stretch { num: (target_width - line_width) as u128, den: stretch as u128 }
        }
    } else if line_width > target_width {
        if shrink <= 0 {
            Ratio::NegInfinity
        } else {
            Ratio::Shrink { num: (line_width - target_width) as u128, den: shrink as u128 }
        }
    } else {
        Ratio::Stretch { num: 0, den: 1 }
    }
}

/// Comparing a fraction with a whole number by its quotient and remainder.
proof fn lemma_quotient_against_limit(num: int, den: int, limit: int)
    requires
        0 <= num,
        0 < den,
        0 <= limit,
    ensures
        num <= limit * den <==> (num / den < limit || (num / den == limit && num % den == 0)),
{
    let q = num / den;
    let r = num % den;
    vstd::arithmetic::div_mod::lemma_fundamental_div_mod(num, den);
    vstd::arithmetic::div_mod::lemma_mod_bound(num, den);
    assert(num == den * q + r);
    if q < limit {
        assert(den * q + r <= limit * den) by (nonlinear_arith)
            requires
                q + 1 <= limit,
                0 <= r < den,
        ;
    } else if q == limit {
        assert(den * q == limit * den) by (nonlinear_arith)
            requires
                q == limit,
        ;
    } else {
        assert(den * q + r > limit * den) by (nonlinear_arith)
            requires
                q >= limit + 1,
                0 <= r,
                0 < den,
        ;
    }
}

/// A ratio of at most `limit` has a cost of at most 100 times the cube of
/// `limit`.
proof fn lemma_cubic_demerit_bounded(num: nat, den: nat, limit: nat)
    requires
        0 < den,
        num <= limit * den,
    ensures
        thousandths(num, den) <= 1000 * limit,
        cubic_demerit(thousandths(num, den)) <= 100 * (limit * limit * limit),
{
    let t = thousandths(num, den);
    assert(1000 * num <= (1000 * limit) * den) by (nonlinear_arith)
        requires
            num <= limit * den,
    ;
    vstd::arithmetic::div_mod::lemma_div_is_ordered(
        (1000 * num) as int,
        ((1000 * limit) * den) as int,
        den as int,
    );
    vstd::arithmetic::div_mod::lemma_div_multiples_vanish((1000 * limit) as int, den as int);
    assert(((1000 * limit) * den) == den * (1000 * limit)) by (nonlinear_arith);
    assert(t <= 1000 * limit);
    let bound = 1000 * limit;
    assert(t * t * t <= bound * bound * bound) by (nonlinear_arith)
        requires
            0 <= t <= bound,
    ;
    assert(100 * (bound * bound * bound) == (100 * (limit * limit * limit)) * 1_000_000_000)
        by (nonlinear_arith)
        requires
            bound == 1000 * limit,
    ;
    vstd::arithmetic::div_mod::lemma_div_is_ordered(
        (100 * (t * t * t)) as int,
        (100 * (bound * bound * bound)) as int,
        1_000_000_000,
    );
    vstd::arithmetic::div_mod::lemma_div_multiples_vanish(
        (100 * (limit * limit * limit)) as int,
        1_000_000_000,
    );
    assert((100 * (limit * limit * limit)) * 1_000_000_000 == 1_000_000_000 * (100 * (limit
        * limit * limit))) by (nonlinear_arith);
}

/// No admissible ratio costs more than the highest cost of the tolerance.
pub proof fn lemma_base_demerit_bounded(ratio: Ratio, ratio_max: u16)
    requires
        ratio.admissible(ratio_max),
    ensures
        ratio.base_demerit(ratio_max) <= max_base_demerit(ratio_max),
        max_base_demerit(ratio_max) <= 100 * (u16::MAX * u16::MAX * u16::MAX),
{
    let limit: nat = if ratio_max < 1 {
        1
    } else {
        ratio_max as nat
    };
    assert(100 * (limit * limit * limit) == max_base_demerit(ratio_max)) by (nonlinear_arith)
        requires
            limit == if ratio_max < 1 {
                1
            } else {
                ratio_max as nat
            },
            max_base_demerit(ratio_max) == if ratio_max < 1 {
                100
            } else {
                (100 * (ratio_max * ratio_max * ratio_max)) as nat
            },
    ;
    assert(limit * limit * limit <= u16::MAX * u16::MAX * u16::MAX) by (nonlinear_arith)
        requires
            0 <= limit <= u16::MAX,
    ;
    match ratio {
        Ratio::Shrink { num, den } => {
            lemma_cubic_demerit_bounded(num as nat, den as nat, 1);
            assert(1 * 1 * 1 <= limit * limit * limit) by (nonlinear_arith)
                requires
                    1 <= limit,
            ;
        },
        Ratio::Stretch { num, den } => {
            assert(num <= limit * den) by (nonlinear_arith)
                requires
                    num <= ratio_max * den,
                    ratio_max <= limit,
                    0 <= den,
            ;
            lemma_cubic_demerit_bounded(num as nat, den as nat, limit);
        },
        _ => {},
    }
}

/// The cost of the finite ratio `num / den`, which is at most `limit`.
fn cube_of_thousandths(num: u128, den: u128, limit: u16) -> (demerit: u64)
    requires
        0 < den <= total_limit(),
        num <= limit * den,
        1 <= limit,
    ensures
        demerit == cubic_demerit(thousandths(num as nat, den as nat)),
{
    proof {
        lemma_cubic_demerit_bounded(num as nat, den as nat, limit as nat);
        assert(limit * den <= u16::MAX * total_limit()) by (nonlinear_arith)
            requires
                0 <= limit <= u16::MAX,
                0 <= den <= total_limit(),
        ;
        assert(total_limit() <= 0xffff_ffff_ffff_ffff * 0xffff_ffff) by (nonlinear_arith)
            requires
                total_limit() == usize::MAX * u32::MAX,
                usize::MAX <= 0xffff_ffff_ffff_ffff,
                u32::MAX == 0xffff_ffff,
        ;
    }
    let t: u128 = (1000 * num) / den;
    proof {
        assert(t * t * t <= (1000 * limit) * (1000 * limit) * (1000 * limit)) by (nonlinear_arith)
            requires
                0 <= t <= 1000 * limit,
        ;
        assert((1000 * limit) * (1000 * limit) * (1000 * limit) <= 65_535_000 * 65_535_000
            * 65_535_000) by (nonlinear_arith)
            requires
                0 <= limit <= 65_535,
        ;
        assert(t * t <= 65_535_000 * 65_535_000) by (nonlinear_arith)
            requires
                0 <= t <= 65_535_000,
        ;
        assert(limit * limit * limit <= 65_535 * 65_535 * 65_535) by (nonlinear_arith)
            requires
                0 <= limit <= 65_535,
        ;
    }
    let cube: u128 = t * t * t;
    let demerit: u128 = (100 * cube) / 1_000_000_000;
    demerit as u64
}

/// The highest cost of the tolerance.
fn highest_demerit(ratio_max: u16) -> (demerit: u64)
    ensures
        demerit == max_base_demerit(ratio_max),
{
    if ratio_max < 1 {
        100
    } else {
        let limit: u64 = ratio_max as u64;
        proof {
            assert(limit * limit <= 65_535 * 65_535) by (nonlinear_arith)
                requires
                    0 <= limit <= 65_535,
            ;
            assert(limit * limit * limit <= 65_535 * 65_535 * 65_535) by (nonlinear_arith)
                requires
                    0 <= limit <= 65_535,
            ;
        }
        100 * (limit * limit * limit)
    }
}

/// The adjustment ratio of the line from `from` to `to`: how far the line
/// must stretch (a positive ratio) or shrink (a negative one) to be
/// `target_width` wide, as a share of what it can stretch or shrink. A line
/// that is too narrow and has no stretch is infinitely loose; one that is
/// too wide and has no shrink is infinitely tight.
pub fn adjustment_ratio(from: &Breakpoint, to: &Breakpoint, target_width: u32) -> (ratio: Ratio)
    requires
        from.precedes(*to),
    ensures
        ratio == line_ratio(*from, *to, target_width),
{
    let line_width: u128 = to.total_width - from.total_width;
    let target: u128 = target_width as u128;
    if line_width < target {
        let stretch: u128 = to.total_stretchability - from.total_stretchability;
        if stretch == 0 {
            Ratio::PosInfinity
        } else {
            Ratio::Stretch { num: target - line_width, den: stretch }
        }
    } else if line_width > target {
        let shrink: u128 = to.total_shrinkability - from.total_shrinkability;
        if shrink == 0 {
            Ratio::NegInfinity
        } else {
            Ratio::Shrink { num: line_width - target, den: shrink }
        }
    } else {
        Ratio::Stretch { num: 0, den: 1 }
    }
}

} // verus!
