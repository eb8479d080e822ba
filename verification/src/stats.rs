//! The per-key running statistic: minimum, maximum, sum and count of all
//! values folded in so far, held as exact integer tenths.

use vstd::prelude::*;

verus! {

/// Largest magnitude, in tenths, that a parsed value may have.
pub const MAX_ABS_TENTHS: i64 = 999_999_999_999_999;

/// Mathematical content of a running statistic, with unbounded integers.
pub ghost struct StatModel {
    pub min: int,
    pub max: int,
    pub sum: int,
    pub count: int,
}

/// Well-formedness: at least one observation, ordered extrema within the
/// value range, and a sum bracketed by `count * min` and `count * max`.
pub open spec fn stat_wf(s: StatModel) -> bool {
    &&& 1 <= s.count
    &&& -(MAX_ABS_TENTHS as int) <= s.min
    &&& s.min <= s.max
    &&& s.max <= MAX_ABS_TENTHS as int
    &&& s.count * s.min <= s.sum
    &&& s.sum <= s.count * s.max
}

/// The statistic recording a single observation `v`.
pub open spec fn stat_of(v: int) -> StatModel {
    StatModel { min: v, max: v, sum: v, count: 1 }
}

pub open spec fn min_i(a: int, b: int) -> int {
    if a <= b {
        a
    } else {
        b
    }
}

pub open spec fn max_i(a: int, b: int) -> int {
    if a >= b {
        a
    } else {
        b
    }
}

/// Pairwise combine rule: the statistic of the union of two observation
/// multisets.
pub open spec fn stat_combine(a: StatModel, b: StatModel) -> StatModel {
    StatModel {
        min: min_i(a.min, b.min),
        max: max_i(a.max, b.max),
        sum: a.sum + b.sum,
        count: a.count + b.count,
    }
}

/// Combining preserves well-formedness.
pub proof fn lemma_combine_wf(a: StatModel, b: StatModel)
    requires
        stat_wf(a),
        stat_wf(b),
    ensures
        stat_wf(stat_combine(a, b)),
{
    let c = stat_combine(a, b);
    assert(a.count * c.min <= a.count * a.min) by (nonlinear_arith)
        requires
            c.min <= a.min,
            a.count >= 0,
    ;
    assert(b.count * c.min <= b.count * b.min) by (nonlinear_arith)
        requires
            c.min <= b.min,
            b.count >= 0,
    ;
    assert(c.count * c.min == a.count * c.min + b.count * c.min) by (nonlinear_arith)
        requires
            c.count == a.count + b.count,
    ;
    assert(a.count * a.max <= a.count * c.max) by (nonlinear_arith)
        requires
            a.max <= c.max,
            a.count >= 0,
    ;
    assert(b.count * b.max <= b.count * c.max) by (nonlinear_arith)
        requires
            b.max <= c.max,
            b.count >= 0,
    ;
    assert(c.count * c.max == a.count * c.max + b.count * c.max) by (nonlinear_arith)
        requires
            c.count == a.count + b.count,
    ;
}

/// The combine rule is commutative.
pub proof fn lemma_combine_comm(a: StatModel, b: StatModel)
    ensures
        stat_combine(a, b) == stat_combine(b, a),
{
}

/// The combine rule is associative.
pub proof fn lemma_combine_assoc(a: StatModel, b: StatModel, c: StatModel)
    ensures
        stat_combine(stat_combine(a, b), c) == stat_combine(a, stat_combine(b, c)),
{
}

/// Executable running statistic. `sum` is wide enough that no sequence of
/// in-range observations can overflow it: `|sum| <= count * MAX_ABS_TENTHS`
/// with `count <= usize::MAX`.
pub struct RunningStat {
    pub min: i64,
    pub max: i64,
    pub sum: i128,
    pub count: usize,
}

impl View for RunningStat {
    type V = StatModel;

    open spec fn view(&self) -> StatModel {
        StatModel {
            min: self.min as int,
            max: self.max as int,
            sum: self.sum as int,
            count: self.count as int,
        }
    }
}

impl Clone for RunningStat {
    fn clone(&self) -> (r: Self)
        ensures
            r@ == self@,
    {
        RunningStat { min: self.min, max: self.max, sum: self.sum, count: self.count }
    }
}

impl RunningStat {
    /// The statistic of a single observation.
    pub fn new(v: i64) -> (r: Self)
        requires
            -MAX_ABS_TENTHS <= v <= MAX_ABS_TENTHS,
        ensures
            r@ == stat_of(v as int),
            stat_wf(r@),
    {
        RunningStat { min: v, max: v, sum: v as i128, count: 1 }
    }

    /// Combine two statistics for the same key from different scopes.
    pub fn combine(&self, other: &RunningStat) -> (r: Self)
        requires
            stat_wf(self@),
            stat_wf(other@),
            self@.count + other@.count <= usize::MAX,
        ensures
            r@ == stat_combine(self@, other@),
            stat_wf(r@),
    {
        proof {
            lemma_combine_wf(self@, other@);
            lemma_sum_in_range(self@);
            lemma_sum_in_range(other@);
        }
        RunningStat {
            min: if self.min <= other.min {
                self.min
            } else {
                other.min
            },
            max: if self.max >= other.max {
                self.max
            } else {
                other.max
            },
            sum: self.sum + other.sum,
            count: self.count + other.count,
        }
    }
}

/// A well-formed statistic's sum is small against the width of `i128`.
pub proof fn lemma_sum_in_range(s: StatModel)
    requires
        stat_wf(s),
        s.count <= usize::MAX,
    ensures
        -(u64::MAX as int) * (MAX_ABS_TENTHS as int) <= s.sum,
        s.sum <= (u64::MAX as int) * (MAX_ABS_TENTHS as int),
{
    let m = MAX_ABS_TENTHS as int;
    let c = u64::MAX as int;
    assert(s.count * s.max <= c * m) by (nonlinear_arith)
        requires
            0 <= s.count <= c,
            s.max <= m,
            0 <= m,
    ;
    assert(-(c * m) <= s.count * s.min) by (nonlinear_arith)
        requires
            0 <= s.count <= c,
            -m <= s.min,
            0 <= m,
    ;
}

} // verus!
