//! The per-station statistics record and its mathematical model.
//!
//! Measurements are fixed-point numbers in tenths, so `min`, `max` and `sum`
//! are integers; the mean is recovered at emission time by a rounded
//! division.
use vstd::prelude::*;
use vstd::arithmetic::div_mod::{
    lemma_div_denominator, lemma_div_is_ordered, lemma_div_multiples_vanish,
    lemma_multiply_divide_lt,
};

verus! {

/// Model of one station's statistics, in tenths.
pub struct SStats {
    pub min: int,
    pub max: int,
    pub sum: int,
    pub count: nat,
}

/// The invariant every statistics record in a map satisfies: at least one
/// observation, extrema that fit the fixed-point representation, and the sum
/// bracketed by `count * min` and `count * max` (which is what puts the mean
/// between `min` and `max`).
pub open spec fn stats_wf(s: SStats) -> bool {
    &&& 1 <= s.count
    &&& -(crate::MAX_ABS_TENTHS as int) <= s.min <= s.max <= crate::MAX_ABS_TENTHS as int
    &&& s.count * s.min <= s.sum <= s.count * s.max
}

/// The statistics of a single observation.
pub open spec fn stats_unit(v: int) -> SStats {
    SStats { min: v, max: v, sum: v, count: 1 }
}

/// Folding one more observation into a record.
pub open spec fn stats_fold(s: SStats, v: int) -> SStats {
    SStats {
        min: if v < s.min { v } else { s.min },
        max: if v > s.max { v } else { s.max },
        sum: s.sum + v,
        count: s.count + 1,
    }
}

/// The statistic-preserving combination of two records of the same station.
pub open spec fn stats_merge(a: SStats, b: SStats) -> SStats {
    SStats {
        min: if b.min < a.min { b.min } else { a.min },
        max: if b.max > a.max { b.max } else { a.max },
        sum: a.sum + b.sum,
        count: a.count + b.count,
    }
}

pub proof fn lemma_fold_wf(s: SStats, v: int)
    requires
        stats_wf(s),
        -(crate::MAX_ABS_TENTHS as int) <= v <= crate::MAX_ABS_TENTHS as int,
    ensures
        stats_wf(stats_fold(s, v)),
        stats_fold(s, v) == stats_merge(s, stats_unit(v)),
{
    let t = stats_fold(s, v);
    assert(t.count * t.min <= t.sum && t.sum <= t.count * t.max) by (nonlinear_arith)
        requires
            0 <= s.count,
            s.count * s.min <= s.sum <= s.count * s.max,
            t.min <= s.min,
            t.min <= v,
            s.max <= t.max,
            v <= t.max,
            t.sum == s.sum + v,
            t.count == s.count + 1,
    ;
}

pub proof fn lemma_merge_wf(a: SStats, b: SStats)
    requires
        stats_wf(a),
        stats_wf(b),
    ensures
        stats_wf(stats_merge(a, b)),
{
    let t = stats_merge(a, b);
    assert(t.count * t.min <= t.sum && t.sum <= t.count * t.max) by (nonlinear_arith)
        requires
            0 <= a.count,
            0 <= b.count,
            a.count * a.min <= a.sum <= a.count * a.max,
            b.count * b.min <= b.sum <= b.count * b.max,
            t.min <= a.min,
            t.min <= b.min,
            a.max <= t.max,
            b.max <= t.max,
            t.sum == a.sum + b.sum,
            t.count == a.count + b.count,
    ;
}

/// A well-formed record's sum is at most `MAX_ABS_TENTHS` per observation in
/// magnitude.
pub proof fn lemma_sum_bound(s: SStats)
    requires
        stats_wf(s),
    ensures
        -(crate::MAX_ABS_TENTHS as int) * (s.count as int) <= s.sum <= (crate::MAX_ABS_TENTHS
            as int) * (s.count as int),
{
    let mm = crate::MAX_ABS_TENTHS as int;
    assert(-mm * (s.count as int) <= s.sum <= mm * (s.count as int)) by (nonlinear_arith)
        requires
            0 <= s.count,
            -mm <= s.min <= s.max <= mm,
            s.count * s.min <= s.sum <= s.count * s.max,
    ;
}

/// The mean in tenths, rounded to the nearest tenth with ties away from zero.
pub open spec fn round_div(s: int, c: int) -> int {
    if s >= 0 {
        (2 * s + c) / (2 * c)
    } else {
        -((2 * (-s) + c) / (2 * c))
    }
}

proof fn lemma_round_div_bounds_nonneg(s: int, c: int, lo: int, hi: int)
    requires
        1 <= c,
        0 <= s,
        lo * c <= s,
        s <= hi * c,
    ensures
        lo <= (2 * s + c) / (2 * c) <= hi,
{
    let q = (2 * s + c) / (2 * c);
    assert(lo * (2 * c) <= 2 * s + c) by (nonlinear_arith)
        requires
            lo * c <= s,
            1 <= c,
    ;
    assert(((2 * c) * lo) / (2 * c) == lo) by {
        lemma_div_multiples_vanish(lo, 2 * c);
    }
    assert(lo * (2 * c) == (2 * c) * lo) by (nonlinear_arith);
    lemma_div_is_ordered(lo * (2 * c), 2 * s + c, 2 * c);
    assert(2 * s + c < (2 * c) * (hi + 1)) by (nonlinear_arith)
        requires
            s <= hi * c,
            1 <= c,
    ;
    lemma_multiply_divide_lt(2 * s + c, 2 * c, hi + 1);
}

/// Scaling numerator and denominator together leaves the rounded mean
/// unchanged: doubling a record's sum and count does not move its mean.
pub proof fn lemma_round_div_scale(s: int, c: int)
    requires
        1 <= c,
    ensures
        round_div(2 * s, 2 * c) == round_div(s, c),
{
    if s >= 0 {
        lemma_div_denominator(2 * (2 * s + c), 2, 2 * c);
        assert((2 * (2 * s + c)) / 2 == 2 * s + c) by {
            lemma_div_multiples_vanish(2 * s + c, 2);
        }
        assert(2 * (2 * s) + 2 * c == 2 * (2 * s + c));
        assert(2 * (2 * c) == 2 * (2 * c));
    } else {
        let t = -s;
        lemma_div_denominator(2 * (2 * t + c), 2, 2 * c);
        assert((2 * (2 * t + c)) / 2 == 2 * t + c) by {
            lemma_div_multiples_vanish(2 * t + c, 2);
        }
        assert(2 * (2 * t) + 2 * c == 2 * (2 * t + c));
    }
}

/// The rounded mean of a well-formed record lies between its extrema.
pub proof fn lemma_mean_in_range(s: SStats)
    requires
        stats_wf(s),
    ensures
        s.min <= round_div(s.sum, s.count as int) <= s.max,
{
    let c = s.count as int;
    if s.sum >= 0 {
        assert(s.min * c <= s.sum && s.sum <= s.max * c) by (nonlinear_arith)
            requires
                c * s.min <= s.sum <= c * s.max,
        ;
        lemma_round_div_bounds_nonneg(s.sum, c, s.min, s.max);
    } else {
        assert((-s.max) * c <= -s.sum && -s.sum <= (-s.min) * c) by (nonlinear_arith)
            requires
                c * s.min <= s.sum <= c * s.max,
        ;
        lemma_round_div_bounds_nonneg(-s.sum, c, -s.max, -s.min);
    }
}

/// The executable statistics record: extrema in tenths as `i64`, the sum in
/// tenths as `i128` (so a sum over every record a file can hold still fits),
/// and the observation count.
pub struct Stats {
    pub min: i64,
    pub max: i64,
    pub sum: i128,
    pub count: u64,
}

impl View for Stats {
    type V = SStats;

    open spec fn view(&self) -> SStats {
        SStats {
            min: self.min as int,
            max: self.max as int,
            sum: self.sum as int,
            count: self.count as nat,
        }
    }
}

impl Stats {
    /// The record of a single observation.
    pub fn new(v: i64) -> (s: Stats)
        requires
            -crate::MAX_ABS_TENTHS <= v <= crate::MAX_ABS_TENTHS,
        ensures
            s@ == stats_unit(v as int),
            stats_wf(s@),
    {
        Stats { min: v, max: v, sum: v as i128, count: 1 }
    }

    /// Folds one more observation into the record.
    pub fn fold_value(&mut self, v: i64)
        requires
            stats_wf(old(self)@),
            -crate::MAX_ABS_TENTHS <= v <= crate::MAX_ABS_TENTHS,
            old(self)@.count + 1 <= u64::MAX,
        ensures
            final(self)@ == stats_fold(old(self)@, v as int),
            stats_wf(final(self)@),
    {
        proof {
            lemma_sum_bound(old(self)@);
            // the sum stays inside i128: at most MAX_ABS_TENTHS per observation,
            // and at most u64::MAX observations
            let mm = crate::MAX_ABS_TENTHS as int;
            let c = old(self)@.count as int;
            assert(mm * c <= mm * (u64::MAX - 1) && -mm * c >= -(mm * (u64::MAX - 1)))
                by (nonlinear_arith)
                requires
                    0 <= mm,
                    0 <= c <= u64::MAX - 1,
            ;
            assert(mm * (u64::MAX - 1) + mm == mm * (u64::MAX as int)) by (nonlinear_arith);
            assert(mm * (u64::MAX as int) < i128::MAX);
        }
        if v < self.min {
            self.min = v;
        }
        if v > self.max {
            self.max = v;
        }
        self.sum = self.sum + (v as i128);
        self.count = self.count + 1;
        proof {
            lemma_fold_wf(old(self)@, v as int);
        }
    }

    /// Combines another station record into this one.
    pub fn merge_from(&mut self, o: &Stats)
        requires
            stats_wf(old(self)@),
            stats_wf(o@),
            old(self)@.count + o@.count <= u64::MAX,
        ensures
            final(self)@ == stats_merge(old(self)@, o@),
            stats_wf(final(self)@),
    {
        proof {
            lemma_sum_bound(old(self)@);
            lemma_sum_bound(o@);
            let mm = crate::MAX_ABS_TENTHS as int;
            let ca = old(self)@.count as int;
            let cb = o@.count as int;
            assert(mm * ca + mm * cb == mm * (ca + cb) && -(mm * ca) - mm * cb == -(mm * (ca
                + cb))) by (nonlinear_arith);
            assert(mm * (ca + cb) <= mm * (u64::MAX as int)) by (nonlinear_arith)
                requires
                    0 <= mm,
                    0 <= ca + cb <= u64::MAX as int,
            ;
            assert(mm * (u64::MAX as int) < i128::MAX);
        }
        if o.min < self.min {
            self.min = o.min;
        }
        if o.max > self.max {
            self.max = o.max;
        }
        self.sum = self.sum + o.sum;
        self.count = self.count + o.count;
        proof {
            lemma_merge_wf(old(self)@, o@);
        }
    }

    /// The rounded mean of the record, in tenths.
    pub fn mean_tenths(&self) -> (m: i64)
        requires
            stats_wf(self@),
        ensures
            m == round_div(self@.sum, self@.count as int),
            self@.min <= m <= self@.max,
    {
        proof {
            lemma_mean_in_range(self@);
            lemma_sum_bound(self@);
            // the numerator fits u128: at most (2 * MAX_ABS_TENTHS + 1)
            // tenths per observation over at most u64::MAX observations
            let mm = crate::MAX_ABS_TENTHS as int;
            let cc = self@.count as int;
            let s_abs = if self@.sum >= 0 {
                self@.sum
            } else {
                -self@.sum
            };
            assert(2 * s_abs + cc <= (2 * mm + 1) * cc) by (nonlinear_arith)
                requires
                    -(mm * cc) <= s_abs <= mm * cc || s_abs <= mm * cc,
                    s_abs <= mm * cc,
                    1 <= cc,
            ;
            assert((2 * mm + 1) * cc <= (2 * mm + 1) * (u64::MAX as int)) by (nonlinear_arith)
                requires
                    0 <= 2 * mm + 1,
                    0 <= cc <= u64::MAX as int,
            ;
            assert(2 * mm + 1 == u64::MAX as int);
            assert((u64::MAX as int) * (u64::MAX as int) < u128::MAX as int);
            assert((u64::MAX as int) * (u64::MAX as int) == (2 * mm + 1) * (u64::MAX as int));
        }
        let c: u128 = self.count as u128;
        if self.sum >= 0 {
            let s: u128 = self.sum as u128;
            let q: u128 = (2 * s + c) / (2 * c);
            q as i64
        } else {
            let s: u128 = (-self.sum) as u128;
            let q: u128 = (2 * s + c) / (2 * c);
            -(q as i64)
        }
    }
}

} // verus!
