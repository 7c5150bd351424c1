//! Running statistics for one key: the mathematical model and the executable record.
use vstd::prelude::*;

verus! {

/// Largest magnitude, in tenths, that a single measurement may have.
pub const MAX_TENTHS: i64 = 99_999_999_999_999_999;

/// Mathematical model of an aggregate: count, bounds and exact sum, in tenths.
pub struct Summary {
    pub count: int,
    pub min: int,
    pub max: int,
    pub sum: int,
}

/// A single measurement is within the accepted magnitude.
pub open spec fn value_in_range(v: int) -> bool {
    -MAX_TENTHS <= v <= MAX_TENTHS
}

/// What every summary built from measurements satisfies.
pub open spec fn summary_valid(s: Summary) -> bool {
    &&& 1 <= s.count
    &&& s.min <= s.max
    &&& value_in_range(s.min)
    &&& value_in_range(s.max)
    &&& s.count * s.min <= s.sum <= s.count * s.max
}

/// The summary of exactly one measurement.
pub open spec fn single(v: int) -> Summary {
    Summary { count: 1, min: v, max: v, sum: v }
}

pub open spec fn min_int(a: int, b: int) -> int {
    if a <= b { a } else { b }
}

pub open spec fn max_int(a: int, b: int) -> int {
    if a >= b { a } else { b }
}

/// The combination rule: bounds by min/max, count and sum by addition.
pub open spec fn combine(a: Summary, b: Summary) -> Summary {
    Summary {
        count: a.count + b.count,
        min: min_int(a.min, b.min),
        max: max_int(a.max, b.max),
        sum: a.sum + b.sum,
    }
}

/// Folding one more measurement into a summary.
pub open spec fn extend(s: Summary, v: int) -> Summary {
    combine(s, single(v))
}

/// `combine` keeps summaries valid.
pub proof fn lemma_combine_valid(a: Summary, b: Summary)
    requires
        summary_valid(a),
        summary_valid(b),
    ensures
        summary_valid(combine(a, b)),
{
    let m = min_int(a.min, b.min);
    let x = max_int(a.max, b.max);
    assert(a.count * m <= a.count * a.min) by (nonlinear_arith)
        requires m <= a.min, 1 <= a.count;
    assert(b.count * m <= b.count * b.min) by (nonlinear_arith)
        requires m <= b.min, 1 <= b.count;
    assert(a.count * a.max <= a.count * x) by (nonlinear_arith)
        requires a.max <= x, 1 <= a.count;
    assert(b.count * b.max <= b.count * x) by (nonlinear_arith)
        requires b.max <= x, 1 <= b.count;
    assert((a.count + b.count) * m == a.count * m + b.count * m) by (nonlinear_arith);
    assert((a.count + b.count) * x == a.count * x + b.count * x) by (nonlinear_arith);
}

/// The magnitude of a valid summary's sum is at most `count * MAX_TENTHS`.
pub proof fn lemma_sum_bound(s: Summary)
    requires
        summary_valid(s),
    ensures
        -(s.count * MAX_TENTHS) <= s.sum <= s.count * MAX_TENTHS,
{
    assert(s.count * s.max <= s.count * MAX_TENTHS) by (nonlinear_arith)
        requires s.max <= MAX_TENTHS, 1 <= s.count;
    assert(-(s.count * MAX_TENTHS) <= s.count * s.min) by (nonlinear_arith)
        requires -MAX_TENTHS <= s.min, 1 <= s.count;
}

/// `combine` is commutative.
pub proof fn lemma_combine_commutative(a: Summary, b: Summary)
    ensures
        combine(a, b) == combine(b, a),
{
}

/// `combine` is associative.
pub proof fn lemma_combine_associative(a: Summary, b: Summary, c: Summary)
    ensures
        combine(combine(a, b), c) == combine(a, combine(b, c)),
{
}

/// The mean in tenths, rounded to the nearest tenth, halves upward:
/// `floor((2 * sum + count) / (2 * count))`.
pub open spec fn rounded_mean(s: Summary) -> int {
    (2 * s.sum + s.count) / (2 * s.count)
}

/// The rounded mean of a valid summary lies between its smallest and largest value.
pub proof fn lemma_rounded_mean_bounds(s: Summary)
    requires
        summary_valid(s),
    ensures
        s.min <= rounded_mean(s) <= s.max,
{
    let n = 2 * s.sum + s.count;
    let d = 2 * s.count;
    assert(d * s.min <= n) by (nonlinear_arith)
        requires s.count * s.min <= s.sum, n == 2 * s.sum + s.count, d == 2 * s.count, s.count >= 1;
    assert(n < d * (s.max + 1)) by (nonlinear_arith)
        requires s.sum <= s.count * s.max, n == 2 * s.sum + s.count, d == 2 * s.count, s.count >= 1;
    assert(s.min <= n / d) by (nonlinear_arith)
        requires d * s.min <= n, d > 0;
    assert(n / d <= s.max) by (nonlinear_arith)
        requires n < d * (s.max + 1), d > 0;
}

/// Statistics of one key: number of measurements, smallest, largest and exact sum, all
/// measurements in tenths.
pub struct Aggregate {
    count: u64,
    min: i64,
    max: i64,
    sum: i128,
}

impl View for Aggregate {
    type V = Summary;

    closed spec fn view(&self) -> Summary {
        Summary { count: self.count as int, min: self.min as int, max: self.max as int, sum: self.sum as int }
    }
}

impl Aggregate {
    /// An aggregate that holds what it should: a valid summary.
    pub open spec fn wf(&self) -> bool {
        summary_valid(self@)
    }

    /// The aggregate of one first measurement.
    pub fn new(first_measurement: i64) -> (r: Aggregate)
        requires
            value_in_range(first_measurement as int),
        ensures
            r@ == single(first_measurement as int),
            r.wf(),
    {
        Aggregate { count: 1, min: first_measurement, max: first_measurement, sum: first_measurement as i128 }
    }

    /// Folds one more measurement in.
    pub fn add_measurement(&mut self, new_measurement: i64)
        requires
            old(self).wf(),
            value_in_range(new_measurement as int),
            old(self)@.count < u64::MAX,
        ensures
            final(self)@ == extend(old(self)@, new_measurement as int),
            final(self).wf(),
    {
        proof {
            lemma_combine_valid(self@, single(new_measurement as int));
            lemma_sum_bound(self@);
        }
        assert(self.count as int * MAX_TENTHS <= u64::MAX as int * MAX_TENTHS) by (nonlinear_arith)
            requires self.count as int <= u64::MAX as int;
        if new_measurement > self.max {
            self.max = new_measurement;
        } else if new_measurement < self.min {
            self.min = new_measurement;
        }
        self.count = self.count + 1;
        self.sum = self.sum + new_measurement as i128;
    }

    /// Combines the statistics of `other` into `self`.
    pub fn merge(&mut self, other: &Aggregate)
        requires
            old(self).wf(),
            other.wf(),
            old(self)@.count + other@.count <= u64::MAX,
        ensures
            final(self)@ == combine(old(self)@, other@),
            final(self).wf(),
    {
        proof {
            lemma_combine_valid(self@, other@);
            lemma_sum_bound(self@);
            lemma_sum_bound(other@);
        }
        assert(self.count as int * MAX_TENTHS + other.count as int * MAX_TENTHS
            <= u64::MAX as int * MAX_TENTHS) by (nonlinear_arith)
            requires self.count as int + other.count as int <= u64::MAX as int;
        self.max = if self.max > other.max { self.max } else { other.max };
        self.min = if self.min < other.min { self.min } else { other.min };
        self.count = self.count + other.count;
        self.sum = self.sum + other.sum;
    }

    /// The mean in tenths, rounded to the nearest tenth, halves upward.
    pub fn mean_tenths(&self) -> (r: i64)
        requires
            self.wf(),
        ensures
            r as int == rounded_mean(self@),
            self@.min <= r <= self@.max,
    {
        proof {
            lemma_rounded_mean_bounds(self@);
            lemma_sum_bound(self@);
        }
        assert(self.count as int * MAX_TENTHS <= u64::MAX as int * MAX_TENTHS) by (nonlinear_arith)
            requires self.count as int <= u64::MAX as int;
        let n: i128 = 2 * self.sum + self.count as i128;
        let d: i128 = 2 * self.count as i128;
        let ghost q = n as int / d as int;
        if n >= 0 {
            let r = (n as u128 / d as u128) as i64;
            r
        } else {
            let a: u128 = (-n) as u128;
            let t: u128 = (a + (d as u128) - 1) / d as u128;
            assert(-(t as int) == q) by (nonlinear_arith)
                requires
                    a as int == -(n as int),
                    n < 0,
                    d > 0,
                    t as int == (a as int + d as int - 1) / d as int,
                    q == n as int / d as int;
            -(t as i64)
        }
    }

    /// Number of measurements folded in.
    pub fn count(&self) -> (r: u64)
        ensures
            r as int == self@.count,
    {
        self.count
    }

    /// Smallest measurement, in tenths.
    pub fn min(&self) -> (r: i64)
        ensures
            r as int == self@.min,
    {
        self.min
    }

    /// Largest measurement, in tenths.
    pub fn max(&self) -> (r: i64)
        ensures
            r as int == self@.max,
    {
        self.max
    }

    /// Exact sum of all measurements, in tenths.
    pub fn sum(&self) -> (r: i128)
        ensures
            r as int == self@.sum,
    {
        self.sum
    }
}

impl Clone for Aggregate {
    fn clone(&self) -> (r: Aggregate)
        ensures
            r@ == self@,
    {
        Aggregate { count: self.count, min: self.min, max: self.max, sum: self.sum }
    }
}

} // verus!
