//! The per-key aggregate: running minimum, maximum, sum and count of the
//! fixed-point (thousandths) values observed for one key.

use vstd::prelude::*;

verus! {

/// Largest magnitude, in thousandths, that a parsed value may have.
pub const VALUE_BOUND: i64 = 999_999_999_999_000;

/// Mathematical model of a [`Measurement`]: unbounded integers.
pub struct MeasurementModel {
    pub min: int,
    pub max: int,
    pub sum: int,
    pub count: nat,
}

/// Running aggregate for one key, in fixed-point thousandths.
#[derive(Clone, Copy, Debug, PartialEq, Eq, Structural)]
pub struct Measurement {
    pub min: i64,
    pub max: i64,
    pub sum: i128,
    pub count: u64,
}

impl View for Measurement {
    type V = MeasurementModel;

    open spec fn view(&self) -> MeasurementModel {
        MeasurementModel {
            min: self.min as int,
            max: self.max as int,
            sum: self.sum as int,
            count: self.count as nat,
        }
    }
}

/// The aggregate of a single observation `v`.
pub open spec fn measure_one(v: int) -> MeasurementModel {
    MeasurementModel { min: v, max: v, sum: v, count: 1 }
}

/// The aggregate after adding observation `v` to `m`.
///
/// The minimum and the maximum are updated by two independent comparisons:
/// a single observation may both lower the minimum and raise the maximum.
pub open spec fn measure_add(m: MeasurementModel, v: int) -> MeasurementModel {
    MeasurementModel {
        min: if v < m.min { v } else { m.min },
        max: if v > m.max { v } else { m.max },
        sum: m.sum + v,
        count: m.count + 1,
    }
}

/// Combining the aggregates of two disjoint observation sets.
pub open spec fn measure_combine(a: MeasurementModel, b: MeasurementModel) -> MeasurementModel {
    MeasurementModel {
        min: if a.min < b.min { a.min } else { b.min },
        max: if a.max > b.max { a.max } else { b.max },
        sum: a.sum + b.sum,
        count: a.count + b.count,
    }
}

/// Well-formedness: the aggregate of at least one bounded observation.
pub open spec fn measure_wf(m: MeasurementModel) -> bool {
    &&& m.count >= 1
    &&& -VALUE_BOUND <= m.min <= m.max <= VALUE_BOUND
    &&& -(m.count * VALUE_BOUND) <= m.sum <= m.count * VALUE_BOUND
}

impl Measurement {
    /// Aggregate of a single observation.
    pub fn new(v: i64) -> (r: Measurement)
        requires
            -VALUE_BOUND <= v <= VALUE_BOUND,
        ensures
            r@ == measure_one(v as int),
            measure_wf(r@),
    {
        Measurement { min: v, max: v, sum: v as i128, count: 1 }
    }

    /// Add one observation, updating min and max independently.
    pub fn add(&mut self, v: i64)
        requires
            measure_wf(old(self)@),
            -VALUE_BOUND <= v <= VALUE_BOUND,
            old(self)@.count < u64::MAX,
        ensures
            final(self)@ == measure_add(old(self)@, v as int),
            measure_wf(final(self)@),
    {
        proof {
            lemma_measure_add_wf(self@, v as int);
        }
        if v < self.min {
            self.min = v;
        }
        if v > self.max {
            self.max = v;
        }
        self.sum = self.sum + v as i128;
        self.count = self.count + 1;
    }

    /// Fold another aggregate into this one.
    pub fn combine(&mut self, other: &Measurement)
        requires
            measure_wf(old(self)@),
            measure_wf(other@),
            old(self)@.count + other@.count <= u64::MAX,
        ensures
            final(self)@ == measure_combine(old(self)@, other@),
            measure_wf(final(self)@),
    {
        proof {
            lemma_measure_combine_wf(self@, other@);
        }
        if other.min < self.min {
            self.min = other.min;
        }
        if other.max > self.max {
            self.max = other.max;
        }
        self.sum = self.sum + other.sum;
        self.count = self.count + other.count;
    }
}

/// Adding a bounded observation preserves well-formedness, and the new sum
/// stays within `i128` as long as the count stays within `u64`.
pub proof fn lemma_measure_add_wf(m: MeasurementModel, v: int)
    requires
        measure_wf(m),
        -VALUE_BOUND <= v <= VALUE_BOUND,
        m.count < u64::MAX,
    ensures
        measure_wf(measure_add(m, v)),
        i128::MIN <= m.sum + v <= i128::MAX,
{
    assert((m.count + 1) * VALUE_BOUND == m.count * VALUE_BOUND + VALUE_BOUND);
    assert(m.count * VALUE_BOUND <= (u64::MAX - 1) * VALUE_BOUND);
}

/// Combining well-formed aggregates with a representable total count
/// preserves well-formedness and stays within `i128`.
pub proof fn lemma_measure_combine_wf(a: MeasurementModel, b: MeasurementModel)
    requires
        measure_wf(a),
        measure_wf(b),
        a.count + b.count <= u64::MAX,
    ensures
        measure_wf(measure_combine(a, b)),
        i128::MIN <= a.sum + b.sum <= i128::MAX,
{
    assert((a.count + b.count) * VALUE_BOUND == a.count * VALUE_BOUND + b.count * VALUE_BOUND);
    assert((a.count + b.count) * VALUE_BOUND <= u64::MAX * VALUE_BOUND);
}

} // verus!
