use vstd::prelude::*;

verus! {

/// The number of tracked metrics in one record: the total update time at
/// index 0, followed by the named sub-phase times.
pub const METRIC_COUNT: usize = 9;

/// One averaged measurement record for a (map, version) pair: a fixed record
/// of non-negative durations held as nanosecond counts, the total at index 0
/// and the named sub-phases after it. A residual "other" duration (total
/// minus the sum of the sub-phases) is derived at presentation time and never
/// stored; see `other_metric`.
pub struct MetricSet {
    pub values: Vec<u64>,
}

/// A pointwise accumulator over metric records. A sum alone has no meaning;
/// only (sum of N records) / N is, so the accumulator is always paired with a
/// contributor count and mapped to a mean (`mean`).
pub struct MetricSums {
    pub values: Vec<u128>,
}

/// The sum of the sub-phase durations `s[1..k]`.
pub open spec fn sum_upto(s: Seq<u64>, k: int) -> int
    decreases k,
{
    if k <= 1 {
        0
    } else {
        sum_upto(s, k - 1) + s[k - 1]
    }
}

/// The sum of all named sub-phase durations of a record.
pub open spec fn subphase_sum(s: Seq<u64>) -> int {
    sum_upto(s, s.len() as int)
}

impl View for MetricSet {
    type V = Seq<u64>;

    open spec fn view(&self) -> Seq<u64> {
        self.values@
    }
}

impl View for MetricSums {
    type V = Seq<u128>;

    open spec fn view(&self) -> Seq<u128> {
        self.values@
    }
}

impl MetricSet {
    /// A well-formed record holds exactly the tracked metrics.
    pub open spec fn wf(&self) -> bool {
        self@.len() == METRIC_COUNT
    }

    /// Builds a record from its metric values, total first.
    pub fn new(values: Vec<u64>) -> (r: MetricSet)
        requires
            values@.len() == METRIC_COUNT,
        ensures
            r.wf(),
            r@ == values@,
    {
        MetricSet { values }
    }

    /// The metric at index `j` (0 is the total).
    pub fn get(&self, j: usize) -> (r: u64)
        requires
            self.wf(),
            j < METRIC_COUNT,
        ensures
            r == self@[j as int],
    {
        self.values[j]
    }

    /// An identical copy of the record.
    pub fn duplicate(&self) -> (r: MetricSet)
        requires
            self.wf(),
        ensures
            r.wf(),
            r@ == self@,
    {
        let mut values: Vec<u64> = Vec::new();
        let mut j: usize = 0;
        while j < METRIC_COUNT
            invariant
                self.wf(),
                j <= METRIC_COUNT,
                values@ =~= self@.subrange(0, j as int),
            decreases METRIC_COUNT - j,
        {
            values.push(self.values[j]);
            j += 1;
        }
        proof {
            assert(values@ =~= self@);
        }
        MetricSet { values }
    }
}

impl MetricSums {
    /// A well-formed accumulator holds exactly the tracked metrics.
    pub open spec fn wf(&self) -> bool {
        self@.len() == METRIC_COUNT
    }

    /// The all-zero accumulator.
    pub fn zero() -> (r: MetricSums)
        ensures
            r.wf(),
            forall|j: int| 0 <= j < METRIC_COUNT ==> r@[j] == 0,
    {
        let mut values: Vec<u128> = Vec::new();
        let mut j: usize = 0;
        while j < METRIC_COUNT
            invariant
                j <= METRIC_COUNT,
                values@.len() == j,
                forall|k: int| 0 <= k < j ==> values@[k] == 0,
            decreases METRIC_COUNT - j,
        {
            values.push(0);
            j += 1;
        }
        MetricSums { values }
    }

    /// Adds one record pointwise into the accumulator.
    pub fn accumulate(&mut self, ms: &MetricSet)
        requires
            old(self).wf(),
            ms.wf(),
            forall|j: int| 0 <= j < METRIC_COUNT ==> old(self)@[j] + ms@[j] <= u128::MAX,
        ensures
            final(self).wf(),
            forall|j: int| 0 <= j < METRIC_COUNT ==> final(self)@[j] == old(self)@[j] + ms@[j],
    {
        let mut j: usize = 0;
        while j < METRIC_COUNT
            invariant
                self.wf(),
                ms.wf(),
                j <= METRIC_COUNT,
                forall|k: int| 0 <= k < METRIC_COUNT ==> old(self)@[k] + ms@[k] <= u128::MAX,
                forall|k: int| j <= k < METRIC_COUNT ==> self@[k] == old(self)@[k],
                forall|k: int| 0 <= k < j ==> self@[k] == old(self)@[k] + ms@[k],
            decreases METRIC_COUNT - j,
        {
            let v = self.values[j] + (ms.values[j] as u128);
            self.values.set(j, v);
            j += 1;
        }
    }

    /// The pointwise mean of the accumulated records over `count`
    /// contributors, each metric rounded down to whole nanoseconds.
    pub fn mean(&self, count: usize) -> (r: MetricSet)
        requires
            self.wf(),
            count >= 1,
            forall|j: int| 0 <= j < METRIC_COUNT ==> self@[j] <= count * u64::MAX,
        ensures
            r.wf(),
            forall|j: int| 0 <= j < METRIC_COUNT ==> r@[j] == self@[j] as int / count as int,
    {
        let mut values: Vec<u64> = Vec::new();
        let mut j: usize = 0;
        while j < METRIC_COUNT
            invariant
                self.wf(),
                count >= 1,
                forall|k: int| 0 <= k < METRIC_COUNT ==> self@[k] <= count * u64::MAX,
                j <= METRIC_COUNT,
                values@.len() == j,
                forall|k: int| 0 <= k < j ==> values@[k] == self@[k] as int / count as int,
            decreases METRIC_COUNT - j,
        {
            let q: u128 = self.values[j] / (count as u128);
            proof {
                vstd::arithmetic::div_mod::lemma_div_is_ordered(
                    self@[j as int] as int,
                    (count as int) * (u64::MAX as int),
                    count as int,
                );
                vstd::arithmetic::div_mod::lemma_div_multiples_vanish(
                    u64::MAX as int,
                    count as int,
                );
                assert(q <= u64::MAX);
            }
            values.push(q as u64);
            j += 1;
        }
        MetricSet { values }
    }
}

/// The residual "other" duration of a record: the total minus the sum of the
/// named sub-phases. Surfaced as-is, never clamped: where measurement noise
/// makes the sub-phases sum past the total, the result is negative.
pub fn other_metric(ms: &MetricSet) -> (r: i128)
    requires
        ms.wf(),
    ensures
        r == ms@[0] - subphase_sum(ms@),
{
    let mut acc: u128 = 0;
    let mut j: usize = 1;
    while j < METRIC_COUNT
        invariant
            ms.wf(),
            1 <= j <= METRIC_COUNT,
            acc == sum_upto(ms@, j as int),
            acc <= (j - 1) * (u64::MAX as int),
        decreases METRIC_COUNT - j,
    {
        acc = acc + (ms.values[j] as u128);
        j += 1;
    }
    (ms.values[0] as i128) - (acc as i128)
}

} // verus!
