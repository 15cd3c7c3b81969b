//! Aggregates over timing samples: count, floor average, and percentiles by
//! sorted-index selection, each guarded by a minimum sample count.

use vstd::prelude::*;
use vstd::relations::sorted_by;
use vstd::seq_lib::group_to_multiset_ensures;
use vstd::seq_lib::to_multiset_insert;
use vstd::seq_lib::lemma_sorted_unique;

verus! {

/// The order percentile selection sorts by.
pub open spec fn sample_le() -> spec_fn(u64, u64) -> bool {
    |a: u64, b: u64| a <= b
}

/// The samples in ascending order.
pub open spec fn sorted_spec(s: Seq<u64>) -> Seq<u64> {
    s.sort_by(sample_le())
}

/// The sum of all samples.
pub open spec fn sum_of(s: Seq<u64>) -> int
    decreases s.len(),
{
    if s.len() == 0 {
        0
    } else {
        sum_of(s.drop_last()) + s.last()
    }
}

/// The floor average, or nothing for an empty sample set.
pub open spec fn avg_spec(s: Seq<u64>) -> Option<u64> {
    if s.len() == 0 {
        None
    } else {
        Some((sum_of(s) / s.len() as int) as u64)
    }
}

/// Sorted-index percentile selection: the sample at index
/// `floor(n * num / den)` of the ascending order, defined only when at
/// least `min_n` samples are present.
pub open spec fn px_spec(s: Seq<u64>, min_n: int, num: int, den: int) -> Option<u64> {
    if s.len() < min_n {
        None
    } else {
        Some(sorted_spec(s)[s.len() * num / den])
    }
}

/// One metric's aggregates over one set of samples.
#[derive(Clone, Debug, PartialEq, Eq)]
pub struct ComputedMetric {
    pub name: String,
    pub n: u64,
    pub avg: Option<u64>,
    pub p0: Option<u64>,
    pub p90: Option<u64>,
    pub p99: Option<u64>,
    pub p999: Option<u64>,
}

/// The aggregates a metric must hold for the given name and samples.
pub open spec fn is_metric_for(m: ComputedMetric, name: Seq<char>, s: Seq<u64>) -> bool {
    &&& m.name@ == name
    &&& m.n == s.len()
    &&& m.avg == avg_spec(s)
    &&& m.p0 == px_spec(s, 1, 0, 1)
    &&& m.p90 == px_spec(s, 10, 9, 10)
    &&& m.p99 == px_spec(s, 100, 99, 100)
    &&& m.p999 == px_spec(s, 1000, 999, 1000)
}

/// The samples in ascending order, computed: an insertion sort, pinned to
/// `sorted_spec` by sortedness and multiset equality.
pub fn sorted_samples(samples: &Vec<u64>) -> (r: Vec<u64>)
    ensures
        r@ == sorted_spec(samples@),
        r@.len() == samples@.len(),
{
    broadcast use group_to_multiset_ensures, to_multiset_insert;

    let mut r: Vec<u64> = Vec::new();
    let mut i: usize = 0;
    proof {
        assert(samples@.take(0) =~= Seq::<u64>::empty());
        assert(r@.to_multiset() =~= samples@.take(0).to_multiset());
    }
    while i < samples.len()
        invariant
            i <= samples.len(),
            sorted_by(r@, sample_le()),
            r@.to_multiset() == samples@.take(i as int).to_multiset(),
            r@.len() == i,
        decreases samples.len() - i,
    {
        let x = samples[i];
        let mut j: usize = 0;
        while j < r.len() && r[j] <= x
            invariant
                j <= r@.len(),
                forall|k: int| 0 <= k < j ==> r@[k] <= x,
                sorted_by(r@, sample_le()),
            decreases r.len() - j,
        {
            j = j + 1;
        }
        let ghost before = r@;
        r.insert(j, x);
        proof {
            assert forall|k1: int, k2: int|
                0 <= k1 < k2 < r@.len() implies sample_le()(r@[k1], r@[k2]) by {
                if k2 < j {
                    assert(r@[k1] == before[k1] && r@[k2] == before[k2]);
                } else if k1 < j && k2 == j {
                    assert(r@[k1] == before[k1] && r@[k2] == x);
                } else if k1 < j && k2 > j {
                    assert(r@[k1] == before[k1] && r@[k2] == before[k2 - 1]);
                    if k2 - 1 >= j {
                        if j < before.len() {
                            assert(before[j as int] > x || true);
                        }
                    }
                } else if k1 == j {
                    assert(r@[k1] == x && r@[k2] == before[k2 - 1]);
                    assert(k2 - 1 >= j);
                    if j < before.len() {
                        assert(!(before[j as int] <= x));
                        assert(sample_le()(before[j as int], before[k2 - 1]) || k2 - 1 == j);
                    }
                } else {
                    assert(r@[k1] == before[k1 - 1] && r@[k2] == before[k2 - 1]);
                }
            }
            assert(r@ == before.insert(j as int, x));
            vstd::seq_lib::to_multiset_insert(before, j as int, x);
            assert(samples@.take(i as int + 1) =~= samples@.take(i as int).push(
                samples@[i as int],
            ));
            vstd::seq_lib::to_multiset_build(samples@.take(i as int), samples@[i as int]);
            assert(r@.to_multiset() =~= samples@.take(i as int + 1).to_multiset());
        }
        i = i + 1;
    }
    proof {
        assert(samples@.take(samples@.len() as int) =~= samples@);
        samples@.lemma_sort_by_ensures(sample_le());
        lemma_sorted_unique(r@, samples@.sort_by(sample_le()), sample_le());
        vstd::seq_lib::to_multiset_len(samples@);
        vstd::seq_lib::to_multiset_len(samples@.sort_by(sample_le()));
        vstd::seq_lib::to_multiset_len(r@);
    }
    r
}

/// The floor average over all samples, or nothing for an empty set.
pub fn compute_average(samples: &Vec<u64>) -> (r: Option<u64>)
    ensures
        r == avg_spec(samples@),
{
    if samples.len() == 0 {
        return None;
    }
    let mut sum: u128 = 0;
    let mut i: usize = 0;
    proof {
        assert(samples@.take(0) =~= Seq::<u64>::empty());
    }
    while i < samples.len()
        invariant
            i <= samples.len(),
            sum == sum_of(samples@.take(i as int)),
            sum <= i * (u64::MAX as int),
        decreases samples.len() - i,
    {
        proof {
            assert(samples@.take(i as int + 1).drop_last() =~= samples@.take(i as int));
            assert(samples@.take(i as int + 1).last() == samples@[i as int]);
            assert((i + 1) * (u64::MAX as int) == i * (u64::MAX as int) + u64::MAX) by (
            nonlinear_arith);
            assert(i * (u64::MAX as int) <= (usize::MAX as int) * (u64::MAX as int)) by (
            nonlinear_arith)
                requires
                    0 <= i <= usize::MAX,
            ;
        }
        sum = sum + samples[i] as u128;
        i = i + 1;
    }
    proof {
        assert(samples@.take(samples@.len() as int) =~= samples@);
        assert(sum_of(samples@) / (samples@.len() as int) <= u64::MAX as int) by (nonlinear_arith)
            requires
                samples@.len() > 0,
                0 <= sum_of(samples@) <= (samples@.len() as int) * (u64::MAX as int),
        ;
    }
    let avg = (sum / samples.len() as u128) as u64;
    Some(avg)
}

/// Sorted-index percentile selection over the full sample set, guarded by a
/// minimum sample count.
pub fn compute_px(samples: &Vec<u64>, min_n: usize, num: u64, den: u64) -> (r: Option<u64>)
    requires
        1 <= min_n,
        0 < den,
        num < den,
    ensures
        r == px_spec(samples@, min_n as int, num as int, den as int),
{
    if samples.len() < min_n {
        return None;
    }
    let sorted = sorted_samples(samples);
    proof {
        assert(samples@.len() * (num as int) <= u128::MAX) by (nonlinear_arith)
            requires
                samples@.len() <= u64::MAX,
                num <= u64::MAX,
        ;
        assert(samples@.len() * (num as int) < samples@.len() * (den as int)) by (nonlinear_arith)
            requires
                num < den,
                samples@.len() > 0,
        ;
        assert(samples@.len() * (num as int) / (den as int) < samples@.len()) by (nonlinear_arith)
            requires
                0 < den,
                samples@.len() * (num as int) < samples@.len() * (den as int),
        ;
        assert(0 <= samples@.len() * (num as int) / (den as int)) by (nonlinear_arith)
            requires
                0 < den,
                0 <= samples@.len() * (num as int),
        ;
    }
    let pos = ((samples.len() as u128 * num as u128) / den as u128) as usize;
    Some(sorted[pos])
}

/// The minimum sample: defined as soon as one sample exists.
pub fn compute_p0(samples: &Vec<u64>) -> (r: Option<u64>)
    ensures
        r == px_spec(samples@, 1, 0, 1),
{
    compute_px(samples, 1, 0, 1)
}

/// The 90th percentile: defined from 10 samples up.
pub fn compute_p90(samples: &Vec<u64>) -> (r: Option<u64>)
    ensures
        r == px_spec(samples@, 10, 9, 10),
{
    compute_px(samples, 10, 9, 10)
}

/// The 99th percentile: defined from 100 samples up.
pub fn compute_p99(samples: &Vec<u64>) -> (r: Option<u64>)
    ensures
        r == px_spec(samples@, 100, 99, 100),
{
    compute_px(samples, 100, 99, 100)
}

/// The 99.9th percentile: defined from 1000 samples up.
pub fn compute_p999(samples: &Vec<u64>) -> (r: Option<u64>)
    ensures
        r == px_spec(samples@, 1000, 999, 1000),
{
    compute_px(samples, 1000, 999, 1000)
}

/// All aggregates of one metric over one sample set.
pub fn compute_metric(name: &str, samples: &Vec<u64>) -> (r: ComputedMetric)
    requires
        samples@.len() <= u64::MAX,
    ensures
        is_metric_for(r, name@, samples@),
{
    ComputedMetric {
        name: name.to_owned(),
        n: samples.len() as u64,
        avg: compute_average(samples),
        p0: compute_p0(samples),
        p90: compute_p90(samples),
        p99: compute_p99(samples),
        p999: compute_p999(samples),
    }
}

} // verus!
