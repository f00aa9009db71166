//! Monte Carlo aggregation: trials at one occupation probability, and the sweep of
//! probabilities `step / resolution` for `step` in `0..=resolution`.

use rayon::prelude::{IntoParallelIterator, ParallelIterator};
use vstd::prelude::*;

use crate::burning::{
    full, full_depth, lemma_full_lattice_burns_in_one_sweep, lemma_no_trees,
    lemma_rest_count_unique,
};
use crate::lattice::{drawn, rests_after, seeded, trees, valid_draws, Lattice, LatticePoint};

verus! {

/// Why an experiment was not run.
#[derive(Clone, Copy, Debug, PartialEq, Eq, Structural)]
pub enum ConfigError {
    /// The lattice side is zero.
    ZeroSide,
    /// The resolution is two or less.
    LowResolution,
}

/// The outcome at one occupation probability `step / resolution`: the sweeps of
/// `samples` trials added up. Their mean is `total_sweeps / samples`.
#[derive(Clone, Copy, Debug, PartialEq, Eq, Structural)]
pub struct PointEstimate {
    pub step: usize,
    pub resolution: usize,
    pub total_sweeps: u128,
    pub samples: usize,
}

/// What holds of the sweep count of every trial on side `n` at probability
/// `numer / denom`: it is the number of igniting sweeps before rest of a lattice drawn
/// with one value from `0..denom` per site; it is at most the number of sites; it is
/// zero when no site is occupied; and it is `full_depth(n)` when every site is.
pub open spec fn trial_outcome(n: int, numer: int, denom: int, count: int) -> bool {
    &&& 0 <= count <= n * n
    &&& exists|d: Seq<usize>|
        valid_draws(n, denom, d) && #[trigger] rests_after(n, drawn(n, numer, d), count as nat)
    &&& numer == 0 ==> count == 0
    &&& numer == denom ==> count == full_depth(n)
}

/// The sum of a sequence of counts.
pub open spec fn sum(s: Seq<usize>) -> int
    decreases s.len(),
{
    if s.len() == 0 {
        0
    } else {
        sum(s.drop_last()) + s.last()
    }
}

/// What holds of every estimate at probability `step / resolution` over `samples`
/// trials on side `n`: its total is the sum of `samples` trial counts at that
/// probability.
pub open spec fn point_outcome(
    n: int,
    step: int,
    resolution: int,
    samples: int,
    e: PointEstimate,
) -> bool {
    &&& e.step == step
    &&& e.resolution == resolution
    &&& e.samples == samples
    &&& exists|s: Seq<usize>|
        s.len() == samples && (forall|k: int|
            0 <= k < samples ==> trial_outcome(n, step, resolution, #[trigger] s[k] as int))
            && e.total_sweeps == #[trigger] sum(s)
    &&& e.total_sweeps <= samples * (n * n)
    &&& step == 0 ==> e.total_sweeps == 0
    &&& step == resolution ==> e.total_sweeps == samples * full_depth(n)
}

/// What holds of every outcome of an experiment: one estimate per step from `0` to
/// `resolution`, in ascending order of step.
pub open spec fn experiment_outcome(
    n: int,
    resolution: int,
    samples: int,
    v: Seq<PointEstimate>,
) -> bool {
    &&& v.len() == resolution + 1
    &&& forall|k: int| 0 <= k <= resolution ==> #[trigger] point_outcome(n, k, resolution, samples, v[k])
}

/// One trial: a fresh random lattice of side `n` at probability `numer / denom`, swept
/// until it rests; the number of sweeps that ignited a tree.
pub fn run_trial(n: usize, numer: usize, denom: usize) -> (r: usize)
    requires
        0 < denom,
        numer <= denom,
        n * n <= usize::MAX,
    ensures
        trial_outcome(n as int, numer as int, denom as int, r as int),
{
    let mut lattice = Lattice::generate(n, numer, denom);
    let ghost c0 = lattice@;
    let count = lattice.burn_out();
    proof {
        let d = choose|d: Seq<usize>|
            valid_draws(n as int, denom as int, d) && c0 == drawn(n as int, numer as int, d);
        assert(rests_after(n as int, drawn(n as int, numer as int, d), count as nat));
        if numer == 0 {
            assert forall|i: int| 0 <= i < c0.len() implies #[trigger] c0[i] != LatticePoint::Tree by {
                assert(c0[i] == seeded(n as int, i, false));
            }
            lemma_no_trees(c0);
        }
        if numer == denom {
            if n == 0 {
                lemma_no_trees(c0);
            } else {
                assert(c0 =~= full(n as int));
                lemma_full_lattice_burns_in_one_sweep(n as int);
                lemma_rest_count_unique(n as int, c0, count as nat, full_depth(n as int));
            }
        }
    }
    count
}

/// Relies on rayon's `into_par_iter` over `0..samples`, `map` and `collect`: one
/// result of `run_trial` for each index, collected in the order of the indices.
#[verifier::external_body]
fn sample_trials(n: usize, numer: usize, denom: usize, samples: usize) -> (r: Vec<usize>)
    requires
        0 < denom,
        numer <= denom,
        n * n <= usize::MAX,
    ensures
        r@.len() == samples,
        forall|k: int|
            0 <= k < samples ==> trial_outcome(n as int, numer as int, denom as int, #[trigger] r@[k] as int),
{
    (0..samples).into_par_iter().map(|_| run_trial(n, numer, denom)).collect()
}

proof fn lemma_sum_bounded(s: Seq<usize>, b: int)
    requires
        forall|k: int| 0 <= k < s.len() ==> #[trigger] s[k] <= b,
    ensures
        sum(s) <= s.len() * b,
        (forall|k: int| 0 <= k < s.len() ==> #[trigger] s[k] == b) ==> sum(s) == s.len() * b,
    decreases s.len(),
{
    if s.len() > 0 {
        let s1 = s.drop_last();
        assert forall|k: int| 0 <= k < s1.len() implies #[trigger] s1[k] <= b by {
            assert(s1[k] == s[k]);
        }
        lemma_sum_bounded(s1, b);
        assert(s.last() <= b);
        assert((s.len() - 1) * b + b == s.len() * b) by (nonlinear_arith);
        if forall|k: int| 0 <= k < s.len() ==> #[trigger] s[k] == b {
            assert forall|k: int| 0 <= k < s1.len() implies #[trigger] s1[k] == b by {
                assert(s1[k] == s[k]);
            }
        }
    }
}

/// The sum of the counts.
pub fn total_sweeps(counts: &Vec<usize>) -> (r: u128)
    ensures
        r == sum(counts@),
{
    let mut total: u128 = 0;
    let mut i: usize = 0;
    while i < counts.len()
        invariant
            0 <= i <= counts@.len(),
            total == sum(counts@.take(i as int)),
            total <= i * usize::MAX,
        decreases counts@.len() - i,
    {
        proof {
            assert(counts@.take(i as int + 1).drop_last() =~= counts@.take(i as int));
            assert(total + counts@[i as int] <= (i + 1) * usize::MAX) by (nonlinear_arith)
                requires
                    total <= i * usize::MAX,
                    counts@[i as int] <= usize::MAX,
            ;
            assert((i + 1) * usize::MAX <= usize::MAX * usize::MAX) by (nonlinear_arith)
                requires
                    i < usize::MAX,
            ;
        }
        total = total + counts[i] as u128;
        i = i + 1;
    }
    assert(counts@.take(i as int) =~= counts@);
    total
}

/// The estimate at probability `step / resolution`: the sweeps of `samples` independent
/// trials on side `n`, run in parallel, added up.
pub fn estimate_point(n: usize, step: usize, resolution: usize, samples: usize) -> (r:
    PointEstimate)
    requires
        0 < resolution,
        step <= resolution,
        n * n <= usize::MAX,
    ensures
        point_outcome(n as int, step as int, resolution as int, samples as int, r),
{
    let counts = sample_trials(n, step, resolution, samples);
    let total = total_sweeps(&counts);
    proof {
        assert(total == sum(counts@));
        lemma_sum_bounded(counts@, n * n);
        if step == resolution {
            lemma_sum_bounded(counts@, full_depth(n as int) as int);
        }
        if step == 0 {
            lemma_sum_bounded(counts@, 0);
        }
    }
    PointEstimate { step, resolution, total_sweeps: total, samples }
}

/// Relies on rayon's `into_par_iter` over `0..resolution + 1`, `map` and `collect`:
/// one result of `estimate_point` for each step, collected in the order of the steps.
#[verifier::external_body]
fn estimate_points(n: usize, resolution: usize, samples: usize) -> (r: Vec<PointEstimate>)
    requires
        0 < resolution < usize::MAX,
        n * n <= usize::MAX,
    ensures
        experiment_outcome(n as int, resolution as int, samples as int, r@),
{
    (0..resolution + 1).into_par_iter().map(|step| estimate_point(n, step, resolution, samples)).collect()
}

/// The probabilities of an experiment are `0, 1/resolution, ..., 1`, in strictly
/// increasing order: the estimate at position `k` is at step `k` of `resolution`.
pub proof fn lemma_probabilities_ascend(
    n: int,
    resolution: int,
    samples: int,
    v: Seq<PointEstimate>,
)
    requires
        0 <= n,
        0 <= resolution,
        0 <= samples,
        experiment_outcome(n, resolution, samples, v),
    ensures
        v.len() == resolution + 1,
        forall|k: int| 0 <= k < v.len() ==> #[trigger] v[k].step == k && v[k].resolution == resolution,
        forall|j: int, k: int| 0 <= j < k < v.len() ==> #[trigger] v[j].step < #[trigger] v[k].step,
        v[0].step == 0,
        v[resolution].step == resolution,
{
    assert forall|k: int| 0 <= k < v.len() implies #[trigger] v[k].step == k && v[k].resolution
        == resolution by {
        assert(point_outcome(n, k, resolution, samples, v[k]));
    }
    assert forall|j: int, k: int| 0 <= j < k < v.len() implies #[trigger] v[j].step
        < #[trigger] v[k].step by {
        assert(point_outcome(n, j, resolution, samples, v[j]));
        assert(point_outcome(n, k, resolution, samples, v[k]));
    }
    assert(point_outcome(n, 0, resolution, samples, v[0]));
    assert(point_outcome(n, resolution, resolution, samples, v[resolution]));
}

/// Two runs with the same parameters give the same number of estimates, at the same
/// probabilities and over the same number of samples; only the sweep totals may differ.
pub proof fn lemma_runs_share_structure(
    n: int,
    resolution: int,
    samples: int,
    v1: Seq<PointEstimate>,
    v2: Seq<PointEstimate>,
)
    requires
        0 <= n,
        0 <= resolution,
        0 <= samples,
        experiment_outcome(n, resolution, samples, v1),
        experiment_outcome(n, resolution, samples, v2),
    ensures
        v1.len() == v2.len(),
        forall|k: int|
            0 <= k < v1.len() ==> #[trigger] v1[k].step == v2[k].step && v1[k].resolution
                == v2[k].resolution && v1[k].samples == v2[k].samples,
{
    assert forall|k: int| 0 <= k < v1.len() implies #[trigger] v1[k].step == v2[k].step
        && v1[k].resolution == v2[k].resolution && v1[k].samples == v2[k].samples by {
        assert(point_outcome(n, k, resolution, samples, v1[k]));
        assert(point_outcome(n, k, resolution, samples, v2[k]));
    }
}

/// Runs the experiment on side `n`: `samples` trials at each probability
/// `step / resolution`, `step` from `0` to `resolution`. A zero side, or a resolution
/// of two or less, is refused before any trial runs.
pub fn run_experiment(n: usize, resolution: usize, samples: usize) -> (r: Result<
    Vec<PointEstimate>,
    ConfigError,
>)
    requires
        n * n <= usize::MAX,
        resolution < usize::MAX,
    ensures
        r == Err::<Vec<PointEstimate>, ConfigError>(ConfigError::ZeroSide) <==> n == 0,
        r == Err::<Vec<PointEstimate>, ConfigError>(ConfigError::LowResolution) <==> n > 0
            && resolution <= 2,
        r is Ok <==> n > 0 && resolution > 2,
        r is Ok ==> experiment_outcome(n as int, resolution as int, samples as int, r->Ok_0@),
{
    if n == 0 {
        return Err(ConfigError::ZeroSide);
    }
    if resolution <= 2 {
        return Err(ConfigError::LowResolution);
    }
    Ok(estimate_points(n, resolution, samples))
}

} // verus!
