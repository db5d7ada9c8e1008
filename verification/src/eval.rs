//! Statistical evaluation with bootstrap confidence intervals.
//!
//! Metric values are fixed-point integers in millionths of a unit
//! ([`SCORE_ONE`]). For each query the engine scores precision, recall,
//! binary-gain nDCG (against a caller-supplied discount curve) and MRR,
//! then aggregates each metric over all queries with a percentile
//! bootstrap driven by the library's own seeded generator, so identical
//! seeds and inputs reproduce identical intervals.

use vstd::prelude::*;

use crate::rng::{wy_below, wy_next, SeededRng};
use crate::order::sort_u64;
use crate::table::{has_name, names_nodup, vec_has_name};
use crate::test_set::{LabelsView, RelevanceLabels};

verus! {

/// One whole metric unit, in millionths.
pub const SCORE_ONE: u64 = 1_000_000;

/// Largest number of queries, bootstrap resamples, or ranks accepted;
/// keeps every sum inside a machine word.
pub const MAX_EVAL: usize = 0x100_0000;

/// A metric aggregated with a bootstrap confidence interval.
#[derive(Clone, Copy, Debug, PartialEq, Eq)]
pub struct MetricWithCI {
    /// Mean of the per-query values, in millionths.
    pub mean: u64,
    /// Population standard deviation, in millionths, rounded down.
    pub std_dev: u64,
    /// 95% bootstrap interval `(lower, upper)`, in millionths.
    pub ci_95: (u64, u64),
    /// Sample count.
    pub n: usize,
}

/// The four ranking metrics with their intervals.
#[derive(Clone, Copy, Debug, PartialEq, Eq)]
pub struct EvaluationMetrics {
    pub precision_at_k: MetricWithCI,
    pub recall_at_k: MetricWithCI,
    pub ndcg_at_k: MetricWithCI,
    pub mrr: MetricWithCI,
    pub n_queries: usize,
}

/// The sum of a value sequence.
pub open spec fn spec_sum(s: Seq<u64>) -> int
    decreases s.len(),
{
    if s.len() == 0 {
        0
    } else {
        spec_sum(s.drop_last()) + s.last()
    }
}

/// The sum of squared deviations from `mean`.
pub open spec fn spec_sq_dev_sum(s: Seq<u64>, mean: int) -> int
    decreases s.len(),
{
    if s.len() == 0 {
        0
    } else {
        spec_sq_dev_sum(s.drop_last(), mean) + (s.last() - mean) * (s.last() - mean)
    }
}

/// The integer square root.
pub open spec fn spec_isqrt(x: int) -> int {
    choose|r: int| 0 <= r && #[trigger] (r * r) <= x < (r + 1) * (r + 1)
}

/// Ascending order on machine words.
pub open spec fn spec_u64_le() -> spec_fn(u64, u64) -> bool {
    |a: u64, b: u64| a <= b
}

/// The canonical ascending ordering of a value sequence.
pub open spec fn spec_sorted_u64(s: Seq<u64>) -> Seq<u64> {
    s.sort_by(spec_u64_le())
}

/// The sum of one bootstrap resample of `k` draws, with the state that
/// remains.
pub open spec fn spec_resample_sum(scores: Seq<u64>, k: nat, st: u64) -> (int, u64)
    decreases k,
{
    if k == 0 {
        (0, st)
    } else {
        let v = scores[wy_below(st, scores.len() as u64) as int];
        let rest = spec_resample_sum(scores, (k - 1) as nat, wy_next(st));
        (v + rest.0, rest.1)
    }
}

/// The means of `b` bootstrap resamples, each the size of the scores,
/// in draw order, with the state that remains.
pub open spec fn spec_boot_means(scores: Seq<u64>, b: nat, st: u64) -> (Seq<u64>, u64)
    decreases b,
{
    if b == 0 {
        (Seq::empty(), st)
    } else {
        let s1 = spec_resample_sum(scores, scores.len() as nat, st);
        let mean = (s1.0 / scores.len() as int) as u64;
        let rest = spec_boot_means(scores, (b - 1) as nat, s1.1);
        (seq![mean] + rest.0, rest.1)
    }
}

/// The metric a score sequence aggregates to: exact mean, rounded-down
/// population standard deviation, and the 2.5th and 97.5th percentiles
/// of the sorted bootstrap means. An empty sequence aggregates to all
/// zero with sample count zero and leaves the generator untouched.
pub open spec fn spec_metric_with_ci(scores: Seq<u64>, b: nat, st: u64) -> (MetricWithCI, u64) {
    if scores.len() == 0 {
        (MetricWithCI { mean: 0, std_dev: 0, ci_95: (0u64, 0u64), n: 0 }, st)
    } else {
        let mean = (spec_sum(scores) / scores.len() as int) as u64;
        let var = spec_sq_dev_sum(scores, mean as int) / scores.len() as int;
        let sd = spec_isqrt(var) as u64;
        let boot = spec_boot_means(scores, b, st);
        let sorted = spec_sorted_u64(boot.0);
        let lo = (b * 25) as int / 1000;
        let hi = (b * 975) as int / 1000;
        (
            MetricWithCI {
                mean,
                std_dev: sd,
                ci_95: (sorted[lo], sorted[hi]),
                n: scores.len() as usize,
            },
            boot.1,
        )
    }
}

/// The all-zero aggregate of an empty score sequence.
pub open spec fn zero_metric() -> MetricWithCI {
    MetricWithCI { mean: 0, std_dev: 0, ci_95: (0u64, 0u64), n: 0 }
}

/// All values are at most one unit.
pub open spec fn scores_bounded(s: Seq<u64>) -> bool {
    forall|i: int| 0 <= i < s.len() ==> (#[trigger] s[i]) <= SCORE_ONE
}

/// A bounded sum stays under length times the bound.
proof fn lemma_sum_bounds(s: Seq<u64>)
    requires
        scores_bounded(s),
    ensures
        0 <= spec_sum(s) <= s.len() * SCORE_ONE,
    decreases s.len(),
{
    if s.len() > 0 {
        assert(scores_bounded(s.drop_last())) by {
            assert(forall|i: int|
                0 <= i < s.drop_last().len() ==> (#[trigger] s.drop_last()[i]) == s[i]);
        }
        lemma_sum_bounds(s.drop_last());
        assert(s.last() <= SCORE_ONE);
        assert((s.len() - 1) * SCORE_ONE + SCORE_ONE == s.len() * SCORE_ONE) by (nonlinear_arith);
    }
}

/// Squared deviations of bounded values from a bounded mean stay small.
proof fn lemma_sq_dev_bounds(s: Seq<u64>, mean: int)
    requires
        scores_bounded(s),
        0 <= mean <= SCORE_ONE,
    ensures
        0 <= spec_sq_dev_sum(s, mean) <= s.len() * (SCORE_ONE * SCORE_ONE),
    decreases s.len(),
{
    if s.len() > 0 {
        assert(scores_bounded(s.drop_last())) by {
            assert(forall|i: int|
                0 <= i < s.drop_last().len() ==> (#[trigger] s.drop_last()[i]) == s[i]);
        }
        lemma_sq_dev_bounds(s.drop_last(), mean);
        let d = s.last() - mean;
        assert(0 <= d * d <= SCORE_ONE * SCORE_ONE) by (nonlinear_arith)
            requires
                -1_000_000 <= d <= 1_000_000,
        ;
        assert((s.len() - 1) * (SCORE_ONE * SCORE_ONE) + SCORE_ONE * SCORE_ONE == s.len() * (
        SCORE_ONE * SCORE_ONE)) by (nonlinear_arith);
    }
}

/// Resample sums of bounded scores are bounded.
proof fn lemma_resample_bounds(scores: Seq<u64>, k: nat, st: u64)
    requires
        scores_bounded(scores),
        1 <= scores.len(),
    ensures
        0 <= spec_resample_sum(scores, k, st).0 <= k * SCORE_ONE,
    decreases k,
{
    if k > 0 {
        lemma_resample_bounds(scores, (k - 1) as nat, wy_next(st));
        let idx = wy_below(st, scores.len() as u64) as int;
        if 0 <= idx < scores.len() {
            assert(scores[idx] <= SCORE_ONE);
        }
        assert((k - 1) * SCORE_ONE + SCORE_ONE == k * SCORE_ONE) by (nonlinear_arith);
    }
}

/// Bootstrap means of bounded scores are bounded, and there are `b` of
/// them.
proof fn lemma_boot_means_bounds(scores: Seq<u64>, b: nat, st: u64)
    requires
        scores_bounded(scores),
        1 <= scores.len(),
    ensures
        spec_boot_means(scores, b, st).0.len() == b,
        scores_bounded(spec_boot_means(scores, b, st).0),
    decreases b,
{
    if b > 0 {
        let s1 = spec_resample_sum(scores, scores.len() as nat, st);
        lemma_resample_bounds(scores, scores.len() as nat, st);
        lemma_boot_means_bounds(scores, (b - 1) as nat, s1.1);
        let mean_int = s1.0 / scores.len() as int;
        assert(0 <= mean_int <= SCORE_ONE) by (nonlinear_arith)
            requires
                1 <= scores.len(),
                0 <= s1.0 <= scores.len() * SCORE_ONE,
                mean_int == s1.0 / scores.len() as int,
        ;
        let r = spec_boot_means(scores, b, st).0;
        let rest = spec_boot_means(scores, (b - 1) as nat, s1.1).0;
        assert forall|i: int| 0 <= i < r.len() implies (#[trigger] r[i]) <= SCORE_ONE by {
            if i > 0 {
                assert(r[i] == rest[i - 1]);
            }
        }
    }
}

/// The ascending order on machine words is a total ordering.
proof fn lemma_u64_total_ordering()
    ensures
        vstd::relations::total_ordering(spec_u64_le()),
{
    let leq = spec_u64_le();
    assert forall|x: u64| #[trigger] leq(x, x) by {}
    assert forall|x: u64, y: u64, z: u64| #[trigger] leq(x, y) && #[trigger] leq(y, z) implies leq(
        x,
        z,
    ) by {}
    assert forall|x: u64, y: u64| #[trigger] leq(x, y) && #[trigger] leq(y, x) implies x == y by {}
    assert forall|x: u64, y: u64| #[trigger] leq(x, y) || #[trigger] leq(y, x) by {}
}

/// The integer square root of a machine word, rounded down.
fn isqrt64(x: u64) -> (r: u64)
    ensures
        r * r <= x < (r + 1) * (r + 1),
        r == spec_isqrt(x as int),
{
    let mut lo: u64 = 0;
    let mut hi: u64 = 0x1_0000_0000;
    proof {
        assert((0x1_0000_0000u64 as int) * (0x1_0000_0000u64 as int) > x as int);
    }
    while lo + 1 < hi
        invariant
            lo < hi <= 0x1_0000_0000,
            lo * lo <= x,
            (hi as int) * (hi as int) > x,
        decreases hi - lo,
    {
        let mid: u64 = lo + (hi - lo) / 2;
        proof {
            assert(mid < 0x1_0000_0000);
            assert(mid * mid <= 0xffff_ffff_0000_0000u64 < u64::MAX) by (nonlinear_arith)
                requires
                    mid <= 0xffff_ffffu64,
            ;
        }
        if mid * mid <= x {
            lo = mid;
        } else {
            hi = mid;
        }
    }
    proof {
        assert(hi == lo + 1);
        assert((lo + 1) * (lo + 1) > x);
        assert(lo == spec_isqrt(x as int)) by {
            let c = spec_isqrt(x as int);
            let li = lo as int;
            assert(0 <= li);
            assert(li * li <= x as int);
            assert((x as int) < (li + 1) * (li + 1));
            assert(0 <= c && c * c <= x < (c + 1) * (c + 1));
            assert(c == lo as int) by (nonlinear_arith)
                requires
                    0 <= c,
                    0 <= lo as int,
                    c * c <= x as int,
                    (x as int) < (c + 1) * (c + 1),
                    (lo as int) * (lo as int) <= x as int,
                    (x as int) < ((lo + 1) as int) * (((lo + 1) as int)),
            ;
        }
    }
    lo
}

impl MetricWithCI {
    /// Aggregates a per-query score sequence with a percentile bootstrap:
    /// the exact mean, the rounded-down population standard deviation, and
    /// the 2.5th / 97.5th percentile of the sorted resample means. An empty
    /// sequence yields all-zero fields with sample count zero. The interval
    /// bounds always satisfy `lower <= upper`.
    #[verifier::rlimit(100)]
    pub fn from_scores(scores: &Vec<u64>, n_bootstrap: usize, rng: &mut SeededRng) -> (r:
        MetricWithCI)
        requires
            scores_bounded(scores@),
            scores@.len() <= MAX_EVAL,
            n_bootstrap <= MAX_EVAL,
            scores@.len() > 0 ==> 1 <= n_bootstrap,
        ensures
            (r, final(rng).state) == spec_metric_with_ci(
                scores@,
                n_bootstrap as nat,
                old(rng).state,
            ),
            r.ci_95.0 <= r.ci_95.1,
            r.mean <= SCORE_ONE,
            r.ci_95.1 <= SCORE_ONE,
            r.std_dev <= SCORE_ONE,
    {
        let n: usize = scores.len();
        if n == 0 {
            return MetricWithCI { mean: 0, std_dev: 0, ci_95: (0, 0), n: 0 };
        }
        proof {
            lemma_sum_bounds(scores@);
        }
        let mut sum: u64 = 0;
        let mut i: usize = 0;
        while i < n
            invariant
                i <= n,
                n == scores@.len(),
                scores_bounded(scores@),
                scores@.len() <= MAX_EVAL,
                sum == spec_sum(scores@.take(i as int)),
                sum <= i * SCORE_ONE,
            decreases n - i,
        {
            proof {
                assert(scores@.take(i + 1).drop_last() =~= scores@.take(i as int));
                assert(scores@.take(i + 1).last() == scores@[i as int]);
                assert(i * SCORE_ONE + SCORE_ONE == (i + 1) * SCORE_ONE) by (nonlinear_arith);
            }
            sum = sum + scores[i];
            i = i + 1;
        }
        proof {
            assert(scores@.take(n as int) =~= scores@);
        }
        let mean: u64 = sum / (n as u64);
        proof {
            assert(mean == (spec_sum(scores@) / scores@.len() as int) as u64);
            assert(mean <= SCORE_ONE) by (nonlinear_arith)
                requires
                    1 <= n,
                    0 <= sum <= n * SCORE_ONE,
                    mean == sum as int / n as int,
            ;
            lemma_sq_dev_bounds(scores@, mean as int);
        }
        let mut sq: u128 = 0;
        let mut j: usize = 0;
        while j < n
            invariant
                j <= n,
                n == scores@.len(),
                scores_bounded(scores@),
                scores@.len() <= MAX_EVAL,
                mean <= SCORE_ONE,
                sq == spec_sq_dev_sum(scores@.take(j as int), mean as int),
                sq <= j * (SCORE_ONE * SCORE_ONE),
            decreases n - j,
        {
            proof {
                assert(scores@.take(j + 1).drop_last() =~= scores@.take(j as int));
                assert(scores@.take(j + 1).last() == scores@[j as int]);
            }
            let x: u64 = scores[j];
            let d: u64 = if x >= mean {
                x - mean
            } else {
                mean - x
            };
            proof {
                assert(d <= SCORE_ONE);
                assert((d as int) * (d as int) == (x - mean) * (x - mean)) by (nonlinear_arith)
                    requires
                        d == (if x >= mean {
                            x - mean
                        } else {
                            mean - x
                        }),
                ;
                assert(d * d <= SCORE_ONE * SCORE_ONE) by (nonlinear_arith)
                    requires
                        d <= SCORE_ONE,
                ;
                assert(j * (SCORE_ONE * SCORE_ONE) + SCORE_ONE * SCORE_ONE == (j + 1) * (SCORE_ONE
                    * SCORE_ONE)) by (nonlinear_arith);
            }
            let dd: u64 = d * d;
            sq = sq + (dd as u128);
            j = j + 1;
        }
        proof {
            assert(scores@.take(n as int) =~= scores@);
            assert(sq <= n * (SCORE_ONE * SCORE_ONE));
            assert(n * (SCORE_ONE * SCORE_ONE) <= 0x100_0000 * (1_000_000 * 1_000_000))
                by (nonlinear_arith)
                requires
                    n <= 0x100_0000,
            ;
        }
        let var: u128 = sq / (n as u128);
        proof {
            assert(var == spec_sq_dev_sum(scores@, mean as int) / scores@.len() as int);
            assert(var <= SCORE_ONE * SCORE_ONE) by (nonlinear_arith)
                requires
                    1 <= n,
                    0 <= sq <= n * (SCORE_ONE * SCORE_ONE),
                    var == sq as int / n as int,
            ;
        }
        let sd: u64 = isqrt64(var as u64);
        proof {
            assert(sd == spec_isqrt(var as int));
            assert(sd <= SCORE_ONE) by (nonlinear_arith)
                requires
                    0 <= sd,
                    (sd as int) * (sd as int) <= var as int,
                    var as int <= 1_000_000 * 1_000_000,
            ;
        }
        let ghost st0 = rng.state;
        let mut means: Vec<u64> = Vec::new();
        let mut b: usize = 0;
        proof {
            lemma_boot_means_bounds(scores@, n_bootstrap as nat, st0);
        }
        while b < n_bootstrap
            invariant
                b <= n_bootstrap,
                n == scores@.len(),
                1 <= n,
                scores_bounded(scores@),
                scores@.len() <= MAX_EVAL,
                means@.len() == b,
                scores_bounded(means@),
                spec_boot_means(scores@, n_bootstrap as nat, st0) == (
                    means@ + spec_boot_means(scores@, (n_bootstrap - b) as nat, rng.state).0,
                    spec_boot_means(scores@, (n_bootstrap - b) as nat, rng.state).1,
                ),
            decreases n_bootstrap - b,
        {
            let ghost st_b = rng.state;
            let mut rsum: u64 = 0;
            let mut t: usize = 0;
            proof {
                lemma_resample_bounds(scores@, n as nat, st_b);
            }
            while t < n
                invariant
                    t <= n,
                    n == scores@.len(),
                    1 <= n,
                    scores_bounded(scores@),
                    scores@.len() <= MAX_EVAL,
                    rsum <= t * SCORE_ONE,
                    spec_resample_sum(scores@, n as nat, st_b) == (
                        rsum + spec_resample_sum(scores@, (n - t) as nat, rng.state).0,
                        spec_resample_sum(scores@, (n - t) as nat, rng.state).1,
                    ),
                decreases n - t,
            {
                proof {
                    lemma_resample_bounds(scores@, (n - t) as nat, rng.state);
                    assert(t * SCORE_ONE + SCORE_ONE == (t + 1) * SCORE_ONE) by (nonlinear_arith);
                }
                let idx: usize = rng.index_below(n);
                rsum = rsum + scores[idx];
                t = t + 1;
            }
            let rmean: u64 = rsum / (n as u64);
            proof {
                assert(spec_resample_sum(scores@, 0nat, rng.state).0 == 0);
                assert(rsum == spec_resample_sum(scores@, n as nat, st_b).0);
                assert(rng.state == spec_resample_sum(scores@, n as nat, st_b).1);
                assert(rmean <= SCORE_ONE) by (nonlinear_arith)
                    requires
                        1 <= n,
                        0 <= rsum <= n * SCORE_ONE,
                        rmean == rsum as int / n as int,
                ;
            }
            means.push(rmean);
            proof {
                assert(means@ =~= means@.drop_last().push(rmean));
                assert(spec_boot_means(scores@, (n_bootstrap - b) as nat, st_b).0 == seq![rmean]
                    + spec_boot_means(scores@, (n_bootstrap - b - 1) as nat, rng.state).0);
                assert(means@.drop_last() + (seq![rmean] + spec_boot_means(
                    scores@,
                    (n_bootstrap - b - 1) as nat,
                    rng.state,
                ).0) =~= means@ + spec_boot_means(
                    scores@,
                    (n_bootstrap - b - 1) as nat,
                    rng.state,
                ).0);
            }
            b = b + 1;
        }
        proof {
            assert(spec_boot_means(scores@, 0nat, rng.state).0 =~= Seq::<u64>::empty());
            assert(means@ + Seq::<u64>::empty() =~= means@);
            assert(means@ == spec_boot_means(scores@, n_bootstrap as nat, st0).0);
            assert(rng.state == spec_boot_means(scores@, n_bootstrap as nat, st0).1);
        }
        let sorted: Vec<u64> = sort_u64(&means);
        proof {
            lemma_u64_total_ordering();
            means@.lemma_sort_by_ensures(spec_u64_le());
            assert(vstd::relations::sorted_by(sorted@, spec_u64_le())) by {
                assert forall|p: int, q: int| 0 <= p < q < sorted@.len() implies spec_u64_le()(
                    sorted@[p],
                    sorted@[q],
                ) by {
                    assert(sorted@[p] <= sorted@[q]);
                }
            }
            vstd::seq_lib::lemma_sorted_unique(sorted@, spec_sorted_u64(means@), spec_u64_le());
            assert(sorted@ == spec_sorted_u64(means@));
            crate::order::lemma_multiset_elements(sorted@, means@);
        }
        let lo_idx: usize = (((n_bootstrap as u64) * 25) / 1000) as usize;
        let hi_idx: usize = (((n_bootstrap as u64) * 975) / 1000) as usize;
        proof {
            assert(lo_idx <= hi_idx) by (nonlinear_arith)
                requires
                    lo_idx == (n_bootstrap * 25) as int / 1000,
                    hi_idx == (n_bootstrap * 975) as int / 1000,
                    n_bootstrap >= 1,
            ;
            assert(hi_idx < n_bootstrap) by (nonlinear_arith)
                requires
                    hi_idx == (n_bootstrap * 975) as int / 1000,
                    n_bootstrap >= 1,
            ;
            assert(sorted@.len() == n_bootstrap);
            assert(sorted@[lo_idx as int] <= sorted@[hi_idx as int]);
            assert(sorted@[hi_idx as int] <= SCORE_ONE) by {
                assert(means@.contains(sorted@[hi_idx as int]));
                let w = choose|w: int|
                    0 <= w < means@.len() && means@[w] == sorted@[hi_idx as int];
                assert(means@[w] <= SCORE_ONE);
            }
        }
        let lower: u64 = sorted[lo_idx];
        let upper: u64 = sorted[hi_idx];
        MetricWithCI { mean, std_dev: sd, ci_95: (lower, upper), n }
    }
}

/// The binary-relevant cards of a query: the union of the three
/// highest-severity buckets; the two lowest are excluded by design.
pub open spec fn spec_relevant(l: LabelsView) -> Seq<String> {
    l.highly_relevant + l.relevant + l.somewhat_relevant
}

/// Relevant predictions among the first `k`.
pub open spec fn spec_hits(preds: Seq<String>, rel: Seq<String>, k: int) -> nat
    decreases k,
{
    if k <= 0 {
        0
    } else {
        spec_hits(preds, rel, k - 1) + (if k - 1 < preds.len() && has_name(rel, preds[k - 1]@) {
            1nat
        } else {
            0nat
        })
    }
}

/// The relevant predictions among the first `k`, as a list.
pub open spec fn spec_hit_names(preds: Seq<String>, rel: Seq<String>, k: int) -> Seq<String>
    decreases k,
{
    if k <= 0 {
        Seq::empty()
    } else {
        spec_hit_names(preds, rel, k - 1) + (if k - 1 < preds.len() && has_name(
            rel,
            preds[k - 1]@,
        ) {
            seq![preds[k - 1]]
        } else {
            Seq::<String>::empty()
        })
    }
}

/// The rank of the first relevant prediction, counting from 0.
pub open spec fn spec_first_hit(preds: Seq<String>, rel: Seq<String>) -> Option<int>
    decreases preds.len(),
{
    if preds.len() == 0 {
        None
    } else if has_name(rel, preds[0]@) {
        Some(0)
    } else {
        match spec_first_hit(preds.skip(1), rel) {
            Some(i) => Some(i + 1),
            None => None,
        }
    }
}

/// Discounted gain of the relevant predictions among the first `k`.
pub open spec fn spec_dcg(preds: Seq<String>, rel: Seq<String>, d: Seq<u64>, k: int) -> int
    decreases k,
{
    if k <= 0 {
        0
    } else {
        spec_dcg(preds, rel, d, k - 1) + (if k - 1 < preds.len() && has_name(
            rel,
            preds[k - 1]@,
        ) {
            d[k - 1] as int
        } else {
            0
        })
    }
}

/// The ideal gain: the first `m` discounts.
pub open spec fn spec_ideal(d: Seq<u64>, m: int) -> int
    decreases m,
{
    if m <= 0 {
        0
    } else {
        spec_ideal(d, m - 1) + d[m - 1]
    }
}

/// Precision at `k`, in millionths.
pub open spec fn spec_precision(preds: Seq<String>, rel: Seq<String>, k: int) -> u64 {
    if k > 0 {
        ((spec_hits(preds, rel, k) * SCORE_ONE) / k) as u64
    } else {
        0
    }
}

/// Recall at `k`, in millionths; zero when nothing is relevant.
pub open spec fn spec_recall(preds: Seq<String>, rel: Seq<String>, k: int) -> u64 {
    if rel.len() > 0 {
        ((spec_hits(preds, rel, k) * SCORE_ONE) as int / rel.len() as int) as u64
    } else {
        0
    }
}

/// Binary-gain nDCG at `k` against a discount curve, in millionths; zero
/// when the ideal gain is zero.
pub open spec fn spec_ndcg(preds: Seq<String>, rel: Seq<String>, d: Seq<u64>, k: int) -> u64 {
    let m = if rel.len() < k {
        rel.len() as int
    } else {
        k
    };
    let ideal = spec_ideal(d, m);
    if ideal > 0 {
        ((spec_dcg(preds, rel, d, k) * SCORE_ONE) / ideal) as u64
    } else {
        0
    }
}

/// Reciprocal rank of the first relevant prediction, in millionths.
pub open spec fn spec_mrr(preds: Seq<String>, rel: Seq<String>) -> u64 {
    match spec_first_hit(preds, rel) {
        Some(i) => (SCORE_ONE as int / (i + 1)) as u64,
        None => 0,
    }
}

/// The per-query precision values, in query order.
pub open spec fn spec_precision_scores(
    qs: Seq<(String, RelevanceLabels)>,
    ps: Seq<Vec<String>>,
    k: int,
) -> Seq<u64>
    decreases qs.len(),
{
    if qs.len() == 0 {
        Seq::empty()
    } else {
        spec_precision_scores(qs.drop_last(), ps.drop_last(), k) + seq![
            spec_precision(ps.last()@, spec_relevant(qs.last().1@), k),
        ]
    }
}

/// The per-query recall values, in query order.
pub open spec fn spec_recall_scores(
    qs: Seq<(String, RelevanceLabels)>,
    ps: Seq<Vec<String>>,
    k: int,
) -> Seq<u64>
    decreases qs.len(),
{
    if qs.len() == 0 {
        Seq::empty()
    } else {
        spec_recall_scores(qs.drop_last(), ps.drop_last(), k) + seq![
            spec_recall(ps.last()@, spec_relevant(qs.last().1@), k),
        ]
    }
}

/// The per-query nDCG values, in query order.
pub open spec fn spec_ndcg_scores(
    qs: Seq<(String, RelevanceLabels)>,
    ps: Seq<Vec<String>>,
    d: Seq<u64>,
    k: int,
) -> Seq<u64>
    decreases qs.len(),
{
    if qs.len() == 0 {
        Seq::empty()
    } else {
        spec_ndcg_scores(qs.drop_last(), ps.drop_last(), d, k) + seq![
            spec_ndcg(ps.last()@, spec_relevant(qs.last().1@), d, k),
        ]
    }
}

/// The per-query reciprocal ranks, in query order.
pub open spec fn spec_mrr_scores(qs: Seq<(String, RelevanceLabels)>, ps: Seq<Vec<String>>) -> Seq<
    u64,
>
    decreases qs.len(),
{
    if qs.len() == 0 {
        Seq::empty()
    } else {
        spec_mrr_scores(qs.drop_last(), ps.drop_last()) + seq![
            spec_mrr(ps.last()@, spec_relevant(qs.last().1@)),
        ]
    }
}

/// The whole evaluation: each metric aggregated over its per-query
/// values, the four bootstraps drawing from one seeded generator in
/// metric order.
pub open spec fn spec_eval(
    qs: Seq<(String, RelevanceLabels)>,
    ps: Seq<Vec<String>>,
    k: int,
    d: Seq<u64>,
    b: nat,
    seed: u64,
) -> EvaluationMetrics {
    let m1 = spec_metric_with_ci(spec_precision_scores(qs, ps, k), b, seed);
    let m2 = spec_metric_with_ci(spec_recall_scores(qs, ps, k), b, m1.1);
    let m3 = spec_metric_with_ci(spec_ndcg_scores(qs, ps, d, k), b, m2.1);
    let m4 = spec_metric_with_ci(spec_mrr_scores(qs, ps), b, m3.1);
    EvaluationMetrics {
        precision_at_k: m1.0,
        recall_at_k: m2.0,
        ndcg_at_k: m3.0,
        mrr: m4.0,
        n_queries: qs.len() as usize,
    }
}

/// A discount curve: bounded by one unit and nonincreasing.
pub open spec fn discounts_wf(d: Seq<u64>) -> bool {
    &&& forall|i: int| 0 <= i < d.len() ==> (#[trigger] d[i]) <= SCORE_ONE
    &&& forall|p: int, q: int| 0 <= p < q < d.len() ==> d[q] <= d[p]
}

/// Hits never outnumber the ranks inspected.
proof fn lemma_hits_le_k(preds: Seq<String>, rel: Seq<String>, k: int)
    ensures
        spec_hits(preds, rel, k) <= (if k >= 0 {
            k
        } else {
            0
        }),
        spec_hit_names(preds, rel, k).len() == spec_hits(preds, rel, k),
    decreases k,
{
    if k > 0 {
        lemma_hits_le_k(preds, rel, k - 1);
    }
}

/// The hit list holds relevant names drawn from distinct predictions.
proof fn lemma_hit_names_props(preds: Seq<String>, rel: Seq<String>, k: int)
    requires
        names_nodup(preds),
        k <= preds.len(),
    ensures
        names_nodup(spec_hit_names(preds, rel, k)),
        forall|n: Seq<char>|
            #[trigger] has_name(spec_hit_names(preds, rel, k), n) ==> has_name(rel, n),
    decreases k,
{
    if k > 0 {
        lemma_hit_names_props(preds, rel, k - 1);
        lemma_hits_le_k(preds, rel, k - 1);
        let prev = spec_hit_names(preds, rel, k - 1);
        let cur = spec_hit_names(preds, rel, k);
        assert forall|n: Seq<char>| #[trigger] has_name(cur, n) implies has_name(rel, n) by {
            let w = choose|w: int| 0 <= w < cur.len() && cur[w]@ == n;
            if w < prev.len() {
                assert(has_name(prev, n)) by {
                    assert(prev[w]@ == n);
                }
            } else {
                assert(cur[w] == preds[k - 1]);
            }
        }
        assert(forall|w: int| 0 <= w < prev.len() ==> #[trigger] cur[w] == prev[w]);
        if k - 1 < preds.len() && has_name(rel, preds[k - 1]@) {
            assert(names_nodup(cur)) by {
                assert forall|p: int, q: int| 0 <= p < q < cur.len() implies cur[p]@
                    != cur[q]@ by {
                    if q == cur.len() - 1 {
                        assert(cur[q] == preds[k - 1]);
                        assert(has_name(prev, cur[p]@)) by {
                            assert(prev[p]@ == cur[p]@);
                        }
                        if cur[p]@ == preds[k - 1]@ {
                            lemma_hit_names_from(preds, rel, k - 1, cur[p]@);
                        }
                    }
                }
            }
        }
    }
}

/// A hit name among the first `k` comes from a prediction before `k`.
proof fn lemma_hit_names_from(preds: Seq<String>, rel: Seq<String>, k: int, n: Seq<char>)
    requires
        k <= preds.len(),
        has_name(spec_hit_names(preds, rel, k), n),
    ensures
        exists|i: int| 0 <= i < k && i < preds.len() && (#[trigger] preds[i])@ == n,
    decreases k,
{
    if k > 0 {
        let cur = spec_hit_names(preds, rel, k);
        let prev = spec_hit_names(preds, rel, k - 1);
        let w = choose|w: int| 0 <= w < cur.len() && cur[w]@ == n;
        if w < prev.len() {
            assert(has_name(prev, n)) by {
                assert(prev[w]@ == n);
            }
            lemma_hit_names_from(preds, rel, k - 1, n);
            let i = choose|i: int|
                0 <= i < k - 1 && i < preds.len() && (#[trigger] preds[i])@ == n;
            assert(0 <= i < k && (#[trigger] preds[i])@ == n);
        } else {
            assert(cur[w] == preds[k - 1]);
            assert((#[trigger] preds[k - 1])@ == n);
        }
    }
}

/// Distinct predictions cannot hit more often than there are relevant
/// names.
proof fn lemma_hits_le_rel(preds: Seq<String>, rel: Seq<String>, k: int)
    requires
        names_nodup(preds),
        k <= preds.len(),
    ensures
        spec_hits(preds, rel, k) <= rel.len(),
{
    lemma_hits_le_k(preds, rel, k);
    lemma_hit_names_props(preds, rel, k);
    crate::query::lemma_name_count(spec_hit_names(preds, rel, k), rel);
}

/// The ideal gain grows with its depth.
proof fn lemma_ideal_mono(d: Seq<u64>, m1: int, m2: int)
    requires
        m1 <= m2 <= d.len(),
    ensures
        spec_ideal(d, m1) <= spec_ideal(d, m2),
    decreases m2 - m1,
{
    if m1 < m2 {
        lemma_ideal_mono(d, m1, m2 - 1);
    }
}

/// The ideal gain of a bounded curve is bounded.
proof fn lemma_ideal_bounds(d: Seq<u64>, m: int)
    requires
        m <= d.len(),
        forall|i: int| 0 <= i < d.len() ==> (#[trigger] d[i]) <= SCORE_ONE,
    ensures
        0 <= spec_ideal(d, m) <= (if m >= 0 {
            m
        } else {
            0
        }) * SCORE_ONE,
    decreases m,
{
    if m > 0 {
        lemma_ideal_bounds(d, m - 1);
        assert((m - 1) * SCORE_ONE + SCORE_ONE == m * SCORE_ONE) by (nonlinear_arith);
    }
}

/// The discounted gain never exceeds the ideal gain of the hit count.
proof fn lemma_dcg_le_ideal_hits(preds: Seq<String>, rel: Seq<String>, d: Seq<u64>, k: int)
    requires
        discounts_wf(d),
        k <= d.len(),
    ensures
        0 <= spec_dcg(preds, rel, d, k) <= spec_ideal(d, spec_hits(preds, rel, k) as int),
    decreases k,
{
    if k > 0 {
        lemma_dcg_le_ideal_hits(preds, rel, d, k - 1);
        lemma_hits_le_k(preds, rel, k - 1);
        let h0 = spec_hits(preds, rel, k - 1) as int;
        if k - 1 < preds.len() && has_name(rel, preds[k - 1]@) {
            assert(h0 <= k - 1);
            assert(d[k - 1] <= d[h0]);
            assert(spec_ideal(d, h0 + 1) == spec_ideal(d, h0) + d[h0]);
        }
    }
}

/// The relevant cards of one query as a list.
fn relevant_of(labels: &RelevanceLabels) -> (r: Vec<String>)
    ensures
        r@ == spec_relevant(labels@),
{
    let mut out: Vec<String> = Vec::new();
    let mut i: usize = 0;
    while i < labels.highly_relevant.len()
        invariant
            i <= labels.highly_relevant@.len(),
            out@ == labels.highly_relevant@.take(i as int),
        decreases labels.highly_relevant@.len() - i,
    {
        out.push(labels.highly_relevant[i].clone());
        proof {
            assert(out@ =~= labels.highly_relevant@.take(i + 1));
        }
        i = i + 1;
    }
    proof {
        assert(labels.highly_relevant@.take(labels.highly_relevant@.len() as int)
            =~= labels.highly_relevant@);
    }
    let mut j: usize = 0;
    while j < labels.relevant.len()
        invariant
            j <= labels.relevant@.len(),
            out@ == labels.highly_relevant@ + labels.relevant@.take(j as int),
        decreases labels.relevant@.len() - j,
    {
        out.push(labels.relevant[j].clone());
        proof {
            assert(out@ =~= labels.highly_relevant@ + labels.relevant@.take(j + 1));
        }
        j = j + 1;
    }
    proof {
        assert(labels.relevant@.take(labels.relevant@.len() as int) =~= labels.relevant@);
    }
    let mut t: usize = 0;
    while t < labels.somewhat_relevant.len()
        invariant
            t <= labels.somewhat_relevant@.len(),
            out@ == labels.highly_relevant@ + labels.relevant@ + labels.somewhat_relevant@.take(
                t as int,
            ),
        decreases labels.somewhat_relevant@.len() - t,
    {
        out.push(labels.somewhat_relevant[t].clone());
        proof {
            assert(out@ =~= labels.highly_relevant@ + labels.relevant@
                + labels.somewhat_relevant@.take(t + 1));
        }
        t = t + 1;
    }
    proof {
        assert(labels.somewhat_relevant@.take(labels.somewhat_relevant@.len() as int)
            =~= labels.somewhat_relevant@);
        assert(out@ =~= spec_relevant(labels@));
    }
    out
}

/// The four metric values of one query, in millionths.
#[verifier::rlimit(100)]
fn query_scores(preds: &Vec<String>, rel: &Vec<String>, top_k: usize, discounts: &Vec<u64>) -> (r:
    (u64, u64, u64, u64))
    requires
        names_nodup(preds@),
        top_k <= 0x10000,
        discounts@.len() >= top_k,
        discounts_wf(discounts@),
        preds@.len() <= MAX_EVAL,
    ensures
        r.0 == spec_precision(preds@, rel@, top_k as int),
        r.1 == spec_recall(preds@, rel@, top_k as int),
        r.2 == spec_ndcg(preds@, rel@, discounts@, top_k as int),
        r.3 == spec_mrr(preds@, rel@),
        r.0 <= SCORE_ONE,
        r.1 <= SCORE_ONE,
        r.2 <= SCORE_ONE,
        r.3 <= SCORE_ONE,
{
    let mut hits: u64 = 0;
    let mut i: usize = 0;
    while i < top_k
        invariant
            i <= top_k,
            top_k <= 0x10000,
            hits == spec_hits(preds@, rel@, i as int),
            hits <= i,
        decreases top_k - i,
    {
        if i < preds.len() && vec_has_name(rel, preds[i].as_str()) {
            hits = hits + 1;
        }
        i = i + 1;
    }
    let precision: u64 = if top_k > 0 {
        proof {
            assert((hits * SCORE_ONE) as int / (top_k as int) <= SCORE_ONE)
                by (nonlinear_arith)
                requires
                    1 <= top_k <= 0x10000,
                    0 <= hits <= top_k,
            ;
        }
        (hits * SCORE_ONE) / (top_k as u64)
    } else {
        0
    };
    let recall: u64 = if rel.len() > 0 {
        proof {
            assert(spec_hits(preds@, rel@, top_k as int) <= rel@.len()) by {
                if top_k as int > preds@.len() {
                    lemma_hits_stable(preds@, rel@, preds@.len() as int, top_k as int);
                    lemma_hits_le_rel(preds@, rel@, preds@.len() as int);
                } else {
                    lemma_hits_le_rel(preds@, rel@, top_k as int);
                }
            }
            assert((hits * SCORE_ONE) as int / (rel@.len() as int) <= SCORE_ONE)
                by (nonlinear_arith)
                requires
                    1 <= rel@.len(),
                    0 <= hits <= rel@.len(),
            ;
        }
        (hits * SCORE_ONE) / (rel.len() as u64)
    } else {
        0
    };
    let mut dcg: u64 = 0;
    let mut di: usize = 0;
    while di < top_k
        invariant
            di <= top_k,
            top_k <= 0x10000,
            discounts@.len() >= top_k,
            discounts_wf(discounts@),
            dcg == spec_dcg(preds@, rel@, discounts@, di as int),
            dcg <= di * SCORE_ONE,
        decreases top_k - di,
    {
        proof {
            assert(di * SCORE_ONE + SCORE_ONE == (di + 1) * SCORE_ONE) by (nonlinear_arith);
        }
        if di < preds.len() && vec_has_name(rel, preds[di].as_str()) {
            dcg = dcg + discounts[di];
        }
        di = di + 1;
    }
    let m: usize = if rel.len() < top_k {
        rel.len()
    } else {
        top_k
    };
    let mut ideal: u64 = 0;
    let mut mi: usize = 0;
    while mi < m
        invariant
            mi <= m,
            m <= top_k <= 0x10000,
            discounts@.len() >= top_k,
            discounts_wf(discounts@),
            ideal == spec_ideal(discounts@, mi as int),
            ideal <= mi * SCORE_ONE,
        decreases m - mi,
    {
        proof {
            assert(mi * SCORE_ONE + SCORE_ONE == (mi + 1) * SCORE_ONE) by (nonlinear_arith);
        }
        ideal = ideal + discounts[mi];
        mi = mi + 1;
    }
    let ndcg: u64 = if ideal > 0 {
        proof {
            lemma_dcg_le_ideal_hits(preds@, rel@, discounts@, top_k as int);
            assert(spec_hits(preds@, rel@, top_k as int) <= rel@.len()) by {
                if top_k as int > preds@.len() {
                    lemma_hits_stable(preds@, rel@, preds@.len() as int, top_k as int);
                    lemma_hits_le_rel(preds@, rel@, preds@.len() as int);
                } else {
                    lemma_hits_le_rel(preds@, rel@, top_k as int);
                }
            }
            lemma_hits_le_k(preds@, rel@, top_k as int);
            lemma_ideal_mono(
                discounts@,
                spec_hits(preds@, rel@, top_k as int) as int,
                m as int,
            );
            assert(dcg <= ideal);
            assert((dcg * SCORE_ONE) as int / (ideal as int) <= SCORE_ONE)
                by (nonlinear_arith)
                requires
                    1 <= ideal,
                    0 <= dcg <= ideal,
            ;
            assert(dcg * SCORE_ONE <= 0x10000 * 1_000_000 * 1_000_000) by (nonlinear_arith)
                requires
                    0 <= dcg <= 0x10000 * 1_000_000,
            ;
        }
        (dcg * SCORE_ONE) / ideal
    } else {
        0
    };
    let mut mrr: u64 = 0;
    let mut fi: usize = 0;
    let mut found: bool = false;
    while fi < preds.len() && !found
        invariant
            fi <= preds@.len(),
            preds@.len() <= MAX_EVAL,
            !found ==> mrr == 0,
            !found ==> forall|j: int| 0 <= j < fi ==> !has_name(rel@, (#[trigger] preds@[j])@),
            found ==> fi >= 1 && spec_first_hit(preds@, rel@) == Some(fi - 1) && mrr == (
            SCORE_ONE as int / (fi as int)) as u64 && mrr <= SCORE_ONE,
        decreases preds@.len() - fi,
    {
        if vec_has_name(rel, preds[fi].as_str()) {
            proof {
                lemma_first_hit_at(preds@, rel@, fi as int);
            }
            mrr = SCORE_ONE / ((fi + 1) as u64);
            found = true;
        }
        fi = fi + 1;
    }
    proof {
        if !found {
            lemma_first_hit_missing(preds@, rel@);
            assert(mrr == 0);
        }
    }
    (precision, recall, ndcg, mrr)
}

/// Hits at depths past the predictions stay put.
proof fn lemma_hits_stable(preds: Seq<String>, rel: Seq<String>, k1: int, k2: int)
    requires
        preds.len() <= k1 <= k2,
    ensures
        spec_hits(preds, rel, k2) == spec_hits(preds, rel, k1),
    decreases k2 - k1,
{
    if k1 < k2 {
        lemma_hits_stable(preds, rel, k1, k2 - 1);
    }
}

/// The first matching scan index is the first hit.
proof fn lemma_first_hit_at(preds: Seq<String>, rel: Seq<String>, i: int)
    requires
        0 <= i < preds.len(),
        has_name(rel, preds[i]@),
        forall|j: int| 0 <= j < i ==> !has_name(rel, (#[trigger] preds[j])@),
    ensures
        spec_first_hit(preds, rel) == Some(i),
    decreases i,
{
    if i > 0 {
        lemma_first_hit_at(preds.skip(1), rel, i - 1);
    }
}

/// Without a relevant prediction there is no first hit.
proof fn lemma_first_hit_missing(preds: Seq<String>, rel: Seq<String>)
    requires
        forall|j: int| 0 <= j < preds.len() ==> !has_name(rel, (#[trigger] preds[j])@),
    ensures
        spec_first_hit(preds, rel) is None,
    decreases preds.len(),
{
    if preds.len() > 0 {
        lemma_first_hit_missing(preds.skip(1), rel);
    }
}

/// Evaluates precomputed per-query predictions against a graded query
/// list: the four metrics over all queries with percentile-bootstrap
/// intervals, exactly [`spec_eval`]. An empty query list yields
/// `n_queries == 0` and all-zero metrics without error; every interval
/// satisfies `lower <= upper`.
#[verifier::rlimit(100)]
pub fn evaluate_queries(
    queries: &Vec<(String, RelevanceLabels)>,
    preds: &Vec<Vec<String>>,
    top_k: usize,
    discounts: &Vec<u64>,
    n_bootstrap: usize,
    seed: u64,
) -> (r: EvaluationMetrics)
    requires
        queries@.len() == preds@.len(),
        queries@.len() <= MAX_EVAL,
        top_k <= 0x10000,
        discounts@.len() >= top_k,
        discounts_wf(discounts@),
        n_bootstrap <= MAX_EVAL,
        queries@.len() > 0 ==> 1 <= n_bootstrap,
        forall|i: int| 0 <= i < preds@.len() ==> names_nodup((#[trigger] preds@[i])@),
        forall|i: int| 0 <= i < preds@.len() ==> (#[trigger] preds@[i])@.len() <= MAX_EVAL,
    ensures
        r == spec_eval(
            queries@,
            preds@,
            top_k as int,
            discounts@,
            n_bootstrap as nat,
            seed,
        ),
        r.n_queries == queries@.len(),
        r.precision_at_k.n == queries@.len(),
        r.recall_at_k.n == queries@.len(),
        r.ndcg_at_k.n == queries@.len(),
        r.mrr.n == queries@.len(),
        queries@.len() == 0 ==> r.precision_at_k == zero_metric() && r.recall_at_k
            == zero_metric() && r.ndcg_at_k == zero_metric() && r.mrr == zero_metric(),
        r.precision_at_k.ci_95.0 <= r.precision_at_k.ci_95.1,
        r.recall_at_k.ci_95.0 <= r.recall_at_k.ci_95.1,
        r.ndcg_at_k.ci_95.0 <= r.ndcg_at_k.ci_95.1,
        r.mrr.ci_95.0 <= r.mrr.ci_95.1,
{
    let mut ps: Vec<u64> = Vec::new();
    let mut rs: Vec<u64> = Vec::new();
    let mut ns: Vec<u64> = Vec::new();
    let mut ms: Vec<u64> = Vec::new();
    let mut qi: usize = 0;
    while qi < queries.len()
        invariant
            qi <= queries@.len(),
            queries@.len() == preds@.len(),
            queries@.len() <= MAX_EVAL,
            top_k <= 0x10000,
            discounts@.len() >= top_k,
            discounts_wf(discounts@),
            forall|i: int| 0 <= i < preds@.len() ==> names_nodup((#[trigger] preds@[i])@),
            forall|i: int| 0 <= i < preds@.len() ==> (#[trigger] preds@[i])@.len() <= MAX_EVAL,
            ps@ == spec_precision_scores(
                queries@.take(qi as int),
                preds@.take(qi as int),
                top_k as int,
            ),
            rs@ == spec_recall_scores(
                queries@.take(qi as int),
                preds@.take(qi as int),
                top_k as int,
            ),
            ns@ == spec_ndcg_scores(
                queries@.take(qi as int),
                preds@.take(qi as int),
                discounts@,
                top_k as int,
            ),
            ms@ == spec_mrr_scores(queries@.take(qi as int), preds@.take(qi as int)),
            scores_bounded(ps@),
            scores_bounded(rs@),
            scores_bounded(ns@),
            scores_bounded(ms@),
            ps@.len() == qi && rs@.len() == qi && ns@.len() == qi && ms@.len() == qi,
        decreases queries@.len() - qi,
    {
        let rel: Vec<String> = relevant_of(&queries[qi].1);
        let s4: (u64, u64, u64, u64) = query_scores(&preds[qi], &rel, top_k, discounts);
        let ghost ps0 = ps@;
        let ghost rs0 = rs@;
        let ghost ns0 = ns@;
        let ghost ms0 = ms@;
        ps.push(s4.0);
        rs.push(s4.1);
        ns.push(s4.2);
        ms.push(s4.3);
        proof {
            assert(queries@.take(qi + 1).drop_last() =~= queries@.take(qi as int));
            assert(preds@.take(qi + 1).drop_last() =~= preds@.take(qi as int));
            assert(queries@.take(qi + 1).last() == queries@[qi as int]);
            assert(preds@.take(qi + 1).last() == preds@[qi as int]);
            assert(ps@ =~= ps0 + seq![s4.0]);
            assert(rs@ =~= rs0 + seq![s4.1]);
            assert(ns@ =~= ns0 + seq![s4.2]);
            assert(ms@ =~= ms0 + seq![s4.3]);
            assert(ps@ =~= spec_precision_scores(
                queries@.take(qi + 1),
                preds@.take(qi + 1),
                top_k as int,
            ));
            assert(rs@ =~= spec_recall_scores(
                queries@.take(qi + 1),
                preds@.take(qi + 1),
                top_k as int,
            ));
            assert(ns@ =~= spec_ndcg_scores(
                queries@.take(qi + 1),
                preds@.take(qi + 1),
                discounts@,
                top_k as int,
            ));
            assert(ms@ =~= spec_mrr_scores(queries@.take(qi + 1), preds@.take(qi + 1)));
        }
        qi = qi + 1;
    }
    proof {
        assert(queries@.take(queries@.len() as int) =~= queries@);
        assert(preds@.take(preds@.len() as int) =~= preds@);
    }
    let mut rng: SeededRng = SeededRng::new(seed);
    let precision_at_k: MetricWithCI = MetricWithCI::from_scores(&ps, n_bootstrap, &mut rng);
    let recall_at_k: MetricWithCI = MetricWithCI::from_scores(&rs, n_bootstrap, &mut rng);
    let ndcg_at_k: MetricWithCI = MetricWithCI::from_scores(&ns, n_bootstrap, &mut rng);
    let mrr: MetricWithCI = MetricWithCI::from_scores(&ms, n_bootstrap, &mut rng);
    proof {
        assert(precision_at_k.n == queries@.len());
        assert(recall_at_k.n == queries@.len());
        assert(ndcg_at_k.n == queries@.len());
        assert(mrr.n == queries@.len());
    }
    let n_queries: usize = queries.len();
    EvaluationMetrics { precision_at_k, recall_at_k, ndcg_at_k, mrr, n_queries }
}

/// A producer of ranked `(card, score)` lists: the capability interface
/// every similarity source offers. Implementations outside the library
/// carry no verified contract; the exact evaluation statement lives on
/// [`evaluate_queries`], which takes the produced lists as plain values.
pub trait RankedSource {
    /// The ranked candidates for one query, best first, at most `depth`.
    fn produce_ranked_list(&self, query: &str, depth: usize) -> Vec<(String, crate::frac::Frac)>;
}

/// Evaluates a ranked-list source against a graded test set: fetches
/// twice the target depth per query, drops duplicate predictions, and
/// aggregates with [`evaluate_queries`]. Every interval satisfies
/// `lower <= upper`; an empty test set yields `n_queries == 0` and
/// all-zero metrics without error.
pub fn evaluate_similarity<S: RankedSource>(
    test_set: &crate::test_set::TestSet,
    source: &S,
    top_k: usize,
    discounts: &Vec<u64>,
    n_bootstrap: usize,
    seed: u64,
) -> (r: EvaluationMetrics)
    requires
        test_set.queries.entries@.len() <= MAX_EVAL,
        top_k <= 0x10000,
        discounts@.len() >= top_k,
        discounts_wf(discounts@),
        n_bootstrap <= MAX_EVAL,
        test_set.queries.entries@.len() > 0 ==> 1 <= n_bootstrap,
    ensures
        r.n_queries == test_set.queries.entries@.len(),
        r.precision_at_k.n == r.n_queries,
        r.recall_at_k.n == r.n_queries,
        r.ndcg_at_k.n == r.n_queries,
        r.mrr.n == r.n_queries,
        test_set.queries.entries@.len() == 0 ==> r.precision_at_k == zero_metric()
            && r.recall_at_k == zero_metric() && r.ndcg_at_k == zero_metric() && r.mrr
            == zero_metric(),
        r.precision_at_k.ci_95.0 <= r.precision_at_k.ci_95.1,
        r.recall_at_k.ci_95.0 <= r.recall_at_k.ci_95.1,
        r.ndcg_at_k.ci_95.0 <= r.ndcg_at_k.ci_95.1,
        r.mrr.ci_95.0 <= r.mrr.ci_95.1,
{
    let mut preds: Vec<Vec<String>> = Vec::new();
    let mut qi: usize = 0;
    while qi < test_set.queries.entries.len()
        invariant
            qi <= test_set.queries.entries@.len(),
            test_set.queries.entries@.len() <= MAX_EVAL,
            top_k <= 0x10000,
            preds@.len() == qi,
            forall|i: int| 0 <= i < preds@.len() ==> names_nodup((#[trigger] preds@[i])@),
            forall|i: int| 0 <= i < preds@.len() ==> (#[trigger] preds@[i])@.len() <= MAX_EVAL,
        decreases test_set.queries.entries@.len() - qi,
    {
        let ranked: Vec<(String, crate::frac::Frac)> = source.produce_ranked_list(
            test_set.queries.entries[qi].0.as_str(),
            2 * top_k,
        );
        let mut names: Vec<String> = Vec::new();
        let mut t: usize = 0;
        while t < ranked.len()
            invariant
                t <= ranked@.len(),
                names_nodup(names@),
                names@.len() <= MAX_EVAL,
            decreases ranked@.len() - t,
        {
            if names.len() < MAX_EVAL {
                crate::table::push_unique(&mut names, ranked[t].0.as_str());
            }
            t = t + 1;
        }
        let ghost preds0 = preds@;
        preds.push(names);
        proof {
            assert forall|i: int| 0 <= i < preds@.len() implies names_nodup(
                (#[trigger] preds@[i])@,
            ) && (#[trigger] preds@[i])@.len() <= MAX_EVAL by {
                if i < preds0.len() {
                    assert(preds@[i] == preds0[i]);
                    assert(names_nodup((#[trigger] preds0[i])@) && (#[trigger] preds0[i])@.len()
                        <= MAX_EVAL);
                }
            }
        }
        qi = qi + 1;
    }
    let queries: &Vec<(String, RelevanceLabels)> = &test_set.queries.entries;
    evaluate_queries(queries, &preds, top_k, discounts, n_bootstrap, seed)
}

} // verus!
