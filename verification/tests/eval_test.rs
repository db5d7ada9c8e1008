//! Evaluation engine: exact per-query metrics, bootstrap aggregation,
//! and the degenerate cases.

use decksage_annotation::eval::{evaluate_queries, evaluate_similarity, MetricWithCI, SCORE_ONE};
use decksage_annotation::deck::{CardEntry, DeckRecord};
use decksage_annotation::rng::SeededRng;
use decksage_annotation::sideboard::compute_sideboard_signal;
use decksage_annotation::similarity::SideboardSource;
use decksage_annotation::table::Table;
use decksage_annotation::test_set::{default_version, RelevanceLabels, TestSet};

fn discounts() -> Vec<u64> {
    // A strictly decreasing curve bounded by one unit, long enough for
    // every depth these tests use.
    (0..32).map(|i| 910_000 - (i as u64) * 10_000).collect()
}

fn labels(highly: &[&str], relevant: &[&str], somewhat: &[&str]) -> RelevanceLabels {
    let mut l = RelevanceLabels::new();
    for c in highly {
        l.add(c.to_string(), 4);
    }
    for c in relevant {
        l.add(c.to_string(), 3);
    }
    for c in somewhat {
        l.add(c.to_string(), 2);
    }
    l
}

fn names(v: &[&str]) -> Vec<String> {
    v.iter().map(|s| s.to_string()).collect()
}

#[test]
fn empty_scores_aggregate_to_zero() {
    let mut rng = SeededRng::new(5);
    let scores: Vec<u64> = Vec::new();
    let m: MetricWithCI = MetricWithCI::from_scores(&scores, 100, &mut rng);
    assert_eq!(m.mean, 0);
    assert_eq!(m.std_dev, 0);
    assert_eq!(m.ci_95, (0, 0));
    assert_eq!(m.n, 0);
}

#[test]
fn bootstrap_interval_is_ordered() {
    for seed in 0..20u64 {
        let mut rng = SeededRng::new(seed);
        let scores: Vec<u64> = vec![0, SCORE_ONE / 4, SCORE_ONE / 2, SCORE_ONE];
        let m = MetricWithCI::from_scores(&scores, 200, &mut rng);
        assert!(m.ci_95.0 <= m.ci_95.1);
        assert!(m.ci_95.1 <= SCORE_ONE);
        assert_eq!(m.n, 4);
    }
}

#[test]
fn constant_scores_have_tight_interval() {
    let mut rng = SeededRng::new(1);
    let scores: Vec<u64> = vec![SCORE_ONE / 2; 7];
    let m = MetricWithCI::from_scores(&scores, 50, &mut rng);
    assert_eq!(m.mean, SCORE_ONE / 2);
    assert_eq!(m.std_dev, 0);
    assert_eq!(m.ci_95, (SCORE_ONE / 2, SCORE_ONE / 2));
}

#[test]
fn from_scores_is_reproducible() {
    let scores: Vec<u64> = vec![0, 250_000, 900_000, 400_000, 100_000];
    let mut r1 = SeededRng::new(77);
    let mut r2 = SeededRng::new(77);
    let m1 = MetricWithCI::from_scores(&scores, 300, &mut r1);
    let m2 = MetricWithCI::from_scores(&scores, 300, &mut r2);
    assert_eq!(m1, m2);
}

#[test]
fn empty_test_set_evaluates_to_zero() {
    let queries: Vec<(String, RelevanceLabels)> = Vec::new();
    let preds: Vec<Vec<String>> = Vec::new();
    let d = discounts();
    let m = evaluate_queries(&queries, &preds, 10, &d, 100, 42);
    assert_eq!(m.n_queries, 0);
    assert_eq!(m.precision_at_k.mean, 0);
    assert_eq!(m.recall_at_k.mean, 0);
    assert_eq!(m.ndcg_at_k.mean, 0);
    assert_eq!(m.mrr.mean, 0);
    assert_eq!(m.precision_at_k.n, 0);
}

#[test]
fn single_query_metrics_are_exact() {
    let queries = vec![("q".to_string(), labels(&["B"], &[], &[]))];
    let preds = vec![names(&["B", "X"])];
    let d = discounts();
    let m = evaluate_queries(&queries, &preds, 2, &d, 10, 9);
    assert_eq!(m.n_queries, 1);
    // One relevant card in the top two: precision one half.
    assert_eq!(m.precision_at_k.mean, SCORE_ONE / 2);
    // The only relevant card is found: recall one.
    assert_eq!(m.recall_at_k.mean, SCORE_ONE);
    // The hit sits at rank zero: the gain equals the ideal gain.
    assert_eq!(m.ndcg_at_k.mean, SCORE_ONE);
    // First relevant hit at rank zero: reciprocal rank one.
    assert_eq!(m.mrr.mean, SCORE_ONE);
    // With one sample the bootstrap is degenerate.
    assert_eq!(m.precision_at_k.ci_95, (SCORE_ONE / 2, SCORE_ONE / 2));
}

#[test]
fn missed_hit_at_second_rank() {
    let queries = vec![("q".to_string(), labels(&[], &["Y"], &[]))];
    let preds = vec![names(&["X", "Y", "Z"])];
    let d = discounts();
    let m = evaluate_queries(&queries, &preds, 2, &d, 10, 9);
    assert_eq!(m.precision_at_k.mean, SCORE_ONE / 2);
    assert_eq!(m.recall_at_k.mean, SCORE_ONE);
    // The hit at rank one earns the second discount against an ideal of
    // the first discount.
    let expected = d[1] * SCORE_ONE / d[0];
    assert_eq!(m.ndcg_at_k.mean, expected);
    assert_eq!(m.mrr.mean, SCORE_ONE / 2);
}

#[test]
fn lowest_buckets_are_not_binary_relevant() {
    let mut l = RelevanceLabels::new();
    l.add("M".to_string(), 1);
    l.add("I".to_string(), 0);
    let queries = vec![("q".to_string(), l)];
    let preds = vec![names(&["M", "I"])];
    let d = discounts();
    let m = evaluate_queries(&queries, &preds, 2, &d, 10, 9);
    assert_eq!(m.precision_at_k.mean, 0);
    assert_eq!(m.recall_at_k.mean, 0);
    assert_eq!(m.mrr.mean, 0);
}

#[test]
fn mean_and_deviation_over_two_queries() {
    let queries = vec![
        ("q1".to_string(), labels(&["A"], &[], &[])),
        ("q2".to_string(), labels(&["B"], &[], &[])),
    ];
    // The first query finds its card, the second does not.
    let preds = vec![names(&["A"]), names(&["X"])];
    let d = discounts();
    let m = evaluate_queries(&queries, &preds, 1, &d, 10, 3);
    assert_eq!(m.precision_at_k.mean, SCORE_ONE / 2);
    assert_eq!(m.precision_at_k.std_dev, SCORE_ONE / 2);
    assert_eq!(m.precision_at_k.n, 2);
}

#[test]
fn evaluating_a_sideboard_source() {
    let deck = |a: &str, b: &str| DeckRecord {
        cards: vec![
            CardEntry { name: a.to_string(), partition: Some("Sideboard".to_string()) },
            CardEntry { name: b.to_string(), partition: Some("Sideboard".to_string()) },
        ],
        date: None,
        scraped_at: None,
        created_at: None,
    };
    let sig = compute_sideboard_signal(&vec![deck("Q", "R"), deck("Q", "R")], 1);
    let source = SideboardSource::new(sig);
    let ts = TestSet {
        version: default_version(),
        game: None,
        description: None,
        num_queries: None,
        queries: Table { entries: vec![("Q".to_string(), labels(&["R"], &[], &[]))] },
    };
    let d = discounts();
    let m = evaluate_similarity(&ts, &source, 5, &d, 20, 4);
    assert_eq!(m.n_queries, 1);
    // The signal proposes R for Q, the one relevant card.
    assert_eq!(m.recall_at_k.mean, SCORE_ONE);
    assert_eq!(m.mrr.mean, SCORE_ONE);
    assert!(m.precision_at_k.ci_95.0 <= m.precision_at_k.ci_95.1);
    // Every metric aggregates one sample per query.
    assert_eq!(m.precision_at_k.n, 1);
    assert_eq!(m.recall_at_k.n, 1);
    assert_eq!(m.ndcg_at_k.n, 1);
    assert_eq!(m.mrr.n, 1);
}

struct NoSource;

impl decksage_annotation::eval::RankedSource for NoSource {
    fn produce_ranked_list(
        &self,
        _query: &str,
        _depth: usize,
    ) -> Vec<(String, decksage_annotation::frac::Frac)> {
        Vec::new()
    }
}

#[test]
fn empty_test_set_gives_all_zero_metrics() {
    let ts = TestSet {
        version: default_version(),
        game: None,
        description: None,
        num_queries: None,
        queries: Table { entries: Vec::new() },
    };
    let d = discounts();
    let m = evaluate_similarity(&ts, &NoSource, 10, &d, 100, 1);
    assert_eq!(m.n_queries, 0);
    for metric in [m.precision_at_k, m.recall_at_k, m.ndcg_at_k, m.mrr] {
        assert_eq!(metric.mean, 0);
        assert_eq!(metric.std_dev, 0);
        assert_eq!(metric.ci_95, (0, 0));
        assert_eq!(metric.n, 0);
    }
}

#[test]
fn empty_scores_tolerate_zero_bootstrap() {
    let mut rng = SeededRng::new(2);
    let scores: Vec<u64> = Vec::new();
    let m = MetricWithCI::from_scores(&scores, 0, &mut rng);
    assert_eq!(m, MetricWithCI { mean: 0, std_dev: 0, ci_95: (0, 0), n: 0 });
}
