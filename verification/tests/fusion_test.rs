//! Fusion engine behavior: attribution, the re-rank rule, and the
//! single-source order guarantee.

use decksage_annotation::candidate::Candidate;
use decksage_annotation::deck::{CardEntry, DeckRecord};
use decksage_annotation::frac::Frac;
use decksage_annotation::sideboard::compute_sideboard_signal;
use decksage_annotation::similarity::SimilarityFunction;
use decksage_annotation::fusion::{generate_candidates_fused, RrfConfig, SourceList};

fn cfg() -> RrfConfig {
    RrfConfig { rrf_k: 60, weight: 1 }
}

fn list(entries: &[(&str, i64, i64)]) -> Vec<(String, Frac)> {
    entries
        .iter()
        .map(|(n, num, den)| (n.to_string(), Frac { num: *num, den: *den }))
        .collect()
}

#[test]
fn single_source_keeps_input_order() {
    // One ranked list with strictly descending positive scores.
    let sources: Vec<SourceList> = vec![(
        "embedding".to_string(),
        list(&[("X", 3, 4), ("Y", 1, 2), ("Z", 1, 4)]),
    )];
    let r = generate_candidates_fused("Q", &sources, &cfg());
    assert_eq!(r.len(), 3);
    assert_eq!(r[0].card.as_str(), "X");
    assert_eq!(r[1].card.as_str(), "Y");
    assert_eq!(r[2].card.as_str(), "Z");
    for c in &r {
        assert_eq!(c.sources.len(), 1);
        assert_eq!(c.sources[0].as_str(), "embedding");
        assert_eq!(c.scores.len(), 1);
        assert!(c.relevance.is_none());
        assert!(c.notes.is_empty());
    }
    // The raw score is carried through unchanged.
    assert_eq!((r[0].scores[0].1.num, r[0].scores[0].1.den), (3, 4));
    assert_eq!(r[0].max_score().num, 3);
}

#[test]
fn agreement_outranks_raw_score() {
    // Q appears in both sources with modest scores; P has the single
    // highest raw score. Source count dominates.
    let sources: Vec<SourceList> = vec![
        ("first".to_string(), list(&[("P", 9, 10), ("Q", 1, 10)])),
        ("second".to_string(), list(&[("Q", 2, 10)])),
    ];
    let r = generate_candidates_fused("", &sources, &cfg());
    assert_eq!(r.len(), 2);
    assert_eq!(r[0].card.as_str(), "Q");
    assert_eq!(r[0].sources.len(), 2);
    assert_eq!(r[1].card.as_str(), "P");
    assert_eq!(r[1].sources.len(), 1);
    // Q's scores name both sources in source order.
    assert_eq!(r[0].scores[0].0.as_str(), "first");
    assert_eq!(r[0].scores[1].0.as_str(), "second");
}

#[test]
fn no_sources_mean_empty_result() {
    let sources: Vec<SourceList> = Vec::new();
    let r = generate_candidates_fused("anything", &sources, &cfg());
    assert_eq!(r.len(), 0);
}

#[test]
fn each_card_appears_once() {
    let sources: Vec<SourceList> = vec![
        ("a".to_string(), list(&[("X", 1, 2), ("Y", 1, 3)])),
        ("b".to_string(), list(&[("Y", 1, 4), ("X", 1, 5)])),
    ];
    let r = generate_candidates_fused("", &sources, &cfg());
    assert_eq!(r.len(), 2);
    assert!(r[0].card != r[1].card);
    for c in &r {
        assert_eq!(c.source_count(), 2);
    }
}

#[test]
fn max_score_floors_at_zero() {
    let c = Candidate::new(
        "N".to_string(),
        vec!["s".to_string()],
        vec![("s".to_string(), Frac { num: -1, den: 2 })],
    );
    let m = c.max_score();
    // A negative raw score never beats the zero floor.
    assert_eq!(m.num, 0);
}

#[test]
fn default_config_is_standard() {
    let c: RrfConfig = Default::default();
    assert_eq!(c.rrf_k, 60);
    assert_eq!(c.weight, 1);
}

#[test]
fn dispatch_fuses_signals_with_external_lists() {
    let deck = |a: &str, b: &str| DeckRecord {
        cards: vec![
            CardEntry { name: a.to_string(), partition: Some("Sideboard".to_string()) },
            CardEntry { name: b.to_string(), partition: Some("Sideboard".to_string()) },
        ],
        date: None,
        scraped_at: None,
        created_at: None,
    };
    let sig = compute_sideboard_signal(&vec![deck("Q", "R"), deck("Q", "S")], 1);
    let sim = SimilarityFunction {
        jaccard_adj: None,
        sideboard: Some(sig),
        temporal: None,
        rrf_config: RrfConfig { rrf_k: 60, weight: 1 },
    };
    let extra: Vec<SourceList> = vec![(
        "embedding".to_string(),
        list(&[("R", 9, 10), ("T", 1, 10)]),
    )];
    let r = sim.similar("Q", 10, extra);
    // R is vouched for by both the external list and the sideboard.
    assert_eq!(r[0].card.as_str(), "R");
    assert_eq!(r[0].source_count(), 2);
    // Every external card appears among the candidates.
    assert!(r.iter().any(|c| c.card.as_str() == "T"));
    // The sideboard's other partner appears too.
    assert!(r.iter().any(|c| c.card.as_str() == "S"));
    // An unknown query still answers, from the external lists alone.
    let r2 = sim.similar("missing", 10, vec![("e".to_string(), list(&[("U", 1, 2)]))]);
    assert_eq!(r2.len(), 1);
    assert_eq!(r2[0].card.as_str(), "U");
}
