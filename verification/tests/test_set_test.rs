//! Test-set management: merging keeps existing labels, loading rebuilds
//! the exact mapping, and counts are always recomputed.

use decksage_annotation::batch::{make_batch, AnnotationTask};
use decksage_annotation::candidate::Candidate;
use decksage_annotation::frac::Frac;
use decksage_annotation::table::Table;
use decksage_annotation::test_set::{
    default_version, merge_annotations, test_set_from_parts, RelevanceLabels, TestSet,
};

fn labeled_candidate(card: &str, relevance: Option<u8>) -> Candidate {
    let mut c = Candidate::new(
        card.to_string(),
        vec!["s".to_string()],
        vec![("s".to_string(), Frac { num: 1, den: 2 })],
    );
    c.relevance = relevance;
    c
}

fn task(query: &str, candidates: Vec<Candidate>) -> AnnotationTask {
    AnnotationTask { query: query.to_string(), game: "magic".to_string(), candidates }
}

fn empty_set() -> TestSet {
    TestSet {
        version: default_version(),
        game: None,
        description: None,
        num_queries: None,
        queries: Table { entries: Vec::new() },
    }
}

#[test]
fn merge_keeps_existing_labels() {
    let mut existing = RelevanceLabels::new();
    existing.add("Old".to_string(), 4);
    let ts = TestSet {
        version: default_version(),
        game: None,
        description: None,
        num_queries: None,
        queries: Table { entries: vec![("q1".to_string(), existing)] },
    };
    let batch = make_batch(
        "magic".to_string(),
        "b1".to_string(),
        "now".to_string(),
        vec![task("q1", vec![labeled_candidate("New", Some(3))])],
        0,
        0,
    );
    let merged = merge_annotations(&batch, ts);
    // The existing labels win; the batch's labels for q1 are ignored.
    let l = merged.queries.get("q1").unwrap();
    assert_eq!(l.highly_relevant, vec!["Old".to_string()]);
    assert!(l.relevant.is_empty());
    assert_eq!(merged.num_queries, Some(1));
}

#[test]
fn merge_adds_new_queries_from_annotated_candidates() {
    let ts = empty_set();
    let batch = make_batch(
        "magic".to_string(),
        "b2".to_string(),
        "now".to_string(),
        vec![task(
            "q2",
            vec![
                labeled_candidate("H", Some(4)),
                labeled_candidate("R", Some(3)),
                labeled_candidate("S", Some(2)),
                labeled_candidate("M", Some(1)),
                labeled_candidate("I", Some(0)),
                labeled_candidate("ungraded", None),
                labeled_candidate("invalid", Some(9)),
            ],
        )],
        0,
        0,
    );
    let merged = merge_annotations(&batch, ts);
    let l = merged.queries.get("q2").unwrap();
    assert_eq!(l.highly_relevant, vec!["H".to_string()]);
    assert_eq!(l.relevant, vec!["R".to_string()]);
    assert_eq!(l.somewhat_relevant, vec!["S".to_string()]);
    assert_eq!(l.marginally_relevant, vec!["M".to_string()]);
    assert_eq!(l.irrelevant, vec!["I".to_string()]);
    assert_eq!(merged.num_queries, Some(1));
}

#[test]
fn add_ignores_labels_above_four() {
    let mut l = RelevanceLabels::new();
    l.add("X".to_string(), 7);
    assert!(l.highly_relevant.is_empty());
    assert!(l.relevant.is_empty());
    assert!(l.somewhat_relevant.is_empty());
    assert!(l.marginally_relevant.is_empty());
    assert!(l.irrelevant.is_empty());
}

#[test]
fn loading_entries_reproduces_the_mapping() {
    let mut l1 = RelevanceLabels::new();
    l1.add("A".to_string(), 4);
    let mut l2 = RelevanceLabels::new();
    l2.add("B".to_string(), 2);
    let entries = vec![("q1".to_string(), l1), ("q2".to_string(), l2)];
    let ts = test_set_from_parts(
        default_version(),
        Some("magic".to_string()),
        None,
        entries,
    );
    assert_eq!(ts.num_queries, Some(2));
    assert_eq!(ts.queries.get("q1").unwrap().highly_relevant, vec!["A".to_string()]);
    assert_eq!(ts.queries.get("q2").unwrap().somewhat_relevant, vec!["B".to_string()]);
    assert!(ts.queries.get("q3").is_none());
    assert_eq!(ts.game, Some("magic".to_string()));
}

#[test]
fn loading_duplicate_keys_first_wins() {
    let mut l1 = RelevanceLabels::new();
    l1.add("First".to_string(), 4);
    let mut l2 = RelevanceLabels::new();
    l2.add("Second".to_string(), 4);
    let entries = vec![("q".to_string(), l1), ("q".to_string(), l2)];
    let ts = test_set_from_parts(default_version(), None, None, entries);
    assert_eq!(ts.num_queries, Some(1));
    assert_eq!(ts.queries.get("q").unwrap().highly_relevant, vec!["First".to_string()]);
}

#[test]
fn default_version_is_one_point_zero() {
    assert_eq!(default_version().as_str(), "1.0");
}
