//! Batch assembly, instructions, grading, and model-kind names.

use decksage_annotation::batch::{default_instructions, grade_batch, make_batch, AnnotationTask};
use decksage_annotation::candidate::Candidate;
use decksage_annotation::frac::Frac;
use decksage_annotation::gnn::{model_type_from_name, model_type_name, GNNModelType};

fn cand(card: &str, relevance: Option<u8>) -> Candidate {
    let mut c = Candidate::new(
        card.to_string(),
        vec!["s".to_string()],
        vec![("s".to_string(), Frac { num: 1, den: 3 })],
    );
    c.relevance = relevance;
    c
}

#[test]
fn batch_counts_its_tasks() {
    let tasks = vec![
        AnnotationTask { query: "a".to_string(), game: "magic".to_string(), candidates: vec![] },
        AnnotationTask { query: "b".to_string(), game: "magic".to_string(), candidates: vec![] },
    ];
    let b = make_batch(
        "magic".to_string(),
        "batch-1".to_string(),
        "2024-05-01T00:00:00Z".to_string(),
        tasks,
        50,
        10,
    );
    assert_eq!(b.metadata.num_queries, 2);
    assert_eq!(b.metadata.game.as_str(), "magic");
    assert_eq!(b.metadata.batch_id.as_str(), "batch-1");
    assert_eq!(b.metadata.target_total, 50);
    assert_eq!(b.metadata.current_total, 10);
}

#[test]
fn instructions_carry_the_five_point_scale() {
    let ins = default_instructions();
    assert_eq!(ins.relevance_scale.len(), 5);
    for (i, (key, text)) in ins.relevance_scale.iter().enumerate() {
        assert_eq!(*key as usize, 4 - i);
        assert!(!text.is_empty());
    }
    assert_eq!(ins.grading_guidelines.len(), 4);
}

#[test]
fn grading_counts_and_validation_errors() {
    let tasks = vec![
        AnnotationTask {
            query: "q1".to_string(),
            game: "magic".to_string(),
            candidates: vec![cand("A", Some(4)), cand("B", None), cand("C", Some(7))],
        },
        AnnotationTask {
            query: "q2".to_string(),
            game: "magic".to_string(),
            candidates: vec![cand("D", Some(4)), cand("E", Some(0))],
        },
    ];
    let b = make_batch("magic".to_string(), "g".to_string(), "now".to_string(), tasks, 0, 0);
    let report = grade_batch(&b);
    assert_eq!(report.total, 5);
    assert_eq!(report.graded, 4);
    assert_eq!(report.relevance_counts.len(), 5);
    assert_eq!(report.relevance_counts[4], 2);
    assert_eq!(report.relevance_counts[0], 1);
    assert_eq!(report.relevance_counts[3], 0);
    assert_eq!(report.errors.len(), 1);
    assert_eq!(report.errors[0].0.as_str(), "q1");
    assert_eq!(report.errors[0].1, 7);
}

#[test]
fn model_kind_names_round_trip_and_default() {
    assert_eq!(model_type_from_name("GAT"), GNNModelType::GAT);
    assert_eq!(model_type_from_name("GraphSAGE"), GNNModelType::GraphSAGE);
    assert_eq!(model_type_from_name("GCN"), GNNModelType::GCN);
    // Unrecognized names default to the baseline kind.
    assert_eq!(model_type_from_name("transformer"), GNNModelType::GCN);
    assert_eq!(model_type_name(&GNNModelType::GAT).as_str(), "GAT");
    assert_eq!(
        model_type_from_name(model_type_name(&GNNModelType::GraphSAGE).as_str()),
        GNNModelType::GraphSAGE
    );
}
