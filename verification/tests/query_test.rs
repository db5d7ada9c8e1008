//! Query sampling: reproducibility, stratified totals, and degree
//! counting.

use decksage_annotation::query::{degree_table_from_pairs, QueryGenerator, QueryStrategy};
use decksage_annotation::rng::SeededRng;

fn pairs(rows: &[(&str, &str)]) -> Vec<(String, String)> {
    rows.iter().map(|(a, b)| (a.to_string(), b.to_string())).collect()
}

fn generator() -> QueryGenerator {
    // Degrees: A=3, B=2, C=2, D=1, E=1, F=1.
    let t = degree_table_from_pairs(&pairs(&[
        ("A", "B"),
        ("A", "C"),
        ("A", "D"),
        ("B", "C"),
        ("E", "F"),
    ]));
    QueryGenerator::new(t)
}

#[test]
fn degree_counts_are_exact() {
    let t = degree_table_from_pairs(&pairs(&[("A", "B"), ("A", "C")]));
    assert_eq!(*t.get("A").unwrap(), 2);
    assert_eq!(*t.get("B").unwrap(), 1);
    assert_eq!(*t.get("C").unwrap(), 1);
    assert!(t.get("Z").is_none());
}

#[test]
fn fixed_seed_sampling_is_reproducible() {
    let g = generator();
    let none: Vec<String> = Vec::new();
    for strategy in [QueryStrategy::Random, QueryStrategy::Popular, QueryStrategy::Stratified] {
        let r1 = g.sample(4, strategy, &none, 42);
        let r2 = g.sample(4, strategy, &none, 42);
        assert_eq!(r1, r2);
    }
}

#[test]
fn stratified_returns_exactly_min_of_request_and_available() {
    let g = generator();
    let none: Vec<String> = Vec::new();
    for n in [0usize, 1, 2, 3, 5, 6, 10] {
        let r = g.sample(n, QueryStrategy::Stratified, &none, 7);
        assert_eq!(r.len(), n.min(6));
        // No card is drawn twice.
        for i in 0..r.len() {
            for j in (i + 1)..r.len() {
                assert!(r[i] != r[j]);
            }
        }
    }
}

#[test]
fn stratified_draws_across_tiers() {
    let g = generator();
    let none: Vec<String> = Vec::new();
    let r = g.sample(3, QueryStrategy::Stratified, &none, 11);
    assert_eq!(r.len(), 3);
    // Six cards sorted by degree split into tiers {A, B}, {C, D}, {E, F};
    // one draw lands in each tier.
    let tier = |c: &String| -> usize {
        match c.as_str() {
            "A" | "B" => 0,
            "C" | "D" => 1,
            _ => 2,
        }
    };
    let mut seen = [0usize; 3];
    for c in &r {
        seen[tier(c)] += 1;
    }
    assert_eq!(seen, [1, 1, 1]);
}

#[test]
fn popular_orders_by_degree() {
    let g = generator();
    let none: Vec<String> = Vec::new();
    let r = g.sample(2, QueryStrategy::Popular, &none, 1);
    assert_eq!(r.len(), 2);
    assert_eq!(r[0].as_str(), "A");
    // B and C tie at degree 2; the stable order keeps the earlier card.
    assert_eq!(r[1].as_str(), "B");
}

#[test]
fn exclusions_never_appear() {
    let g = generator();
    let excl = vec!["A".to_string(), "B".to_string()];
    let r = g.sample(10, QueryStrategy::Stratified, &excl, 3);
    assert_eq!(r.len(), 4);
    for c in &r {
        assert!(c.as_str() != "A" && c.as_str() != "B");
    }
}

#[test]
fn seeded_generator_is_deterministic() {
    let mut a = SeededRng::new(99);
    let mut b = SeededRng::new(99);
    for _ in 0..8 {
        assert_eq!(a.next_u64(), b.next_u64());
    }
    let mut c = SeededRng::new(7);
    for _ in 0..32 {
        let v = c.next_below(10);
        assert!(v < 10);
    }
}
