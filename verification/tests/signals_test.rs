//! Signal builder behavior: sideboard co-occurrence, flexibility,
//! temporal bucketing and trend detection.

use decksage_annotation::dates::RecordPolicy;
use decksage_annotation::deck::{CardEntry, DeckRecord};
use decksage_annotation::frac::Frac;
use decksage_annotation::sideboard::compute_sideboard_signal;
use decksage_annotation::similarity::temporal_ranked;
use decksage_annotation::table::Table;
use decksage_annotation::temporal::{compute_temporal_signal, find_trending_pairs};

fn deck(cards: &[(&str, Option<&str>)], date: Option<&str>) -> DeckRecord {
    DeckRecord {
        cards: cards
            .iter()
            .map(|(n, p)| CardEntry {
                name: n.to_string(),
                partition: p.map(|x| x.to_string()),
            })
            .collect(),
        date: date.map(|x| x.to_string()),
        scraped_at: None,
        created_at: None,
    }
}

fn sb_deck(names: &[&str]) -> DeckRecord {
    let cards: Vec<(&str, Option<&str>)> =
        names.iter().map(|n| (*n, Some("Sideboard"))).collect();
    deck(&cards, None)
}

#[test]
fn sideboard_asymmetry() {
    let decks = vec![sb_deck(&["A", "B"]), sb_deck(&["A", "B", "C"]), sb_deck(&["A"])];
    let sig = compute_sideboard_signal(&decks, 2);
    // A sits in three sideboards, B in two; the pair co-occurs in two
    // pairwise-active decks.
    let ab = sig.similarity("A", "B");
    assert_eq!((ab.num, ab.den), (2, 3));
    let ba = sig.similarity("B", "A");
    assert_eq!((ba.num, ba.den), (2, 2));
    // C has only one sideboard appearance, below the threshold of 2.
    let ac = sig.similarity("A", "C");
    assert_eq!(ac.num, 0);
    let ca = sig.similarity("C", "A");
    assert_eq!(ca.num, 0);
}

#[test]
fn sideboard_frequencies_are_unit_fractions() {
    let decks = vec![
        sb_deck(&["A", "B"]),
        sb_deck(&["A", "B", "C"]),
        sb_deck(&["B", "C"]),
        sb_deck(&["A", "C"]),
    ];
    let sig = compute_sideboard_signal(&decks, 1);
    for (_, row) in sig.cooccurrence.entries.iter() {
        for (_, f) in row.entries.iter() {
            assert!(f.den >= 1);
            assert!(0 <= f.num && f.num <= f.den);
        }
    }
    for (_, f) in sig.flexibility.entries.iter() {
        assert!(f.den >= 1);
        assert!(0 <= f.num && f.num <= f.den);
    }
}

#[test]
fn flexibility_counts_both_partition_decks() {
    // Deck 1: A in main and sideboard (with B to make a pairwise deck).
    let d1 = deck(&[("A", None), ("A", Some("sideboard")), ("B", Some("Sideboard"))], None);
    // Deck 2: A in the main deck only.
    let d2 = deck(&[("A", None)], None);
    let sig = compute_sideboard_signal(&vec![d1, d2], 1);
    let f = sig.flexibility_score("A");
    // both = 1, main = 2, side = 1: union is 2.
    assert_eq!((f.num, f.den), (1, 2));
    let g = sig.flexibility_score("B");
    assert_eq!(g.num, 0);
}

fn month_table(freq: Frac) -> Table<Table<Frac>> {
    Table {
        entries: vec![(
            "A".to_string(),
            Table { entries: vec![("B".to_string(), freq)] },
        )],
    }
}

fn month_table_both(freq_ab: Frac, freq_ba: Frac) -> Table<Table<Frac>> {
    Table {
        entries: vec![
            ("A".to_string(), Table { entries: vec![("B".to_string(), freq_ab)] }),
            ("B".to_string(), Table { entries: vec![("A".to_string(), freq_ba)] }),
        ],
    }
}

#[test]
fn trend_example() {
    // Monthly frequencies for the pair (A, B): 0.2, 0.3, 0.5.
    let months = vec![
        (0i64, month_table(Frac { num: 1, den: 5 })),
        (1i64, month_table(Frac { num: 3, den: 10 })),
        (2i64, month_table(Frac { num: 1, den: 2 })),
    ];
    let trends = find_trending_pairs(&months, 3);
    assert_eq!(trends.len(), 1);
    let (a, b, t) = &trends[0];
    assert_eq!(a.as_str(), "A");
    assert_eq!(b.as_str(), "B");
    // (0.5 - 0.2) / 2 = 0.15, exactly 3/20.
    assert_eq!((t.num, t.den), (3, 20));
    assert!(t.num * 100 > t.den);
}

#[test]
fn trend_needs_enough_months() {
    let months = vec![
        (0i64, month_table(Frac { num: 1, den: 5 })),
        (1i64, month_table(Frac { num: 1, den: 2 })),
    ];
    let trends = find_trending_pairs(&months, 3);
    assert_eq!(trends.len(), 0);
}

#[test]
fn insignificant_trend_is_dropped() {
    // Flat at one half in every month: trend 0.
    let months = vec![
        (0i64, month_table(Frac { num: 1, den: 2 })),
        (1i64, month_table(Frac { num: 1, den: 2 })),
        (2i64, month_table(Frac { num: 1, den: 2 })),
    ];
    let trends = find_trending_pairs(&months, 3);
    assert_eq!(trends.len(), 0);
}

fn month_of_decks(date: &str, n: usize) -> Vec<DeckRecord> {
    (0..n)
        .map(|_| {
            deck(&[("A", None), ("B", None), ("C", None), ("D", None), ("E", None)], Some(date))
        })
        .collect()
}

#[test]
fn temporal_similarity_weights_recent_months() {
    let mut decks = month_of_decks("2024-01-02T00:00:00Z", 5);
    decks.extend(month_of_decks("2024-02-02T00:00:00Z", 5));
    let sig = compute_temporal_signal(&decks, 1, RecordPolicy::AbortOnMalformed).unwrap();
    assert_eq!(sig.months.len(), 2);
    assert!(sig.months[0].0 < sig.months[1].0);
    let s = sig.similarity("A", "B");
    // Both months carry frequency 5/5; the weighted mean of two equal
    // frequencies is that frequency.
    assert!(s.num == s.den);
    let none = sig.similarity("A", "Z");
    assert_eq!(none.num, 0);
}

#[test]
fn malformed_timestamp_aborts_or_skips_by_policy() {
    let good = deck(&[("A", None)], Some("2024-01-02T00:00:00Z"));
    let bad = deck(&[("B", None)], Some("not a date"));
    let err = compute_temporal_signal(&vec![good, bad], 1, RecordPolicy::AbortOnMalformed);
    assert!(err.is_err());
    assert_eq!(err.err().unwrap().deck_index, 1);

    let good2 = deck(&[("A", None)], Some("2024-01-02T00:00:00Z"));
    let bad2 = deck(&[("B", None)], Some("not a date"));
    let ok = compute_temporal_signal(&vec![good2, bad2], 1, RecordPolicy::SkipMalformed);
    assert!(ok.is_ok());
    assert_eq!(ok.unwrap().months.len(), 1);
}

#[test]
fn date_fields_resolve_first_present() {
    // The `date` field wins over `scraped_at`; absent fields fall through.
    let d1 = DeckRecord {
        cards: vec![CardEntry { name: "A".to_string(), partition: None }],
        date: None,
        scraped_at: Some("2024-03-05T00:00:00Z".to_string()),
        created_at: Some("1999-01-01T00:00:00Z".to_string()),
    };
    let sig = compute_temporal_signal(&vec![d1], 1, RecordPolicy::AbortOnMalformed).unwrap();
    // 2024-03 has key 2024*12 + 2.
    assert_eq!(sig.months.len(), 1);
    assert_eq!(sig.months[0].0, 2024 * 12 + 2);
}

#[test]
fn trending_lists_each_pair_once() {
    // Both orientations of the pair sit in every month; only the
    // canonical direction is reported, and only once.
    let months = vec![
        (0i64, month_table_both(Frac { num: 1, den: 5 }, Frac { num: 1, den: 4 })),
        (1i64, month_table_both(Frac { num: 3, den: 10 }, Frac { num: 1, den: 3 })),
        (2i64, month_table_both(Frac { num: 1, den: 2 }, Frac { num: 1, den: 2 })),
    ];
    let trends = find_trending_pairs(&months, 3);
    assert_eq!(trends.len(), 1);
    assert_eq!(trends[0].0.as_str(), "A");
    assert_eq!(trends[0].1.as_str(), "B");
}

#[test]
fn temporal_ranked_lists_every_positive_partner_once() {
    let mut decks = Vec::new();
    for _ in 0..5 {
        decks.push(deck(
            &[("Q", None), ("R", None), ("S", None), ("T", None), ("U", None)],
            Some("2024-04-02T00:00:00Z"),
        ));
    }
    let sig = compute_temporal_signal(&decks, 1, RecordPolicy::AbortOnMalformed).unwrap();
    let r = temporal_ranked(&sig, "Q", 10);
    // Q co-occurs positively with its four partners, each listed once.
    assert_eq!(r.len(), 4);
    for i in 0..r.len() {
        assert!(r[i].1.num > 0);
        for j in (i + 1)..r.len() {
            assert!(r[i].0 != r[j].0);
        }
    }
    let none = temporal_ranked(&sig, "unseen", 10);
    assert_eq!(none.len(), 0);
}
