//! Sideboard co-occurrence signal.
//!
//! One scan over the decks produces an immutable table: for every card
//! whose sideboard appearances reach the threshold, the frequency with
//! which each qualifying partner shares a sideboard with it, normalized by
//! the card's own appearance count (deliberately asymmetric), plus a
//! per-card flexibility score, the fraction of a card's deck appearances
//! in which it sat in both partitions at once. Decks whose sideboard holds
//! fewer than two distinct cards carry no pairwise signal, but still count
//! toward every card's appearance totals.

use vstd::prelude::*;

use crate::cooccur::{cooc_get, cooc_wf, count_singles, freq_table, lists_nodup, lists_with,
    lists_with_both, retain_in, spec_freq_entry, MAX_RECORDS};
use crate::deck::{deck_active, deck_has_mb, deck_has_sb, lemma_active_iff, split_deck, DeckRecord};
use crate::frac::Frac;
use crate::table::{has_name, lemma_seq_get_at, lemma_seq_get_witness, Table};

verus! {

/// In how many decks the card sits in the sideboard; every deck counts,
/// whether or not it can contribute pairwise signal.
pub open spec fn sb_appearances(decks: Seq<DeckRecord>, n: Seq<char>) -> nat
    decreases decks.len(),
{
    if decks.len() == 0 {
        0
    } else {
        sb_appearances(decks.drop_last(), n) + (if deck_has_sb(decks.last(), n) {
            1nat
        } else {
            0nat
        })
    }
}

/// In how many pairwise-active decks both cards sit in the sideboard.
pub open spec fn sb_pair(decks: Seq<DeckRecord>, a: Seq<char>, b: Seq<char>) -> nat
    decreases decks.len(),
{
    if decks.len() == 0 {
        0
    } else {
        sb_pair(decks.drop_last(), a, b) + (if deck_active(decks.last()) && deck_has_sb(
            decks.last(),
            a,
        ) && deck_has_sb(decks.last(), b) {
            1nat
        } else {
            0nat
        })
    }
}

/// In how many decks the card sits in the main deck.
pub open spec fn mb_appearances(decks: Seq<DeckRecord>, n: Seq<char>) -> nat
    decreases decks.len(),
{
    if decks.len() == 0 {
        0
    } else {
        mb_appearances(decks.drop_last(), n) + (if deck_has_mb(decks.last(), n) {
            1nat
        } else {
            0nat
        })
    }
}

/// In how many decks the card sits in both partitions at once.
pub open spec fn both_appearances(decks: Seq<DeckRecord>, n: Seq<char>) -> nat
    decreases decks.len(),
{
    if decks.len() == 0 {
        0
    } else {
        both_appearances(decks.drop_last(), n) + (if deck_has_sb(decks.last(), n) && deck_has_mb(
            decks.last(),
            n,
        ) {
            1nat
        } else {
            0nat
        })
    }
}

/// The four counts respect their inclusions and the number of decks.
pub proof fn lemma_sideboard_count_bounds(decks: Seq<DeckRecord>, n: Seq<char>)
    ensures
        both_appearances(decks, n) <= mb_appearances(decks, n),
        both_appearances(decks, n) <= sb_appearances(decks, n),
        mb_appearances(decks, n) <= decks.len(),
        sb_appearances(decks, n) <= decks.len(),
    decreases decks.len(),
{
    if decks.len() > 0 {
        lemma_sideboard_count_bounds(decks.drop_last(), n);
    }
}

/// The co-occurrence entry the signal holds for `(a, b)`.
pub open spec fn spec_sideboard_entry(
    decks: Seq<DeckRecord>,
    min: int,
    a: Seq<char>,
    b: Seq<char>,
) -> Option<Frac> {
    if sb_appearances(decks, a) >= min && sb_appearances(decks, b) >= min && a != b && sb_pair(
        decks,
        a,
        b,
    ) >= 1 {
        Some(Frac { num: sb_pair(decks, a, b) as i64, den: sb_appearances(decks, a) as i64 })
    } else {
        None
    }
}

/// The flexibility entry the signal holds for `c`: decks where the card
/// sat in both partitions over all decks in which it appeared at all.
pub open spec fn spec_flex_entry(decks: Seq<DeckRecord>, c: Seq<char>) -> Option<Frac> {
    if both_appearances(decks, c) >= 1 {
        Some(
            Frac {
                num: both_appearances(decks, c) as i64,
                den: (mb_appearances(decks, c) + sb_appearances(decks, c) - both_appearances(
                    decks,
                    c,
                )) as i64,
            },
        )
    } else {
        None
    }
}

/// The immutable sideboard co-occurrence signal.
pub struct SideboardSignal {
    /// Card, then co-occurring card, to frequency in `[0, 1]`.
    pub cooccurrence: Table<Table<Frac>>,
    /// Card to flexibility score in `[0, 1]`.
    pub flexibility: Table<Frac>,
}

impl SideboardSignal {
    /// Distinct keys throughout; every stored frequency and flexibility
    /// score is a well-formed rational in the unit interval.
    pub open spec fn wf(self) -> bool {
        &&& cooc_wf(self.cooccurrence)
        &&& self.flexibility.wf()
        &&& forall|c: Seq<char>|
            match #[trigger] self.flexibility.spec_get(c) {
                Some(f) => f.wf() && f.is_unit(),
                None => true,
            }
    }

    /// The similarity the table answers: the stored frequency, or zero.
    pub open spec fn spec_similarity(self, q: Seq<char>, c: Seq<char>) -> Frac {
        match cooc_get(self.cooccurrence, q, c) {
            Some(f) => f,
            None => Frac { num: 0, den: 1 },
        }
    }

    /// The flexibility the table answers: the stored score, or zero.
    pub open spec fn spec_flexibility(self, c: Seq<char>) -> Frac {
        match self.flexibility.spec_get(c) {
            Some(f) => f,
            None => Frac { num: 0, den: 1 },
        }
    }

    /// Sideboard similarity of `candidate` to `query`; zero for unknown
    /// cards, never an error.
    pub fn similarity(&self, query: &str, candidate: &str) -> (r: Frac)
        requires
            self.wf(),
        ensures
            r == self.spec_similarity(query@, candidate@),
            r.wf(),
            r.is_unit(),
    {
        match self.cooccurrence.get(query) {
            Some(row) => {
                match row.get(candidate) {
                    Some(f) => *f,
                    None => Frac::zero(),
                }
            },
            None => Frac::zero(),
        }
    }

    /// Flexibility score of a card; zero for unknown cards.
    pub fn flexibility_score(&self, card: &str) -> (r: Frac)
        requires
            self.wf(),
        ensures
            r == self.spec_flexibility(card@),
            r.wf(),
            r.is_unit(),
    {
        match self.flexibility.get(card) {
            Some(f) => *f,
            None => Frac::zero(),
        }
    }
}

/// Every answer a built sideboard table gives lies in the unit
/// interval: each co-occurrence frequency and each flexibility score is
/// a well-formed rational between zero and one.
pub proof fn lemma_sideboard_answers_are_unit(s: SideboardSignal, q: Seq<char>, c: Seq<char>)
    requires
        s.wf(),
    ensures
        s.spec_similarity(q, c).wf(),
        s.spec_similarity(q, c).is_unit(),
        s.spec_flexibility(c).wf(),
        s.spec_flexibility(c).is_unit(),
{
}

/// Builds the sideboard signal from one scan over the decks.
#[verifier::rlimit(60)]
pub fn compute_sideboard_signal(decks: &Vec<DeckRecord>, min_decks: usize) -> (s: SideboardSignal)
    requires
        decks@.len() <= MAX_RECORDS,
    ensures
        s.wf(),
        forall|a: Seq<char>, b: Seq<char>|
            #[trigger] cooc_get(s.cooccurrence, a, b) == spec_sideboard_entry(
                decks@,
                min_decks as int,
                a,
                b,
            ),
        forall|c: Seq<char>|
            #[trigger] s.flexibility.spec_get(c) == spec_flex_entry(decks@, c),
{
    let mut all_lists: Vec<Vec<String>> = Vec::new();
    let mut active_lists: Vec<Vec<String>> = Vec::new();
    let mut mb_counts: Table<u64> = Table::new();
    let mut both_counts: Table<u64> = Table::new();
    let mut i: usize = 0;
    while i < decks.len()
        invariant
            i <= decks@.len(),
            decks@.len() <= MAX_RECORDS,
            lists_nodup(all_lists@),
            lists_nodup(active_lists@),
            all_lists@.len() == i,
            active_lists@.len() <= i,
            forall|n: Seq<char>|
                #[trigger] lists_with(all_lists@, n) == sb_appearances(decks@.take(i as int), n),
            forall|n: Seq<char>|
                #[trigger] lists_with(active_lists@, n) <= lists_with(all_lists@, n),
            forall|a: Seq<char>, b: Seq<char>|
                #[trigger] lists_with_both(active_lists@, a, b) == sb_pair(
                    decks@.take(i as int),
                    a,
                    b,
                ),
            mb_counts.wf(),
            both_counts.wf(),
            forall|n: Seq<char>|
                #[trigger] mb_counts.count_of(n) == mb_appearances(decks@.take(i as int), n),
            forall|n: Seq<char>|
                #[trigger] both_counts.count_of(n) == both_appearances(decks@.take(i as int), n),
            forall|n: Seq<char>|
                #[trigger] both_counts.contains_key(n) == (both_appearances(
                    decks@.take(i as int),
                    n,
                ) >= 1),
            forall|n: Seq<char>| #[trigger] mb_counts.count_of(n) <= i,
            forall|n: Seq<char>| #[trigger] both_counts.count_of(n) <= i,
        decreases decks@.len() - i,
    {
        let ghost mb0 = mb_counts;
        let ghost both0 = both_counts;
        let ghost all0 = all_lists@;
        let ghost active0 = active_lists@;
        let (sb, mb) = split_deck(&decks[i]);
        proof {
            lemma_active_iff(decks@[i as int], sb@);
        }
        let both_list: Vec<String> = retain_in(&sb, &mb);
        mb_counts.bump_all(&mb);
        both_counts.bump_all(&both_list);
        let active: bool = sb.len() >= 2;
        if active {
            let sb2: Vec<String> = retain_in(&sb, &sb);
            active_lists.push(sb2);
            proof {
                assert(active_lists@.drop_last() =~= active0);
            }
        }
        all_lists.push(sb);
        proof {
            assert(all_lists@.drop_last() =~= all0);
            assert(decks@.take(i + 1).drop_last() =~= decks@.take(i as int));
            assert(decks@.take(i + 1).last() == decks@[i as int]);
            assert forall|n: Seq<char>|
                #[trigger] lists_with(all_lists@, n) == sb_appearances(
                    decks@.take(i + 1),
                    n,
                ) by {
                assert(lists_with(all0, n) == sb_appearances(decks@.take(i as int), n));
            }
            assert forall|a: Seq<char>, b: Seq<char>|
                #[trigger] lists_with_both(active_lists@, a, b) == sb_pair(
                    decks@.take(i + 1),
                    a,
                    b,
                ) by {
                assert(lists_with_both(active0, a, b) == sb_pair(decks@.take(i as int), a, b));
            }
            assert forall|n: Seq<char>|
                #[trigger] lists_with(active_lists@, n) <= lists_with(all_lists@, n) by {
                assert(lists_with(active0, n) <= lists_with(all0, n));
            }
            assert forall|n: Seq<char>|
                #[trigger] mb_counts.count_of(n) == mb_appearances(decks@.take(i + 1), n) by {
                assert(mb0.count_of(n) == mb_appearances(decks@.take(i as int), n));
            }
            assert forall|n: Seq<char>|
                #[trigger] both_counts.count_of(n) == both_appearances(
                    decks@.take(i + 1),
                    n,
                ) by {
                assert(both0.count_of(n) == both_appearances(decks@.take(i as int), n));
            }
            assert forall|n: Seq<char>|
                #[trigger] both_counts.contains_key(n) == (both_appearances(
                    decks@.take(i + 1),
                    n,
                ) >= 1) by {
                assert(both0.contains_key(n) == (both_appearances(decks@.take(i as int), n)
                    >= 1));
            }
        }
        i = i + 1;
    }
    proof {
        assert(decks@.take(decks@.len() as int) =~= decks@);
    }
    let cooccurrence: Table<Table<Frac>> = freq_table(&active_lists, &all_lists, min_decks);
    proof {
        assert forall|a: Seq<char>, b: Seq<char>|
            #[trigger] cooc_get(cooccurrence, a, b) == spec_sideboard_entry(
                decks@,
                min_decks as int,
                a,
                b,
            ) by {
            assert(cooc_get(cooccurrence, a, b) == spec_freq_entry(
                active_lists@,
                all_lists@,
                min_decks as int,
                a,
                b,
            ));
            assert(lists_with(all_lists@, a) == sb_appearances(decks@, a));
            assert(lists_with(all_lists@, b) == sb_appearances(decks@, b));
            assert(lists_with_both(active_lists@, a, b) == sb_pair(decks@, a, b));
        }
    }
    let sb_counts: Table<u64> = count_singles(&all_lists);
    let mut flexibility: Table<Frac> = Table::new();
    let mut j: usize = 0;
    while j < both_counts.entries.len()
        invariant
            j <= both_counts.entries@.len(),
            decks@.len() <= MAX_RECORDS,
            both_counts.wf(),
            mb_counts.wf(),
            sb_counts.wf(),
            forall|n: Seq<char>| #[trigger] mb_counts.count_of(n) == mb_appearances(decks@, n),
            forall|n: Seq<char>| #[trigger] both_counts.count_of(n) == both_appearances(decks@, n),
            forall|n: Seq<char>|
                #[trigger] both_counts.contains_key(n) == (both_appearances(decks@, n) >= 1),
            forall|n: Seq<char>| #[trigger] sb_counts.count_of(n) == lists_with(all_lists@, n),
            forall|n: Seq<char>|
                #[trigger] lists_with(all_lists@, n) == sb_appearances(decks@, n),
            flexibility.wf(),
            forall|c: Seq<char>|
                match #[trigger] flexibility.spec_get(c) {
                    Some(f) => f.wf() && f.is_unit(),
                    None => true,
                },
            forall|c: Seq<char>|
                #[trigger] flexibility.spec_get(c) == (if crate::cooccur::has_name_prefix(
                    both_counts.entries@,
                    j as int,
                    c,
                ) {
                    spec_flex_entry(decks@, c)
                } else {
                    None
                }),
        decreases both_counts.entries@.len() - j,
    {
        let ghost flex0 = flexibility;
        let c_name: String = both_counts.entries[j].0.clone();
        let bc: u64 = both_counts.entries[j].1;
        proof {
            lemma_seq_get_at(both_counts.entries@, c_name@, j as int);
            assert(both_counts.count_of(c_name@) == bc);
            assert(both_counts.contains_key(c_name@));
            assert(bc >= 1);
            lemma_sideboard_count_bounds(decks@, c_name@);
            assert(!crate::cooccur::has_name_prefix(both_counts.entries@, j as int, c_name@)) by {
                if crate::cooccur::has_name_prefix(both_counts.entries@, j as int, c_name@) {
                    let w = choose|w: int|
                        0 <= w < j && w < both_counts.entries@.len() && (
                        #[trigger] both_counts.entries@[w]).0@ == c_name@;
                    assert(false);
                }
            }
        }
        let mbc: u64 = match mb_counts.get(c_name.as_str()) {
            Some(v) => *v,
            None => 0,
        };
        let sbc: u64 = match sb_counts.get(c_name.as_str()) {
            Some(v) => *v,
            None => 0,
        };
        proof {
            assert(mbc == mb_appearances(decks@, c_name@)) by {
                assert(mb_counts.count_of(c_name@) == mb_appearances(decks@, c_name@));
            }
            assert(sbc == sb_appearances(decks@, c_name@)) by {
                assert(sb_counts.count_of(c_name@) == lists_with(all_lists@, c_name@));
            }
            assert(bc <= mbc && bc <= sbc);
            assert(mbc <= decks@.len() && sbc <= decks@.len());
        }
        let total: u64 = mbc + sbc - bc;
        let f: Frac = Frac::new(bc as i64, total as i64);
        proof {
            assert(f.is_unit());
            assert(spec_flex_entry(decks@, c_name@) == Some(f));
        }
        flexibility.set(c_name.as_str(), f);
        proof {
            assert forall|c: Seq<char>|
                #[trigger] flexibility.spec_get(c) == (if crate::cooccur::has_name_prefix(
                    both_counts.entries@,
                    j + 1,
                    c,
                ) {
                    spec_flex_entry(decks@, c)
                } else {
                    None
                }) by {
                assert(crate::cooccur::has_name_prefix(both_counts.entries@, j + 1, c) == (
                crate::cooccur::has_name_prefix(both_counts.entries@, j as int, c) || c
                    == c_name@)) by {
                    if c == c_name@ {
                        assert(crate::cooccur::has_name_prefix(both_counts.entries@, j + 1, c));
                    }
                }
                if c != c_name@ {
                    assert(flexibility.spec_get(c) == flex0.spec_get(c));
                }
            }
        }
        j = j + 1;
    }
    proof {
        assert forall|c: Seq<char>| #[trigger] flexibility.spec_get(c) == spec_flex_entry(
            decks@,
            c,
        ) by {
            if !crate::cooccur::has_name_prefix(
                both_counts.entries@,
                both_counts.entries@.len() as int,
                c,
            ) {
                assert(!both_counts.contains_key(c)) by {
                    if both_counts.contains_key(c) {
                        lemma_seq_get_witness(both_counts.entries@, c);
                    }
                }
                assert(both_appearances(decks@, c) == 0);
            }
        }
    }
    SideboardSignal { cooccurrence, flexibility }
}

} // verus!
