//! Similarity sources and their fusion.
//!
//! Each signal is exposed as a producer of ranked `(card, score)` lists
//! behind one capability interface; the dispatch assembles the ranked
//! lists of the configured signals, together with externally supplied
//! ranked lists (an embedding or a learned-embedding lookup handed in as
//! plain values), and fuses them into one attributed candidate list. A
//! source with nothing to say for a query is simply omitted.

use vstd::prelude::*;

use crate::candidate::Candidate;
use crate::cooccur::cooc_get;
use crate::eval::RankedSource;
use crate::frac::Frac;
use crate::fusion::{cand_key_ge, generate_candidates_fused, sources_wf, RrfConfig, SourceList};
use crate::order::{scored_names_distinct, scored_sorted_desc, scored_wf, sort_scored};
use crate::sideboard::SideboardSignal;
use crate::table::{has_name, lemma_seq_get_at, names_nodup, push_unique, Table};
use crate::temporal::TemporalSignal;

verus! {

/// The ranked sideboard list of a query: the query's co-occurrence row,
/// sorted by descending frequency and cut to `k`. Every entry carries
/// exactly the signal's similarity for its card.
/// The smaller of two lengths.
pub open spec fn spec_min_len(a: int, b: int) -> int {
    if a < b {
        a
    } else {
        b
    }
}

/// How many co-occurrence entries the signal holds for a query.
pub open spec fn sb_row_len(sig: SideboardSignal, q: Seq<char>) -> int {
    match sig.cooccurrence.spec_get(q) {
        Some(row) => row.entries@.len() as int,
        None => 0,
    }
}

pub fn sideboard_ranked(sig: &SideboardSignal, query: &str, k: usize) -> (r: Vec<(String, Frac)>)
    requires
        sig.wf(),
    ensures
        scored_wf(r@),
        scored_sorted_desc(r@),
        scored_names_distinct(r@),
        r@.len() == spec_min_len(k as int, sb_row_len(*sig, query@)),
        forall|i: int|
            0 <= i < r@.len() ==> cooc_get(sig.cooccurrence, query@, (#[trigger] r@[i]).0@)
                == Some(r@[i].1),
{
    let mut row_entries: Vec<(String, Frac)> = Vec::new();
    match sig.cooccurrence.get(query) {
        Some(row) => {
            let mut i: usize = 0;
            while i < row.entries.len()
                invariant
                    i <= row.entries@.len(),
                    sig.wf(),
                    sig.cooccurrence.spec_get(query@) matches Some(rw) && rw == *row,
                    row.wf(),
                    row_entries@.len() == i,
                    forall|j: int|
                        0 <= j < i ==> (#[trigger] row_entries@[j]) == row.entries@[j],
                decreases row.entries@.len() - i,
            {
                row_entries.push((row.entries[i].0.clone(), row.entries[i].1));
                proof {
                    assert(row_entries@[i as int] == row.entries@[i as int]);
                }
                i = i + 1;
            }
            proof {
                assert(row_entries@ =~= row.entries@);
                assert(scored_wf(row_entries@)) by {
                    assert forall|j: int| 0 <= j < row_entries@.len() implies (
                    #[trigger] row_entries@[j]).1.wf() by {
                        lemma_seq_get_at(row.entries@, row.entries@[j].0@, j);
                        assert(cooc_get(sig.cooccurrence, query@, row.entries@[j].0@) == Some(
                            row.entries@[j].1,
                        ));
                    }
                }
            }
        },
        None => {},
    }
    let ghost source_row = row_entries@;
    proof {
        assert(scored_names_distinct(source_row)) by {
            match sig.cooccurrence.spec_get(query@) {
                Some(rw) => {
                    assert(rw.wf());
                    assert(forall|p: int, q: int|
                        0 <= p < q < source_row.len() ==> (#[trigger] source_row[p]).0@ != (
                        #[trigger] source_row[q]).0@);
                },
                None => {
                    assert(source_row.len() == 0);
                },
            }
        }
    }
    let mut sorted: Vec<(String, Frac)> = sort_scored(&row_entries);
    let m: usize = if k < sorted.len() {
        k
    } else {
        sorted.len()
    };
    proof {
        crate::order::lemma_multiset_elements(sorted@, source_row);
    }
    let ghost pre = sorted@;
    sorted.truncate(m);
    proof {
        assert(sorted@ =~= pre.take(m as int));
        assert(scored_names_distinct(sorted@)) by {
            assert(forall|p: int, q: int|
                0 <= p < q < sorted@.len() ==> (#[trigger] sorted@[p]) == pre[p] && (
                #[trigger] sorted@[q]) == pre[q]);
        }
        assert forall|i: int| 0 <= i < sorted@.len() implies cooc_get(
            sig.cooccurrence,
            query@,
            (#[trigger] sorted@[i]).0@,
        ) == Some(sorted@[i].1) by {
            assert(pre[i] == sorted@[i]);
            assert(source_row.contains(pre[i]));
            let w = choose|w: int| 0 <= w < source_row.len() && source_row[w] == pre[i];
            match sig.cooccurrence.spec_get(query@) {
                Some(rw) => {
                    lemma_seq_get_at(rw.entries@, rw.entries@[w].0@, w);
                },
                None => {
                    assert(source_row.len() == 0);
                },
            }
        }
    }
    sorted
}

/// The ranked temporal list of a query: each card that co-occurs with
/// the query in a retained month, scored by the recency-weighted
/// similarity, kept when positive, sorted descending and cut to `k`.
/// Every entry carries exactly the signal's similarity for its card, no
/// card is listed twice, and whenever the list is shorter than the cut,
/// it holds every card with positive similarity to the query.
#[verifier::rlimit(100)]
pub fn temporal_ranked(sig: &TemporalSignal, query: &str, k: usize) -> (r: Vec<(String, Frac)>)
    requires
        sig.wf(),
    ensures
        scored_wf(r@),
        scored_sorted_desc(r@),
        scored_names_distinct(r@),
        r@.len() <= k,
        forall|i: int|
            0 <= i < r@.len() ==> (#[trigger] r@[i]).1 == sig.spec_similarity(query@, r@[i].0@)
                && r@[i].1.num > 0,
        r@.len() < k ==> forall|n: Seq<char>|
            #[trigger] sig.spec_similarity(query@, n).num > 0 ==> exists|i: int|
                0 <= i < r@.len() && (#[trigger] r@[i]).0@ == n,
{
    let mut partners: Vec<String> = Vec::new();
    let mut w: usize = 0;
    while w < sig.months.len()
        invariant
            w <= sig.months@.len(),
            sig.wf(),
            names_nodup(partners@),
            forall|n: Seq<char>|
                #[trigger] has_name(partners@, n) == crate::temporal::present_prefix(
                    sig.months@,
                    w as int,
                    query@,
                    n,
                ),
        decreases sig.months@.len() - w,
    {
        let ghost months = sig.months@;
        match sig.months[w].1.get(query) {
            Some(row) => {
                let mut e: usize = 0;
                while e < row.entries.len()
                    invariant
                        e <= row.entries@.len(),
                        sig.wf(),
                        w < sig.months@.len(),
                        sig.months@[w as int].1.spec_get(query@) matches Some(rw) && rw == *row,
                        names_nodup(partners@),
                        forall|n: Seq<char>|
                            #[trigger] has_name(partners@, n) == (crate::temporal::present_prefix(
                                sig.months@,
                                w as int,
                                query@,
                                n,
                            ) || crate::cooccur::has_name_prefix(row.entries@, e as int, n)),
                    decreases row.entries@.len() - e,
                {
                    push_unique(&mut partners, row.entries[e].0.as_str());
                    proof {
                        assert forall|n: Seq<char>|
                            #[trigger] has_name(partners@, n) == (
                        crate::temporal::present_prefix(sig.months@, w as int, query@, n)
                            || crate::cooccur::has_name_prefix(row.entries@, e + 1, n)) by {
                            assert(crate::cooccur::has_name_prefix(row.entries@, e + 1, n) == (
                            crate::cooccur::has_name_prefix(row.entries@, e as int, n) || n
                                == row.entries@[e as int].0@)) by {
                                if n == row.entries@[e as int].0@ {
                                    assert(crate::cooccur::has_name_prefix(
                                        row.entries@,
                                        e + 1,
                                        n,
                                    ));
                                }
                            }
                        }
                    }
                    e = e + 1;
                }
                proof {
                    assert forall|n: Seq<char>|
                        #[trigger] has_name(partners@, n) == crate::temporal::present_prefix(
                        sig.months@,
                        w + 1,
                        query@,
                        n,
                    ) by {
                        assert(crate::cooccur::has_name_prefix(
                            row.entries@,
                            row.entries@.len() as int,
                            n,
                        ) == (cooc_get(sig.months@[w as int].1, query@, n) is Some)) by {
                            if crate::cooccur::has_name_prefix(
                                row.entries@,
                                row.entries@.len() as int,
                                n,
                            ) {
                                let u = choose|u: int|
                                    0 <= u < row.entries@.len() && (
                                    #[trigger] row.entries@[u]).0@ == n;
                                crate::table::lemma_seq_get_present(row.entries@, n, u);
                            }
                            if cooc_get(sig.months@[w as int].1, query@, n) is Some {
                                crate::table::lemma_seq_get_witness(row.entries@, n);
                                let u = choose|u: int|
                                    0 <= u < row.entries@.len() && row.entries@[u].0@ == n
                                        && crate::table::seq_get(row.entries@, n) == Some(
                                        row.entries@[u].1,
                                    );
                                assert((#[trigger] row.entries@[u]).0@ == n);
                            }
                        }
                        assert(crate::temporal::present_prefix(sig.months@, w + 1, query@, n) == (
                        crate::temporal::present_prefix(sig.months@, w as int, query@, n)
                            || cooc_get(sig.months@[w as int].1, query@, n) is Some)) by {
                            if crate::temporal::present_prefix(sig.months@, w + 1, query@, n) {
                                let u = choose|u: int|
                                    0 <= u < w + 1 && u < sig.months@.len() && cooc_get(
                                        (#[trigger] sig.months@[u]).1,
                                        query@,
                                        n,
                                    ) is Some;
                                if u < w {
                                    assert(crate::temporal::present_prefix(
                                        sig.months@,
                                        w as int,
                                        query@,
                                        n,
                                    ));
                                }
                            }
                            if crate::temporal::present_prefix(sig.months@, w as int, query@, n) {
                                let u = choose|u: int|
                                    0 <= u < w && u < sig.months@.len() && cooc_get(
                                        (#[trigger] sig.months@[u]).1,
                                        query@,
                                        n,
                                    ) is Some;
                                assert(crate::temporal::present_prefix(
                                    sig.months@,
                                    w + 1,
                                    query@,
                                    n,
                                ));
                            }
                            if cooc_get(sig.months@[w as int].1, query@, n) is Some {
                                assert(cooc_get(
                                    (#[trigger] sig.months@[w as int]).1,
                                    query@,
                                    n,
                                ) is Some);
                                assert(crate::temporal::present_prefix(
                                    sig.months@,
                                    w + 1,
                                    query@,
                                    n,
                                ));
                            }
                        }
                    }
                }
            },
            None => {
                proof {
                    assert forall|n: Seq<char>|
                        #[trigger] has_name(partners@, n) == crate::temporal::present_prefix(
                        sig.months@,
                        w + 1,
                        query@,
                        n,
                    ) by {
                        assert(cooc_get(sig.months@[w as int].1, query@, n) is None);
                        assert(crate::temporal::present_prefix(sig.months@, w + 1, query@, n) == (
                        crate::temporal::present_prefix(sig.months@, w as int, query@, n))) by {
                            if crate::temporal::present_prefix(sig.months@, w + 1, query@, n) {
                                let u = choose|u: int|
                                    0 <= u < w + 1 && u < sig.months@.len() && cooc_get(
                                        (#[trigger] sig.months@[u]).1,
                                        query@,
                                        n,
                                    ) is Some;
                                if u < w {
                                    assert(crate::temporal::present_prefix(
                                        sig.months@,
                                        w as int,
                                        query@,
                                        n,
                                    ));
                                } else {
                                    assert(false);
                                }
                            }
                            if crate::temporal::present_prefix(sig.months@, w as int, query@, n) {
                                let u = choose|u: int|
                                    0 <= u < w && u < sig.months@.len() && cooc_get(
                                        (#[trigger] sig.months@[u]).1,
                                        query@,
                                        n,
                                    ) is Some;
                                assert(crate::temporal::present_prefix(
                                    sig.months@,
                                    w + 1,
                                    query@,
                                    n,
                                ));
                            }
                        }
                    }
                }
            },
        }
        w = w + 1;
    }
    let mut scored: Vec<(String, Frac)> = Vec::new();
    let mut p: usize = 0;
    while p < partners.len()
        invariant
            p <= partners@.len(),
            sig.wf(),
            names_nodup(partners@),
            scored_wf(scored@),
            scored_names_distinct(scored@),
            forall|i: int|
                0 <= i < scored@.len() ==> (#[trigger] scored@[i]).1 == sig.spec_similarity(
                    query@,
                    scored@[i].0@,
                ) && scored@[i].1.num > 0,
            forall|i: int|
                0 <= i < scored@.len() ==> exists|w2: int|
                    0 <= w2 < p && (#[trigger] scored@[i]).0@ == partners@[w2]@,
            forall|n: Seq<char>|
                (#[trigger] has_name(partners@.take(p as int), n) && sig.spec_similarity(
                    query@,
                    n,
                ).num > 0) ==> exists|i: int|
                    0 <= i < scored@.len() && (#[trigger] scored@[i]).0@ == n,
        decreases partners@.len() - p,
    {
        let ghost scored0 = scored@;
        let s: Frac = sig.similarity(query, partners[p].as_str());
        if s.num > 0 {
            proof {
                assert(!(exists|i: int|
                    0 <= i < scored0.len() && (#[trigger] scored0[i]).0@
                        == partners@[p as int]@)) by {
                    if exists|i: int|
                        0 <= i < scored0.len() && (#[trigger] scored0[i]).0@
                            == partners@[p as int]@ {
                        let i = choose|i: int|
                            0 <= i < scored0.len() && (#[trigger] scored0[i]).0@
                                == partners@[p as int]@;
                        let w2 = choose|w2: int|
                            0 <= w2 < p && (#[trigger] scored0[i]).0@ == partners@[w2]@;
                        assert(partners@[w2]@ == partners@[p as int]@);
                        assert(false);
                    }
                }
            }
            scored.push((partners[p].clone(), s));
        }
        proof {
            assert forall|n: Seq<char>|
                (#[trigger] has_name(partners@.take(p + 1), n) && sig.spec_similarity(
                    query@,
                    n,
                ).num > 0) implies exists|i: int|
                0 <= i < scored@.len() && (#[trigger] scored@[i]).0@ == n by {
                assert(has_name(partners@.take(p + 1), n) == (has_name(
                    partners@.take(p as int),
                    n,
                ) || n == partners@[p as int]@)) by {
                    if has_name(partners@.take(p as int), n) {
                        let w2 = choose|w2: int|
                            0 <= w2 < p && #[trigger] partners@.take(p as int)[w2]@ == n;
                        assert(partners@.take(p + 1)[w2]@ == n);
                    }
                    if n == partners@[p as int]@ {
                        assert(partners@.take(p + 1)[p as int]@ == n);
                    }
                    if has_name(partners@.take(p + 1), n) {
                        let w2 = choose|w2: int|
                            0 <= w2 < p + 1 && #[trigger] partners@.take(p + 1)[w2]@ == n;
                        if w2 < p {
                            assert(partners@.take(p as int)[w2]@ == n);
                        }
                    }
                }
                if has_name(partners@.take(p as int), n) && sig.spec_similarity(
                    query@,
                    n,
                ).num > 0 {
                    let i = choose|i: int|
                        0 <= i < scored0.len() && (#[trigger] scored0[i]).0@ == n;
                    assert((#[trigger] scored@[i]).0@ == n);
                }
                if n == partners@[p as int]@ && sig.spec_similarity(query@, n).num > 0 {
                    assert((#[trigger] scored@[scored@.len() - 1]).0@ == n);
                }
            }
        }
        p = p + 1;
    }
    proof {
        assert(partners@.take(partners@.len() as int) =~= partners@);
    }
    let ghost all_scored = scored@;
    let mut sorted: Vec<(String, Frac)> = sort_scored(&scored);
    let m: usize = if k < sorted.len() {
        k
    } else {
        sorted.len()
    };
    proof {
        crate::order::lemma_multiset_elements(sorted@, all_scored);
    }
    let ghost pre = sorted@;
    sorted.truncate(m);
    proof {
        assert(sorted@ =~= pre.take(m as int));
        assert forall|i: int| 0 <= i < sorted@.len() implies (#[trigger] sorted@[i]).1
            == sig.spec_similarity(query@, sorted@[i].0@) && sorted@[i].1.num > 0 by {
            assert(pre[i] == sorted@[i]);
            assert(all_scored.contains(pre[i]));
            let w2 = choose|w2: int| 0 <= w2 < all_scored.len() && all_scored[w2] == pre[i];
            assert((#[trigger] all_scored[w2]).1 == sig.spec_similarity(
                query@,
                all_scored[w2].0@,
            ));
        }
        if sorted@.len() < k {
            assert(m == pre.len());
            assert(sorted@ =~= pre);
            assert forall|n: Seq<char>|
                #[trigger] sig.spec_similarity(query@, n).num > 0 implies exists|i: int|
                0 <= i < sorted@.len() && (#[trigger] sorted@[i]).0@ == n by {
                assert(crate::temporal::spec_pair_freqs(sig.months@, query@, n).len() >= 1) by {
                    if crate::temporal::spec_pair_freqs(sig.months@, query@, n).len() == 0 {
                        assert(sig.spec_similarity(query@, n) == (Frac { num: 0, den: 1 }));
                    }
                }
                crate::temporal::lemma_freqs_nonempty_present(sig.months@, query@, n);
                let u = choose|u: int|
                    0 <= u < sig.months@.len() && cooc_get(
                        (#[trigger] sig.months@[u]).1,
                        query@,
                        n,
                    ) is Some;
                assert(crate::temporal::present_prefix(
                    sig.months@,
                    sig.months@.len() as int,
                    query@,
                    n,
                ));
                assert(has_name(partners@, n));
                assert(has_name(partners@.take(partners@.len() as int), n));
                let i = choose|i: int|
                    0 <= i < all_scored.len() && (#[trigger] all_scored[i]).0@ == n;
                assert(pre.contains(all_scored[i]));
                let j = choose|j: int| 0 <= j < pre.len() && pre[j] == all_scored[i];
                assert((#[trigger] sorted@[j]).0@ == n);
            }
        }
    }
    sorted
}

/// How many neighbors the adjacency holds for a query.
pub open spec fn adj_row_len(adj: Table<Vec<String>>, q: Seq<char>) -> int {
    match adj.spec_get(q) {
        Some(nb) => nb@.len() as int,
        None => 0,
    }
}

pub fn jaccard_ranked(adj: &Table<Vec<String>>, query: &str, k: usize) -> (r: Vec<(String, Frac)>)
    requires
        adj.wf(),
    ensures
        scored_wf(r@),
        scored_sorted_desc(r@),
        r@.len() == spec_min_len(k as int, adj_row_len(*adj, query@)),
        forall|i: int|
            0 <= i < r@.len() ==> (#[trigger] r@[i]).1 == (Frac { num: 1, den: 1 })
                && (match adj.spec_get(query@) {
                Some(nb) => r@[i].0 == nb@[i],
                None => false,
            }),
{
    let mut out: Vec<(String, Frac)> = Vec::new();
    match adj.get(query) {
        Some(neighbors) => {
            let mut i: usize = 0;
            while i < neighbors.len()
                invariant
                    i <= neighbors@.len(),
                    adj.spec_get(query@) matches Some(nb) && nb == *neighbors,
                    out@.len() == spec_min_len(k as int, i as int),
                    forall|j: int|
                        0 <= j < out@.len() ==> (#[trigger] out@[j]).1 == (Frac {
                            num: 1,
                            den: 1,
                        }) && out@[j].0 == neighbors@[j],
                decreases neighbors@.len() - i,
            {
                if out.len() < k {
                    let ghost before = out@;
                    out.push((neighbors[i].clone(), Frac::new(1, 1)));
                    proof {
                        assert(out@[before.len() as int].0 == neighbors@[i as int]);
                    }
                }
                i = i + 1;
            }
        },
        None => {},
    }
    out
}

/// Distinctly named list entries are each a candidate card, so the
/// candidate list is at least as long.
proof fn lemma_cards_cover_list(ss: Seq<SourceList>, u: int, r: Seq<Candidate>)
    requires
        0 <= u < ss.len(),
        scored_names_distinct(ss[u].1@),
        forall|n: Seq<char>|
            #[trigger] crate::fusion::card_listed(r, n) == crate::fusion::appears(ss, n),
    ensures
        r.len() >= ss[u].1@.len(),
{
    let lv = ss[u].1@;
    let sub = Seq::new(lv.len(), |i: int| lv[i].0);
    let sup = Seq::new(r.len(), |i: int| r[i].card);
    assert(names_nodup(sub)) by {
        assert forall|p: int, q: int| 0 <= p < q < sub.len() implies sub[p]@ != sub[q]@ by {
            assert((#[trigger] lv[p]).0@ != (#[trigger] lv[q]).0@);
        }
    }
    assert forall|n: Seq<char>| #[trigger] has_name(sub, n) implies has_name(sup, n) by {
        let i = choose|i: int| 0 <= i < sub.len() && sub[i]@ == n;
        assert((lv[i]).0@ == n);
        crate::table::lemma_seq_get_present(lv, n, i);
        assert(crate::fusion::list_has((#[trigger] ss[u]).1@, n));
        assert(crate::fusion::appears(ss, n));
        assert(crate::fusion::card_listed(r, n));
        let j = choose|j: int| 0 <= j < r.len() && (#[trigger] r[j]).card@ == n;
        assert(sup[j]@ == n);
    }
    crate::query::lemma_name_count(sub, sup);
}

/// A held card names some entry of the list.
proof fn lemma_seq_get_at_any(l: Seq<(String, Frac)>, n: Seq<char>)
    requires
        crate::fusion::list_has(l, n),
    ensures
        exists|w: int| 0 <= w < l.len() && (#[trigger] l[w]).0@ == n,
{
    crate::table::lemma_seq_get_witness(l, n);
}

/// A similarity dispatch over the configured signals.
pub struct SimilarityFunction {
    /// Graph co-occurrence neighbors per card, if loaded.
    pub jaccard_adj: Option<Table<Vec<String>>>,
    /// The sideboard signal, if built.
    pub sideboard: Option<SideboardSignal>,
    /// The temporal signal, if built.
    pub temporal: Option<TemporalSignal>,
    /// Fusion parameters.
    pub rrf_config: RrfConfig,
}

impl SimilarityFunction {
    /// Every configured signal is well-formed and the fusion constant
    /// is positive.
    pub open spec fn wf(self) -> bool {
        &&& match self.jaccard_adj {
            Some(t) => t.wf(),
            None => true,
        }
        &&& match self.sideboard {
            Some(s) => s.wf(),
            None => true,
        }
        &&& match self.temporal {
            Some(t) => t.wf(),
            None => true,
        }
        &&& 1 <= self.rrf_config.rrf_k
        &&& 1 <= self.rrf_config.weight <= 64
    }

    /// One of the configured signals speaks for the card: it is a
    /// recorded graph neighbor, holds a sideboard co-occurrence entry,
    /// or has positive temporal similarity to the query.
    pub open spec fn signal_knows(self, q: Seq<char>, n: Seq<char>) -> bool {
        ||| match self.jaccard_adj {
            Some(adj) => match adj.spec_get(q) {
                Some(nb) => crate::table::has_name(nb@, n),
                None => false,
            },
            None => false,
        }
        ||| match self.sideboard {
            Some(sb) => cooc_get(sb.cooccurrence, q, n) is Some,
            None => false,
        }
        ||| match self.temporal {
            Some(t) => t.spec_similarity(q, n).num > 0,
            None => false,
        }
    }

    /// Fuses the configured signals with externally supplied ranked
    /// lists into one attributed candidate list, ordered by
    /// contributing-source count and then largest raw score. A signal
    /// with no data for the query is omitted; no sources at all yield an
    /// empty list, not an error. Every card of an external list is
    /// among the candidates; every candidate is vouched for by an
    /// external list or a configured signal; and a sideboard signal
    /// with any entry for the query guarantees a nonempty result.
    pub fn similar(&self, query: &str, k: usize, extra: Vec<SourceList>) -> (r: Vec<Candidate>)
        requires
            self.wf(),
            extra@.len() <= 3,
            k >= 1,
            self.rrf_config.rrf_k + k <= 512,
            forall|i: int|
                0 <= i < extra@.len() ==> scored_wf((#[trigger] extra@[i]).1@) && self.rrf_config.rrf_k
                    + (#[trigger] extra@[i]).1@.len() <= 512,
        ensures
            forall|p: int, q: int|
                0 <= p < q < r@.len() ==> cand_key_ge(#[trigger] r@[p], #[trigger] r@[q]),
            forall|p: int, q: int| 0 <= p < q < r@.len() ==> (#[trigger] r@[p]).card@ != (
            #[trigger] r@[q]).card@,
            forall|i: int|
                0 <= i < r@.len() ==> (#[trigger] r@[i]).relevance is None && r@[i].wf(),
            forall|n: Seq<char>|
                #[trigger] crate::fusion::appears(extra@, n) ==> crate::fusion::card_listed(
                    r@,
                    n,
                ),
            forall|i: int|
                0 <= i < r@.len() ==> crate::fusion::appears(extra@, (#[trigger] r@[i]).card@)
                    || self.signal_knows(query@, r@[i].card@),
            (match self.sideboard {
                Some(sb) => sb_row_len(sb, query@) >= 1,
                None => false,
            }) ==> r@.len() >= 1,
            match self.jaccard_adj {
                Some(adj) => match adj.spec_get(query@) {
                    Some(nb) => forall|i: int|
                        0 <= i < spec_min_len(k as int, nb@.len() as int)
                            ==> crate::fusion::card_listed(r@, (#[trigger] nb@[i])@),
                    None => true,
                },
                None => true,
            },
            match self.temporal {
                Some(t) => r@.len() < k ==> forall|n: Seq<char>|
                    #[trigger] t.spec_similarity(query@, n).num > 0 ==> crate::fusion::card_listed(
                        r@,
                        n,
                    ),
                None => true,
            },
    {
        let ghost extra0 = extra@;
        let ghost base = extra@.len() as int;
        let mut sources: Vec<SourceList> = extra;
        let ghost mut sb_witness: Seq<char> = Seq::empty();
        let ghost mut sb_present: bool = false;
        let ghost mut sb_idx: int = 0;
        let ghost mut j_present: bool = false;
        let ghost mut j_idx: int = 0;
        let ghost mut t_present: bool = false;
        let ghost mut t_idx: int = 0;
        let ghost mut t_len: int = 0;
        match &self.jaccard_adj {
            Some(adj) => {
                let list: Vec<(String, Frac)> = jaccard_ranked(adj, query, k);
                if list.len() > 0 {
                    let ghost lv = list@;
                    sources.push(("jaccard".to_owned(), list));
                    proof {
                        j_present = true;
                        j_idx = sources@.len() - 1;
                        assert(sources@[j_idx].1@ == lv);
                        assert forall|i: int|
                            0 <= i < lv.len() implies self.signal_knows(
                            query@,
                            (#[trigger] lv[i]).0@,
                        ) by {}
                    }
                }
            },
            None => {},
        }
        match &self.sideboard {
            Some(sb) => {
                let list: Vec<(String, Frac)> = sideboard_ranked(sb, query, k);
                if list.len() > 0 {
                    let ghost lv = list@;
                    proof {
                        sb_witness = lv[0].0@;
                        sb_present = true;
                    }
                    sources.push(("sideboard".to_owned(), list));
                    proof {
                        sb_idx = sources@.len() - 1;
                        crate::table::lemma_seq_get_present(lv, sb_witness, 0);
                        assert(crate::fusion::list_has(sources@[sb_idx].1@, sb_witness));
                        assert forall|i: int|
                            0 <= i < lv.len() implies self.signal_knows(
                            query@,
                            (#[trigger] lv[i]).0@,
                        ) by {
                            assert(cooc_get(sb.cooccurrence, query@, lv[i].0@) == Some(lv[i].1));
                        }
                    }
                }
            },
            None => {},
        }
        match &self.temporal {
            Some(tmp) => {
                let list: Vec<(String, Frac)> = temporal_ranked(tmp, query, k);
                if list.len() > 0 {
                    let ghost lv = list@;
                    sources.push(("temporal".to_owned(), list));
                    proof {
                        t_present = true;
                        t_idx = sources@.len() - 1;
                        t_len = lv.len() as int;
                        assert(sources@[t_idx].1@ == lv);
                        assert forall|i: int|
                            0 <= i < lv.len() implies self.signal_knows(
                            query@,
                            (#[trigger] lv[i]).0@,
                        ) by {}
                    }
                } else {
                    proof {
                        // An empty list below the cut means the signal has no
                        // positive-similarity card for this query at all.
                        assert forall|n: Seq<char>|
                            !(#[trigger] tmp.spec_similarity(query@, n).num > 0) by {
                            if tmp.spec_similarity(query@, n).num > 0 {
                                let i = choose|i: int|
                                    0 <= i < list@.len() && (#[trigger] list@[i]).0@ == n;
                                assert(0 <= i < 0);
                            }
                        }
                    }
                }
            },
            None => {},
        }
        proof {
            assert(sources_wf(sources@));
            assert(crate::fusion::fusion_in_bounds(
                sources@,
                self.rrf_config.rrf_k as int,
                self.rrf_config.weight as int,
            ));
            assert(forall|u: int| 0 <= u < base ==> (#[trigger] sources@[u]) == extra0[u]);
            assert forall|u: int, i: int|
                base <= u < sources@.len() && 0 <= i < sources@[u].1@.len()
                    implies self.signal_knows(query@, (#[trigger] sources@[u].1@[i]).0@) by {}
        }
        let r: Vec<Candidate> = generate_candidates_fused(query, &sources, &self.rrf_config);
        proof {
            assert forall|i: int| 0 <= i < r@.len() implies (#[trigger] r@[i]).relevance is None
                && r@[i].wf() by {
                assert(crate::fusion::candidate_ok(sources@, r@[i]));
            }
            assert forall|n: Seq<char>|
                #[trigger] crate::fusion::appears(extra0, n) implies crate::fusion::card_listed(
                r@,
                n,
            ) by {
                let u = choose|u: int|
                    0 <= u < extra0.len() && crate::fusion::list_has((#[trigger] extra0[u]).1@, n);
                assert(crate::fusion::list_has(sources@[u].1@, n));
                assert(crate::fusion::appears(sources@, n));
            }
            assert forall|i: int|
                0 <= i < r@.len() implies crate::fusion::appears(
                extra0,
                (#[trigger] r@[i]).card@,
            ) || self.signal_knows(query@, r@[i].card@) by {
                assert(crate::fusion::candidate_ok(sources@, r@[i]));
                let n = r@[i].card@;
                let u = choose|u: int|
                    0 <= u < sources@.len() && crate::fusion::list_has(
                        (#[trigger] sources@[u]).1@,
                        n,
                    );
                if u < base {
                    assert(crate::fusion::list_has(extra0[u].1@, n));
                    assert(crate::fusion::appears(extra0, n));
                } else {
                    lemma_seq_get_at_any(sources@[u].1@, n);
                    let w = choose|w: int|
                        0 <= w < sources@[u].1@.len() && (#[trigger] sources@[u].1@[w]).0@ == n;
                    assert(self.signal_knows(query@, sources@[u].1@[w].0@));
                }
            }
            if (match &self.sideboard {
                Some(sb) => sb_row_len(*sb, query@) >= 1,
                None => false,
            }) {
                assert(sb_present);
                assert(crate::fusion::list_has(sources@[sb_idx].1@, sb_witness));
                assert(crate::fusion::appears(sources@, sb_witness));
                assert(crate::fusion::card_listed(r@, sb_witness));
                let w = choose|w: int|
                    0 <= w < r@.len() && (#[trigger] r@[w]).card@ == sb_witness;
                assert(r@.len() >= 1);
            }
            match &self.jaccard_adj {
                Some(adj) => {
                    match adj.spec_get(query@) {
                        Some(nb) => {
                            if spec_min_len(k as int, nb@.len() as int) > 0 {
                                assert(j_present);
                                assert forall|i: int|
                                    0 <= i < spec_min_len(k as int, nb@.len() as int)
                                        implies crate::fusion::card_listed(
                                    r@,
                                    (#[trigger] nb@[i])@,
                                ) by {
                                    assert(sources@[j_idx].1@[i].0 == nb@[i]);
                                    crate::table::lemma_seq_get_present(
                                        sources@[j_idx].1@,
                                        nb@[i]@,
                                        i,
                                    );
                                    assert(crate::fusion::list_has(
                                        (#[trigger] sources@[j_idx]).1@,
                                        nb@[i]@,
                                    ));
                                    assert(crate::fusion::appears(sources@, nb@[i]@));
                                }
                            }
                        },
                        None => {},
                    }
                },
                None => {},
            }
            match &self.temporal {
                Some(tmp) => {
                    if r@.len() < k {
                        assert forall|n: Seq<char>|
                            #[trigger] tmp.spec_similarity(query@, n).num > 0
                                implies crate::fusion::card_listed(r@, n) by {
                            assert(t_present) by {
                                if !t_present {
                                    assert(!(tmp.spec_similarity(query@, n).num > 0));
                                }
                            }
                            let lv = sources@[t_idx].1@;
                            assert(lv.len() < k) by {
                                if lv.len() >= k {
                                    lemma_cards_cover_list(sources@, t_idx, r@);
                                    assert(r@.len() >= lv.len());
                                }
                            }
                            let i = choose|i: int|
                                0 <= i < lv.len() && (#[trigger] lv[i]).0@ == n;
                            crate::table::lemma_seq_get_present(lv, n, i);
                            assert(crate::fusion::list_has((#[trigger] sources@[t_idx]).1@, n));
                            assert(crate::fusion::appears(sources@, n));
                        }
                    }
                },
                None => {},
            }
        }
        r
    }
}

/// The sideboard signal packaged as a ranked-list producer.
pub struct SideboardSource {
    sig: SideboardSignal,
}

impl SideboardSource {
    #[verifier::type_invariant]
    spec fn inv(self) -> bool {
        self.sig.wf()
    }

    /// Wraps a well-formed sideboard signal.
    pub fn new(sig: SideboardSignal) -> (r: SideboardSource)
        requires
            sig.wf(),
    {
        SideboardSource { sig }
    }
}

impl RankedSource for SideboardSource {
    /// The sideboard signal as a ranked-list producer.
    fn produce_ranked_list(&self, query: &str, depth: usize) -> Vec<(String, Frac)> {
        proof {
            use_type_invariant(self);
        }
        sideboard_ranked(&self.sig, query, depth)
    }
}

/// The temporal signal packaged as a ranked-list producer.
pub struct TemporalSource {
    sig: TemporalSignal,
}

impl TemporalSource {
    #[verifier::type_invariant]
    spec fn inv(self) -> bool {
        self.sig.wf()
    }

    /// Wraps a well-formed temporal signal.
    pub fn new(sig: TemporalSignal) -> (r: TemporalSource)
        requires
            sig.wf(),
    {
        TemporalSource { sig }
    }
}

impl RankedSource for TemporalSource {
    /// The temporal signal as a ranked-list producer.
    fn produce_ranked_list(&self, query: &str, depth: usize) -> Vec<(String, Frac)> {
        proof {
            use_type_invariant(self);
        }
        temporal_ranked(&self.sig, query, depth)
    }
}

} // verus!
