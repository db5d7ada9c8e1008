//! Rank fusion with source attribution.
//!
//! Several independently ranked `(card, score)` lists are fused by
//! reciprocal rank: a list contributes `weight / (rrf_k + rank)` to each
//! card it holds, ranks counting from 1, and the fused score of a card is
//! the sum over the lists that hold it, computed exactly as a rational.
//! The fused order only decides the initial candidate order; the final
//! order is a deliberate secondary rule that overrides it: candidates
//! sort by the number of contributing sources, then by their largest raw
//! score, both descending.

use vstd::prelude::*;

use crate::candidate::{spec_max_score, Candidate};
use crate::frac::{lemma_frac_le_trans, Frac};
use crate::order::{scored_wf, sort_scored};
use crate::table::{push_unique, has_name, names_nodup, seq_get};
use crate::strings::str_eq;

verus! {

/// Reciprocal-rank fusion parameters: the rank constant and one uniform
/// weight for every source.
#[derive(Clone, Copy, Debug, PartialEq, Eq, Structural)]
pub struct RrfConfig {
    pub rrf_k: u64,
    pub weight: u64,
}

impl Default for RrfConfig {
    /// The standard reciprocal-rank constant with uniform unit weights.
    fn default() -> (r: RrfConfig)
        ensures
            r == (RrfConfig { rrf_k: 60u64, weight: 1u64 }),
    {
        RrfConfig { rrf_k: 60, weight: 1 }
    }
}

/// One named, ranked source list.
pub type SourceList = (String, Vec<(String, Frac)>);

/// The card appears in the list.
pub open spec fn list_has(l: Seq<(String, Frac)>, c: Seq<char>) -> bool {
    seq_get(l, c) is Some
}

/// The card appears in some source.
pub open spec fn appears(ss: Seq<SourceList>, c: Seq<char>) -> bool {
    exists|u: int| 0 <= u < ss.len() && list_has((#[trigger] ss[u]).1@, c)
}

/// The rank of a card in a list, counting from 1; the first occurrence
/// counts.
pub open spec fn spec_rank(l: Seq<(String, Frac)>, c: Seq<char>) -> Option<int>
    decreases l.len(),
{
    if l.len() == 0 {
        None
    } else if l[0].0@ == c {
        Some(1)
    } else {
        match spec_rank(l.skip(1), c) {
            Some(r) => Some(r + 1),
            None => None,
        }
    }
}

/// The names of the sources that hold the card, in source order.
pub open spec fn spec_sources_of(ss: Seq<SourceList>, c: Seq<char>) -> Seq<String>
    decreases ss.len(),
{
    if ss.len() == 0 {
        Seq::empty()
    } else {
        spec_sources_of(ss.drop_last(), c) + (if list_has(ss.last().1@, c) {
            seq![ss.last().0]
        } else {
            Seq::<String>::empty()
        })
    }
}

/// The raw score each holding source gave the card, keyed by source name,
/// in source order.
pub open spec fn spec_scores_of(ss: Seq<SourceList>, c: Seq<char>) -> Seq<(String, Frac)>
    decreases ss.len(),
{
    if ss.len() == 0 {
        Seq::empty()
    } else {
        spec_scores_of(ss.drop_last(), c) + (match seq_get(ss.last().1@, c) {
            Some(f) => seq![(ss.last().0, f)],
            None => Seq::<(String, Frac)>::empty(),
        })
    }
}

/// The exact fused score as a rational `(numerator, denominator)`: the
/// sum over holding sources of `weight / (rrf_k + rank)`.
pub open spec fn spec_rrf(ss: Seq<SourceList>, k: int, w: int, c: Seq<char>) -> (int, int)
    decreases ss.len(),
{
    if ss.len() == 0 {
        (0, 1)
    } else {
        let prev = spec_rrf(ss.drop_last(), k, w, c);
        match spec_rank(ss.last().1@, c) {
            Some(r) => (prev.0 * (k + r) + w * prev.1, prev.1 * (k + r)),
            None => prev,
        }
    }
}

/// The final order: more contributing sources first, larger best raw
/// score first among equals.
pub open spec fn cand_key_ge(x: Candidate, y: Candidate) -> bool {
    x.sources@.len() > y.sources@.len() || (x.sources@.len() == y.sources@.len()
        && spec_max_score(y.scores@).spec_le(spec_max_score(x.scores@)))
}

/// A fused candidate is faithful to the sources: attribution, raw scores,
/// presence, and a fresh annotation state.
pub open spec fn candidate_ok(ss: Seq<SourceList>, c: Candidate) -> bool {
    &&& c.sources@ == spec_sources_of(ss, c.card@)
    &&& c.scores@ == spec_scores_of(ss, c.card@)
    &&& c.relevance is None
    &&& c.notes@ == Seq::<char>::empty()
    &&& appears(ss, c.card@)
    &&& c.wf()
}

/// The candidate list names the card.
pub open spec fn card_listed(s: Seq<Candidate>, n: Seq<char>) -> bool {
    exists|i: int| 0 <= i < s.len() && (#[trigger] s[i]).card@ == n
}

/// All candidates' scores are well-formed.
pub open spec fn cands_wf(s: Seq<Candidate>) -> bool {
    forall|i: int| 0 <= i < s.len() ==> (#[trigger] s[i]).wf()
}

/// All source lists carry well-formed scores.
pub open spec fn sources_wf(ss: Seq<SourceList>) -> bool {
    forall|u: int| 0 <= u < ss.len() ==> scored_wf((#[trigger] ss[u]).1@)
}

/// Caps that keep the exact rational fusion inside machine words.
pub open spec fn fusion_in_bounds(ss: Seq<SourceList>, k: int, w: int) -> bool {
    &&& ss.len() <= 6
    &&& 1 <= k
    &&& 1 <= w <= 64
    &&& forall|u: int| 0 <= u < ss.len() ==> k + (#[trigger] ss[u]).1@.len() <= 512
}

/// Denominator cap after fusing `i` sources.
pub open spec fn den_cap(i: int) -> int {
    if i <= 0 {
        1
    } else if i == 1 {
        0x200
    } else if i == 2 {
        0x4_0000
    } else if i == 3 {
        0x800_0000
    } else if i == 4 {
        0x10_0000_0000
    } else if i == 5 {
        0x2000_0000_0000
    } else {
        0x40_0000_0000_0000
    }
}

/// Finds a card's 1-based rank and raw score in a list.
fn find_in_list(l: &Vec<(String, Frac)>, c: &str) -> (r: Option<(usize, Frac)>)
    ensures
        match r {
            Some(p) => spec_rank(l@, c@) == Some(p.0 as int) && seq_get(l@, c@) == Some(p.1)
                && 1 <= p.0 <= l@.len(),
            None => spec_rank(l@, c@) is None && seq_get(l@, c@) is None,
        },
{
    let mut i: usize = 0;
    while i < l.len()
        invariant
            i <= l@.len(),
            forall|j: int| 0 <= j < i ==> (#[trigger] l@[j]).0@ != c@,
        decreases l@.len() - i,
    {
        if str_eq(l[i].0.as_str(), c) {
            proof {
                lemma_rank_at(l@, c@, i as int);
            }
            return Some((i + 1, l[i].1));
        }
        i = i + 1;
    }
    proof {
        lemma_rank_missing(l@, c@);
    }
    None
}

/// The first matching index decides the rank and the stored score.
proof fn lemma_rank_at(l: Seq<(String, Frac)>, c: Seq<char>, i: int)
    requires
        0 <= i < l.len(),
        l[i].0@ == c,
        forall|j: int| 0 <= j < i ==> (#[trigger] l[j]).0@ != c,
    ensures
        spec_rank(l, c) == Some(i + 1),
        seq_get(l, c) == Some(l[i].1),
    decreases i,
{
    if i > 0 {
        lemma_rank_at(l.skip(1), c, i - 1);
    }
}

/// Without a match there is no rank and no score.
proof fn lemma_rank_missing(l: Seq<(String, Frac)>, c: Seq<char>)
    requires
        forall|j: int| 0 <= j < l.len() ==> (#[trigger] l[j]).0@ != c,
    ensures
        spec_rank(l, c) is None,
        seq_get(l, c) is None,
    decreases l.len(),
{
    if l.len() > 0 {
        lemma_rank_missing(l.skip(1), c);
    }
}

/// Computes the exact fused score of one card.
fn fused_score(sources: &Vec<SourceList>, config: &RrfConfig, c: &str) -> (r: Frac)
    requires
        fusion_in_bounds(sources@, config.rrf_k as int, config.weight as int),
    ensures
        r.num == spec_rrf(sources@, config.rrf_k as int, config.weight as int, c@).0,
        r.den == spec_rrf(sources@, config.rrf_k as int, config.weight as int, c@).1,
        r.wf(),
        r.num >= 0,
{
    let mut num: i64 = 0;
    let mut den: i64 = 1;
    let mut u: usize = 0;
    while u < sources.len()
        invariant
            u <= sources@.len(),
            fusion_in_bounds(sources@, config.rrf_k as int, config.weight as int),
            num == spec_rrf(sources@.take(u as int), config.rrf_k as int, config.weight as int, c@).0,
            den == spec_rrf(sources@.take(u as int), config.rrf_k as int, config.weight as int, c@).1,
            0 <= num <= u * 64 * den_cap(u as int),
            1 <= den <= den_cap(u as int),
        decreases sources@.len() - u,
    {
        let ghost num0 = num;
        let ghost den0 = den;
        match find_in_list(&sources[u].1, c) {
            Some(p) => {
                let rank: usize = p.0;
                let kr: i64 = (config.rrf_k + rank as u64) as i64;
                proof {
                    assert(config.rrf_k + sources@[u as int].1@.len() <= 512);
                    assert(1 <= kr <= 512);
                    assert(u < 6);
                    assert(den_cap(u as int) <= 0x2000_0000_0000);
                    assert(num0 * kr <= (u as int) * 64 * den_cap(u as int) * 512
                        && num0 * kr >= 0) by (nonlinear_arith)
                        requires
                            0 <= num0 <= (u as int) * 64 * den_cap(u as int),
                            1 <= kr <= 512,
                    ;
                    assert((u as int) * 64 * den_cap(u as int) * 512 <= 5 * 64
                        * 0x2000_0000_0000 * 512) by (nonlinear_arith)
                        requires
                            0 <= u < 6,
                            0 < den_cap(u as int) <= 0x2000_0000_0000,
                    ;
                    assert(1 <= den0 * kr <= den_cap(u as int) * 512 && den_cap(u as int) * 512
                        <= den_cap(u + 1)) by (nonlinear_arith)
                        requires
                            1 <= den0 <= den_cap(u as int),
                            1 <= kr <= 512,
                            0 <= u < 6,
                            den_cap(u as int) * 512 <= den_cap(u + 1),
                    ;
                    assert(den_cap(u as int) * 512 <= den_cap(u + 1));
                    assert(0 <= config.weight * den0 <= 64 * den_cap(u as int))
                        by (nonlinear_arith)
                        requires
                            1 <= config.weight <= 64,
                            1 <= den0 <= den_cap(u as int),
                    ;
                    assert(num0 * kr + config.weight * den0 <= (u + 1) * 64 * den_cap(u + 1))
                        by (nonlinear_arith)
                        requires
                            0 <= num0 * kr <= (u as int) * 64 * den_cap(u as int) * 512,
                            0 <= config.weight * den0 <= 64 * den_cap(u as int),
                            0 <= u < 6,
                            den_cap(u as int) * 512 <= den_cap(u + 1),
                            0 < den_cap(u as int) <= den_cap(u + 1),
                    ;
                }
                let w: i64 = config.weight as i64;
                num = num * kr + w * den;
                den = den * kr;
            },
            None => {},
        }
        proof {
            assert(sources@.take(u + 1).drop_last() =~= sources@.take(u as int));
            assert(sources@.take(u + 1).last() == sources@[u as int]);
            assert(den_cap(u as int) <= den_cap(u + 1));
            assert((u as int) * 64 * den_cap(u as int) <= (u + 1) * 64 * den_cap(u + 1))
                by (nonlinear_arith)
                requires
                    0 <= u,
                    0 < den_cap(u as int) <= den_cap(u + 1),
            ;
        }
        u = u + 1;
    }
    proof {
        assert(sources@.take(sources@.len() as int) =~= sources@);
    }
    Frac { num, den }
}

/// Compares two candidates in the final order.
fn key_ge(x: &Candidate, y: &Candidate) -> (r: bool)
    requires
        x.wf(),
        y.wf(),
    ensures
        r == cand_key_ge(*x, *y),
{
    let cx: usize = x.source_count();
    let cy: usize = y.source_count();
    if cx != cy {
        cx > cy
    } else {
        let mx: Frac = x.max_score();
        let my: Frac = y.max_score();
        my.le(&mx)
    }
}

/// The final order is transitive.
proof fn lemma_key_ge_trans(a: Candidate, b: Candidate, c: Candidate)
    requires
        a.wf(),
        b.wf(),
        c.wf(),
        cand_key_ge(a, b),
        cand_key_ge(b, c),
    ensures
        cand_key_ge(a, c),
{
    if a.sources@.len() == b.sources@.len() && b.sources@.len() == c.sources@.len() {
        lemma_max_score_wf(a.scores@);
        lemma_max_score_wf(b.scores@);
        lemma_max_score_wf(c.scores@);
        lemma_frac_le_trans(
            spec_max_score(c.scores@),
            spec_max_score(b.scores@),
            spec_max_score(a.scores@),
        );
    }
}

/// `spec_max_score` yields a well-formed rational on well-formed scores.
proof fn lemma_max_score_wf(s: Seq<(String, Frac)>)
    requires
        scored_wf(s),
    ensures
        spec_max_score(s).wf(),
    decreases s.len(),
{
    if s.len() > 0 {
        assert(scored_wf(s.drop_last())) by {
            assert(forall|i: int|
                0 <= i < s.drop_last().len() ==> (#[trigger] s.drop_last()[i]) == s[i]);
        }
        lemma_max_score_wf(s.drop_last());
    }
}

/// Sorts candidates by the final order, keeping the set of cards and
/// every candidate value.
#[verifier::rlimit(60)]
fn sort_candidates(v: Vec<Candidate>) -> (r: Vec<Candidate>)
    requires
        cands_wf(v@),
        forall|p: int, q: int| 0 <= p < q < v@.len() ==> (#[trigger] v@[p]).card@ != (
        #[trigger] v@[q]).card@,
    ensures
        r@.len() == v@.len(),
        r@.to_multiset() == v@.to_multiset(),
        cands_wf(r@),
        forall|p: int, q: int| 0 <= p < q < r@.len() ==> cand_key_ge(
            #[trigger] r@[p],
            #[trigger] r@[q],
        ),
        forall|p: int, q: int| 0 <= p < q < r@.len() ==> (#[trigger] r@[p]).card@ != (
        #[trigger] r@[q]).card@,
        forall|n: Seq<char>| #[trigger] card_listed(r@, n) == card_listed(v@, n),
{
    let ghost orig = v@;
    let mut src: Vec<Candidate> = v;
    let mut out: Vec<Candidate> = Vec::new();
    proof {
        broadcast use vstd::seq_lib::group_to_multiset_ensures;

        assert(out@.to_multiset().add(src@.to_multiset()) =~= orig.to_multiset());
    }
    while src.len() > 0
        invariant
            cands_wf(src@),
            cands_wf(out@),
            out@.len() + src@.len() == orig.len(),
            out@.to_multiset().add(src@.to_multiset()) == orig.to_multiset(),
            forall|p: int, q: int| 0 <= p < q < src@.len() ==> (#[trigger] src@[p]).card@ != (
            #[trigger] src@[q]).card@,
            forall|p: int, q: int| 0 <= p < q < out@.len() ==> (#[trigger] out@[p]).card@ != (
            #[trigger] out@[q]).card@,
            forall|n: Seq<char>| !(#[trigger] card_listed(out@, n) && card_listed(src@, n)),
            forall|p: int, q: int| 0 <= p < q < out@.len() ==> cand_key_ge(
                #[trigger] out@[p],
                #[trigger] out@[q],
            ),
            forall|n: Seq<char>|
                #[trigger] card_listed(orig, n) == (card_listed(out@, n) || card_listed(src@, n)),
        decreases src@.len(),
    {
        let ghost src0 = src@;
        let x: Candidate = src.remove(0);
        proof {
            broadcast use vstd::seq_lib::group_to_multiset_ensures;

            assert(x == src0[0]);
            assert(src@ =~= src0.remove(0));
            assert(src@.to_multiset() =~= src0.to_multiset().remove(x));
            assert(!card_listed(out@, x.card@));
            assert(!card_listed(src@, x.card@)) by {
                if card_listed(src@, x.card@) {
                    let w = choose|w: int|
                        0 <= w < src@.len() && (#[trigger] src@[w]).card@ == x.card@;
                    assert(src0[w + 1].card@ == src0[0].card@);
                    assert(false);
                }
            }
        }
        let mut p: usize = 0;
        while p < out.len() && key_ge(&out[p], &x)
            invariant
                p <= out@.len(),
                cands_wf(out@),
                x.wf(),
                forall|q: int| 0 <= q < p ==> cand_key_ge(#[trigger] out@[q], x),
            decreases out@.len() - p,
        {
            p = p + 1;
        }
        let ghost before = out@;
        out.insert(p, x);
        proof {
            broadcast use vstd::seq_lib::group_to_multiset_ensures;

            lemma_to_multiset_insert_cand(before, p as int, x);
            assert(out@.to_multiset().add(src@.to_multiset()) =~= orig.to_multiset());
            before.insert_ensures(p as int, x);
            assert forall|q: int| p <= q < before.len() implies cand_key_ge(
                x,
                #[trigger] before[q],
            ) by {
                assert(cand_key_ge(x, before[p as int])) by {
                    lemma_max_score_wf(x.scores@);
                    lemma_max_score_wf(before[p as int].scores@);
                }
                if q > p {
                    lemma_key_ge_trans(x, before[p as int], before[q]);
                }
            }
            assert forall|a: int, b: int| 0 <= a < b < out@.len() implies cand_key_ge(
                #[trigger] out@[a],
                #[trigger] out@[b],
            ) && out@[a].card@ != out@[b].card@ by {
                if b < p {
                    assert(out@[a] == before[a] && out@[b] == before[b]);
                } else if b == p {
                    assert(out@[b] == x && out@[a] == before[a]);
                    assert(card_listed(before, before[a].card@));
                } else {
                    assert(out@[b] == before[b - 1]);
                    if a < p {
                        lemma_key_ge_trans(out@[a], x, out@[b]);
                        assert(card_listed(before, before[b - 1].card@));
                    } else if a == p {
                        assert(out@[a] == x);
                        assert(card_listed(before, before[b - 1].card@));
                    } else {
                        assert(out@[a] == before[a - 1]);
                    }
                }
            }
            assert forall|n: Seq<char>|
                #[trigger] card_listed(out@, n) == (card_listed(before, n) || n == x.card@) by {
                if card_listed(before, n) {
                    let w = choose|w: int|
                        0 <= w < before.len() && (#[trigger] before[w]).card@ == n;
                    if w < p {
                        assert(out@[w].card@ == n);
                    } else {
                        assert(out@[w + 1].card@ == n);
                    }
                    assert(card_listed(out@, n));
                }
                if n == x.card@ {
                    assert(out@[p as int].card@ == n);
                    assert(card_listed(out@, n));
                }
                if card_listed(out@, n) {
                    let w = choose|w: int| 0 <= w < out@.len() && (#[trigger] out@[w]).card@ == n;
                    if w < p {
                        assert(before[w].card@ == n);
                        assert(card_listed(before, n));
                    } else if w > p {
                        assert(before[w - 1].card@ == n);
                        assert(card_listed(before, n));
                    }
                }
            }
            assert forall|n: Seq<char>|
                #[trigger] card_listed(src0, n) == (card_listed(src@, n) || n == x.card@) by {
                if card_listed(src@, n) {
                    let w = choose|w: int|
                        0 <= w < src@.len() && (#[trigger] src@[w]).card@ == n;
                    assert(src0[w + 1].card@ == n);
                    assert(card_listed(src0, n));
                }
                if n == x.card@ {
                    assert(src0[0].card@ == n);
                    assert(card_listed(src0, n));
                }
                if card_listed(src0, n) {
                    let w = choose|w: int| 0 <= w < src0.len() && (#[trigger] src0[w]).card@ == n;
                    if w > 0 {
                        assert(src@[w - 1].card@ == n);
                        assert(card_listed(src@, n));
                    }
                }
            }
        }
    }
    proof {
        broadcast use vstd::seq_lib::group_to_multiset_ensures;

        assert(src@.to_multiset() =~= Seq::<Candidate>::empty().to_multiset());
        assert(out@.to_multiset() =~= orig.to_multiset());
        assert(out@.len() == out@.to_multiset().len());
        assert(orig.len() == orig.to_multiset().len());
        assert forall|n: Seq<char>| !card_listed(src@, n) by {}
    }
    out
}

/// Inserting a candidate anywhere adds it to the multiset of the list.
proof fn lemma_to_multiset_insert_cand(s: Seq<Candidate>, pos: int, x: Candidate)
    requires
        0 <= pos <= s.len(),
    ensures
        s.insert(pos, x).to_multiset() =~= s.to_multiset().insert(x),
{
    broadcast use vstd::seq_lib::group_to_multiset_ensures;

    let t = s.subrange(0, pos);
    let u = s.subrange(pos, s.len() as int);
    assert(s =~= t + u);
    vstd::seq_lib::lemma_multiset_commutative(t, u);
    vstd::seq_lib::lemma_multiset_commutative(t.push(x), u);
    assert(t.push(x).to_multiset() =~= t.to_multiset().insert(x));
}

/// Among the first `u` sources, one holds the card.
pub open spec fn appears_upto(ss: Seq<SourceList>, u: int, c: Seq<char>) -> bool {
    exists|w: int| 0 <= w < u && w < ss.len() && list_has((#[trigger] ss[w]).1@, c)
}

/// Whether the candidate list already names the card.
fn cands_have_card(v: &Vec<Candidate>, c: &str) -> (r: bool)
    ensures
        r == card_listed(v@, c@),
{
    let mut i: usize = 0;
    while i < v.len()
        invariant
            i <= v@.len(),
            forall|j: int| 0 <= j < i ==> (#[trigger] v@[j]).card@ != c@,
        decreases v@.len() - i,
    {
        if str_eq(v[i].card.as_str(), c) {
            return true;
        }
        i = i + 1;
    }
    false
}

/// The distinct cards of all source lists, in first-appearance order.
#[verifier::rlimit(60)]
fn collect_cards(sources: &Vec<SourceList>) -> (r: Vec<String>)
    ensures
        names_nodup(r@),
        forall|n: Seq<char>| #[trigger] has_name(r@, n) == appears(sources@, n),
{
    let mut cards: Vec<String> = Vec::new();
    let mut u: usize = 0;
    while u < sources.len()
        invariant
            u <= sources@.len(),
            names_nodup(cards@),
            forall|n: Seq<char>|
                #[trigger] has_name(cards@, n) == appears_upto(sources@, u as int, n),
        decreases sources@.len() - u,
    {
        let l: &Vec<(String, Frac)> = &sources[u].1;
        let mut li: usize = 0;
        while li < l.len()
            invariant
                li <= l@.len(),
                u < sources@.len(),
                l == sources@[u as int].1,
                names_nodup(cards@),
                forall|n: Seq<char>|
                    #[trigger] has_name(cards@, n) == (appears_upto(sources@, u as int, n)
                        || crate::cooccur::has_name_prefix(l@, li as int, n)),
            decreases l@.len() - li,
        {
            push_unique(&mut cards, l[li].0.as_str());
            proof {
                assert forall|n: Seq<char>|
                    #[trigger] has_name(cards@, n) == (appears_upto(sources@, u as int, n)
                        || crate::cooccur::has_name_prefix(l@, li + 1, n)) by {
                    assert(crate::cooccur::has_name_prefix(l@, li + 1, n) == (
                    crate::cooccur::has_name_prefix(l@, li as int, n) || n == l@[li as int].0@))
                        by {
                        if n == l@[li as int].0@ {
                            assert(crate::cooccur::has_name_prefix(l@, li + 1, n));
                        }
                    }
                }
            }
            li = li + 1;
        }
        proof {
            assert forall|n: Seq<char>|
                #[trigger] has_name(cards@, n) == appears_upto(sources@, u + 1, n) by {
                assert(crate::cooccur::has_name_prefix(l@, l@.len() as int, n) == list_has(
                    l@,
                    n,
                )) by {
                    if crate::cooccur::has_name_prefix(l@, l@.len() as int, n) {
                        let w = choose|w: int|
                            0 <= w < l@.len() && (#[trigger] l@[w]).0@ == n;
                        crate::table::lemma_seq_get_present(l@, n, w);
                    }
                    if list_has(l@, n) {
                        crate::table::lemma_seq_get_witness(l@, n);
                    }
                }
                assert(appears_upto(sources@, u + 1, n) == (appears_upto(sources@, u as int, n)
                    || list_has(l@, n))) by {
                    if appears_upto(sources@, u + 1, n) {
                        let w = choose|w: int|
                            0 <= w < u + 1 && w < sources@.len() && list_has(
                                (#[trigger] sources@[w]).1@,
                                n,
                            );
                        if w < u {
                            assert(appears_upto(sources@, u as int, n));
                        }
                    }
                    if list_has(l@, n) {
                        assert(list_has(sources@[u as int].1@, n));
                        assert(appears_upto(sources@, u + 1, n));
                    }
                    if appears_upto(sources@, u as int, n) {
                        let w = choose|w: int|
                            0 <= w < u && w < sources@.len() && list_has(
                                (#[trigger] sources@[w]).1@,
                                n,
                            );
                        assert(appears_upto(sources@, u + 1, n));
                    }
                }
            }
        }
        u = u + 1;
    }
    proof {
        assert forall|n: Seq<char>| #[trigger] has_name(cards@, n) == appears(sources@, n) by {
            assert(appears_upto(sources@, sources@.len() as int, n) == appears(sources@, n));
        }
    }
    cards
}

/// Builds the attribution of one card: which sources hold it and their
/// raw scores.
fn attribution(sources: &Vec<SourceList>, c: &str) -> (r: (Vec<String>, Vec<(String, Frac)>))
    requires
        sources_wf(sources@),
    ensures
        r.0@ == spec_sources_of(sources@, c@),
        r.1@ == spec_scores_of(sources@, c@),
        scored_wf(r.1@),
{
    let mut srcs: Vec<String> = Vec::new();
    let mut scs: Vec<(String, Frac)> = Vec::new();
    let mut u: usize = 0;
    while u < sources.len()
        invariant
            u <= sources@.len(),
            sources_wf(sources@),
            srcs@ == spec_sources_of(sources@.take(u as int), c@),
            scs@ == spec_scores_of(sources@.take(u as int), c@),
            scored_wf(scs@),
        decreases sources@.len() - u,
    {
        let ghost srcs0 = srcs@;
        let ghost scs0 = scs@;
        match find_in_list(&sources[u].1, c) {
            Some(p) => {
                srcs.push(sources[u].0.clone());
                scs.push((sources[u].0.clone(), p.1));
            },
            None => {},
        }
        proof {
            assert(sources@.take(u + 1).drop_last() =~= sources@.take(u as int));
            assert(sources@.take(u + 1).last() == sources@[u as int]);
            match seq_get(sources@[u as int].1@, c@) {
                Some(f) => {
                    assert(srcs@ =~= srcs0 + seq![sources@[u as int].0]);
                    assert(scs@ =~= scs0 + seq![(sources@[u as int].0, f)]);
                    assert(srcs@ =~= spec_sources_of(sources@.take(u + 1), c@));
                    assert(scs@ =~= spec_scores_of(sources@.take(u + 1), c@));
                    assert(f.wf()) by {
                        crate::table::lemma_seq_get_witness(sources@[u as int].1@, c@);
                        let wi = choose|wi: int|
                            0 <= wi < sources@[u as int].1@.len() && sources@[u as int].1@[wi].0@
                                == c@ && seq_get(sources@[u as int].1@, c@) == Some(
                                sources@[u as int].1@[wi].1,
                            );
                        assert(scored_wf(sources@[u as int].1@));
                        assert((#[trigger] sources@[u as int].1@[wi]).1.wf());
                    }
                },
                None => {
                    assert(srcs@ =~= spec_sources_of(sources@.take(u + 1), c@));
                    assert(scs@ =~= spec_scores_of(sources@.take(u + 1), c@));
                },
            }
        }
        u = u + 1;
    }
    proof {
        assert(sources@.take(sources@.len() as int) =~= sources@);
    }
    (srcs, scs)
}

/// Fuses the named ranked source lists for one query card into an
/// attributed candidate list: every card of any source appears exactly
/// once, credited with the sources that hold it and their raw scores,
/// ordered by contributing-source count and then largest raw score, both
/// descending. The fused reciprocal-rank score decides only the initial
/// candidate order. No sources yield an empty list, not an error.
#[verifier::rlimit(60)]
pub fn generate_candidates_fused(query: &str, sources: &Vec<SourceList>, config: &RrfConfig) -> (r:
    Vec<Candidate>)
    requires
        sources_wf(sources@),
        fusion_in_bounds(sources@, config.rrf_k as int, config.weight as int),
    ensures
        forall|i: int| 0 <= i < r@.len() ==> candidate_ok(sources@, #[trigger] r@[i]),
        forall|n: Seq<char>| #[trigger] card_listed(r@, n) == appears(sources@, n),
        forall|p: int, q: int|
            0 <= p < q < r@.len() ==> cand_key_ge(#[trigger] r@[p], #[trigger] r@[q]),
        forall|p: int, q: int| 0 <= p < q < r@.len() ==> (#[trigger] r@[p]).card@ != (
        #[trigger] r@[q]).card@,
        sources@.len() == 0 ==> r@.len() == 0,
{
    let cards: Vec<String> = collect_cards(sources);
    let mut fused: Vec<(String, Frac)> = Vec::new();
    let mut ci: usize = 0;
    while ci < cards.len()
        invariant
            ci <= cards@.len(),
            sources_wf(sources@),
            fusion_in_bounds(sources@, config.rrf_k as int, config.weight as int),
            fused@.len() == ci,
            forall|i: int| 0 <= i < ci ==> (#[trigger] fused@[i]).0 == cards@[i],
            scored_wf(fused@),
        decreases cards@.len() - ci,
    {
        let f: Frac = fused_score(sources, config, cards[ci].as_str());
        fused.push((cards[ci].clone(), f));
        ci = ci + 1;
    }
    let sorted_fused: Vec<(String, Frac)> = sort_scored(&fused);
    proof {
        crate::order::lemma_multiset_elements(sorted_fused@, fused@);
        assert forall|n: Seq<char>|
            (exists|i: int| 0 <= i < sorted_fused@.len() && (#[trigger] sorted_fused@[i]).0@ == n)
                == has_name(cards@, n) by {
            if exists|i: int|
                0 <= i < sorted_fused@.len() && (#[trigger] sorted_fused@[i]).0@ == n {
                let i = choose|i: int|
                    0 <= i < sorted_fused@.len() && (#[trigger] sorted_fused@[i]).0@ == n;
                assert(fused@.contains(sorted_fused@[i]));
                let j = choose|j: int| 0 <= j < fused@.len() && fused@[j] == sorted_fused@[i];
                assert(cards@[j]@ == n);
                assert(has_name(cards@, n));
            }
            if has_name(cards@, n) {
                let j = choose|j: int| 0 <= j < cards@.len() && (#[trigger] cards@[j])@ == n;
                assert(fused@[j].0@ == n);
                assert(sorted_fused@.contains(fused@[j]));
                let i = choose|i: int|
                    0 <= i < sorted_fused@.len() && sorted_fused@[i] == fused@[j];
                assert((#[trigger] sorted_fused@[i]).0@ == n);
            }
        }
    }
    proof {
        assert forall|n: Seq<char>|
            (exists|i: int| 0 <= i < sorted_fused@.len() && (#[trigger] sorted_fused@[i]).0@ == n)
                == appears(sources@, n) by {
            assert(has_name(cards@, n) == appears(sources@, n));
        }
    }
    let mut out: Vec<Candidate> = Vec::new();
    let mut fi: usize = 0;
    while fi < sorted_fused.len()
        invariant
            fi <= sorted_fused@.len(),
            sources_wf(sources@),
            fusion_in_bounds(sources@, config.rrf_k as int, config.weight as int),
            forall|n: Seq<char>|
                (exists|i: int|
                    0 <= i < sorted_fused@.len() && (#[trigger] sorted_fused@[i]).0@ == n)
                    == appears(sources@, n),
            forall|i: int| 0 <= i < out@.len() ==> candidate_ok(sources@, #[trigger] out@[i]),
            forall|p: int, q: int| 0 <= p < q < out@.len() ==> (#[trigger] out@[p]).card@ != (
            #[trigger] out@[q]).card@,
            forall|n: Seq<char>|
                #[trigger] card_listed(out@, n) == (exists|i: int|
                    0 <= i < fi && (#[trigger] sorted_fused@[i]).0@ == n),
        decreases sorted_fused@.len() - fi,
    {
        let ghost out0 = out@;
        let card: &String = &sorted_fused[fi].0;
        let fresh: bool = !cands_have_card(&out, card.as_str());
        if fresh {
            let parts: (Vec<String>, Vec<(String, Frac)>) = attribution(sources, card.as_str());
            let cand: Candidate = Candidate::new(card.clone(), parts.0, parts.1);
            proof {
                assert(appears(sources@, card@)) by {
                    assert((#[trigger] sorted_fused@[fi as int]).0@ == card@);
                }
                assert(candidate_ok(sources@, cand));
            }
            out.push(cand);
        }
        proof {
            assert forall|n: Seq<char>|
                #[trigger] card_listed(out@, n) == (exists|i: int|
                    0 <= i < fi + 1 && (#[trigger] sorted_fused@[i]).0@ == n) by {
                assert((exists|i: int| 0 <= i < fi + 1 && (#[trigger] sorted_fused@[i]).0@ == n)
                    == ((exists|i: int| 0 <= i < fi && (#[trigger] sorted_fused@[i]).0@ == n) || n
                    == sorted_fused@[fi as int].0@)) by {
                    if n == sorted_fused@[fi as int].0@ {
                        assert((#[trigger] sorted_fused@[fi as int]).0@ == n);
                    }
                    if exists|i: int| 0 <= i < fi && (#[trigger] sorted_fused@[i]).0@ == n {
                        let w = choose|w: int|
                            0 <= w < fi && (#[trigger] sorted_fused@[w]).0@ == n;
                        assert((#[trigger] sorted_fused@[w]).0@ == n && w < fi + 1);
                    }
                }
                if card_listed(out@, n) {
                    let w = choose|w: int| 0 <= w < out@.len() && (#[trigger] out@[w]).card@ == n;
                    if w < out0.len() {
                        assert(card_listed(out0, n));
                    } else {
                        assert(n == sorted_fused@[fi as int].0@);
                    }
                }
                if card_listed(out0, n) {
                    let w = choose|w: int| 0 <= w < out0.len() && (#[trigger] out0[w]).card@ == n;
                    assert((#[trigger] out@[w]).card@ == n);
                    assert(card_listed(out@, n));
                }
                if fresh && n == sorted_fused@[fi as int].0@ {
                    assert((#[trigger] out@[out0.len() as int]).card@ == n);
                    assert(card_listed(out@, n));
                }
                if !fresh && n == sorted_fused@[fi as int].0@ {
                    assert(card_listed(out0, n));
                }
            }
        }
        fi = fi + 1;
    }
    proof {
        assert forall|n: Seq<char>| #[trigger] card_listed(out@, n) == appears(sources@, n) by {}
    }
    let r: Vec<Candidate> = sort_candidates(out);
    proof {
        assert forall|i: int| 0 <= i < r@.len() implies candidate_ok(
            sources@,
            #[trigger] r@[i],
        ) by {
            broadcast use vstd::seq_lib::group_to_multiset_ensures;

            assert(out@.contains(r@[i])) by {
                assert(r@.to_multiset().count(r@[i]) > 0);
            }
            let j = choose|j: int| 0 <= j < out@.len() && out@[j] == r@[i];
            assert(candidate_ok(sources@, out@[j]));
        }
        if sources@.len() == 0 {
            if r@.len() > 0 {
                assert(candidate_ok(sources@, r@[0]));
                assert(appears(sources@, r@[0].card@));
                assert(false);
            }
        }
    }
    r
}

/// The position of a card in a list of distinctly named entries.
pub open spec fn pos_of(l: Seq<(String, Frac)>, c: Seq<char>) -> int {
    choose|m: int| 0 <= m < l.len() && (#[trigger] l[m]).0@ == c
}

/// In a single-source fusion each candidate carries exactly the source's
/// raw score for its card, and its best score is that score.
proof fn lemma_single_source_shape(ss: Seq<SourceList>, r: Seq<Candidate>, j: int)
    requires
        ss.len() == 1,
        forall|p: int, q: int| 0 <= p < q < ss[0].1@.len() ==> (#[trigger] ss[0].1@[p]).0@ != (
        #[trigger] ss[0].1@[q]).0@,
        forall|i: int| 0 <= i < ss[0].1@.len() ==> (#[trigger] ss[0].1@[i]).1.num > 0,
        forall|i: int| 0 <= i < r.len() ==> candidate_ok(ss, #[trigger] r[i]),
        0 <= j < r.len(),
    ensures
        0 <= pos_of(ss[0].1@, r[j].card@) < ss[0].1@.len(),
        ss[0].1@[pos_of(ss[0].1@, r[j].card@)].0@ == r[j].card@,
        r[j].scores@ == seq![(ss[0].0, ss[0].1@[pos_of(ss[0].1@, r[j].card@)].1)],
        spec_max_score(r[j].scores@) == ss[0].1@[pos_of(ss[0].1@, r[j].card@)].1,
        r[j].sources@.len() == 1,
{
    let l = ss[0].1@;
    assert(candidate_ok(ss, r[j]));
    assert(appears(ss, r[j].card@));
    let u = choose|u: int| 0 <= u < ss.len() && list_has((#[trigger] ss[u]).1@, r[j].card@);
    assert(u == 0);
    crate::table::lemma_seq_get_witness(l, r[j].card@);
    let m0 = choose|m: int|
        0 <= m < l.len() && l[m].0@ == r[j].card@ && seq_get(l, r[j].card@) == Some(l[m].1);
    assert((#[trigger] l[m0]).0@ == r[j].card@);
    let m = pos_of(l, r[j].card@);
    assert(0 <= m < l.len() && l[m].0@ == r[j].card@);
    assert(m == m0) by {
        if m != m0 {
            assert(l[m].0@ != l[m0].0@);
        }
    }
    assert(ss.drop_last().len() == 0);
    assert(ss.last() == ss[0]);
    assert(spec_scores_of(ss.drop_last(), r[j].card@) =~= Seq::<(String, Frac)>::empty());
    assert(r[j].scores@ =~= seq![(ss[0].0, l[m].1)]);
    assert(spec_sources_of(ss.drop_last(), r[j].card@) =~= Seq::<String>::empty());
    assert(r[j].sources@ =~= seq![ss[0].0]);
    let sc = r[j].scores@;
    assert(sc.drop_last() =~= Seq::<(String, Frac)>::empty());
    assert(sc.last() == (ss[0].0, l[m].1));
    assert(spec_max_score(sc) == spec_max_score(sc.drop_last()).spec_max(l[m].1));
    assert((Frac { num: 0, den: 1 }).spec_lt(l[m].1)) by {
        assert(l[m].1.num > 0);
    }
}

/// Up to position `j`, each candidate of a single-source fusion sits at
/// its card's own rank in the source list.
proof fn lemma_single_source_ident(ss: Seq<SourceList>, r: Seq<Candidate>, j: int)
    requires
        ss.len() == 1,
        forall|p: int, q: int| 0 <= p < q < ss[0].1@.len() ==> (#[trigger] ss[0].1@[p]).0@ != (
        #[trigger] ss[0].1@[q]).0@,
        forall|p: int, q: int|
            0 <= p < q < ss[0].1@.len() ==> (#[trigger] ss[0].1@[q]).1.spec_lt(
                (#[trigger] ss[0].1@[p]).1,
            ),
        forall|i: int| 0 <= i < ss[0].1@.len() ==> (#[trigger] ss[0].1@[i]).1.num > 0,
        forall|i: int| 0 <= i < r.len() ==> candidate_ok(ss, #[trigger] r[i]),
        forall|n: Seq<char>| #[trigger] card_listed(r, n) == appears(ss, n),
        forall|p: int, q: int| 0 <= p < q < r.len() ==> cand_key_ge(#[trigger] r[p], #[trigger] r[q]),
        forall|p: int, q: int| 0 <= p < q < r.len() ==> (#[trigger] r[p]).card@ != (
        #[trigger] r[q]).card@,
        0 <= j < r.len(),
    ensures
        forall|j2: int| 0 <= j2 <= j ==> pos_of(ss[0].1@, (#[trigger] r[j2]).card@) == j2,
    decreases j,
{
    let l = ss[0].1@;
    if j > 0 {
        lemma_single_source_ident(ss, r, j - 1);
    }
    lemma_single_source_shape(ss, r, j);
    let m = pos_of(l, r[j].card@);
    assert(m >= j) by {
        if m < j {
            lemma_single_source_shape(ss, r, m);
            assert(pos_of(l, r[m].card@) == m);
            assert(l[m].0@ == r[j].card@);
            assert(l[pos_of(l, r[m].card@)].0@ == r[m].card@);
            assert(r[m].card@ == r[j].card@);
            assert(false);
        }
    }
    assert(m <= j) by {
        if m > j {
            assert(card_listed(r, l[j].0@)) by {
                crate::table::lemma_seq_get_present(l, l[j].0@, j);
                assert(list_has(ss[0].1@, l[j].0@));
                assert(appears(ss, l[j].0@));
            }
            let j2 = choose|j2: int| 0 <= j2 < r.len() && (#[trigger] r[j2]).card@ == l[j].0@;
            lemma_single_source_shape(ss, r, j2);
            assert(pos_of(l, r[j2].card@) == j) by {
                let mj = pos_of(l, r[j2].card@);
                assert(l[mj].0@ == l[j].0@);
                if mj != j {
                    assert(l[mj].0@ != l[j].0@);
                }
            }
            assert(j2 > j) by {
                if j2 < j {
                    assert(pos_of(l, r[j2].card@) == j2);
                } else if j2 == j {
                    assert(pos_of(l, r[j].card@) == j);
                }
            }
            assert(cand_key_ge(r[j], r[j2]));
            assert(spec_max_score(r[j2].scores@).spec_le(spec_max_score(r[j].scores@)));
            assert(l[j].1.spec_le(l[m].1));
            assert(l[m].1.spec_lt(l[j].1));
            assert(false);
        }
    }
}

/// With a single ranked source of strictly descending positive scores
/// and distinct cards, fusion returns exactly that list's cards in the
/// list's own order, each scored by the source's raw score: source-count
/// ties resolve to the maximum raw score, which matches the source's own
/// ordering. Positivity is part of "no ties": the best-score fold floors
/// at zero, so any scores at or below zero would tie there.
pub proof fn lemma_single_source_order(ss: Seq<SourceList>, r: Seq<Candidate>)
    requires
        ss.len() == 1,
        forall|p: int, q: int| 0 <= p < q < ss[0].1@.len() ==> (#[trigger] ss[0].1@[p]).0@ != (
        #[trigger] ss[0].1@[q]).0@,
        forall|p: int, q: int|
            0 <= p < q < ss[0].1@.len() ==> (#[trigger] ss[0].1@[q]).1.spec_lt(
                (#[trigger] ss[0].1@[p]).1,
            ),
        forall|i: int| 0 <= i < ss[0].1@.len() ==> (#[trigger] ss[0].1@[i]).1.num > 0,
        forall|i: int| 0 <= i < r.len() ==> candidate_ok(ss, #[trigger] r[i]),
        forall|n: Seq<char>| #[trigger] card_listed(r, n) == appears(ss, n),
        forall|p: int, q: int| 0 <= p < q < r.len() ==> cand_key_ge(#[trigger] r[p], #[trigger] r[q]),
        forall|p: int, q: int| 0 <= p < q < r.len() ==> (#[trigger] r[p]).card@ != (
        #[trigger] r[q]).card@,
    ensures
        r.len() == ss[0].1@.len(),
        forall|i: int|
            0 <= i < r.len() ==> (#[trigger] r[i]).card@ == ss[0].1@[i].0@ && r[i].scores@ == seq![
                (ss[0].0, ss[0].1@[i].1),
            ],
{
    let l = ss[0].1@;
    if r.len() == 0 {
        if l.len() > 0 {
            assert(card_listed(r, l[0].0@)) by {
                crate::table::lemma_seq_get_present(l, l[0].0@, 0);
                assert(list_has(ss[0].1@, l[0].0@));
                assert(appears(ss, l[0].0@));
            }
            let j2 = choose|j2: int| 0 <= j2 < r.len() && (#[trigger] r[j2]).card@ == l[0].0@;
            assert(false);
        }
    } else {
        lemma_single_source_ident(ss, r, r.len() - 1);
        assert forall|i: int| 0 <= i < r.len() implies (#[trigger] r[i]).card@ == l[i].0@
            && r[i].scores@ == seq![(ss[0].0, l[i].1)] by {
            lemma_single_source_shape(ss, r, i);
            assert(pos_of(l, r[i].card@) == i);
        }
        assert(r.len() <= l.len()) by {
            lemma_single_source_shape(ss, r, r.len() - 1);
            assert(pos_of(l, r[r.len() - 1].card@) == r.len() - 1);
            assert(pos_of(l, r[r.len() - 1].card@) < l.len());
        }
        assert(r.len() >= l.len()) by {
            if r.len() < l.len() {
                assert(card_listed(r, l[r.len() as int].0@)) by {
                    crate::table::lemma_seq_get_present(l, l[r.len() as int].0@, r.len() as int);
                    assert(list_has(ss[0].1@, l[r.len() as int].0@));
                    assert(appears(ss, l[r.len() as int].0@));
                }
                let j2 = choose|j2: int|
                    0 <= j2 < r.len() && (#[trigger] r[j2]).card@ == l[r.len() as int].0@;
                assert(r[j2].card@ == l[j2].0@);
                assert(l[j2].0@ != l[r.len() as int].0@);
                assert(false);
            }
        }
    }
}

} // verus!
