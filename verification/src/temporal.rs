//! Temporal trend signal.
//!
//! Decks are bucketed by the UTC month of their timestamp; months with
//! enough decks get a per-card-normalized co-occurrence table over the
//! combined main-and-sideboard card set of each deck (cards need five
//! appearances in the month to participate). Card pairs seen in enough
//! distinct months yield a trend: the change from the first to the last
//! observed frequency per observation step. The frequency attributed to
//! an unordered pair is that of the lexicographically first card's row.

use vstd::prelude::*;
use vstd::string::StringSliceAdditionalSpecFns;
use vstd::utf8::encode_utf8;

use crate::cooccur::{cooc_get, cooc_wf, freq_table, lists_nodup, lists_with, lists_with_both,
    MAX_RECORDS};
use crate::dates::{month_key, parse_deck_date, spec_deck_month_key, RecordPolicy};
use crate::deck::{deck_all_names, deck_has_card, DeckRecord};
use crate::frac::Frac;
use crate::order::{sort_trends, trends_sorted_desc, trends_wf};
use crate::strings::{bytes_le, str_eq, str_le};
use crate::table::{lemma_seq_get_at, lemma_seq_get_witness, seq_get, Table};

verus! {

/// Appearances a card needs within one month before it participates in
/// that month's co-occurrence table.
pub const TEMPORAL_MIN_CARD_COUNT: usize = 5;

/// Distinct months a pair must be observed in before it can trend.
pub const TREND_MIN_MONTHS: usize = 3;

/// A temporal scan failed on one record, under the abort policy.
#[derive(Clone, Copy, Debug, PartialEq, Eq, Structural)]
pub struct TemporalError {
    /// Index of the first deck whose timestamp did not parse.
    pub deck_index: usize,
}

/// How many decks fall in month `k`.
pub open spec fn month_decks(decks: Seq<DeckRecord>, k: int) -> nat
    decreases decks.len(),
{
    if decks.len() == 0 {
        0
    } else {
        month_decks(decks.drop_last(), k) + (if spec_deck_month_key(decks.last()) == Some(k) {
            1nat
        } else {
            0nat
        })
    }
}

/// In how many decks of month `k` the card appears.
pub open spec fn month_with(decks: Seq<DeckRecord>, k: int, n: Seq<char>) -> nat
    decreases decks.len(),
{
    if decks.len() == 0 {
        0
    } else {
        month_with(decks.drop_last(), k, n) + (if spec_deck_month_key(decks.last()) == Some(k)
            && deck_has_card(decks.last(), n) {
            1nat
        } else {
            0nat
        })
    }
}

/// In how many decks of month `k` both cards appear.
pub open spec fn month_both(decks: Seq<DeckRecord>, k: int, a: Seq<char>, b: Seq<char>) -> nat
    decreases decks.len(),
{
    if decks.len() == 0 {
        0
    } else {
        month_both(decks.drop_last(), k, a, b) + (if spec_deck_month_key(decks.last()) == Some(k)
            && deck_has_card(decks.last(), a) && deck_has_card(decks.last(), b) {
            1nat
        } else {
            0nat
        })
    }
}

/// The co-occurrence entry month `k` holds for `(a, b)`.
pub open spec fn spec_temporal_entry(
    decks: Seq<DeckRecord>,
    k: int,
    a: Seq<char>,
    b: Seq<char>,
) -> Option<Frac> {
    if month_with(decks, k, a) >= TEMPORAL_MIN_CARD_COUNT && month_with(decks, k, b)
        >= TEMPORAL_MIN_CARD_COUNT && a != b && month_both(decks, k, a, b) >= 1 {
        Some(Frac { num: month_both(decks, k, a, b) as i64, den: month_with(decks, k, a) as i64 })
    } else {
        None
    }
}

/// The month list holds an entry for key `k`.
pub open spec fn month_in(ms: Seq<(i64, Table<Table<Frac>>)>, k: int) -> bool {
    exists|w: int| 0 <= w < ms.len() && (#[trigger] ms[w]).0 == k
}

/// The frequency the month list answers for `(k, a, b)`: the first month
/// with that key decides.
pub open spec fn monthly_get(
    ms: Seq<(i64, Table<Table<Frac>>)>,
    k: int,
    a: Seq<char>,
    b: Seq<char>,
) -> Option<Frac>
    decreases ms.len(),
{
    if ms.len() == 0 {
        None
    } else if ms[0].0 == k {
        cooc_get(ms[0].1, a, b)
    } else {
        monthly_get(ms.skip(1), k, a, b)
    }
}

/// Appending a fresh month leaves earlier keys' answers alone.
proof fn lemma_monthly_get_push(
    ms: Seq<(i64, Table<Table<Frac>>)>,
    e: (i64, Table<Table<Frac>>),
    k: int,
    a: Seq<char>,
    b: Seq<char>,
)
    ensures
        monthly_get(ms.push(e), k, a, b) == (if month_in(ms, k) {
            monthly_get(ms, k, a, b)
        } else if e.0 == k {
            cooc_get(e.1, a, b)
        } else {
            None
        }),
    decreases ms.len(),
{
    if ms.len() == 0 {
        assert(ms.push(e).skip(1) =~= ms);
    } else {
        assert(ms.push(e)[0] == ms[0]);
        assert(ms.push(e).skip(1) =~= ms.skip(1).push(e));
        lemma_monthly_get_push(ms.skip(1), e, k, a, b);
        if ms[0].0 != k {
            assert(month_in(ms, k) == month_in(ms.skip(1), k)) by {
                if month_in(ms, k) {
                    let w = choose|w: int| 0 <= w < ms.len() && (#[trigger] ms[w]).0 == k;
                    assert(ms.skip(1)[w - 1].0 == k);
                }
                if month_in(ms.skip(1), k) {
                    let w = choose|w: int|
                        0 <= w < ms.skip(1).len() && (#[trigger] ms.skip(1)[w]).0 == k;
                    assert(ms[w + 1].0 == k);
                }
            }
        }
    }
}

/// A missing key answers nothing.
proof fn lemma_monthly_get_absent(
    ms: Seq<(i64, Table<Table<Frac>>)>,
    k: int,
    a: Seq<char>,
    b: Seq<char>,
)
    requires
        !month_in(ms, k),
    ensures
        monthly_get(ms, k, a, b) is None,
    decreases ms.len(),
{
    if ms.len() > 0 {
        assert(ms[0].0 != k);
        assert(!month_in(ms.skip(1), k)) by {
            if month_in(ms.skip(1), k) {
                let w = choose|w: int|
                    0 <= w < ms.skip(1).len() && (#[trigger] ms.skip(1)[w]).0 == k;
                assert(ms[w + 1].0 == k);
            }
        }
        lemma_monthly_get_absent(ms.skip(1), k, a, b);
    }
}

/// A key occurs in a list of month keys.
pub open spec fn key_in(s: Seq<i64>, k: int) -> bool {
    exists|i: int| 0 <= i < s.len() && s[i] == k
}

/// All keys in the list are distinct.
pub open spec fn keys_nodup(s: Seq<i64>) -> bool {
    forall|i: int, j: int| 0 <= i < j < s.len() ==> s[i] != s[j]
}

/// Whether the list holds the key.
fn vec_has_key(v: &Vec<i64>, k: i64) -> (r: bool)
    ensures
        r == key_in(v@, k as int),
{
    let mut i: usize = 0;
    while i < v.len()
        invariant
            i <= v.len(),
            forall|j: int| 0 <= j < i ==> v@[j] != k,
        decreases v.len() - i,
    {
        if v[i] == k {
            return true;
        }
        i = i + 1;
    }
    false
}

/// Collects the distinct month keys of the decks, in first-seen order.
/// Under the abort policy the first unparseable record fails the scan.
fn collect_month_keys(decks: &Vec<DeckRecord>, policy: RecordPolicy) -> (r: Result<
    Vec<i64>,
    TemporalError,
>)
    ensures
        match r {
            Ok(keys) => {
                &&& keys@.len() <= decks@.len()
                &&& keys_nodup(keys@)
                &&& forall|k: int| #[trigger] key_in(keys@, k) == (month_decks(decks@, k) >= 1)
                &&& policy == RecordPolicy::AbortOnMalformed ==> forall|j: int|
                    0 <= j < decks@.len() ==> (#[trigger] spec_deck_month_key(decks@[j])) is Some
            },
            Err(e) => {
                &&& policy == RecordPolicy::AbortOnMalformed
                &&& e.deck_index < decks@.len()
                &&& spec_deck_month_key(decks@[e.deck_index as int]) is None
                &&& forall|j: int|
                    0 <= j < e.deck_index ==> (#[trigger] spec_deck_month_key(decks@[j])) is Some
            },
        },
{
    let mut keys: Vec<i64> = Vec::new();
    let mut i: usize = 0;
    while i < decks.len()
        invariant
            i <= decks@.len(),
            keys@.len() <= i,
            keys_nodup(keys@),
            forall|k: int|
                #[trigger] key_in(keys@, k) == (month_decks(decks@.take(i as int), k) >= 1),
            policy == RecordPolicy::AbortOnMalformed ==> forall|j: int|
                0 <= j < i ==> (#[trigger] spec_deck_month_key(decks@[j])) is Some,
        decreases decks@.len() - i,
    {
        let ghost keys0 = keys@;
        match parse_deck_date(&decks[i]) {
            Some((y, m)) => {
                let k: i64 = month_key(y, m);
                let existed: bool = vec_has_key(&keys, k);
                if !existed {
                    keys.push(k);
                }
                proof {
                    assert(spec_deck_month_key(decks@[i as int]) == Some(k as int));
                    assert(decks@.take(i + 1).drop_last() =~= decks@.take(i as int));
                    assert(decks@.take(i + 1).last() == decks@[i as int]);
                    assert forall|k2: int|
                        #[trigger] key_in(keys@, k2) == (month_decks(decks@.take(i + 1), k2)
                            >= 1) by {
                        assert(key_in(keys0, k2) == (month_decks(decks@.take(i as int), k2) >= 1));
                        assert(key_in(keys@, k2) == (key_in(keys0, k2) || k2 == k as int)) by {
                            if key_in(keys@, k2) {
                                let w = choose|w: int| 0 <= w < keys@.len() && keys@[w] == k2;
                                if w < keys0.len() {
                                    assert(keys0[w] == k2);
                                } else {
                                    assert(keys@[w] == k);
                                }
                            }
                            if key_in(keys0, k2) {
                                let w = choose|w: int| 0 <= w < keys0.len() && keys0[w] == k2;
                                assert(keys@[w] == k2);
                            }
                            if k2 == k as int {
                                if existed {
                                    assert(key_in(keys0, k2));
                                } else {
                                    assert(keys@[keys0.len() as int] == k);
                                    assert(key_in(keys@, k2));
                                }
                            }
                        }
                    }
                }
            },
            None => {
                match policy {
                    RecordPolicy::AbortOnMalformed => {
                        return Err(TemporalError { deck_index: i });
                    },
                    RecordPolicy::SkipMalformed => {},
                }
                proof {
                    assert(decks@.take(i + 1).drop_last() =~= decks@.take(i as int));
                    assert(decks@.take(i + 1).last() == decks@[i as int]);
                    assert(spec_deck_month_key(decks@[i as int]) is None);
                    assert forall|k2: int|
                        #[trigger] key_in(keys@, k2) == (month_decks(decks@.take(i + 1), k2)
                            >= 1) by {
                        assert(key_in(keys0, k2) == (month_decks(decks@.take(i as int), k2) >= 1));
                    }
                }
            },
        }
        i = i + 1;
    }
    proof {
        assert(decks@.take(decks@.len() as int) =~= decks@);
    }
    Ok(keys)
}

/// Sorts distinct keys strictly ascending, keeping exactly the members.
fn sort_keys(v: &Vec<i64>) -> (r: Vec<i64>)
    requires
        keys_nodup(v@),
    ensures
        r@.len() == v@.len(),
        forall|p: int, q: int| 0 <= p < q < r@.len() ==> r@[p] < r@[q],
        forall|k: int| #[trigger] key_in(r@, k) == key_in(v@, k),
{
    let mut out: Vec<i64> = Vec::new();
    let mut idx: usize = 0;
    while idx < v.len()
        invariant
            idx <= v@.len(),
            keys_nodup(v@),
            out@.len() == idx,
            forall|p: int, q: int| 0 <= p < q < out@.len() ==> out@[p] < out@[q],
            forall|k: int| #[trigger] key_in(out@, k) == key_in(v@.take(idx as int), k),
        decreases v@.len() - idx,
    {
        let x: i64 = v[idx];
        proof {
            assert(!key_in(out@, x as int)) by {
                if key_in(v@.take(idx as int), x as int) {
                    let w = choose|w: int|
                        0 <= w < idx && #[trigger] v@.take(idx as int)[w] == x as int;
                    assert(v@[w] == v@[idx as int]);
                    assert(false);
                }
            }
        }
        let mut p: usize = 0;
        while p < out.len() && out[p] < x
            invariant
                p <= out@.len(),
                forall|q: int| 0 <= q < p ==> out@[q] < x,
            decreases out@.len() - p,
        {
            p = p + 1;
        }
        let ghost before = out@;
        out.insert(p, x);
        proof {
            before.insert_ensures(p as int, x);
            assert forall|a: int, b: int| 0 <= a < b < out@.len() implies out@[a] < out@[b] by {
                if b == p {
                    assert(out@[a] == before[a]);
                } else if b > p {
                    assert(out@[b] == before[b - 1]);
                    if a < p {
                    } else if a == p {
                        assert(out@[a] == x);
                        assert(before[b - 1] != x);
                        assert(!(before[b - 1] < x));
                    } else {
                        assert(out@[a] == before[a - 1]);
                    }
                }
            }
            assert(v@.take(idx + 1) =~= v@.take(idx as int).push(v@[idx as int]));
            assert forall|k: int| #[trigger] key_in(out@, k) == key_in(v@.take(idx + 1), k) by {
                assert(key_in(out@, k) == (key_in(before, k) || k == x as int)) by {
                    if key_in(before, k) {
                        let w = choose|w: int| 0 <= w < before.len() && before[w] == k;
                        if w < p {
                            assert(out@[w] == k);
                        } else {
                            assert(out@[w + 1] == k);
                        }
                        assert(key_in(out@, k));
                    }
                    if k == x as int {
                        assert(out@[p as int] == x);
                        assert(key_in(out@, k));
                    }
                    if key_in(out@, k) {
                        let w = choose|w: int| 0 <= w < out@.len() && out@[w] == k;
                        if w < p {
                            assert(before[w] == k);
                        } else if w > p {
                            assert(before[w - 1] == k);
                        }
                    }
                }
                assert(key_in(v@.take(idx + 1), k) == (key_in(v@.take(idx as int), k) || k
                    == v@[idx as int] as int)) by {
                    if key_in(v@.take(idx as int), k) {
                        let w = choose|w: int|
                            0 <= w < idx && #[trigger] v@.take(idx as int)[w] == k;
                        assert(v@.take(idx + 1)[w] == k);
                    }
                    if k == v@[idx as int] as int {
                        assert(v@.take(idx + 1)[idx as int] == k);
                    }
                    if key_in(v@.take(idx + 1), k) {
                        let w = choose|w: int|
                            0 <= w < idx + 1 && #[trigger] v@.take(idx + 1)[w] == k;
                        if w < idx {
                            assert(v@.take(idx as int)[w] == k);
                        }
                    }
                }
                assert(key_in(before, k) == key_in(v@.take(idx as int), k));
            }
        }
        idx = idx + 1;
    }
    proof {
        assert(v@.take(v@.len() as int) =~= v@);
    }
    out
}

/// The card lists of all decks that fall in month `k`, in deck order.
fn month_lists(decks: &Vec<DeckRecord>, k: i64) -> (r: Vec<Vec<String>>)
    requires
        decks@.len() <= MAX_RECORDS,
    ensures
        lists_nodup(r@),
        r@.len() == month_decks(decks@, k as int),
        forall|n: Seq<char>| #[trigger] lists_with(r@, n) == month_with(decks@, k as int, n),
        forall|a: Seq<char>, b: Seq<char>|
            #[trigger] lists_with_both(r@, a, b) == month_both(decks@, k as int, a, b),
{
    let mut lists: Vec<Vec<String>> = Vec::new();
    let mut j: usize = 0;
    while j < decks.len()
        invariant
            j <= decks@.len(),
            lists_nodup(lists@),
            lists@.len() == month_decks(decks@.take(j as int), k as int),
            forall|n: Seq<char>|
                #[trigger] lists_with(lists@, n) == month_with(decks@.take(j as int), k as int, n),
            forall|a: Seq<char>, b: Seq<char>|
                #[trigger] lists_with_both(lists@, a, b) == month_both(
                    decks@.take(j as int),
                    k as int,
                    a,
                    b,
                ),
        decreases decks@.len() - j,
    {
        let ghost lists0 = lists@;
        let mut in_month: bool = false;
        match parse_deck_date(&decks[j]) {
            Some((y, m)) => {
                let kj: i64 = month_key(y, m);
                if kj == k {
                    in_month = true;
                }
                proof {
                    assert(spec_deck_month_key(decks@[j as int]) == Some(kj as int));
                }
            },
            None => {},
        }
        if in_month {
            let names: Vec<String> = deck_all_names(&decks[j]);
            lists.push(names);
            proof {
                assert(lists@.drop_last() =~= lists0);
            }
        }
        proof {
            assert(decks@.take(j + 1).drop_last() =~= decks@.take(j as int));
            assert(decks@.take(j + 1).last() == decks@[j as int]);
            assert forall|n: Seq<char>|
                #[trigger] lists_with(lists@, n) == month_with(
                    decks@.take(j + 1),
                    k as int,
                    n,
                ) by {
                assert(lists_with(lists0, n) == month_with(decks@.take(j as int), k as int, n));
            }
            assert forall|a: Seq<char>, b: Seq<char>|
                #[trigger] lists_with_both(lists@, a, b) == month_both(
                    decks@.take(j + 1),
                    k as int,
                    a,
                    b,
                ) by {
                assert(lists_with_both(lists0, a, b) == month_both(
                    decks@.take(j as int),
                    k as int,
                    a,
                    b,
                ));
            }
        }
        j = j + 1;
    }
    proof {
        assert(decks@.take(decks@.len() as int) =~= decks@);
    }
    lists
}

/// The pair is canonically ordered: distinct cards, first below second in
/// UTF-8 byte order.
pub open spec fn canonical_pair(a: Seq<char>, b: Seq<char>) -> bool {
    a != b && bytes_le(encode_utf8(a), encode_utf8(b))
}

/// The pair's frequency in each month that holds it, months in list
/// order (chronological once the list is sorted).
pub open spec fn spec_pair_freqs(
    ms: Seq<(i64, Table<Table<Frac>>)>,
    a: Seq<char>,
    b: Seq<char>,
) -> Seq<Frac>
    decreases ms.len(),
{
    if ms.len() == 0 {
        Seq::empty()
    } else {
        spec_pair_freqs(ms.drop_last(), a, b) + (match cooc_get(ms.last().1, a, b) {
            Some(f) => seq![f],
            None => Seq::<Frac>::empty(),
        })
    }
}

/// A pair has at most one frequency per month.
pub proof fn lemma_pair_freqs_le_len(ms: Seq<(i64, Table<Table<Frac>>)>, a: Seq<char>, b: Seq<char>)
    ensures
        spec_pair_freqs(ms, a, b).len() <= ms.len(),
    decreases ms.len(),
{
    if ms.len() > 0 {
        lemma_pair_freqs_le_len(ms.drop_last(), a, b);
    }
}

/// Some month holds the pair.
pub open spec fn pair_present(ms: Seq<(i64, Table<Table<Frac>>)>, a: Seq<char>, b: Seq<char>) -> bool {
    exists|w: int| 0 <= w < ms.len() && cooc_get((#[trigger] ms[w]).1, a, b) is Some
}

/// An observed pair sits in some month.
pub proof fn lemma_freqs_nonempty_present(
    ms: Seq<(i64, Table<Table<Frac>>)>,
    a: Seq<char>,
    b: Seq<char>,
)
    requires
        spec_pair_freqs(ms, a, b).len() >= 1,
    ensures
        pair_present(ms, a, b),
    decreases ms.len(),
{
    if ms.len() > 0 {
        if cooc_get(ms.last().1, a, b) is Some {
            assert(cooc_get(ms[ms.len() - 1].1, a, b) is Some);
        } else {
            lemma_freqs_nonempty_present(ms.drop_last(), a, b);
            let w = choose|w: int|
                0 <= w < ms.drop_last().len() && cooc_get(
                    (#[trigger] ms.drop_last()[w]).1,
                    a,
                    b,
                ) is Some;
            assert(cooc_get(ms[w].1, a, b) is Some);
        }
    }
}

/// The trend of an observed frequency sequence: the change from the
/// first to the last observation, per observation step.
pub open spec fn spec_trend(fs: Seq<Frac>) -> Frac
    recommends
        fs.len() >= 2,
{
    Frac {
        num: (fs.last().num * fs[0].den - fs[0].num * fs.last().den) as i64,
        den: (fs[0].den * fs.last().den * (fs.len() - 1)) as i64,
    }
}

/// The trend's magnitude exceeds one hundredth.
pub open spec fn trend_significant(t: Frac) -> bool {
    (if t.num < 0 {
        -t.num
    } else {
        t.num as int
    }) * 100 > t.den
}

/// The triple list names the pair.
pub open spec fn trip_in(s: Seq<(String, String, Frac)>, a: Seq<char>, b: Seq<char>) -> bool {
    exists|i: int| 0 <= i < s.len() && (#[trigger] s[i]).0@ == a && s[i].1@ == b
}

/// The pair list names the pair.
pub open spec fn pair_in(s: Seq<(String, String)>, a: Seq<char>, b: Seq<char>) -> bool {
    exists|i: int| 0 <= i < s.len() && (#[trigger] s[i]).0@ == a && s[i].1@ == b
}

/// No pair is listed twice.
pub open spec fn pairs_distinct(s: Seq<(String, String)>) -> bool {
    forall|p: int, q: int|
        0 <= p < q < s.len() ==> !((#[trigger] s[p]).0@ == (#[trigger] s[q]).0@ && s[p].1@
            == s[q].1@)
}

/// Every stored frequency is a well-formed unit fraction with a bounded
/// denominator.
pub open spec fn months_bounded(ms: Seq<(i64, Table<Table<Frac>>)>, cap: int) -> bool {
    forall|w: int, a: Seq<char>, b: Seq<char>|
        0 <= w < ms.len() ==> match #[trigger] cooc_get(ms[w].1, a, b) {
            Some(f) => 1 <= f.den <= cap && 0 <= f.num <= f.den,
            None => true,
        }
}

/// A sound and complete trending entry: a canonically ordered pair seen
/// in enough months, with exactly the trend of its frequency sequence,
/// and that trend significant.
pub open spec fn trend_entry_ok(
    ms: Seq<(i64, Table<Table<Frac>>)>,
    min: int,
    e: (String, String, Frac),
) -> bool {
    &&& canonical_pair(e.0@, e.1@)
    &&& spec_pair_freqs(ms, e.0@, e.1@).len() >= min
    &&& e.2 == spec_trend(spec_pair_freqs(ms, e.0@, e.1@))
    &&& trend_significant(e.2)
    &&& 1 <= e.2.den <= 0x1000_0000_0000_0000
}

/// Whether the pair list holds the pair.
fn vec_has_pair(v: &Vec<(String, String)>, a: &str, b: &str) -> (r: bool)
    ensures
        r == pair_in(v@, a@, b@),
{
    let mut i: usize = 0;
    while i < v.len()
        invariant
            i <= v@.len(),
            forall|j: int| 0 <= j < i ==> !((#[trigger] v@[j]).0@ == a@ && v@[j].1@ == b@),
        decreases v@.len() - i,
    {
        if str_eq(v[i].0.as_str(), a) && str_eq(v[i].1.as_str(), b) {
            return true;
        }
        i = i + 1;
    }
    false
}

/// Among the first `ri` rows of a month table, one keyed `a` holds `b`.
pub open spec fn row_present_upto(t: Table<Table<Frac>>, ri: int, a: Seq<char>, b: Seq<char>) -> bool {
    exists|u: int|
        0 <= u < ri && u < t.entries@.len() && (#[trigger] t.entries@[u]).0@ == a && seq_get(
            t.entries@[u].1.entries@,
            b,
        ) is Some
}

/// Among the first `w` months, one holds the pair.
pub open spec fn present_prefix(
    ms: Seq<(i64, Table<Table<Frac>>)>,
    w: int,
    a: Seq<char>,
    b: Seq<char>,
) -> bool {
    exists|u: int|
        0 <= u < w && u < ms.len() && cooc_get((#[trigger] ms[u]).1, a, b) is Some
}

/// Collects every canonically ordered pair that any month holds, each
/// once.
#[verifier::rlimit(100)]
fn collect_candidate_pairs(months: &Vec<(i64, Table<Table<Frac>>)>) -> (r: Vec<(String, String)>)
    requires
        forall|w: int| 0 <= w < months@.len() ==> (#[trigger] months@[w]).1.wf(),
    ensures
        pairs_distinct(r@),
        forall|a: Seq<char>, b: Seq<char>|
            #[trigger] pair_in(r@, a, b) == (canonical_pair(a, b) && pair_present(months@, a, b)),
{
    let mut cands: Vec<(String, String)> = Vec::new();
    let mut w: usize = 0;
    while w < months.len()
        invariant
            w <= months@.len(),
            forall|u: int| 0 <= u < months@.len() ==> (#[trigger] months@[u]).1.wf(),
            pairs_distinct(cands@),
            forall|a: Seq<char>, b: Seq<char>|
                #[trigger] pair_in(cands@, a, b) == (canonical_pair(a, b) && present_prefix(
                    months@,
                    w as int,
                    a,
                    b,
                )),
        decreases months@.len() - w,
    {
        let tbl: &Table<Table<Frac>> = &months[w].1;
        let mut ri: usize = 0;
        while ri < tbl.entries.len()
            invariant
                ri <= tbl.entries@.len(),
                tbl.wf(),
                tbl == months@[w as int].1,
                w < months@.len(),
                pairs_distinct(cands@),
                forall|a: Seq<char>, b: Seq<char>|
                    #[trigger] pair_in(cands@, a, b) == (canonical_pair(a, b) && (present_prefix(
                        months@,
                        w as int,
                        a,
                        b,
                    ) || row_present_upto(*tbl, ri as int, a, b))),
            decreases tbl.entries@.len() - ri,
        {
            let a_name: &String = &tbl.entries[ri].0;
            let row: &Table<Frac> = &tbl.entries[ri].1;
            let mut ei: usize = 0;
            while ei < row.entries.len()
                invariant
                    ei <= row.entries@.len(),
                    tbl.wf(),
                    tbl == months@[w as int].1,
                    w < months@.len(),
                    ri < tbl.entries@.len(),
                    a_name == tbl.entries@[ri as int].0,
                    row == tbl.entries@[ri as int].1,
                    pairs_distinct(cands@),
                    forall|a: Seq<char>, b: Seq<char>|
                        #[trigger] pair_in(cands@, a, b) == (canonical_pair(a, b) && (
                        present_prefix(months@, w as int, a, b) || row_present_upto(
                            *tbl,
                            ri as int,
                            a,
                            b,
                        ) || (a_name@ == a && crate::cooccur::has_name_prefix(
                            row.entries@,
                            ei as int,
                            b,
                        )))),
                decreases row.entries@.len() - ei,
            {
                let ghost cands0 = cands@;
                let b_name: &String = &row.entries[ei].0;
                let is_canon: bool = !str_eq(a_name.as_str(), b_name.as_str()) && str_le(
                    a_name.as_str(),
                    b_name.as_str(),
                );
                proof {
                    assert(is_canon == canonical_pair(a_name@, b_name@));
                }
                if is_canon {
                    if !vec_has_pair(&cands, a_name.as_str(), b_name.as_str()) {
                        cands.push((a_name.clone(), b_name.clone()));
                        proof {
                            assert forall|p: int, q: int|
                                0 <= p < q < cands@.len() implies !((#[trigger] cands@[p]).0@ == (
                            #[trigger] cands@[q]).0@ && cands@[p].1@ == cands@[q].1@) by {
                                if q == cands@.len() - 1 {
                                    assert(cands@[p] == cands0[p]);
                                    if cands0[p].0@ == a_name@ && cands0[p].1@ == b_name@ {
                                        assert((#[trigger] cands0[p]).0@ == a_name@
                                            && cands0[p].1@ == b_name@);
                                        assert(pair_in(cands0, a_name@, b_name@));
                                    }
                                }
                            }
                        }
                    }
                }
                proof {
                    crate::table::lemma_seq_get_present(row.entries@, b_name@, ei as int);
                    assert forall|a: Seq<char>, b: Seq<char>|
                        #[trigger] pair_in(cands@, a, b) == (canonical_pair(a, b) && (
                        present_prefix(months@, w as int, a, b) || row_present_upto(
                            *tbl,
                            ri as int,
                            a,
                            b,
                        ) || (a_name@ == a && crate::cooccur::has_name_prefix(
                            row.entries@,
                            ei + 1,
                            b,
                        )))) by {
                        assert(crate::cooccur::has_name_prefix(row.entries@, ei + 1, b) == (
                        crate::cooccur::has_name_prefix(row.entries@, ei as int, b) || b
                            == row.entries@[ei as int].0@)) by {
                            if b == row.entries@[ei as int].0@ {
                                assert(crate::cooccur::has_name_prefix(row.entries@, ei + 1, b));
                            }
                        }
                        assert(pair_in(cands@, a, b) == (pair_in(cands0, a, b) || (is_canon && a
                            == a_name@ && b == b_name@))) by {
                            if pair_in(cands@, a, b) {
                                let u = choose|u: int|
                                    0 <= u < cands@.len() && (#[trigger] cands@[u]).0@ == a
                                        && cands@[u].1@ == b;
                                if u < cands0.len() {
                                    assert(pair_in(cands0, a, b));
                                }
                            }
                            if pair_in(cands0, a, b) {
                                let u = choose|u: int|
                                    0 <= u < cands0.len() && (#[trigger] cands0[u]).0@ == a
                                        && cands0[u].1@ == b;
                                assert(cands@[u].0@ == a && cands@[u].1@ == b);
                            }
                            if is_canon && a == a_name@ && b == b_name@ && !pair_in(cands0, a, b) {
                                assert(cands@[cands@.len() - 1].0@ == a
                                    && cands@[cands@.len() - 1].1@ == b);
                            }
                        }
                    }
                }
                ei = ei + 1;
            }
            proof {
                assert forall|a: Seq<char>, b: Seq<char>|
                    #[trigger] pair_in(cands@, a, b) == (canonical_pair(a, b) && (present_prefix(
                        months@,
                        w as int,
                        a,
                        b,
                    ) || row_present_upto(*tbl, ri + 1, a, b))) by {
                    assert(row_present_upto(*tbl, ri + 1, a, b) == (row_present_upto(
                        *tbl,
                        ri as int,
                        a,
                        b,
                    ) || (a_name@ == a && crate::cooccur::has_name_prefix(
                        row.entries@,
                        row.entries@.len() as int,
                        b,
                    )))) by {
                        if a_name@ == a && crate::cooccur::has_name_prefix(
                            row.entries@,
                            row.entries@.len() as int,
                            b,
                        ) {
                            let u = choose|u: int|
                                0 <= u < row.entries@.len() && (#[trigger] row.entries@[u]).0@
                                    == b;
                            crate::table::lemma_seq_get_present(row.entries@, b, u);
                            assert(row_present_upto(*tbl, ri + 1, a, b));
                        }
                        if row_present_upto(*tbl, ri + 1, a, b) {
                            let u = choose|u: int|
                                0 <= u < ri + 1 && u < tbl.entries@.len() && (
                                #[trigger] tbl.entries@[u]).0@ == a && seq_get(
                                    tbl.entries@[u].1.entries@,
                                    b,
                                ) is Some;
                            if u < ri {
                                assert(row_present_upto(*tbl, ri as int, a, b));
                            } else {
                                lemma_seq_get_witness(tbl.entries@[ri as int].1.entries@, b);
                                let v = choose|v: int|
                                    0 <= v < row.entries@.len() && row.entries@[v].0@ == b
                                        && seq_get(row.entries@, b) == Some(row.entries@[v].1);
                                assert((#[trigger] row.entries@[v]).0@ == b);
                                assert(crate::cooccur::has_name_prefix(
                                    row.entries@,
                                    row.entries@.len() as int,
                                    b,
                                ));
                            }
                        }
                    }
                }
            }
            ri = ri + 1;
        }
        proof {
            assert forall|a: Seq<char>, b: Seq<char>|
                #[trigger] pair_in(cands@, a, b) == (canonical_pair(a, b) && present_prefix(
                    months@,
                    w + 1,
                    a,
                    b,
                )) by {
                assert(present_prefix(months@, w + 1, a, b) == (present_prefix(
                    months@,
                    w as int,
                    a,
                    b,
                ) || row_present_upto(*tbl, tbl.entries@.len() as int, a, b))) by {
                    if row_present_upto(*tbl, tbl.entries@.len() as int, a, b) {
                        let u = choose|u: int|
                            0 <= u < tbl.entries@.len() && (#[trigger] tbl.entries@[u]).0@ == a
                                && seq_get(tbl.entries@[u].1.entries@, b) is Some;
                        lemma_seq_get_at(tbl.entries@, a, u);
                        assert(cooc_get(months@[w as int].1, a, b) is Some);
                        assert(present_prefix(months@, w + 1, a, b));
                    }
                    if present_prefix(months@, w + 1, a, b) {
                        let u = choose|u: int|
                            0 <= u < w + 1 && u < months@.len() && cooc_get(
                                (#[trigger] months@[u]).1,
                                a,
                                b,
                            ) is Some;
                        if u < w {
                            assert(present_prefix(months@, w as int, a, b));
                        } else {
                            lemma_seq_get_witness(tbl.entries@, a);
                            let v = choose|v: int|
                                0 <= v < tbl.entries@.len() && tbl.entries@[v].0@ == a && seq_get(
                                    tbl.entries@,
                                    a,
                                ) == Some(tbl.entries@[v].1);
                            assert(seq_get(tbl.entries@[v].1.entries@, b) is Some);
                            assert(row_present_upto(*tbl, tbl.entries@.len() as int, a, b));
                        }
                    }
                }
            }
        }
        w = w + 1;
    }
    proof {
        assert forall|a: Seq<char>, b: Seq<char>|
            #[trigger] pair_in(cands@, a, b) == (canonical_pair(a, b) && pair_present(
                months@,
                a,
                b,
            )) by {
            assert(present_prefix(months@, months@.len() as int, a, b) == pair_present(
                months@,
                a,
                b,
            ));
        }
    }
    cands
}

/// The pair's frequencies, month by month in list order.
fn collect_pair_freqs(months: &Vec<(i64, Table<Table<Frac>>)>, a: &str, b: &str) -> (r: Vec<Frac>)
    requires
        forall|w: int| 0 <= w < months@.len() ==> cooc_wf((#[trigger] months@[w]).1),
        months_bounded(months@, MAX_RECORDS as int),
    ensures
        r@ == spec_pair_freqs(months@, a@, b@),
        forall|i: int|
            0 <= i < r@.len() ==> 1 <= (#[trigger] r@[i]).den <= MAX_RECORDS && 0 <= r@[i].num
                <= r@[i].den,
{
    let mut freqs: Vec<Frac> = Vec::new();
    let mut m: usize = 0;
    while m < months.len()
        invariant
            m <= months@.len(),
            forall|w: int| 0 <= w < months@.len() ==> cooc_wf((#[trigger] months@[w]).1),
            months_bounded(months@, MAX_RECORDS as int),
            freqs@ == spec_pair_freqs(months@.take(m as int), a@, b@),
            forall|i: int|
                0 <= i < freqs@.len() ==> 1 <= (#[trigger] freqs@[i]).den <= MAX_RECORDS && 0
                    <= freqs@[i].num <= freqs@[i].den,
        decreases months@.len() - m,
    {
        let ghost f0 = freqs@;
        let tbl: &Table<Table<Frac>> = &months[m].1;
        match tbl.get(a) {
            Some(row) => {
                match row.get(b) {
                    Some(f) => {
                        freqs.push(*f);
                    },
                    None => {},
                }
            },
            None => {},
        }
        proof {
            assert(months@.take(m + 1).drop_last() =~= months@.take(m as int));
            assert(months@.take(m + 1).last() == months@[m as int]);
            match cooc_get(months@[m as int].1, a@, b@) {
                Some(f) => {
                    assert(freqs@ =~= f0 + seq![f]);
                    assert(freqs@ =~= spec_pair_freqs(months@.take(m + 1), a@, b@));
                },
                None => {
                    assert(freqs@ =~= spec_pair_freqs(months@.take(m + 1), a@, b@));
                },
            }
        }
        m = m + 1;
    }
    proof {
        assert(months@.take(months@.len() as int) =~= months@);
    }
    freqs
}

/// Finds the trending pairs of a chronological month list: every
/// canonically ordered pair observed in at least `min_months` months
/// whose trend magnitude exceeds one hundredth, with its exact trend,
/// sorted by descending trend.
#[verifier::rlimit(60)]
pub fn find_trending_pairs(months: &Vec<(i64, Table<Table<Frac>>)>, min_months: usize) -> (r: Vec<
    (String, String, Frac),
>)
    requires
        min_months >= 2,
        months@.len() <= MAX_RECORDS,
        forall|w: int| 0 <= w < months@.len() ==> cooc_wf((#[trigger] months@[w]).1),
        months_bounded(months@, MAX_RECORDS as int),
    ensures
        trends_sorted_desc(r@),
        trends_wf(r@),
        crate::order::trend_pairs_distinct(r@),
        forall|i: int|
            0 <= i < r@.len() ==> trend_entry_ok(months@, min_months as int, #[trigger] r@[i]),
        forall|a: Seq<char>, b: Seq<char>|
            canonical_pair(a, b) && spec_pair_freqs(months@, a, b).len() >= min_months
                && #[trigger] trend_significant(spec_trend(spec_pair_freqs(months@, a, b)))
                ==> trip_in(r@, a, b),
{
    let cands: Vec<(String, String)> = collect_candidate_pairs(months);
    let mut out: Vec<(String, String, Frac)> = Vec::new();
    let mut t: usize = 0;
    while t < cands.len()
        invariant
            t <= cands@.len(),
            min_months >= 2,
            months@.len() <= MAX_RECORDS,
            forall|w: int| 0 <= w < months@.len() ==> cooc_wf((#[trigger] months@[w]).1),
            months_bounded(months@, MAX_RECORDS as int),
            forall|a: Seq<char>, b: Seq<char>|
                #[trigger] pair_in(cands@, a, b) == (canonical_pair(a, b) && pair_present(
                    months@,
                    a,
                    b,
                )),
            pairs_distinct(cands@),
            crate::order::trend_pairs_distinct(out@),
            forall|i: int|
                0 <= i < out@.len() ==> exists|u: int|
                    0 <= u < t && (#[trigger] out@[i]).0@ == cands@[u].0@ && out@[i].1@
                        == cands@[u].1@,
            forall|i: int|
                0 <= i < out@.len() ==> trend_entry_ok(months@, min_months as int, #[trigger] out@[i]),
            forall|a: Seq<char>, b: Seq<char>|
                (#[trigger] pair_in(cands@.take(t as int), a, b) && spec_pair_freqs(
                    months@,
                    a,
                    b,
                ).len() >= min_months && trend_significant(
                    spec_trend(spec_pair_freqs(months@, a, b)),
                )) ==> trip_in(out@, a, b),
        decreases cands@.len() - t,
    {
        let ghost out0 = out@;
        let a: String = cands[t].0.clone();
        let b: String = cands[t].1.clone();
        let freqs: Vec<Frac> = collect_pair_freqs(months, a.as_str(), b.as_str());
        proof {
            lemma_pair_freqs_le_len(months@, a@, b@);
        }
        if freqs.len() >= min_months {
            let f0: Frac = freqs[0];
            let fl: Frac = freqs[freqs.len() - 1];
            proof {
                assert(1 <= f0.den <= MAX_RECORDS && 0 <= f0.num <= f0.den);
                assert(1 <= fl.den <= MAX_RECORDS && 0 <= fl.num <= fl.den);
                assert(fl.num * f0.den <= 0x100_0000_0000 && f0.num * fl.den <= 0x100_0000_0000)
                    by (nonlinear_arith)
                    requires
                        0 <= f0.num <= f0.den <= 0x10_0000,
                        0 <= fl.num <= fl.den <= 0x10_0000,
                ;
                assert(fl.num * f0.den >= 0 && f0.num * fl.den >= 0) by (nonlinear_arith)
                    requires
                        0 <= f0.num,
                        0 <= f0.den,
                        0 <= fl.num,
                        0 <= fl.den,
                ;
                assert(1 <= f0.den * fl.den <= 0x100_0000_0000) by (nonlinear_arith)
                    requires
                        1 <= f0.den <= 0x10_0000,
                        1 <= fl.den <= 0x10_0000,
                ;
                assert(1 <= f0.den * fl.den * (freqs@.len() - 1) <= 0x1000_0000_0000_0000)
                    by (nonlinear_arith)
                    requires
                        1 <= f0.den * fl.den <= 0x100_0000_0000,
                        1 <= freqs@.len() - 1 <= 0x10_0000,
                ;
            }
            let num: i64 = fl.num * f0.den - f0.num * fl.den;
            let den: i64 = f0.den * fl.den * ((freqs.len() - 1) as i64);
            let trend: Frac = Frac::new(num, den);
            proof {
                assert(trend == spec_trend(freqs@));
            }
            let magnitude: i64 = if num < 0 {
                -num
            } else {
                num
            };
            if magnitude * 100 > den {
                let ghost av = a@;
                let ghost bv = b@;
                out.push((a, b, trend));
                proof {
                    let e = out@[out@.len() - 1];
                    assert(e.0@ == av && e.1@ == bv && e.2 == trend);
                    assert(pair_in(cands@, av, bv)) by {
                        assert((#[trigger] cands@[t as int]).0@ == av && cands@[t as int].1@
                            == bv);
                    }
                    assert(canonical_pair(av, bv));
                    assert(trend == spec_trend(spec_pair_freqs(months@, av, bv)));
                    assert(trend_entry_ok(months@, min_months as int, e));
                    assert forall|p2: int, q2: int|
                        0 <= p2 < q2 < out@.len() implies !((#[trigger] out@[p2]).0@ == (
                    #[trigger] out@[q2]).0@ && out@[p2].1@ == out@[q2].1@) by {
                        if q2 == out@.len() - 1 {
                            assert(out@[p2] == out0[p2]);
                            let u0 = choose|u0: int|
                                0 <= u0 < t && (#[trigger] out0[p2]).0@ == cands@[u0].0@
                                    && out0[p2].1@ == cands@[u0].1@;
                            if out@[p2].0@ == av && out@[p2].1@ == bv {
                                assert((#[trigger] cands@[u0]).0@ == (
                                #[trigger] cands@[t as int]).0@ && cands@[u0].1@
                                    == cands@[t as int].1@);
                                assert(false);
                            }
                        }
                    }
                    assert forall|i2: int|
                        0 <= i2 < out@.len() implies exists|u2: int|
                        0 <= u2 < t + 1 && (#[trigger] out@[i2]).0@ == cands@[u2].0@
                            && out@[i2].1@ == cands@[u2].1@ by {
                        if i2 == out@.len() - 1 {
                            assert((#[trigger] out@[i2]).0@ == cands@[t as int].0@
                                && out@[i2].1@ == cands@[t as int].1@);
                        } else {
                            assert(out@[i2] == out0[i2]);
                            let u0 = choose|u0: int|
                                0 <= u0 < t && (#[trigger] out0[i2]).0@ == cands@[u0].0@
                                    && out0[i2].1@ == cands@[u0].1@;
                            assert((#[trigger] out@[i2]).0@ == cands@[u0].0@ && out@[i2].1@
                                == cands@[u0].1@);
                        }
                    }
                }
            }
        }
        proof {
            assert(cands@.take(t + 1) =~= cands@.take(t as int).push(cands@[t as int]));
            assert forall|a2: Seq<char>, b2: Seq<char>|
                (#[trigger] pair_in(cands@.take(t + 1), a2, b2) && spec_pair_freqs(
                    months@,
                    a2,
                    b2,
                ).len() >= min_months && trend_significant(
                    spec_trend(spec_pair_freqs(months@, a2, b2)),
                )) implies trip_in(out@, a2, b2) by {
                let u = choose|u: int|
                    0 <= u < cands@.take(t + 1).len() && (#[trigger] cands@.take(t + 1)[u]).0@
                        == a2 && cands@.take(t + 1)[u].1@ == b2;
                if u < t {
                    assert(pair_in(cands@.take(t as int), a2, b2));
                    assert(trip_in(out0, a2, b2));
                    let v = choose|v: int|
                        0 <= v < out0.len() && (#[trigger] out0[v]).0@ == a2 && out0[v].1@ == b2;
                    assert((#[trigger] out@[v]).0@ == a2 && out@[v].1@ == b2);
                } else {
                    assert(a2 == a@ && b2 == b@);
                    assert(out@[out@.len() - 1].0@ == a2 && out@[out@.len() - 1].1@ == b2);
                }
            }
            assert forall|i: int|
                0 <= i < out@.len() implies trend_entry_ok(
                    months@,
                    min_months as int,
                    #[trigger] out@[i],
                ) by {
                if i < out0.len() {
                    assert(out@[i] == out0[i]);
                }
            }
        }
        t = t + 1;
    }
    let sorted: Vec<(String, String, Frac)> = sort_trends(&out);
    proof {
        crate::order::lemma_multiset_elements(sorted@, out@);
        assert(cands@.take(cands@.len() as int) =~= cands@);
        assert forall|i: int|
            0 <= i < sorted@.len() implies trend_entry_ok(
                months@,
                min_months as int,
                #[trigger] sorted@[i],
            ) by {
            assert(out@.contains(sorted@[i]));
            let j = choose|j: int| 0 <= j < out@.len() && out@[j] == sorted@[i];
            assert(trend_entry_ok(months@, min_months as int, out@[j]));
        }
        assert forall|a: Seq<char>, b: Seq<char>|
            canonical_pair(a, b) && spec_pair_freqs(months@, a, b).len() >= min_months
                && #[trigger] trend_significant(spec_trend(spec_pair_freqs(months@, a, b)))
                implies trip_in(sorted@, a, b) by {
            lemma_freqs_nonempty_present(months@, a, b);
            assert(pair_in(cands@, a, b));
            assert(trip_in(out@, a, b));
            let v = choose|v: int|
                0 <= v < out@.len() && (#[trigger] out@[v]).0@ == a && out@[v].1@ == b;
            assert(sorted@.contains(out@[v]));
            let u = choose|u: int| 0 <= u < sorted@.len() && sorted@[u] == out@[v];
            assert((#[trigger] sorted@[u]).0@ == a && sorted@[u].1@ == b);
        }
    }
    sorted
}

/// Per-month counts respect their inclusions and the number of decks.
pub proof fn lemma_month_count_bounds(decks: Seq<DeckRecord>, k: int, a: Seq<char>, b: Seq<char>)
    ensures
        month_both(decks, k, a, b) <= month_with(decks, k, a),
        month_with(decks, k, a) <= month_decks(decks, k),
        month_with(decks, k, b) <= month_decks(decks, k),
        month_decks(decks, k) <= decks.len(),
    decreases decks.len(),
{
    if decks.len() > 0 {
        lemma_month_count_bounds(decks.drop_last(), k, a, b);
    }
}

/// The temporal trend signal: co-occurrence tables for the retained
/// months in chronological order, and the trending pairs sorted by
/// descending trend.
pub struct TemporalSignal {
    /// Month key, then card, then co-occurring card, to frequency.
    pub months: Vec<(i64, Table<Table<Frac>>)>,
    /// Trending pairs `(card, card, trend)`, canonically ordered pairs,
    /// sorted by trend descending.
    pub trending: Vec<(String, String, Frac)>,
}

impl TemporalSignal {
    /// Months strictly chronological with well-formed bounded tables;
    /// trending entries well-formed, bounded and sorted.
    pub open spec fn wf(self) -> bool {
        &&& forall|p: int, q: int|
            0 <= p < q < self.months@.len() ==> (#[trigger] self.months@[p]).0 < (
            #[trigger] self.months@[q]).0
        &&& forall|w: int| 0 <= w < self.months@.len() ==> cooc_wf((#[trigger] self.months@[w]).1)
        &&& months_bounded(self.months@, MAX_RECORDS as int)
        &&& trends_sorted_desc(self.trending@)
        &&& trends_wf(self.trending@)
        &&& crate::order::trend_pairs_distinct(self.trending@)
        &&& forall|i: int|
            0 <= i < self.trending@.len() ==> 1 <= (#[trigger] self.trending@[i]).2.den
                <= 0x1000_0000_0000_0000
    }

    /// The recency-weighted similarity the signal answers: the weighted
    /// mean of the pair's frequencies in the up-to-three most recent
    /// months that contain the pair, the most recent weighted highest.
    pub open spec fn spec_similarity(self, q: Seq<char>, c: Seq<char>) -> Frac {
        spec_weighted_recent(spec_pair_freqs(self.months@, q, c))
    }

    /// Temporal similarity of `candidate` to `query`; zero when the pair
    /// never co-occurs, never an error.
    pub fn similarity(&self, query: &str, candidate: &str) -> (r: Frac)
        requires
            self.wf(),
        ensures
            r == self.spec_similarity(query@, candidate@),
            r.wf(),
            r.is_unit(),
    {
        let freqs: Vec<Frac> = collect_pair_freqs(&self.months, query, candidate);
        weighted_recent(&freqs)
    }

    /// The trending boost the signal answers for an unordered pair: one
    /// fifth of the first matching trend, zero when the pair trends in
    /// neither orientation.
    pub open spec fn spec_trending_boost(self, c1: Seq<char>, c2: Seq<char>) -> Frac {
        spec_boost_lookup(self.trending@, c1, c2)
    }

    /// Trending boost for a pair of cards, in either order.
    pub fn trending_boost(&self, card1: &str, card2: &str) -> (r: Frac)
        requires
            self.wf(),
        ensures
            r == self.spec_trending_boost(card1@, card2@),
            r.wf(),
    {
        let mut i: usize = 0;
        while i < self.trending.len()
            invariant
                i <= self.trending@.len(),
                self.wf(),
                forall|j: int|
                    0 <= j < i ==> !boost_matches(#[trigger] self.trending@[j], card1@, card2@),
            decreases self.trending@.len() - i,
        {
            let e: &(String, String, Frac) = &self.trending[i];
            let hit: bool = (str_eq(e.0.as_str(), card1) && str_eq(e.1.as_str(), card2)) || (
            str_eq(e.0.as_str(), card2) && str_eq(e.1.as_str(), card1));
            if hit {
                proof {
                    lemma_boost_at(self.trending@, card1@, card2@, i as int);
                }
                return Frac::new(e.2.num, e.2.den * 5);
            }
            i = i + 1;
        }
        proof {
            lemma_boost_missing(self.trending@, card1@, card2@);
        }
        Frac::zero()
    }
}

/// The entry names the unordered pair in one of its two orientations.
pub open spec fn boost_matches(e: (String, String, Frac), c1: Seq<char>, c2: Seq<char>) -> bool {
    (e.0@ == c1 && e.1@ == c2) || (e.0@ == c2 && e.1@ == c1)
}

/// The boost the trending list answers: one fifth of the first matching
/// entry's trend, else zero.
pub open spec fn spec_boost_lookup(
    s: Seq<(String, String, Frac)>,
    c1: Seq<char>,
    c2: Seq<char>,
) -> Frac
    decreases s.len(),
{
    if s.len() == 0 {
        Frac { num: 0, den: 1 }
    } else if boost_matches(s[0], c1, c2) {
        Frac { num: s[0].2.num, den: (s[0].2.den * 5) as i64 }
    } else {
        spec_boost_lookup(s.skip(1), c1, c2)
    }
}

/// The first matching index decides the boost.
proof fn lemma_boost_at(s: Seq<(String, String, Frac)>, c1: Seq<char>, c2: Seq<char>, i: int)
    requires
        0 <= i < s.len(),
        boost_matches(s[i], c1, c2),
        forall|j: int| 0 <= j < i ==> !boost_matches(#[trigger] s[j], c1, c2),
    ensures
        spec_boost_lookup(s, c1, c2) == (Frac { num: s[i].2.num, den: (s[i].2.den * 5) as i64 }),
    decreases i,
{
    if i > 0 {
        lemma_boost_at(s.skip(1), c1, c2, i - 1);
    }
}

/// Without a matching entry the boost is zero.
proof fn lemma_boost_missing(s: Seq<(String, String, Frac)>, c1: Seq<char>, c2: Seq<char>)
    requires
        forall|j: int| 0 <= j < s.len() ==> !boost_matches(#[trigger] s[j], c1, c2),
    ensures
        spec_boost_lookup(s, c1, c2) == (Frac { num: 0, den: 1 }),
    decreases s.len(),
{
    if s.len() > 0 {
        lemma_boost_missing(s.skip(1), c1, c2);
    }
}

/// The recency-weighted mean of an observed frequency sequence: the last
/// up to three observations weighted 1, 2, 3 with the newest highest;
/// zero when there is none.
pub open spec fn spec_weighted_recent(fs: Seq<Frac>) -> Frac {
    if fs.len() == 0 {
        Frac { num: 0, den: 1 }
    } else if fs.len() == 1 {
        fs[0]
    } else if fs.len() == 2 {
        Frac {
            num: (fs[fs.len() - 2].num * fs[fs.len() - 1].den + 2 * (fs[fs.len() - 1].num * fs[
                fs.len() - 2
            ].den)) as i64,
            den: (3 * (fs[fs.len() - 2].den * fs[fs.len() - 1].den)) as i64,
        }
    } else {
        Frac {
            num: (fs[fs.len() - 3].num * (fs[fs.len() - 2].den * fs[fs.len() - 1].den) + 2 * (fs[
                fs.len() - 2
            ].num * (fs[fs.len() - 3].den * fs[fs.len() - 1].den)) + 3 * (fs[fs.len() - 1].num * (
            fs[fs.len() - 3].den * fs[fs.len() - 2].den))) as i64,
            den: (6 * (fs[fs.len() - 3].den * (fs[fs.len() - 2].den * fs[fs.len() - 1].den)))
                as i64,
        }
    }
}

/// Computes the recency-weighted mean of bounded unit fractions.
fn weighted_recent(fs: &Vec<Frac>) -> (r: Frac)
    requires
        forall|i: int|
            0 <= i < fs@.len() ==> 1 <= (#[trigger] fs@[i]).den <= MAX_RECORDS && 0 <= fs@[i].num
                <= fs@[i].den,
    ensures
        r == spec_weighted_recent(fs@),
        r.wf(),
        r.is_unit(),
{
    let n: usize = fs.len();
    if n == 0 {
        Frac::zero()
    } else if n == 1 {
        let f: Frac = fs[0];
        f
    } else if n == 2 {
        let o: Frac = fs[n - 2];
        let w: Frac = fs[n - 1];
        proof {
            assert(1 <= o.den <= MAX_RECORDS && 0 <= o.num <= o.den);
            assert(1 <= w.den <= MAX_RECORDS && 0 <= w.num <= w.den);
            assert(1 <= o.den * w.den <= 0x100_0000_0000) by (nonlinear_arith)
                requires
                    1 <= o.den <= 0x10_0000,
                    1 <= w.den <= 0x10_0000,
            ;
            assert(0 <= o.num * w.den <= o.den * w.den) by (nonlinear_arith)
                requires
                    0 <= o.num <= o.den,
                    0 <= w.den,
            ;
            assert(0 <= w.num * o.den <= o.den * w.den) by (nonlinear_arith)
                requires
                    0 <= w.num <= w.den,
                    0 <= o.den,
                    0 <= w.den,
            ;
        }
        let t1: i64 = o.num * w.den;
        let t2: i64 = w.num * o.den;
        let prod: i64 = o.den * w.den;
        Frac::new(t1 + 2 * t2, 3 * prod)
        } else {
        let o: Frac = fs[n - 3];
        let m: Frac = fs[n - 2];
        let w: Frac = fs[n - 1];
        proof {
            assert(1 <= o.den <= MAX_RECORDS && 0 <= o.num <= o.den);
            assert(1 <= m.den <= MAX_RECORDS && 0 <= m.num <= m.den);
            assert(1 <= w.den <= MAX_RECORDS && 0 <= w.num <= w.den);
            assert(1 <= m.den * w.den <= 0x100_0000_0000 && 1 <= o.den * w.den
                <= 0x100_0000_0000 && 1 <= o.den * m.den <= 0x100_0000_0000) by (nonlinear_arith)
                requires
                    1 <= o.den <= 0x10_0000,
                    1 <= m.den <= 0x10_0000,
                    1 <= w.den <= 0x10_0000,
            ;
            assert(1 <= o.den * (m.den * w.den) <= 0x1000_0000_0000_0000) by (nonlinear_arith)
                requires
                    1 <= o.den <= 0x10_0000,
                    1 <= m.den * w.den <= 0x100_0000_0000,
            ;
            assert(0 <= o.num * (m.den * w.den) <= o.den * (m.den * w.den)) by (nonlinear_arith)
                requires
                    0 <= o.num <= o.den,
                    0 <= m.den * w.den,
            ;
            assert(0 <= m.num * (o.den * w.den) <= o.den * (m.den * w.den)) by (nonlinear_arith)
                requires
                    0 <= m.num <= m.den,
                    0 <= o.den,
                    0 <= w.den,
            ;
            assert(0 <= w.num * (o.den * m.den) <= o.den * (m.den * w.den)) by (nonlinear_arith)
                requires
                    0 <= w.num <= w.den,
                    0 <= o.den,
                    0 <= m.den,
            ;
        }
        let dmw: i64 = m.den * w.den;
        let dow: i64 = o.den * w.den;
        let dom: i64 = o.den * m.den;
        let t1: i64 = o.num * dmw;
        let t2: i64 = m.num * dow;
        let t3: i64 = w.num * dom;
        let den3: i64 = o.den * dmw;
        Frac::new(t1 + 2 * t2 + 3 * t3, 6 * den3)
    }
}

/// Builds the temporal signal: buckets decks into months, keeps the
/// months with enough decks, computes each retained month's table over
/// the combined card sets, and detects trending pairs over at least
/// [`TREND_MIN_MONTHS`] distinct months.
#[verifier::rlimit(100)]
pub fn compute_temporal_signal(
    decks: &Vec<DeckRecord>,
    min_decks_per_month: usize,
    policy: RecordPolicy,
) -> (r: Result<TemporalSignal, TemporalError>)
    requires
        decks@.len() <= MAX_RECORDS,
    ensures
        match r {
            Ok(t) => {
                &&& t.wf()
                &&& forall|k: int, a: Seq<char>, b: Seq<char>|
                    #[trigger] monthly_get(t.months@, k, a, b) == (if month_decks(decks@, k)
                        >= min_decks_per_month {
                        spec_temporal_entry(decks@, k, a, b)
                    } else {
                        None
                    })
                &&& forall|k: int|
                    #[trigger] month_in(t.months@, k) == (month_decks(decks@, k) >= 1
                        && month_decks(decks@, k) >= min_decks_per_month)
                &&& forall|i: int|
                    0 <= i < t.trending@.len() ==> trend_entry_ok(
                        t.months@,
                        TREND_MIN_MONTHS as int,
                        #[trigger] t.trending@[i],
                    )
                &&& forall|a: Seq<char>, b: Seq<char>|
                    canonical_pair(a, b) && spec_pair_freqs(t.months@, a, b).len()
                        >= TREND_MIN_MONTHS && #[trigger] trend_significant(
                        spec_trend(spec_pair_freqs(t.months@, a, b)),
                    ) ==> trip_in(t.trending@, a, b)
                &&& policy == RecordPolicy::AbortOnMalformed ==> forall|j: int|
                    0 <= j < decks@.len() ==> (#[trigger] spec_deck_month_key(decks@[j])) is Some
            },
            Err(e) => {
                &&& policy == RecordPolicy::AbortOnMalformed
                &&& e.deck_index < decks@.len()
                &&& spec_deck_month_key(decks@[e.deck_index as int]) is None
                &&& forall|j: int|
                    0 <= j < e.deck_index ==> (#[trigger] spec_deck_month_key(decks@[j])) is Some
            },
        },
{
    let keys: Vec<i64> = match collect_month_keys(decks, policy) {
        Ok(v) => v,
        Err(e) => {
            return Err(e);
        },
    };
    let skeys: Vec<i64> = sort_keys(&keys);
    let mut months: Vec<(i64, Table<Table<Frac>>)> = Vec::new();
    let mut w: usize = 0;
    while w < skeys.len()
        invariant
            w <= skeys@.len(),
            decks@.len() <= MAX_RECORDS,
            skeys@.len() <= decks@.len(),
            forall|p: int, q: int| 0 <= p < q < skeys@.len() ==> skeys@[p] < skeys@[q],
            forall|k: int| #[trigger] key_in(skeys@, k) == (month_decks(decks@, k) >= 1),
            months@.len() <= w,
            forall|p: int, q: int|
                0 <= p < q < months@.len() ==> (#[trigger] months@[p]).0 < (
                #[trigger] months@[q]).0,
            forall|p: int|
                0 <= p < months@.len() ==> key_in(
                    skeys@.take(w as int),
                    (#[trigger] months@[p]).0 as int,
                ),
            forall|u: int| 0 <= u < months@.len() ==> cooc_wf((#[trigger] months@[u]).1),
            months_bounded(months@, MAX_RECORDS as int),
            forall|k: int|
                #[trigger] month_in(months@, k) == (key_in(skeys@.take(w as int), k)
                    && month_decks(decks@, k) >= min_decks_per_month),
            forall|k: int, a: Seq<char>, b: Seq<char>|
                #[trigger] monthly_get(months@, k, a, b) == (if key_in(skeys@.take(w as int), k)
                    && month_decks(decks@, k) >= min_decks_per_month {
                    spec_temporal_entry(decks@, k, a, b)
                } else {
                    None
                }),
        decreases skeys@.len() - w,
    {
        let ghost months0 = months@;
        let k: i64 = skeys[w];
        proof {
            assert(key_in(skeys@, k as int)) by {
                assert(skeys@[w as int] == k);
            }
            assert(month_decks(decks@, k as int) >= 1);
            assert(!key_in(skeys@.take(w as int), k as int)) by {
                if key_in(skeys@.take(w as int), k as int) {
                    let u = choose|u: int|
                        0 <= u < w && #[trigger] skeys@.take(w as int)[u] == k as int;
                    assert(skeys@[u] < skeys@[w as int]);
                }
            }
            assert(!month_in(months@, k as int));
        }
        let lists: Vec<Vec<String>> = month_lists(decks, k);
        proof {
            lemma_month_count_bounds(decks@, k as int, Seq::<char>::empty(), Seq::<char>::empty());
            assert(lists@.len() <= MAX_RECORDS);
        }
        let retained: bool = lists.len() >= min_decks_per_month;
        if retained {
            proof {
                assert(forall|n: Seq<char>|
                    #[trigger] lists_with(lists@, n) <= lists_with(lists@, n));
            }
            let tbl: Table<Table<Frac>> = freq_table(&lists, &lists, TEMPORAL_MIN_CARD_COUNT);
            proof {
                assert forall|a: Seq<char>, b: Seq<char>|
                    #[trigger] cooc_get(tbl, a, b) == spec_temporal_entry(
                        decks@,
                        k as int,
                        a,
                        b,
                    ) by {
                    assert(cooc_get(tbl, a, b) == crate::cooccur::spec_freq_entry(
                        lists@,
                        lists@,
                        TEMPORAL_MIN_CARD_COUNT as int,
                        a,
                        b,
                    ));
                    assert(lists_with(lists@, a) == month_with(decks@, k as int, a));
                    assert(lists_with(lists@, b) == month_with(decks@, k as int, b));
                    assert(lists_with_both(lists@, a, b) == month_both(decks@, k as int, a, b));
                }
            }
            months.push((k, tbl));
            proof {
                assert forall|p: int, q: int|
                    0 <= p < q < months@.len() implies (#[trigger] months@[p]).0 < (
                #[trigger] months@[q]).0 by {
                    if q == months@.len() - 1 {
                        assert(months@[p] == months0[p]);
                        assert(key_in(skeys@.take(w as int), months0[p].0 as int));
                        let u = choose|u: int|
                            0 <= u < w && #[trigger] skeys@.take(w as int)[u] == months0[p].0
                                as int;
                        assert(skeys@[u] < skeys@[w as int]);
                    } else {
                        assert(months@[p] == months0[p] && months@[q] == months0[q]);
                    }
                }
                assert forall|a: Seq<char>, b: Seq<char>|
                    #[trigger] cooc_get(months@[months@.len() - 1].1, a, b) == (
                match cooc_get(months@[months@.len() - 1].1, a, b) {
                    Some(f) => Some(f),
                    None => None,
                }) by {}
                assert forall|u: int, a: Seq<char>, b: Seq<char>|
                    0 <= u < months@.len() implies match #[trigger] cooc_get(
                    months@[u].1,
                    a,
                    b,
                ) {
                    Some(f) => 1 <= f.den <= MAX_RECORDS && 0 <= f.num <= f.den,
                    None => true,
                } by {
                    if u < months0.len() {
                        assert(months@[u] == months0[u]);
                        assert(match cooc_get(months0[u].1, a, b) {
                            Some(f) => 1 <= f.den <= MAX_RECORDS && 0 <= f.num <= f.den,
                            None => true,
                        });
                    } else {
                        lemma_month_count_bounds(decks@, k as int, a, b);
                        assert(cooc_get(months@[u].1, a, b) == spec_temporal_entry(
                            decks@,
                            k as int,
                            a,
                            b,
                        ));
                    }
                }
            }
        }
        proof {
            assert(skeys@.take(w + 1) =~= skeys@.take(w as int).push(skeys@[w as int]));
            assert forall|k2: int|
                #[trigger] key_in(skeys@.take(w + 1), k2) == (key_in(skeys@.take(w as int), k2)
                    || k2 == k as int) by {
                if key_in(skeys@.take(w as int), k2) {
                    let u = choose|u: int|
                        0 <= u < w && #[trigger] skeys@.take(w as int)[u] == k2;
                    assert(skeys@.take(w + 1)[u] == k2);
                }
                if k2 == k as int {
                    assert(skeys@.take(w + 1)[w as int] == k2);
                }
                if key_in(skeys@.take(w + 1), k2) {
                    let u = choose|u: int| 0 <= u < w + 1 && #[trigger] skeys@.take(w + 1)[u] == k2;
                    if u < w {
                        assert(skeys@.take(w as int)[u] == k2);
                    }
                }
            }
            assert forall|k2: int|
                #[trigger] month_in(months@, k2) == (key_in(skeys@.take(w + 1), k2)
                    && month_decks(decks@, k2) >= min_decks_per_month) by {
                if retained {
                    assert(month_in(months@, k2) == (month_in(months0, k2) || k2 == k as int))
                        by {
                        if month_in(months@, k2) {
                            let u = choose|u: int|
                                0 <= u < months@.len() && (#[trigger] months@[u]).0 == k2;
                            if u < months0.len() {
                                assert(months0[u].0 == k2);
                            }
                        }
                        if month_in(months0, k2) {
                            let u = choose|u: int|
                                0 <= u < months0.len() && (#[trigger] months0[u]).0 == k2;
                            assert(months@[u].0 == k2);
                        }
                        if k2 == k as int {
                            assert(months@[months@.len() - 1].0 == k2);
                        }
                    }
                    assert(month_decks(decks@, k as int) == lists@.len());
                } else {
                    assert(month_decks(decks@, k as int) == lists@.len());
                }
            }
            assert forall|k2: int, a: Seq<char>, b: Seq<char>|
                #[trigger] monthly_get(months@, k2, a, b) == (if key_in(skeys@.take(w + 1), k2)
                    && month_decks(decks@, k2) >= min_decks_per_month {
                    spec_temporal_entry(decks@, k2, a, b)
                } else {
                    None
                }) by {
                if retained {
                    lemma_monthly_get_push(
                        months0,
                        (k, months@[months@.len() - 1].1),
                        k2,
                        a,
                        b,
                    );
                    assert(months@ == months0.push((k, months@[months@.len() - 1].1)));
                    assert(month_decks(decks@, k as int) == lists@.len());
                } else {
                    assert(month_decks(decks@, k as int) == lists@.len());
                    if k2 == k as int {
                        assert(!month_in(months@, k2));
                        lemma_monthly_get_absent(months@, k2, a, b);
                    }
                }
            }
        }
        w = w + 1;
    }
    proof {
        assert(skeys@.take(skeys@.len() as int) =~= skeys@);
        assert forall|k: int, a: Seq<char>, b: Seq<char>|
            #[trigger] monthly_get(months@, k, a, b) == (if month_decks(decks@, k)
                >= min_decks_per_month {
                spec_temporal_entry(decks@, k, a, b)
            } else {
                None
            }) by {
            if !key_in(skeys@, k) {
                assert(month_decks(decks@, k) == 0);
                lemma_month_count_bounds(decks@, k, a, b);
                if month_decks(decks@, k) >= min_decks_per_month {
                    assert(month_with(decks@, k, a) == 0);
                    assert(spec_temporal_entry(decks@, k, a, b) is None);
                }
            }
        }
    }
    let trending: Vec<(String, String, Frac)> = find_trending_pairs(&months, TREND_MIN_MONTHS);
    proof {
        assert forall|i: int|
            0 <= i < trending@.len() implies 1 <= (#[trigger] trending@[i]).2.den
                <= 0x1000_0000_0000_0000 by {
            assert(trend_entry_ok(months@, TREND_MIN_MONTHS as int, trending@[i]));
        }
    }
    Ok(TemporalSignal { months, trending })
}

} // verus!
