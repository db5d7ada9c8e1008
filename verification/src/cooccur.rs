//! Co-occurrence counting over card lists.
//!
//! Both signal builders reduce a deck scan to the same combinatorial core:
//! given one duplicate-free card list per deck, count in how many lists a
//! card appears and in how many lists two cards appear together, then turn
//! the counts into per-card-normalized frequencies. The normalization is
//! deliberately asymmetric: the frequency of `(a, b)` divides by `a`'s own
//! appearance count, so it need not equal that of `(b, a)`.

use vstd::prelude::*;

use crate::frac::Frac;
use crate::strings::str_eq;
use crate::table::{has_name, lemma_seq_get_at, lemma_seq_get_witness, names_nodup, push_unique,
    vec_has_name, Table};

verus! {

/// Largest number of card lists a builder accepts in one scan; keeps every
/// count inside `i64` frequencies and every product inside the rational
/// comparisons.
pub const MAX_RECORDS: usize = 0x10_0000;

/// Every list is free of duplicate names.
pub open spec fn lists_nodup(ls: Seq<Vec<String>>) -> bool {
    forall|i: int| 0 <= i < ls.len() ==> names_nodup((#[trigger] ls[i])@)
}

/// In how many lists the name appears.
pub open spec fn lists_with(ls: Seq<Vec<String>>, n: Seq<char>) -> nat
    decreases ls.len(),
{
    if ls.len() == 0 {
        0
    } else {
        lists_with(ls.drop_last(), n) + (if has_name(ls.last()@, n) {
            1nat
        } else {
            0nat
        })
    }
}

/// In how many lists both names appear.
pub open spec fn lists_with_both(ls: Seq<Vec<String>>, a: Seq<char>, b: Seq<char>) -> nat
    decreases ls.len(),
{
    if ls.len() == 0 {
        0
    } else {
        lists_with_both(ls.drop_last(), a, b) + (if has_name(ls.last()@, a) && has_name(
            ls.last()@,
            b,
        ) {
            1nat
        } else {
            0nat
        })
    }
}

/// Appearance counts never exceed the number of lists.
pub proof fn lemma_lists_with_le_len(ls: Seq<Vec<String>>, n: Seq<char>)
    ensures
        lists_with(ls, n) <= ls.len(),
    decreases ls.len(),
{
    if ls.len() > 0 {
        lemma_lists_with_le_len(ls.drop_last(), n);
    }
}

/// A pair appears at most as often as its first card.
pub proof fn lemma_pair_le_single(ls: Seq<Vec<String>>, a: Seq<char>, b: Seq<char>)
    ensures
        lists_with_both(ls, a, b) <= lists_with(ls, a),
    decreases ls.len(),
{
    if ls.len() > 0 {
        lemma_pair_le_single(ls.drop_last(), a, b);
    }
}

/// Counts in how many lists each name appears.
pub fn count_singles(lists: &Vec<Vec<String>>) -> (r: Table<u64>)
    requires
        lists_nodup(lists@),
        lists@.len() <= MAX_RECORDS,
    ensures
        r.wf(),
        forall|n: Seq<char>| #[trigger] r.count_of(n) == lists_with(lists@, n),
        forall|n: Seq<char>| #[trigger] r.contains_key(n) == (lists_with(lists@, n) >= 1),
{
    let mut r: Table<u64> = Table::new();
    let mut i: usize = 0;
    while i < lists.len()
        invariant
            i <= lists@.len(),
            lists@.len() <= MAX_RECORDS,
            lists_nodup(lists@),
            r.wf(),
            forall|n: Seq<char>| #[trigger] r.count_of(n) == lists_with(lists@.take(i as int), n),
            forall|n: Seq<char>|
                #[trigger] r.contains_key(n) == (lists_with(lists@.take(i as int), n) >= 1),
            forall|n: Seq<char>| #[trigger] r.count_of(n) <= i,
        decreases lists@.len() - i,
    {
        let ghost before = r;
        r.bump_all(&lists[i]);
        proof {
            assert(lists@.take(i + 1).drop_last() =~= lists@.take(i as int));
            assert(lists@.take(i + 1).last() == lists@[i as int]);
            assert forall|n: Seq<char>| #[trigger] r.count_of(n) == lists_with(
                lists@.take(i + 1),
                n,
            ) by {
                assert(before.count_of(n) == lists_with(lists@.take(i as int), n));
            }
            assert forall|n: Seq<char>| #[trigger] r.contains_key(n) == (lists_with(
                lists@.take(i + 1),
                n,
            ) >= 1) by {
                assert(before.contains_key(n) == (lists_with(lists@.take(i as int), n) >= 1));
            }
        }
        i = i + 1;
    }
    proof {
        assert(lists@.take(lists@.len() as int) =~= lists@);
    }
    r
}

/// The list with one name taken out.
pub fn retain_except(list: &Vec<String>, a: &str) -> (r: Vec<String>)
    requires
        names_nodup(list@),
    ensures
        names_nodup(r@),
        forall|n: Seq<char>| #[trigger] has_name(r@, n) == (has_name(list@, n) && n != a@),
{
    let mut r: Vec<String> = Vec::new();
    let mut i: usize = 0;
    while i < list.len()
        invariant
            i <= list@.len(),
            names_nodup(list@),
            names_nodup(r@),
            forall|n: Seq<char>|
                #[trigger] has_name(r@, n) == (has_name(list@.take(i as int), n) && n != a@),
        decreases list@.len() - i,
    {
        let ghost before = r@;
        if !str_eq(list[i].as_str(), a) {
            push_unique(&mut r, list[i].as_str());
        }
        proof {
            assert forall|n: Seq<char>| #[trigger] has_name(r@, n) == (has_name(
                list@.take(i + 1),
                n,
            ) && n != a@) by {
                assert(has_name(list@.take(i + 1), n) == (has_name(list@.take(i as int), n) || n
                    == list@[i as int]@)) by {
                    if has_name(list@.take(i as int), n) {
                        let w = choose|w: int|
                            0 <= w < i && #[trigger] list@.take(i as int)[w]@ == n;
                        assert(list@.take(i + 1)[w]@ == n);
                    }
                    if n == list@[i as int]@ {
                        assert(list@.take(i + 1)[i as int]@ == n);
                    }
                    if has_name(list@.take(i + 1), n) {
                        let w = choose|w: int|
                            0 <= w < i + 1 && #[trigger] list@.take(i + 1)[w]@ == n;
                        if w < i {
                            assert(list@.take(i as int)[w]@ == n);
                        }
                    }
                }
            }
        }
        i = i + 1;
    }
    proof {
        assert(list@.take(list@.len() as int) =~= list@);
    }
    r
}

/// The names of the first list that also stand in the second.
pub fn retain_in(list: &Vec<String>, other: &Vec<String>) -> (r: Vec<String>)
    requires
        names_nodup(list@),
    ensures
        names_nodup(r@),
        forall|n: Seq<char>|
            #[trigger] has_name(r@, n) == (has_name(list@, n) && has_name(other@, n)),
{
    let mut r: Vec<String> = Vec::new();
    let mut i: usize = 0;
    while i < list.len()
        invariant
            i <= list@.len(),
            names_nodup(list@),
            names_nodup(r@),
            forall|n: Seq<char>|
                #[trigger] has_name(r@, n) == (has_name(list@.take(i as int), n) && has_name(
                    other@,
                    n,
                )),
        decreases list@.len() - i,
    {
        let ghost before = r@;
        if vec_has_name(other, list[i].as_str()) {
            push_unique(&mut r, list[i].as_str());
        }
        proof {
            assert forall|n: Seq<char>| #[trigger] has_name(r@, n) == (has_name(
                list@.take(i + 1),
                n,
            ) && has_name(other@, n)) by {
                assert(has_name(list@.take(i + 1), n) == (has_name(list@.take(i as int), n) || n
                    == list@[i as int]@)) by {
                    if has_name(list@.take(i as int), n) {
                        let w = choose|w: int|
                            0 <= w < i && #[trigger] list@.take(i as int)[w]@ == n;
                        assert(list@.take(i + 1)[w]@ == n);
                    }
                    if n == list@[i as int]@ {
                        assert(list@.take(i + 1)[i as int]@ == n);
                    }
                    if has_name(list@.take(i + 1), n) {
                        let w = choose|w: int|
                            0 <= w < i + 1 && #[trigger] list@.take(i + 1)[w]@ == n;
                        if w < i {
                            assert(list@.take(i as int)[w]@ == n);
                        }
                    }
                }
            }
        }
        i = i + 1;
    }
    proof {
        assert(list@.take(list@.len() as int) =~= list@);
    }
    r
}

/// Counts, for a fixed card `a`, in how many lists `a` appears together
/// with each other card.
pub fn count_pairs_for(lists: &Vec<Vec<String>>, a: &str) -> (r: Table<u64>)
    requires
        lists_nodup(lists@),
        lists@.len() <= MAX_RECORDS,
    ensures
        r.wf(),
        forall|b: Seq<char>|
            #[trigger] r.count_of(b) == (if b != a@ {
                lists_with_both(lists@, a@, b) as int
            } else {
                0
            }),
        forall|b: Seq<char>| #[trigger] r.contains_key(b) ==> r.count_of(b) >= 1,
{
    let mut r: Table<u64> = Table::new();
    let mut i: usize = 0;
    while i < lists.len()
        invariant
            i <= lists@.len(),
            lists@.len() <= MAX_RECORDS,
            lists_nodup(lists@),
            r.wf(),
            forall|b: Seq<char>|
                #[trigger] r.count_of(b) == (if b != a@ {
                    lists_with_both(lists@.take(i as int), a@, b) as int
                } else {
                    0
                }),
            forall|b: Seq<char>| #[trigger] r.count_of(b) <= i,
            forall|b: Seq<char>| #[trigger] r.contains_key(b) ==> r.count_of(b) >= 1,
        decreases lists@.len() - i,
    {
        let ghost before = r;
        let with_a: bool = vec_has_name(&lists[i], a);
        if with_a {
            let others = retain_except(&lists[i], a);
            r.bump_all(&others);
        }
        proof {
            assert(lists@.take(i + 1).drop_last() =~= lists@.take(i as int));
            assert(lists@.take(i + 1).last() == lists@[i as int]);
            assert forall|b: Seq<char>|
                #[trigger] r.count_of(b) == (if b != a@ {
                    lists_with_both(lists@.take(i + 1), a@, b) as int
                } else {
                    0
                }) by {
                assert(before.count_of(b) == (if b != a@ {
                    lists_with_both(lists@.take(i as int), a@, b) as int
                } else {
                    0
                }));
            }
            assert forall|b: Seq<char>| #[trigger] r.contains_key(b) implies r.count_of(b)
                >= 1 by {
                assert(before.contains_key(b) ==> before.count_of(b) >= 1);
            }
        }
        i = i + 1;
    }
    proof {
        assert(lists@.take(lists@.len() as int) =~= lists@);
    }
    r
}

/// Looks a pair up in a two-level frequency table.
pub open spec fn cooc_get(t: Table<Table<Frac>>, a: Seq<char>, b: Seq<char>) -> Option<Frac> {
    match t.spec_get(a) {
        Some(row) => row.spec_get(b),
        None => None,
    }
}

/// The frequency the table holds for `(a, b)`: how often `b` accompanies
/// `a` in the pairwise lists, divided by `a`'s own appearance count over
/// all lists, kept only when both cards clear the threshold and actually
/// met. Appearance counts may cover more lists than the pairwise scan.
pub open spec fn spec_freq_entry(
    pls: Seq<Vec<String>>,
    sls: Seq<Vec<String>>,
    min: int,
    a: Seq<char>,
    b: Seq<char>,
) -> Option<Frac> {
    if lists_with(sls, a) >= min && lists_with(sls, b) >= min && a != b && lists_with_both(
        pls,
        a,
        b,
    ) >= 1 {
        Some(Frac { num: lists_with_both(pls, a, b) as i64, den: lists_with(sls, a) as i64 })
    } else {
        None
    }
}

/// Two-level well-formedness: distinct keys, well-formed rows, and
/// unit-interval frequencies.
pub open spec fn cooc_wf(t: Table<Table<Frac>>) -> bool {
    &&& t.wf()
    &&& forall|a: Seq<char>|
        match #[trigger] t.spec_get(a) {
            Some(row) => row.wf(),
            None => true,
        }
    &&& forall|a: Seq<char>, b: Seq<char>|
        match #[trigger] cooc_get(t, a, b) {
            Some(f) => f.wf() && f.is_unit(),
            None => true,
        }
}

/// Some entry among the first `i` has key `k`.
pub open spec fn has_name_prefix<V>(s: Seq<(String, V)>, i: int, k: Seq<char>) -> bool {
    exists|w: int| 0 <= w < i && w < s.len() && (#[trigger] s[w]).0@ == k
}

/// Extending the prefix by one admits exactly that entry's key.
proof fn lemma_prefix_step<V>(s: Seq<(String, V)>, i: int)
    requires
        0 <= i < s.len(),
    ensures
        forall|k: Seq<char>|
            #[trigger] has_name_prefix(s, i + 1, k) == (has_name_prefix(s, i, k) || k == s[i].0@),
{
    assert forall|k: Seq<char>|
        #[trigger] has_name_prefix(s, i + 1, k) == (has_name_prefix(s, i, k) || k == s[i].0@) by {
        if k == s[i].0@ {
            assert(has_name_prefix(s, i + 1, k));
        }
    }
}

/// Builds the per-card-normalized co-occurrence table: pairs counted
/// over `pair_lists`, appearance totals over `single_lists`.
#[verifier::rlimit(60)]
pub fn freq_table(
    pair_lists: &Vec<Vec<String>>,
    single_lists: &Vec<Vec<String>>,
    min_count: usize,
) -> (r: Table<Table<Frac>>)
    requires
        lists_nodup(pair_lists@),
        lists_nodup(single_lists@),
        pair_lists@.len() <= MAX_RECORDS,
        single_lists@.len() <= MAX_RECORDS,
        forall|n: Seq<char>|
            #[trigger] lists_with(pair_lists@, n) <= lists_with(single_lists@, n),
    ensures
        cooc_wf(r),
        forall|a: Seq<char>, b: Seq<char>|
            #[trigger] cooc_get(r, a, b) == spec_freq_entry(
                pair_lists@,
                single_lists@,
                min_count as int,
                a,
                b,
            ),
{
    let singles: Table<u64> = count_singles(single_lists);
    let mut r: Table<Table<Frac>> = Table::new();
    let mut i: usize = 0;
    while i < singles.entries.len()
        invariant
            i <= singles.entries@.len(),
            lists_nodup(pair_lists@),
            lists_nodup(single_lists@),
            pair_lists@.len() <= MAX_RECORDS,
            single_lists@.len() <= MAX_RECORDS,
            forall|n: Seq<char>|
                #[trigger] lists_with(pair_lists@, n) <= lists_with(single_lists@, n),
            singles.wf(),
            forall|n: Seq<char>| #[trigger] singles.count_of(n) == lists_with(single_lists@, n),
            forall|n: Seq<char>|
                #[trigger] singles.contains_key(n) == (lists_with(single_lists@, n) >= 1),
            cooc_wf(r),
            forall|a: Seq<char>, b: Seq<char>|
                #[trigger] cooc_get(r, a, b) == (if has_name_prefix(singles.entries@, i as int, a) {
                    spec_freq_entry(pair_lists@, single_lists@, min_count as int, a, b)
                } else {
                    None
                }),
        decreases singles.entries@.len() - i,
    {
        let ghost r0 = r;
        let a_name: String = singles.entries[i].0.clone();
        let a_count: u64 = singles.entries[i].1;
        proof {
            lemma_seq_get_at(singles.entries@, a_name@, i as int);
            assert(singles.count_of(a_name@) == a_count);
            lemma_lists_with_le_len(single_lists@, a_name@);
            assert(!has_name_prefix(singles.entries@, i as int, a_name@)) by {
                if has_name_prefix(singles.entries@, i as int, a_name@) {
                    let w = choose|w: int|
                        0 <= w < i && w < singles.entries@.len() && (#[trigger] singles.entries@[w]).0@
                            == a_name@;
                    assert(false);
                }
            }
        }
        if a_count >= min_count as u64 {
            let pairs: Table<u64> = count_pairs_for(pair_lists, a_name.as_str());
            let mut row: Table<Frac> = Table::new();
            let mut j: usize = 0;
            while j < pairs.entries.len()
                invariant
                    j <= pairs.entries@.len(),
                    lists_nodup(pair_lists@),
                    lists_nodup(single_lists@),
                    pair_lists@.len() <= MAX_RECORDS,
                    single_lists@.len() <= MAX_RECORDS,
                    forall|n: Seq<char>|
                        #[trigger] lists_with(pair_lists@, n) <= lists_with(single_lists@, n),
                    pairs.wf(),
                    singles.wf(),
                    forall|n: Seq<char>|
                        #[trigger] singles.count_of(n) == lists_with(single_lists@, n),
                    forall|n: Seq<char>|
                        #[trigger] singles.contains_key(n) == (lists_with(single_lists@, n) >= 1),
                    forall|b: Seq<char>|
                        #[trigger] pairs.count_of(b) == (if b != a_name@ {
                            lists_with_both(pair_lists@, a_name@, b) as int
                        } else {
                            0
                        }),
                    forall|b: Seq<char>| #[trigger] pairs.contains_key(b) ==> pairs.count_of(b) >= 1,
                    a_count == lists_with(single_lists@, a_name@),
                    a_count >= min_count as u64,
                    a_count <= single_lists@.len(),
                    row.wf(),
                    forall|b: Seq<char>|
                        #[trigger] row.spec_get(b) == (if has_name_prefix(
                            pairs.entries@,
                            j as int,
                            b,
                        ) {
                            spec_freq_entry(
                                pair_lists@,
                                single_lists@,
                                min_count as int,
                                a_name@,
                                b,
                            )
                        } else {
                            None
                        }),
                decreases pairs.entries@.len() - j,
            {
                let ghost row0 = row;
                let b_name: String = pairs.entries[j].0.clone();
                let b_count: u64 = pairs.entries[j].1;
                proof {
                    lemma_seq_get_at(pairs.entries@, b_name@, j as int);
                    assert(pairs.count_of(b_name@) == b_count);
                    assert(pairs.contains_key(b_name@));
                    assert(b_count >= 1);
                    assert(b_name@ != a_name@) by {
                        if b_name@ == a_name@ {
                            assert(pairs.count_of(b_name@) == 0);
                        }
                    }
                    assert(b_count == lists_with_both(pair_lists@, a_name@, b_name@));
                    lemma_pair_le_single(pair_lists@, a_name@, b_name@);
                    assert(lists_with(pair_lists@, a_name@) <= lists_with(
                        single_lists@,
                        a_name@,
                    ));
                    assert(!has_name_prefix(pairs.entries@, j as int, b_name@)) by {
                        if has_name_prefix(pairs.entries@, j as int, b_name@) {
                            let w = choose|w: int|
                                0 <= w < j && w < pairs.entries@.len() && (#[trigger] pairs.entries@[w]).0@
                                    == b_name@;
                            assert(false);
                        }
                    }
                }
                let bs: u64 = match singles.get(b_name.as_str()) {
                    Some(bc) => *bc,
                    None => 0,
                };
                proof {
                    assert(bs == lists_with(single_lists@, b_name@)) by {
                        assert(singles.count_of(b_name@) == lists_with(single_lists@, b_name@));
                    }
                }
                if bs >= min_count as u64 {
                    let f: Frac = Frac::new(b_count as i64, a_count as i64);
                    proof {
                        assert(f.is_unit());
                        assert(spec_freq_entry(
                            pair_lists@,
                            single_lists@,
                            min_count as int,
                            a_name@,
                            b_name@,
                        ) == Some(f));
                    }
                    row.set(b_name.as_str(), f);
                } else {
                    proof {
                        assert(lists_with(single_lists@, b_name@) < min_count);
                        assert(spec_freq_entry(
                            pair_lists@,
                            single_lists@,
                            min_count as int,
                            a_name@,
                            b_name@,
                        ) is None);
                    }
                }
                proof {
                    lemma_prefix_step(pairs.entries@, j as int);
                    assert forall|b: Seq<char>|
                        #[trigger] row.spec_get(b) == (if has_name_prefix(
                            pairs.entries@,
                            j + 1,
                            b,
                        ) {
                            spec_freq_entry(
                                pair_lists@,
                                single_lists@,
                                min_count as int,
                                a_name@,
                                b,
                            )
                        } else {
                            None
                        }) by {
                        if b != b_name@ {
                            assert(row.spec_get(b) == row0.spec_get(b));
                        }
                    }
                }
                j = j + 1;
            }
            proof {
                assert forall|b: Seq<char>| #[trigger] row.spec_get(b) == spec_freq_entry(
                    pair_lists@,
                    single_lists@,
                    min_count as int,
                    a_name@,
                    b,
                ) by {
                    if !has_name_prefix(pairs.entries@, pairs.entries@.len() as int, b) {
                        if spec_freq_entry(
                            pair_lists@,
                            single_lists@,
                            min_count as int,
                            a_name@,
                            b,
                        ) is Some {
                            assert(lists_with_both(pair_lists@, a_name@, b) >= 1);
                            assert(pairs.count_of(b) >= 1);
                            lemma_seq_get_witness(pairs.entries@, b);
                            assert(false);
                        }
                    }
                }
            }
            r.set(a_name.as_str(), row);
            proof {
                assert forall|a2: Seq<char>|
                    match #[trigger] r.spec_get(a2) {
                        Some(row2) => row2.wf(),
                        None => true,
                    } by {
                    if a2 != a_name@ {
                        assert(r.spec_get(a2) == r0.spec_get(a2));
                    }
                }
                assert forall|a2: Seq<char>, b2: Seq<char>|
                    match #[trigger] cooc_get(r, a2, b2) {
                        Some(f) => f.wf() && f.is_unit(),
                        None => true,
                    } by {
                    if a2 == a_name@ {
                        if row.spec_get(b2) is Some {
                            lemma_pair_le_single(pair_lists@, a_name@, b2);
                            assert(lists_with(pair_lists@, a_name@) <= lists_with(
                                single_lists@,
                                a_name@,
                            ));
                        }
                    } else {
                        assert(r.spec_get(a2) == r0.spec_get(a2));
                        assert(cooc_get(r, a2, b2) == cooc_get(r0, a2, b2));
                    }
                }
            }
        } else {
            proof {
                assert forall|b: Seq<char>|
                    spec_freq_entry(
                        pair_lists@,
                        single_lists@,
                        min_count as int,
                        a_name@,
                        b,
                    ) is None by {
                    assert(lists_with(single_lists@, a_name@) < min_count);
                }
            }
        }
        proof {
            lemma_prefix_step(singles.entries@, i as int);
            assert forall|a: Seq<char>, b: Seq<char>|
                #[trigger] cooc_get(r, a, b) == (if has_name_prefix(
                    singles.entries@,
                    i + 1,
                    a,
                ) {
                    spec_freq_entry(pair_lists@, single_lists@, min_count as int, a, b)
                } else {
                    None
                }) by {
                if a != a_name@ {
                    assert(r.spec_get(a) == r0.spec_get(a));
                    assert(cooc_get(r, a, b) == cooc_get(r0, a, b));
                }
            }
        }
        i = i + 1;
    }
    proof {
        assert forall|a: Seq<char>, b: Seq<char>|
            #[trigger] cooc_get(r, a, b) == spec_freq_entry(
                pair_lists@,
                single_lists@,
                min_count as int,
                a,
                b,
            ) by {
            if !has_name_prefix(singles.entries@, singles.entries@.len() as int, a) {
                assert(!singles.contains_key(a)) by {
                    if singles.contains_key(a) {
                        lemma_seq_get_witness(singles.entries@, a);
                    }
                }
                assert(lists_with(single_lists@, a) == 0);
                if spec_freq_entry(
                    pair_lists@,
                    single_lists@,
                    min_count as int,
                    a,
                    b,
                ) is Some {
                    lemma_pair_le_single(pair_lists@, a, b);
                    assert(lists_with(pair_lists@, a) <= lists_with(single_lists@, a));
                    assert(false);
                }
            }
        }
    }
    r
}

} // verus!
