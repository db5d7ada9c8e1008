//! Sorting of scored lists.
//!
//! Ranked candidate lists are sorted by descending score with a stable
//! insertion sort. The contracts pin the contents (as a multiset) and the
//! ordering; ties between entries whose scores have the same rational
//! value may stand in either order.

use vstd::prelude::*;

use crate::frac::{lemma_frac_le_trans, Frac};

verus! {


/// Inserting an element anywhere adds it to the multiset of the list.
proof fn lemma_to_multiset_insert<A>(s: Seq<A>, pos: int, x: A)
    requires
        0 <= pos <= s.len(),
    ensures
        s.insert(pos, x).to_multiset() =~= s.to_multiset().insert(x),
{
    broadcast use vstd::seq_lib::group_to_multiset_ensures;

    let t = s.subrange(0, pos);
    let u = s.subrange(pos, s.len() as int);
    assert(s =~= t + u);
    vstd::seq_lib::lemma_multiset_commutative(t, u);
    vstd::seq_lib::lemma_multiset_commutative(t.push(x), u);
    assert(t.push(x).to_multiset() =~= t.to_multiset().insert(x));
}

/// Scores never increase along the list.
pub open spec fn scored_sorted_desc(s: Seq<(String, Frac)>) -> bool {
    forall|p: int, q: int| 0 <= p < q < s.len() ==> s[q].1.spec_le(s[p].1)
}

/// All scores in the list are well-formed rationals.
pub open spec fn scored_wf(s: Seq<(String, Frac)>) -> bool {
    forall|i: int| 0 <= i < s.len() ==> (#[trigger] s[i]).1.wf()
}

/// No two entries name the same card.
pub open spec fn scored_names_distinct(s: Seq<(String, Frac)>) -> bool {
    forall|p: int, q: int| 0 <= p < q < s.len() ==> (#[trigger] s[p]).0@ != (#[trigger] s[q]).0@
}

/// Sorts a `(name, score)` list by descending score, keeping the entries.
#[verifier::rlimit(30)]
pub fn sort_scored(v: &Vec<(String, Frac)>) -> (r: Vec<(String, Frac)>)
    requires
        scored_wf(v@),
    ensures
        r@.len() == v@.len(),
        r@.to_multiset() == v@.to_multiset(),
        scored_sorted_desc(r@),
        scored_wf(r@),
        scored_names_distinct(v@) ==> scored_names_distinct(r@),
{
    let mut out: Vec<(String, Frac)> = Vec::new();
    let mut idx: usize = 0;
    proof {
        assert(v@.take(0) =~= Seq::<(String, Frac)>::empty());
        assert(out@.to_multiset() =~= v@.take(0).to_multiset());
    }
    while idx < v.len()
        invariant
            idx <= v@.len(),
            scored_wf(v@),
            out@.len() == idx,
            out@.to_multiset() == v@.take(idx as int).to_multiset(),
            scored_sorted_desc(out@),
            scored_wf(out@),
            scored_names_distinct(v@) ==> scored_names_distinct(out@) && (forall|i: int|
                0 <= i < out@.len() ==> exists|w: int|
                    0 <= w < idx && (#[trigger] out@[i]).0@ == v@[w].0@),
        decreases v@.len() - idx,
    {
        let x: (String, Frac) = (v[idx].0.clone(), v[idx].1);
        proof {
            assert(x == v@[idx as int]);
        }
        let mut p: usize = 0;
        while p < out.len() && !out[p].1.lt(&x.1)
            invariant
                p <= out@.len(),
                scored_wf(out@),
                x.1.wf(),
                forall|q: int| 0 <= q < p ==> x.1.spec_le(out@[q].1),
            decreases out@.len() - p,
        {
            p = p + 1;
        }
        let ghost before = out@;
        out.insert(p, x);
        proof {
            lemma_to_multiset_insert(before, p as int, x);
            assert(v@.take(idx + 1) =~= v@.take(idx as int).push(v@[idx as int]));
            broadcast use vstd::seq_lib::group_to_multiset_ensures;

            assert(v@.take(idx + 1).to_multiset() =~= v@.take(
                idx as int,
            ).to_multiset().insert(x));
            assert(out@.to_multiset() == v@.take(idx + 1).to_multiset());
            before.insert_ensures(p as int, x);
            assert forall|q: int| p <= q < before.len() implies before[q].1.spec_le(x.1) by {
                if q > p {
                    lemma_frac_le_trans(before[q].1, before[p as int].1, x.1);
                }
            }
            assert forall|a: int, b: int| 0 <= a < b < out@.len() implies out@[b].1.spec_le(
                out@[a].1,
            ) by {
                if b < p {
                    assert(out@[a] == before[a] && out@[b] == before[b]);
                } else if b == p {
                    assert(out@[b] == x && out@[a] == before[a]);
                } else {
                    assert(out@[b] == before[b - 1]);
                    if a < p {
                        lemma_frac_le_trans(out@[b].1, x.1, out@[a].1);
                    } else if a == p {
                        assert(out@[a] == x);
                    } else {
                        assert(out@[a] == before[a - 1]);
                    }
                }
            }
            if scored_names_distinct(v@) {
                assert(!(exists|i: int|
                    0 <= i < before.len() && (#[trigger] before[i]).0@ == x.0@)) by {
                    if exists|i: int|
                        0 <= i < before.len() && (#[trigger] before[i]).0@ == x.0@ {
                        let i = choose|i: int|
                            0 <= i < before.len() && (#[trigger] before[i]).0@ == x.0@;
                        let w = choose|w: int|
                            0 <= w < idx && (#[trigger] before[i]).0@ == v@[w].0@;
                        assert(v@[w].0@ == v@[idx as int].0@);
                        assert(false);
                    }
                }
                assert forall|a: int, b: int| 0 <= a < b < out@.len() implies (
                #[trigger] out@[a]).0@ != (#[trigger] out@[b]).0@ by {
                    if b < p {
                        assert(out@[a] == before[a] && out@[b] == before[b]);
                    } else if b == p {
                        assert(out@[b] == x && out@[a] == before[a]);
                        assert((#[trigger] before[a]).0@ == before[a].0@);
                    } else {
                        assert(out@[b] == before[b - 1]);
                        if a < p {
                            assert(out@[a] == before[a]);
                        } else if a == p {
                            assert(out@[a] == x);
                            assert((#[trigger] before[b - 1]).0@ == before[b - 1].0@);
                        } else {
                            assert(out@[a] == before[a - 1]);
                        }
                    }
                }
                assert forall|i: int| 0 <= i < out@.len() implies exists|w: int|
                    0 <= w < idx + 1 && (#[trigger] out@[i]).0@ == v@[w].0@ by {
                    if i == p {
                        assert(out@[i].0@ == v@[idx as int].0@);
                    } else {
                        let bi = if i < p {
                            i
                        } else {
                            i - 1
                        };
                        assert(out@[i] == before[bi]);
                        let w = choose|w: int|
                            0 <= w < idx && (#[trigger] before[bi]).0@ == v@[w].0@;
                        assert(out@[i].0@ == v@[w].0@);
                    }
                }
            }
        }
        idx = idx + 1;
    }
    proof {
        assert(v@.take(v@.len() as int) =~= v@);
    }
    out
}

/// Trend values never increase along the list.
pub open spec fn trends_sorted_desc(s: Seq<(String, String, Frac)>) -> bool {
    forall|p: int, q: int| 0 <= p < q < s.len() ==> s[q].2.spec_le(s[p].2)
}

/// All trend values in the list are well-formed rationals.
pub open spec fn trends_wf(s: Seq<(String, String, Frac)>) -> bool {
    forall|i: int| 0 <= i < s.len() ==> (#[trigger] s[i]).2.wf()
}

/// No two entries name the same card pair.
pub open spec fn trend_pairs_distinct(s: Seq<(String, String, Frac)>) -> bool {
    forall|p: int, q: int|
        0 <= p < q < s.len() ==> !((#[trigger] s[p]).0@ == (#[trigger] s[q]).0@ && s[p].1@
            == s[q].1@)
}

/// Sorts a `(card, card, trend)` list by descending trend.
#[verifier::rlimit(30)]
pub fn sort_trends(v: &Vec<(String, String, Frac)>) -> (r: Vec<(String, String, Frac)>)
    requires
        trends_wf(v@),
    ensures
        r@.len() == v@.len(),
        r@.to_multiset() == v@.to_multiset(),
        trends_sorted_desc(r@),
        trends_wf(r@),
        trend_pairs_distinct(v@) ==> trend_pairs_distinct(r@),
{
    let mut out: Vec<(String, String, Frac)> = Vec::new();
    let mut idx: usize = 0;
    proof {
        assert(v@.take(0) =~= Seq::<(String, String, Frac)>::empty());
        assert(out@.to_multiset() =~= v@.take(0).to_multiset());
    }
    while idx < v.len()
        invariant
            idx <= v@.len(),
            trends_wf(v@),
            out@.len() == idx,
            out@.to_multiset() == v@.take(idx as int).to_multiset(),
            trends_sorted_desc(out@),
            trends_wf(out@),
            trend_pairs_distinct(v@) ==> trend_pairs_distinct(out@) && (forall|i: int|
                0 <= i < out@.len() ==> exists|w: int|
                    0 <= w < idx && (#[trigger] out@[i]).0@ == v@[w].0@ && out@[i].1@
                        == v@[w].1@),
        decreases v@.len() - idx,
    {
        let x: (String, String, Frac) = (v[idx].0.clone(), v[idx].1.clone(), v[idx].2);
        proof {
            assert(x == v@[idx as int]);
        }
        let mut p: usize = 0;
        while p < out.len() && !out[p].2.lt(&x.2)
            invariant
                p <= out@.len(),
                trends_wf(out@),
                x.2.wf(),
                forall|q: int| 0 <= q < p ==> x.2.spec_le(out@[q].2),
            decreases out@.len() - p,
        {
            p = p + 1;
        }
        let ghost before = out@;
        out.insert(p, x);
        proof {
            lemma_to_multiset_insert(before, p as int, x);
            assert(v@.take(idx + 1) =~= v@.take(idx as int).push(v@[idx as int]));
            broadcast use vstd::seq_lib::group_to_multiset_ensures;

            assert(v@.take(idx + 1).to_multiset() =~= v@.take(
                idx as int,
            ).to_multiset().insert(x));
            assert(out@.to_multiset() == v@.take(idx + 1).to_multiset());
            before.insert_ensures(p as int, x);
            assert forall|q: int| p <= q < before.len() implies before[q].2.spec_le(x.2) by {
                if q > p {
                    lemma_frac_le_trans(before[q].2, before[p as int].2, x.2);
                }
            }
            assert forall|a: int, b: int| 0 <= a < b < out@.len() implies out@[b].2.spec_le(
                out@[a].2,
            ) by {
                if b < p {
                    assert(out@[a] == before[a] && out@[b] == before[b]);
                } else if b == p {
                    assert(out@[b] == x && out@[a] == before[a]);
                } else {
                    assert(out@[b] == before[b - 1]);
                    if a < p {
                        lemma_frac_le_trans(out@[b].2, x.2, out@[a].2);
                    } else if a == p {
                        assert(out@[a] == x);
                    } else {
                        assert(out@[a] == before[a - 1]);
                    }
                }
            }
            if trend_pairs_distinct(v@) {
                assert(!(exists|i: int|
                    0 <= i < before.len() && (#[trigger] before[i]).0@ == x.0@ && before[i].1@
                        == x.1@)) by {
                    if exists|i: int|
                        0 <= i < before.len() && (#[trigger] before[i]).0@ == x.0@ && before[i].1@
                            == x.1@ {
                        let i = choose|i: int|
                            0 <= i < before.len() && (#[trigger] before[i]).0@ == x.0@
                                && before[i].1@ == x.1@;
                        let w = choose|w: int|
                            0 <= w < idx && (#[trigger] before[i]).0@ == v@[w].0@ && before[i].1@
                                == v@[w].1@;
                        assert(v@[w].0@ == v@[idx as int].0@ && v@[w].1@ == v@[idx as int].1@);
                        assert(false);
                    }
                }
                assert forall|a: int, b: int| 0 <= a < b < out@.len() implies !((
                #[trigger] out@[a]).0@ == (#[trigger] out@[b]).0@ && out@[a].1@
                    == out@[b].1@) by {
                    if b < p {
                        assert(out@[a] == before[a] && out@[b] == before[b]);
                    } else if b == p {
                        assert(out@[b] == x && out@[a] == before[a]);
                        assert((#[trigger] before[a]).0@ == before[a].0@);
                    } else {
                        assert(out@[b] == before[b - 1]);
                        if a < p {
                            assert(out@[a] == before[a]);
                        } else if a == p {
                            assert(out@[a] == x);
                            assert((#[trigger] before[b - 1]).0@ == before[b - 1].0@);
                        } else {
                            assert(out@[a] == before[a - 1]);
                        }
                    }
                }
                assert forall|i: int| 0 <= i < out@.len() implies exists|w: int|
                    0 <= w < idx + 1 && (#[trigger] out@[i]).0@ == v@[w].0@ && out@[i].1@
                        == v@[w].1@ by {
                    if i == p {
                        assert(out@[i].0@ == v@[idx as int].0@ && out@[i].1@
                            == v@[idx as int].1@);
                    } else {
                        let bi = if i < p {
                            i
                        } else {
                            i - 1
                        };
                        assert(out@[i] == before[bi]);
                        let w = choose|w: int|
                            0 <= w < idx && (#[trigger] before[bi]).0@ == v@[w].0@
                                && before[bi].1@ == v@[w].1@;
                        assert(out@[i].0@ == v@[w].0@ && out@[i].1@ == v@[w].1@);
                    }
                }
            }
        }
        idx = idx + 1;
    }
    proof {
        assert(v@.take(v@.len() as int) =~= v@);
    }
    out
}

/// Values never decrease along the list.
pub open spec fn u64_sorted_asc(s: Seq<u64>) -> bool {
    forall|p: int, q: int| 0 <= p < q < s.len() ==> s[p] <= s[q]
}

/// Sorts machine words ascending, keeping the contents.
#[verifier::rlimit(30)]
pub fn sort_u64(v: &Vec<u64>) -> (r: Vec<u64>)
    ensures
        r@.len() == v@.len(),
        r@.to_multiset() == v@.to_multiset(),
        u64_sorted_asc(r@),
{
    let mut out: Vec<u64> = Vec::new();
    let mut idx: usize = 0;
    proof {
        assert(v@.take(0) =~= Seq::<u64>::empty());
        assert(out@.to_multiset() =~= v@.take(0).to_multiset());
    }
    while idx < v.len()
        invariant
            idx <= v@.len(),
            out@.len() == idx,
            out@.to_multiset() == v@.take(idx as int).to_multiset(),
            u64_sorted_asc(out@),
        decreases v@.len() - idx,
    {
        let x: u64 = v[idx];
        let mut p: usize = 0;
        while p < out.len() && out[p] <= x
            invariant
                p <= out@.len(),
                forall|q: int| 0 <= q < p ==> out@[q] <= x,
            decreases out@.len() - p,
        {
            p = p + 1;
        }
        let ghost before = out@;
        out.insert(p, x);
        proof {
            lemma_to_multiset_insert(before, p as int, x);
            assert(v@.take(idx + 1) =~= v@.take(idx as int).push(v@[idx as int]));
            broadcast use vstd::seq_lib::group_to_multiset_ensures;

            assert(v@.take(idx + 1).to_multiset() =~= v@.take(
                idx as int,
            ).to_multiset().insert(x));
            assert(out@.to_multiset() == v@.take(idx + 1).to_multiset());
            before.insert_ensures(p as int, x);
        }
        idx = idx + 1;
    }
    proof {
        assert(v@.take(v@.len() as int) =~= v@);
    }
    out
}

/// Elements of a sorted list come from the unsorted one.
pub proof fn lemma_multiset_elements<A>(a: Seq<A>, b: Seq<A>)
    requires
        a.to_multiset() == b.to_multiset(),
    ensures
        forall|x: A| a.contains(x) == b.contains(x),
{
    broadcast use vstd::seq_lib::group_to_multiset_ensures;

    assert forall|x: A| a.contains(x) == b.contains(x) by {
        assert(a.contains(x) <==> a.to_multiset().count(x) > 0);
        assert(b.contains(x) <==> b.to_multiset().count(x) > 0);
    }
}

} // verus!
