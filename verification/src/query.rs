//! Query sampling by degree stratification.
//!
//! Queries are drawn from the cards of a degree table with an explicitly
//! seeded deterministic generator, so identical seeds and identical
//! card/degree inputs reproduce identical output sequences. The
//! stratified strategy splits the cards into three degree tiers, draws
//! about a third of the request from each, and tops the selection up to
//! exactly the requested count.

use vstd::prelude::*;

use crate::rng::{shuffle, spec_shuffle, SeededRng};
use crate::table::{has_name, names_nodup, vec_has_name, Table};

verus! {

/// How queries are chosen from the available cards.
#[derive(Clone, Copy, Debug, PartialEq, Eq, Structural)]
pub enum QueryStrategy {
    /// Uniformly random order.
    Random,
    /// Highest degree first.
    Popular,
    /// About a third from each of three degree tiers.
    Stratified,
}

/// A card's appearances over a pair table: each row mentioning it counts.
pub open spec fn spec_degree(pairs: Seq<(String, String)>, n: Seq<char>) -> nat
    decreases pairs.len(),
{
    if pairs.len() == 0 {
        0
    } else {
        spec_degree(pairs.drop_last(), n) + (if pairs.last().0@ == n {
            1nat
        } else {
            0nat
        }) + (if pairs.last().1@ == n {
            1nat
        } else {
            0nat
        })
    }
}

/// Builds the degree table of a pair list: each row adds one to both of
/// its cards.
pub fn degree_table_from_pairs(pairs: &Vec<(String, String)>) -> (r: Table<u64>)
    requires
        pairs@.len() <= 0x1000_0000,
    ensures
        r.wf(),
        forall|n: Seq<char>| #[trigger] r.count_of(n) == spec_degree(pairs@, n),
{
    let mut r: Table<u64> = Table::new();
    let mut i: usize = 0;
    while i < pairs.len()
        invariant
            i <= pairs@.len(),
            pairs@.len() <= 0x1000_0000,
            r.wf(),
            forall|n: Seq<char>| #[trigger] r.count_of(n) == spec_degree(pairs@.take(i as int), n),
            forall|n: Seq<char>| #[trigger] r.count_of(n) <= 2 * i,
        decreases pairs@.len() - i,
    {
        let ghost r0 = r;
        r.bump(pairs[i].0.as_str());
        let ghost r1 = r;
        proof {
            assert(r0.count_of(pairs@[i as int].1@) <= 2 * i);
            assert(r1.count_of(pairs@[i as int].1@) <= 2 * i + 1);
        }
        r.bump(pairs[i].1.as_str());
        proof {
            assert(pairs@.take(i + 1).drop_last() =~= pairs@.take(i as int));
            assert(pairs@.take(i + 1).last() == pairs@[i as int]);
            assert forall|n: Seq<char>|
                #[trigger] r.count_of(n) == spec_degree(pairs@.take(i + 1), n) by {
                assert(r0.count_of(n) == spec_degree(pairs@.take(i as int), n));
                if n != pairs@[i as int].0@ {
                    assert(r1.spec_get(n) == r0.spec_get(n));
                }
                if n != pairs@[i as int].1@ {
                    assert(r.spec_get(n) == r1.spec_get(n));
                }
            }
            assert forall|n: Seq<char>| #[trigger] r.count_of(n) <= 2 * (i + 1) by {
                assert(r0.count_of(n) <= 2 * i);
                if n != pairs@[i as int].0@ {
                    assert(r1.spec_get(n) == r0.spec_get(n));
                }
                if n != pairs@[i as int].1@ {
                    assert(r.spec_get(n) == r1.spec_get(n));
                }
            }
        }
        i = i + 1;
    }
    proof {
        assert(pairs@.take(pairs@.len() as int) =~= pairs@);
    }
    r
}

/// Generates query lists from a degree table.
#[derive(Debug)]
pub struct QueryGenerator {
    pub degree_map: Table<u64>,
    pub cards: Vec<String>,
}

impl QueryGenerator {
    /// The card list mirrors the degree table's keys, in table order.
    pub open spec fn wf(self) -> bool {
        &&& self.degree_map.wf()
        &&& self.cards@.len() == self.degree_map.entries@.len()
        &&& forall|i: int|
            0 <= i < self.cards@.len() ==> (#[trigger] self.cards@[i])
                == self.degree_map.entries@[i].0
    }

    pub fn new(degree_map: Table<u64>) -> (r: QueryGenerator)
        requires
            degree_map.wf(),
        ensures
            r.wf(),
            r.degree_map == degree_map,
            names_nodup(r.cards@),
    {
        let mut cards: Vec<String> = Vec::new();
        let mut i: usize = 0;
        while i < degree_map.entries.len()
            invariant
                i <= degree_map.entries@.len(),
                degree_map.wf(),
                cards@.len() == i,
                forall|j: int|
                    0 <= j < i ==> (#[trigger] cards@[j]) == degree_map.entries@[j].0,
            decreases degree_map.entries@.len() - i,
        {
            cards.push(degree_map.entries[i].0.clone());
            i = i + 1;
        }
        QueryGenerator { degree_map, cards }
    }
}

/// The cards not named by the exclusion list, in order.
pub open spec fn spec_available(cards: Seq<String>, excl: Seq<String>) -> Seq<String>
    decreases cards.len(),
{
    if cards.len() == 0 {
        Seq::empty()
    } else {
        spec_available(cards.drop_last(), excl) + (if has_name(excl, cards.last()@) {
            Seq::<String>::empty()
        } else {
            seq![cards.last()]
        })
    }
}

/// Stable insertion into a list sorted by descending degree: the new
/// card goes after every card whose degree is at least its own.
pub open spec fn spec_insert_deg(dm: Table<u64>, x: String, l: Seq<String>) -> Seq<String>
    decreases l.len(),
{
    if l.len() == 0 {
        seq![x]
    } else if dm.count_of(l[0]@) >= dm.count_of(x@) {
        seq![l[0]] + spec_insert_deg(dm, x, l.skip(1))
    } else {
        seq![x] + l
    }
}

/// The stable sort of a card list by descending degree.
pub open spec fn spec_sort_deg(dm: Table<u64>, l: Seq<String>) -> Seq<String>
    decreases l.len(),
{
    if l.len() == 0 {
        Seq::empty()
    } else {
        spec_insert_deg(dm, l.last(), spec_sort_deg(dm, l.drop_last()))
    }
}

/// A selection topped up to `want` cards from a pool, in pool order,
/// skipping cards already selected.
pub open spec fn spec_fill(base: Seq<String>, pool: Seq<String>, want: int) -> Seq<String>
    decreases pool.len(),
{
    if base.len() >= want || pool.len() == 0 {
        base
    } else if has_name(base, pool[0]@) {
        spec_fill(base, pool.skip(1), want)
    } else {
        spec_fill(base.push(pool[0]), pool.skip(1), want)
    }
}

/// The smaller of two lengths.
pub open spec fn spec_min(a: int, b: int) -> int {
    if a < b {
        a
    } else {
        b
    }
}

/// The stratified draw: three degree tiers of the sorted cards, about a
/// third of the request from each, topped up to the exact total and
/// shuffled.
pub open spec fn spec_stratified(dm: Table<u64>, avail: Seq<String>, n: int, seed: u64) -> Seq<
    String,
> {
    let sorted = spec_sort_deg(dm, avail);
    let len = sorted.len() as int;
    let n2 = spec_min(n, len);
    let n_third = if n2 / 3 >= 1 {
        n2 / 3
    } else {
        1
    };
    let b1 = len / 3;
    let b2 = (2 * len) / 3;
    let hs = spec_shuffle(sorted.take(b1), seed);
    let picked_h = hs.0.take(spec_min(n_third, b1));
    let ms = spec_shuffle(sorted.subrange(b1, b2), hs.1);
    let picked_m = ms.0.take(spec_min(n_third, b1));
    let ls = spec_shuffle(sorted.skip(b2), ms.1);
    let want_low = if n2 > 2 * n_third {
        n2 - 2 * n_third
    } else {
        0
    };
    let picked_l = ls.0.take(spec_min(want_low, len - b2));
    let filled = spec_fill(picked_h + picked_m + picked_l, sorted, n2);
    spec_shuffle(filled.take(spec_min(n2, filled.len() as int)), ls.1).0
}

/// The deterministic sample a generator draws: a pure function of the
/// generator, the request, the exclusions and the seed.
pub open spec fn spec_sample(
    g: QueryGenerator,
    n: int,
    strategy: QueryStrategy,
    excl: Seq<String>,
    seed: u64,
) -> Seq<String> {
    let avail = spec_available(g.cards@, excl);
    match strategy {
        QueryStrategy::Random => spec_shuffle(avail, seed).0.take(
            spec_min(n, avail.len() as int),
        ),
        QueryStrategy::Popular => spec_sort_deg(g.degree_map, avail).take(
            spec_min(n, avail.len() as int),
        ),
        QueryStrategy::Stratified => spec_stratified(g.degree_map, avail, n, seed),
    }
}

/// Distinct names in a sub-list are no more numerous than the names of a
/// list that holds them all.
pub proof fn lemma_name_count(sub: Seq<String>, sup: Seq<String>)
    requires
        names_nodup(sub),
        forall|n: Seq<char>| #[trigger] has_name(sub, n) ==> has_name(sup, n),
    ensures
        sub.len() <= sup.len(),
{
    broadcast use vstd::seq_lib::seq_to_set_is_finite;
    broadcast use vstd::set::group_set_axioms;

    let v = Seq::new(sub.len(), |i: int| sub[i]@);
    let w = Seq::new(sup.len(), |i: int| sup[i]@);
    assert(v.no_duplicates()) by {
        assert forall|p: int, q: int| 0 <= p < q < v.len() implies v[p] != v[q] by {
            assert(sub[p]@ != sub[q]@);
        }
    }
    assert forall|x: Seq<char>| v.to_set().contains(x) implies w.to_set().contains(x) by {
        assert(v.contains(x));
        let i = choose|i: int| 0 <= i < v.len() && v[i] == x;
        assert(has_name(sub, x)) by {
            assert(sub[i]@ == x);
        }
        assert(has_name(sup, x));
        let j = choose|j: int| 0 <= j < sup.len() && sup[j]@ == x;
        assert(w[j] == x);
        assert(w.contains(x));
    }
    assert(v.to_set().subset_of(w.to_set()));
    v.unique_seq_to_set();
    w.lemma_cardinality_of_set();
    vstd::set_lib::lemma_len_subset(v.to_set(), w.to_set());
}

/// Topping up only grows the selection, keeps it free of duplicates and
/// inside the pool, never overshoots, and stops short only after
/// absorbing every pool name.
proof fn lemma_fill_props(base: Seq<String>, pool: Seq<String>, want: int)
    requires
        names_nodup(base),
        base.len() <= want,
    ensures
        spec_fill(base, pool, want).len() <= want,
        names_nodup(spec_fill(base, pool, want)),
        forall|n: Seq<char>|
            #[trigger] has_name(spec_fill(base, pool, want), n) ==> has_name(base, n) || has_name(
                pool,
                n,
            ),
        forall|n: Seq<char>| has_name(base, n) ==> #[trigger] has_name(
            spec_fill(base, pool, want),
            n,
        ),
        spec_fill(base, pool, want).len() < want ==> forall|n: Seq<char>|
            #[trigger] has_name(pool, n) ==> has_name(spec_fill(base, pool, want), n),
    decreases pool.len(),
{
    if base.len() >= want || pool.len() == 0 {
    } else if has_name(base, pool[0]@) {
        lemma_fill_props(base, pool.skip(1), want);
        assert forall|n: Seq<char>|
            #[trigger] has_name(spec_fill(base, pool, want), n) implies has_name(base, n)
            || has_name(pool, n) by {
            if has_name(pool.skip(1), n) {
                let i = choose|i: int| 0 <= i < pool.skip(1).len() && pool.skip(1)[i]@ == n;
                assert(pool[i + 1]@ == n);
            }
        }
        if spec_fill(base, pool, want).len() < want {
            assert forall|n: Seq<char>| #[trigger] has_name(pool, n) implies has_name(
                spec_fill(base, pool, want),
                n,
            ) by {
                let i = choose|i: int| 0 <= i < pool.len() && pool[i]@ == n;
                if i == 0 {
                    assert(has_name(base, n));
                } else {
                    assert(pool.skip(1)[i - 1]@ == n);
                    assert(has_name(pool.skip(1), n));
                }
            }
        }
    } else {
        let base2 = base.push(pool[0]);
        assert(names_nodup(base2)) by {
            assert forall|p: int, q: int| 0 <= p < q < base2.len() implies base2[p]@
                != base2[q]@ by {
                if q == base2.len() - 1 {
                    assert(base2[p] == base[p]);
                    if base[p]@ == pool[0]@ {
                        assert(has_name(base, pool[0]@));
                    }
                }
            }
        }
        lemma_fill_props(base2, pool.skip(1), want);
        assert forall|n: Seq<char>| has_name(base, n) implies #[trigger] has_name(base2, n) by {
            let i = choose|i: int| 0 <= i < base.len() && base[i]@ == n;
            assert(base2[i]@ == n);
        }
        assert forall|n: Seq<char>|
            #[trigger] has_name(spec_fill(base, pool, want), n) implies has_name(base, n)
            || has_name(pool, n) by {
            if has_name(base2, n) {
                let i = choose|i: int| 0 <= i < base2.len() && base2[i]@ == n;
                if i < base.len() {
                    assert(has_name(base, n));
                } else {
                    assert(pool[0]@ == n);
                }
            }
            if has_name(pool.skip(1), n) {
                let i = choose|i: int| 0 <= i < pool.skip(1).len() && pool.skip(1)[i]@ == n;
                assert(pool[i + 1]@ == n);
            }
        }
        if spec_fill(base, pool, want).len() < want {
            assert forall|n: Seq<char>| #[trigger] has_name(pool, n) implies has_name(
                spec_fill(base, pool, want),
                n,
            ) by {
                let i = choose|i: int| 0 <= i < pool.len() && pool[i]@ == n;
                if i == 0 {
                    assert(has_name(base2, n)) by {
                        assert(base2[base2.len() - 1]@ == n);
                    }
                } else {
                    assert(pool.skip(1)[i - 1]@ == n);
                    assert(has_name(pool.skip(1), n));
                }
            }
        }
    }
}

/// Inserting by degree keeps the names, adds the new one, and keeps
/// distinctness when the new name is fresh.
proof fn lemma_insert_deg_names(dm: Table<u64>, x: String, l: Seq<String>)
    ensures
        spec_insert_deg(dm, x, l).len() == l.len() + 1,
        forall|n: Seq<char>|
            #[trigger] has_name(spec_insert_deg(dm, x, l), n) == (has_name(l, n) || n == x@),
        names_nodup(l) && !has_name(l, x@) ==> names_nodup(spec_insert_deg(dm, x, l)),
    decreases l.len(),
{
    let r = spec_insert_deg(dm, x, l);
    if l.len() == 0 {
        assert forall|n: Seq<char>| #[trigger] has_name(r, n) == (has_name(l, n) || n == x@) by {
            if has_name(r, n) {
                let i = choose|i: int| 0 <= i < r.len() && r[i]@ == n;
            }
            if n == x@ {
                assert(r[0]@ == n);
            }
        }
    } else if dm.count_of(l[0]@) >= dm.count_of(x@) {
        lemma_insert_deg_names(dm, x, l.skip(1));
        let rest = spec_insert_deg(dm, x, l.skip(1));
        assert(r =~= seq![l[0]] + rest);
        assert forall|n: Seq<char>| #[trigger] has_name(r, n) == (has_name(l, n) || n == x@) by {
            if has_name(r, n) {
                let i = choose|i: int| 0 <= i < r.len() && r[i]@ == n;
                if i == 0 {
                    assert(l[0]@ == n);
                } else {
                    assert(rest[i - 1]@ == n);
                    assert(has_name(rest, n));
                    if has_name(l.skip(1), n) {
                        let j = choose|j: int| 0 <= j < l.skip(1).len() && l.skip(1)[j]@ == n;
                        assert(l[j + 1]@ == n);
                    }
                }
            }
            if has_name(l, n) {
                let i = choose|i: int| 0 <= i < l.len() && l[i]@ == n;
                if i == 0 {
                    assert(r[0]@ == n);
                } else {
                    assert(l.skip(1)[i - 1]@ == n);
                    assert(has_name(rest, n));
                    let j = choose|j: int| 0 <= j < rest.len() && rest[j]@ == n;
                    assert(r[j + 1]@ == n);
                }
            }
            if n == x@ {
                assert(has_name(rest, n));
                let j = choose|j: int| 0 <= j < rest.len() && rest[j]@ == n;
                assert(r[j + 1]@ == n);
            }
        }
        if names_nodup(l) && !has_name(l, x@) {
            assert(names_nodup(l.skip(1))) by {
                assert forall|p: int, q: int| 0 <= p < q < l.skip(1).len() implies l.skip(1)[p]@
                    != l.skip(1)[q]@ by {
                    assert(l[p + 1]@ != l[q + 1]@);
                }
            }
            assert(!has_name(l.skip(1), x@)) by {
                if has_name(l.skip(1), x@) {
                    let j = choose|j: int| 0 <= j < l.skip(1).len() && l.skip(1)[j]@ == x@;
                    assert(l[j + 1]@ == x@);
                    assert(has_name(l, x@));
                }
            }
            assert forall|p: int, q: int| 0 <= p < q < r.len() implies r[p]@ != r[q]@ by {
                if p == 0 {
                    assert(r[q] == rest[q - 1]);
                    assert(has_name(rest, rest[q - 1]@)) by {
                        assert(rest[q - 1]@ == rest[q - 1]@);
                    }
                    if l[0]@ == rest[q - 1]@ {
                        if has_name(l.skip(1), l[0]@) {
                            let j = choose|j: int|
                                0 <= j < l.skip(1).len() && l.skip(1)[j]@ == l[0]@;
                            assert(l[j + 1]@ == l[0]@);
                        }
                    }
                } else {
                    assert(r[p] == rest[p - 1] && r[q] == rest[q - 1]);
                }
            }
        }
    } else {
        assert(r =~= seq![x] + l);
        assert forall|n: Seq<char>| #[trigger] has_name(r, n) == (has_name(l, n) || n == x@) by {
            if has_name(r, n) {
                let i = choose|i: int| 0 <= i < r.len() && r[i]@ == n;
                if i > 0 {
                    assert(l[i - 1]@ == n);
                }
            }
            if has_name(l, n) {
                let i = choose|i: int| 0 <= i < l.len() && l[i]@ == n;
                assert(r[i + 1]@ == n);
            }
            if n == x@ {
                assert(r[0]@ == n);
            }
        }
        if names_nodup(l) && !has_name(l, x@) {
            assert forall|p: int, q: int| 0 <= p < q < r.len() implies r[p]@ != r[q]@ by {
                if p == 0 {
                    assert(r[q] == l[q - 1]);
                    if x@ == l[q - 1]@ {
                        assert(has_name(l, x@));
                    }
                } else {
                    assert(r[p] == l[p - 1] && r[q] == l[q - 1]);
                }
            }
        }
    }
}

/// Sorting by degree keeps the names, the length and distinctness.
proof fn lemma_sort_deg_names(dm: Table<u64>, l: Seq<String>)
    ensures
        spec_sort_deg(dm, l).len() == l.len(),
        forall|n: Seq<char>| #[trigger] has_name(spec_sort_deg(dm, l), n) == has_name(l, n),
        names_nodup(l) ==> names_nodup(spec_sort_deg(dm, l)),
    decreases l.len(),
{
    if l.len() > 0 {
        lemma_sort_deg_names(dm, l.drop_last());
        lemma_insert_deg_names(dm, l.last(), spec_sort_deg(dm, l.drop_last()));
        assert forall|n: Seq<char>| #[trigger] has_name(spec_sort_deg(dm, l), n) == has_name(
            l,
            n,
        ) by {
            assert(has_name(l, n) == (has_name(l.drop_last(), n) || n == l.last()@)) by {
                if has_name(l.drop_last(), n) {
                    let i = choose|i: int| 0 <= i < l.drop_last().len() && l.drop_last()[i]@ == n;
                    assert(l[i]@ == n);
                }
                if n == l.last()@ {
                    assert(l[l.len() - 1]@ == n);
                }
                if has_name(l, n) {
                    let i = choose|i: int| 0 <= i < l.len() && l[i]@ == n;
                    if i < l.len() - 1 {
                        assert(l.drop_last()[i]@ == n);
                    }
                }
            }
        }
        if names_nodup(l) {
            assert(names_nodup(l.drop_last())) by {
                assert forall|p: int, q: int|
                    0 <= p < q < l.drop_last().len() implies l.drop_last()[p]@
                    != l.drop_last()[q]@ by {
                    assert(l[p]@ != l[q]@);
                }
            }
            assert(!has_name(l.drop_last(), l.last()@)) by {
                if has_name(l.drop_last(), l.last()@) {
                    let i = choose|i: int|
                        0 <= i < l.drop_last().len() && l.drop_last()[i]@ == l.last()@;
                    assert(l[i]@ == l[l.len() - 1]@);
                }
            }
        }
    }
}

/// The insertion point found by scanning gives exactly the stable
/// insertion.
proof fn lemma_insert_deg_at(dm: Table<u64>, x: String, l: Seq<String>, p: int)
    requires
        0 <= p <= l.len(),
        forall|q: int| 0 <= q < p ==> dm.count_of((#[trigger] l[q])@) >= dm.count_of(x@),
        p < l.len() ==> dm.count_of(l[p]@) < dm.count_of(x@),
    ensures
        spec_insert_deg(dm, x, l) == l.take(p) + seq![x] + l.skip(p),
    decreases p,
{
    if p == 0 {
        if l.len() == 0 {
            assert(spec_insert_deg(dm, x, l) =~= l.take(0) + seq![x] + l.skip(0));
        } else {
            assert(spec_insert_deg(dm, x, l) =~= l.take(0) + seq![x] + l.skip(0));
        }
    } else {
        assert(dm.count_of(l[0]@) >= dm.count_of(x@));
        assert forall|q: int| 0 <= q < p - 1 implies dm.count_of(
            (#[trigger] l.skip(1)[q])@,
        ) >= dm.count_of(x@) by {
            assert(l.skip(1)[q] == l[q + 1]);
        }
        lemma_insert_deg_at(dm, x, l.skip(1), p - 1);
        assert(spec_insert_deg(dm, x, l) =~= seq![l[0]] + (l.skip(1).take(p - 1) + seq![x]
            + l.skip(1).skip(p - 1)));
        assert(seq![l[0]] + l.skip(1).take(p - 1) =~= l.take(p));
        assert(l.skip(1).skip(p - 1) =~= l.skip(p));
        assert(spec_insert_deg(dm, x, l) =~= l.take(p) + seq![x] + l.skip(p));
    }
}

/// The degree a table assigns a card; zero when absent.
fn deg_of(dm: &Table<u64>, s: &str) -> (r: u64)
    requires
        dm.wf(),
    ensures
        r == dm.count_of(s@),
{
    match dm.get(s) {
        Some(c) => *c,
        None => 0,
    }
}

/// Sorts a card list by descending degree with a stable insertion sort.
#[verifier::rlimit(60)]
fn sort_by_degree(dm: &Table<u64>, v: &Vec<String>) -> (r: Vec<String>)
    requires
        dm.wf(),
    ensures
        r@ == spec_sort_deg(*dm, v@),
{
    let mut out: Vec<String> = Vec::new();
    let mut idx: usize = 0;
    proof {
        assert(v@.take(0) =~= Seq::<String>::empty());
    }
    while idx < v.len()
        invariant
            idx <= v@.len(),
            dm.wf(),
            out@ == spec_sort_deg(*dm, v@.take(idx as int)),
        decreases v@.len() - idx,
    {
        let x: String = v[idx].clone();
        let dx: u64 = match dm.get(x.as_str()) {
            Some(c) => *c,
            None => 0,
        };
        proof {
            assert(dx == dm.count_of(x@));
        }
        let mut p: usize = 0;
        while p < out.len() && deg_of(dm, out[p].as_str()) >= dx
            invariant
                p <= out@.len(),
                dm.wf(),
                dx == dm.count_of(x@),
                forall|q: int|
                    0 <= q < p ==> dm.count_of((#[trigger] out@[q])@) >= dm.count_of(x@),
            decreases out@.len() - p,
        {
            p = p + 1;
        }
        let ghost before = out@;
        out.insert(p, x);
        proof {
            lemma_insert_deg_at(*dm, x, before, p as int);
            before.insert_ensures(p as int, x);
            assert(out@ =~= before.take(p as int) + seq![x] + before.skip(p as int));
            assert(v@.take(idx + 1).drop_last() =~= v@.take(idx as int));
            assert(v@.take(idx + 1).last() == v@[idx as int]);
        }
        idx = idx + 1;
    }
    proof {
        assert(v@.take(v@.len() as int) =~= v@);
    }
    out
}

/// Copies a range of a card list.
fn copy_range(v: &Vec<String>, from: usize, to: usize) -> (r: Vec<String>)
    requires
        from <= to <= v@.len(),
    ensures
        r@ == v@.subrange(from as int, to as int),
{
    let mut out: Vec<String> = Vec::new();
    let mut i: usize = from;
    proof {
        assert(out@ =~= v@.subrange(from as int, from as int));
    }
    while i < to
        invariant
            from <= i <= to <= v@.len(),
            out@ == v@.subrange(from as int, i as int),
        decreases to - i,
    {
        out.push(v[i].clone());
        proof {
            assert(out@ =~= v@.subrange(from as int, i + 1));
        }
        i = i + 1;
    }
    out
}

/// Tops the selection up to `want` cards from the pool, in pool order.
fn fill_from(result: &mut Vec<String>, pool: &Vec<String>, want: usize)
    ensures
        final(result)@ == spec_fill(old(result)@, pool@, want as int),
{
    let mut i: usize = 0;
    proof {
        assert(pool@.skip(0) =~= pool@);
    }
    while i < pool.len()
        invariant
            i <= pool@.len(),
            spec_fill(result@, pool@.skip(i as int), want as int) == spec_fill(
                old(result)@,
                pool@,
                want as int,
            ),
        decreases pool@.len() - i,
    {
        let ghost cur = result@;
        if result.len() < want && !vec_has_name(result, pool[i].as_str()) {
            result.push(pool[i].clone());
        }
        proof {
            assert(pool@.skip(i as int)[0] == pool@[i as int]);
            assert(pool@.skip(i as int).skip(1) =~= pool@.skip(i + 1));
            if cur.len() >= want {
                assert(result@ == cur);
                assert(spec_fill(cur, pool@.skip(i as int), want as int) == cur);
                assert(spec_fill(result@, pool@.skip(i + 1), want as int) == result@);
            } else if has_name(cur, pool@[i as int]@) {
                assert(result@ == cur);
            } else {
                assert(result@ =~= cur.push(pool@[i as int]));
            }
        }
        i = i + 1;
    }
    proof {
        assert(pool@.skip(pool@.len() as int) =~= Seq::<String>::empty());
    }
}

impl QueryGenerator {
    /// The cards that remain after the exclusions, in table order.
    fn available(&self, exclude: &Vec<String>) -> (r: Vec<String>)
        requires
            self.wf(),
        ensures
            r@ == spec_available(self.cards@, exclude@),
            names_nodup(r@),
            r@.len() <= self.cards@.len(),
    {
        let mut out: Vec<String> = Vec::new();
        let mut i: usize = 0;
        proof {
            assert(self.cards@.take(0) =~= Seq::<String>::empty());
            assert(names_nodup(self.cards@)) by {
                assert forall|p: int, q: int|
                    0 <= p < q < self.cards@.len() implies self.cards@[p]@
                    != self.cards@[q]@ by {
                    assert(self.cards@[p] == self.degree_map.entries@[p].0);
                    assert(self.cards@[q] == self.degree_map.entries@[q].0);
                }
            }
        }
        while i < self.cards.len()
            invariant
                i <= self.cards@.len(),
                names_nodup(self.cards@),
                out@ == spec_available(self.cards@.take(i as int), exclude@),
                names_nodup(out@),
                out@.len() <= i,
                forall|n: Seq<char>|
                    #[trigger] has_name(out@, n) ==> has_name(self.cards@.take(i as int), n),
            decreases self.cards@.len() - i,
        {
            let ghost cur = out@;
            if !vec_has_name(exclude, self.cards[i].as_str()) {
                out.push(self.cards[i].clone());
                proof {
                    assert(!has_name(cur, self.cards@[i as int]@)) by {
                        if has_name(cur, self.cards@[i as int]@) {
                            assert(has_name(self.cards@.take(i as int), self.cards@[i as int]@));
                            let w = choose|w: int|
                                0 <= w < i && #[trigger] self.cards@.take(i as int)[w]@
                                    == self.cards@[i as int]@;
                            assert(self.cards@[w]@ == self.cards@[i as int]@);
                        }
                    }
                }
            }
            proof {
                assert(self.cards@.take(i + 1).drop_last() =~= self.cards@.take(i as int));
                assert(self.cards@.take(i + 1).last() == self.cards@[i as int]);
                if !has_name(exclude@, self.cards@[i as int]@) {
                    assert(out@ =~= cur.push(self.cards@[i as int]));
                }
                assert forall|n: Seq<char>| #[trigger] has_name(out@, n) implies has_name(
                    self.cards@.take(i + 1),
                    n,
                ) by {
                    let w = choose|w: int| 0 <= w < out@.len() && out@[w]@ == n;
                    if w < cur.len() {
                        assert(has_name(cur, n));
                        let w2 = choose|w2: int|
                            0 <= w2 < i && #[trigger] self.cards@.take(i as int)[w2]@ == n;
                        assert(self.cards@.take(i + 1)[w2]@ == n);
                    } else {
                        assert(self.cards@.take(i + 1)[i as int]@ == n);
                    }
                }
                assert(names_nodup(out@)) by {
                    if !has_name(exclude@, self.cards@[i as int]@) {
                        assert forall|p: int, q: int| 0 <= p < q < out@.len() implies out@[p]@
                            != out@[q]@ by {
                            if q == out@.len() - 1 && out@.len() > cur.len() {
                                if out@[p]@ == self.cards@[i as int]@ {
                                    assert(has_name(cur, self.cards@[i as int]@));
                                    let w = choose|w: int|
                                        0 <= w < i && #[trigger] self.cards@.take(i as int)[w]@
                                            == self.cards@[i as int]@;
                                    assert(self.cards@[w]@ == self.cards@[i as int]@);
                                }
                            }
                        }
                    }
                }
            }
            i = i + 1;
        }
        proof {
            assert(self.cards@.take(self.cards@.len() as int) =~= self.cards@);
        }
        out
    }

    /// Draws a deterministic query sample: a pure function of the
    /// generator, the request, the strategy, the exclusions and the
    /// seed, so identical inputs reproduce identical outputs. The
    /// stratified strategy returns exactly the smaller of the request
    /// and the number of available cards.
    #[verifier::rlimit(100)]
    pub fn sample(&self, n: usize, strategy: QueryStrategy, exclude: &Vec<String>, seed: u64) -> (r:
        Vec<String>)
        requires
            self.wf(),
            self.cards@.len() <= 0x1000_0000,
        ensures
            r@ == spec_sample(*self, n as int, strategy, exclude@, seed),
            strategy == QueryStrategy::Stratified ==> r@.len() == spec_min(
                n as int,
                spec_available(self.cards@, exclude@).len() as int,
            ),
    {
        let mut avail: Vec<String> = self.available(exclude);
        let mut rng: SeededRng = SeededRng::new(seed);
        match strategy {
            QueryStrategy::Random => {
                shuffle(&mut rng, &mut avail);
                let m: usize = if n < avail.len() {
                    n
                } else {
                    avail.len()
                };
                avail.truncate(m);
                proof {
                    assert(avail@ =~= spec_sample(*self, n as int, strategy, exclude@, seed));
                }
                avail
            },
            QueryStrategy::Popular => {
                let mut sorted: Vec<String> = sort_by_degree(&self.degree_map, &avail);
                let m: usize = if n < avail.len() {
                    n
                } else {
                    avail.len()
                };
                proof {
                    lemma_sort_deg_names(self.degree_map, avail@);
                }
                sorted.truncate(m);
                proof {
                    assert(sorted@ =~= spec_sample(*self, n as int, strategy, exclude@, seed));
                }
                sorted
            },
            QueryStrategy::Stratified => {
                let sorted: Vec<String> = sort_by_degree(&self.degree_map, &avail);
                proof {
                    lemma_sort_deg_names(self.degree_map, avail@);
                }
                let len: usize = sorted.len();
                let n2: usize = if n < len {
                    n
                } else {
                    len
                };
                let n_third: usize = if n2 / 3 >= 1 {
                    n2 / 3
                } else {
                    1
                };
                let b1: usize = len / 3;
                let b2: usize = (2 * len) / 3;
                let mut high: Vec<String> = copy_range(&sorted, 0, b1);
                let mut mid: Vec<String> = copy_range(&sorted, b1, b2);
                let mut low: Vec<String> = copy_range(&sorted, b2, len);
                proof {
                    assert(high@ =~= sorted@.take(b1 as int));
                    assert(low@ =~= sorted@.skip(b2 as int));
                }
                shuffle(&mut rng, &mut high);
                let mh: usize = if n_third < b1 {
                    n_third
                } else {
                    b1
                };
                high.truncate(mh);
                shuffle(&mut rng, &mut mid);
                mid.truncate(mh_cap(n_third, b1));
                shuffle(&mut rng, &mut low);
                let want_low: usize = if n2 > 2 * n_third {
                    n2 - 2 * n_third
                } else {
                    0
                };
                let ml: usize = if want_low < low.len() {
                    want_low
                } else {
                    low.len()
                };
                low.truncate(ml);
                let mut picked: Vec<String> = high;
                picked.append(&mut mid);
                picked.append(&mut low);
                let ghost base = picked@;
                fill_from(&mut picked, &sorted, n2);
                let m3: usize = if n2 < picked.len() {
                    n2
                } else {
                    picked.len()
                };
                picked.truncate(m3);
                proof {
                    let st = spec_stratified(
                        self.degree_map,
                        spec_available(self.cards@, exclude@),
                        n as int,
                        seed,
                    );
                    assert(base =~= spec_shuffle(sorted@.take(b1 as int), seed).0.take(
                        spec_min(n_third as int, b1 as int),
                    ) + spec_shuffle(
                        sorted@.subrange(b1 as int, b2 as int),
                        spec_shuffle(sorted@.take(b1 as int), seed).1,
                    ).0.take(spec_min(n_third as int, b1 as int)) + spec_shuffle(
                        sorted@.skip(b2 as int),
                        spec_shuffle(
                            sorted@.subrange(b1 as int, b2 as int),
                            spec_shuffle(sorted@.take(b1 as int), seed).1,
                        ).1,
                    ).0.take(spec_min(want_low as int, (len - b2) as int)));
                }
                shuffle(&mut rng, &mut picked);
                proof {
                    lemma_stratified_len(
                        self.degree_map,
                        spec_available(self.cards@, exclude@),
                        n as int,
                        seed,
                    );
                    assert(picked@ =~= spec_sample(*self, n as int, strategy, exclude@, seed));
                }
                picked
            },
        }
    }
}

/// The mid tier draws at most a third of the list, like the high tier.
fn mh_cap(n_third: usize, b1: usize) -> (r: usize)
    ensures
        r == spec_min(n_third as int, b1 as int),
{
    if n_third < b1 {
        n_third
    } else {
        b1
    }
}

/// The stratified draw returns exactly the smaller of the request and
/// the available count.
#[verifier::rlimit(60)]
proof fn lemma_stratified_len(dm: Table<u64>, avail: Seq<String>, n: int, seed: u64)
    requires
        names_nodup(avail),
        0 <= n,
        avail.len() <= 0x1000_0000,
    ensures
        spec_stratified(dm, avail, n, seed).len() == spec_min(n, avail.len() as int),
{
    lemma_sort_deg_names(dm, avail);
    let sorted = spec_sort_deg(dm, avail);
    let len = sorted.len() as int;
    let n2 = spec_min(n, len);
    let n_third = if n2 / 3 >= 1 {
        n2 / 3
    } else {
        1
    };
    let b1 = len / 3;
    let b2 = (2 * len) / 3;
    let hs = spec_shuffle(sorted.take(b1), seed);
    let picked_h = hs.0.take(spec_min(n_third, b1));
    let ms = spec_shuffle(sorted.subrange(b1, b2), hs.1);
    let picked_m = ms.0.take(spec_min(n_third, b1));
    let ls = spec_shuffle(sorted.skip(b2), ms.1);
    let want_low = if n2 > 2 * n_third {
        n2 - 2 * n_third
    } else {
        0
    };
    let picked_l = ls.0.take(spec_min(want_low, len - b2));
    let base = picked_h + picked_m + picked_l;
    crate::rng::lemma_shuffle_pure_props(sorted.take(b1), seed);
    crate::rng::lemma_shuffle_pure_props(sorted.subrange(b1, b2), hs.1);
    crate::rng::lemma_shuffle_pure_props(sorted.skip(b2), ms.1);
    assert(names_nodup(sorted.take(b1)) && names_nodup(sorted.subrange(b1, b2)) && names_nodup(
        sorted.skip(b2),
    )) by {
        assert(forall|p: int, q: int|
            0 <= p < q < b1 ==> (#[trigger] sorted.take(b1)[p])@ != (#[trigger] sorted.take(
                b1,
            )[q])@);
        assert(forall|p: int, q: int|
            0 <= p < q < b2 - b1 ==> (#[trigger] sorted.subrange(b1, b2)[p])@ != (
            #[trigger] sorted.subrange(b1, b2)[q])@);
        assert(forall|p: int, q: int|
            0 <= p < q < len - b2 ==> (#[trigger] sorted.skip(b2)[p])@ != (
            #[trigger] sorted.skip(b2)[q])@);
    }
    lemma_prefix_names(picked_h, hs.0);
    lemma_prefix_names(picked_m, ms.0);
    lemma_prefix_names(picked_l, ls.0);
    lemma_tier_base_props(sorted, b1, b2, picked_h, picked_m, picked_l);
    let filled = spec_fill(base, sorted, n2);
    assert(filled.len() >= n2) by {
        if base.len() >= n2 {
            assert(filled == base);
        } else {
            lemma_fill_props(base, sorted, n2);
            if filled.len() < n2 {
                assert(forall|nn: Seq<char>| #[trigger] has_name(sorted, nn) ==> has_name(
                    filled,
                    nn,
                ));
                lemma_name_count(sorted, filled);
                assert(sorted.len() <= filled.len());
                assert(n2 <= len);
                assert(false);
            }
        }
    }
    assert(spec_min(n2, filled.len() as int) == n2);
    assert(filled.take(n2).len() == n2);
    crate::rng::lemma_shuffle_pure_props(filled.take(spec_min(n2, filled.len() as int)), ls.1);
}

/// A prefix of a list has no names of its own and keeps distinctness.
proof fn lemma_prefix_names(pre: Seq<String>, full: Seq<String>)
    requires
        exists|m: int| 0 <= m <= full.len() && pre == full.take(m),
    ensures
        forall|nn: Seq<char>| #[trigger] has_name(pre, nn) ==> has_name(full, nn),
        names_nodup(full) ==> names_nodup(pre),
{
    let m = choose|m: int| 0 <= m <= full.len() && pre == full.take(m);
    assert forall|nn: Seq<char>| #[trigger] has_name(pre, nn) implies has_name(full, nn) by {
        let w = choose|w: int| 0 <= w < pre.len() && pre[w]@ == nn;
        assert(full[w]@ == nn);
    }
    if names_nodup(full) {
        assert forall|p: int, q: int| 0 <= p < q < pre.len() implies pre[p]@ != pre[q]@ by {
            assert(full[p]@ != full[q]@);
        }
    }
}

/// Tier picks are duplicate-free, mutually disjoint, and drawn from the
/// sorted list.
proof fn lemma_tier_base_props(
    sorted: Seq<String>,
    b1: int,
    b2: int,
    picked_h: Seq<String>,
    picked_m: Seq<String>,
    picked_l: Seq<String>,
)
    requires
        names_nodup(sorted),
        0 <= b1 <= b2 <= sorted.len(),
        forall|nn: Seq<char>| #[trigger] has_name(picked_h, nn) ==> has_name(sorted.take(b1), nn),
        forall|nn: Seq<char>|
            #[trigger] has_name(picked_m, nn) ==> has_name(sorted.subrange(b1, b2), nn),
        forall|nn: Seq<char>| #[trigger] has_name(picked_l, nn) ==> has_name(sorted.skip(b2), nn),
        names_nodup(picked_h),
        names_nodup(picked_m),
        names_nodup(picked_l),
    ensures
        names_nodup(picked_h + picked_m + picked_l),
        forall|nn: Seq<char>|
            #[trigger] has_name(picked_h + picked_m + picked_l, nn) ==> has_name(sorted, nn),
{
    let base = picked_h + picked_m + picked_l;
    assert forall|nn: Seq<char>| #[trigger] has_name(base, nn) implies has_name(sorted, nn) by {
        let w = choose|w: int| 0 <= w < base.len() && base[w]@ == nn;
        if w < picked_h.len() {
            assert(picked_h[w]@ == nn);
            assert(has_name(picked_h, nn));
            let v = choose|v: int| 0 <= v < b1 && #[trigger] sorted.take(b1)[v]@ == nn;
            assert(sorted[v]@ == nn);
        } else if w < picked_h.len() + picked_m.len() {
            assert(picked_m[w - picked_h.len()]@ == nn);
            assert(has_name(picked_m, nn));
            let v = choose|v: int|
                0 <= v < b2 - b1 && #[trigger] sorted.subrange(b1, b2)[v]@ == nn;
            assert(sorted[b1 + v]@ == nn);
        } else {
            assert(picked_l[w - picked_h.len() - picked_m.len()]@ == nn);
            assert(has_name(picked_l, nn));
            let v = choose|v: int|
                0 <= v < sorted.len() - b2 && #[trigger] sorted.skip(b2)[v]@ == nn;
            assert(sorted[b2 + v]@ == nn);
        }
    }
    assert forall|p: int, q: int| 0 <= p < q < base.len() implies base[p]@ != base[q]@ by {
        let hp = picked_h.len();
        let hm = picked_h.len() + picked_m.len();
        if base[p]@ == base[q]@ {
            if p < hp && q < hp {
                assert(picked_h[p]@ != picked_h[q]@);
            } else if hp <= p && p < hm && hp <= q && q < hm {
                assert(picked_m[p - hp]@ != picked_m[q - hp]@);
            } else if hm <= p && hm <= q {
                assert(picked_l[p - hm]@ != picked_l[q - hm]@);
            } else if p < hp && hp <= q && q < hm {
                assert(has_name(picked_h, base[p]@)) by {
                    assert(picked_h[p]@ == base[p]@);
                }
                assert(has_name(picked_m, base[q]@)) by {
                    assert(picked_m[q - hp]@ == base[q]@);
                }
                let v1 = choose|v: int| 0 <= v < b1 && #[trigger] sorted.take(b1)[v]@ == base[p]@;
                let v2 = choose|v: int|
                    0 <= v < b2 - b1 && #[trigger] sorted.subrange(b1, b2)[v]@ == base[q]@;
                assert(sorted[v1]@ == sorted[b1 + v2]@);
            } else if p < hp && hm <= q {
                assert(has_name(picked_h, base[p]@)) by {
                    assert(picked_h[p]@ == base[p]@);
                }
                assert(has_name(picked_l, base[q]@)) by {
                    assert(picked_l[q - hm]@ == base[q]@);
                }
                let v1 = choose|v: int| 0 <= v < b1 && #[trigger] sorted.take(b1)[v]@ == base[p]@;
                let v2 = choose|v: int|
                    0 <= v < sorted.len() - b2 && #[trigger] sorted.skip(b2)[v]@ == base[q]@;
                assert(sorted[v1]@ == sorted[b2 + v2]@);
            } else {
                assert(hp <= p && p < hm && hm <= q);
                assert(has_name(picked_m, base[p]@)) by {
                    assert(picked_m[p - hp]@ == base[p]@);
                }
                assert(has_name(picked_l, base[q]@)) by {
                    assert(picked_l[q - hm]@ == base[q]@);
                }
                let v1 = choose|v: int|
                    0 <= v < b2 - b1 && #[trigger] sorted.subrange(b1, b2)[v]@ == base[p]@;
                let v2 = choose|v: int|
                    0 <= v < sorted.len() - b2 && #[trigger] sorted.skip(b2)[v]@ == base[q]@;
                assert(sorted[b1 + v1]@ == sorted[b2 + v2]@);
            }
        }
    }
}


/// The three tier draws of a stratified sample: what the shuffles of
/// the top, middle and bottom degree tiers contribute before top-up.
pub open spec fn spec_stratified_parts(dm: Table<u64>, avail: Seq<String>, n: int, seed: u64) -> (
    Seq<String>,
    Seq<String>,
    Seq<String>,
) {
    let sorted = spec_sort_deg(dm, avail);
    let len = sorted.len() as int;
    let n2 = spec_min(n, len);
    let n_third = if n2 / 3 >= 1 {
        n2 / 3
    } else {
        1
    };
    let b1 = len / 3;
    let b2 = (2 * len) / 3;
    let hs = spec_shuffle(sorted.take(b1), seed);
    let picked_h = hs.0.take(spec_min(n_third, b1));
    let ms = spec_shuffle(sorted.subrange(b1, b2), hs.1);
    let picked_m = ms.0.take(spec_min(n_third, b1));
    let ls = spec_shuffle(sorted.skip(b2), ms.1);
    let want_low = if n2 > 2 * n_third {
        n2 - 2 * n_third
    } else {
        0
    };
    let picked_l = ls.0.take(spec_min(want_low, len - b2));
    (picked_h, picked_m, picked_l)
}

/// Stratified sampling draws about a third of the request from each of
/// the three degree tiers: when every tier holds enough cards, the
/// sample consists exactly of the three tier draws, with `n / 3` cards
/// from the top-degree third, `n / 3` from the middle third and the
/// remaining `n - 2 * (n / 3)` from the bottom third, each draw taken
/// from its own tier of the degree-sorted cards.
#[verifier::rlimit(100)]
pub proof fn lemma_stratified_tier_composition(
    dm: Table<u64>,
    avail: Seq<String>,
    n: int,
    seed: u64,
)
    requires
        names_nodup(avail),
        3 <= n,
        3 * n <= avail.len(),
        avail.len() <= 0x1000_0000,
    ensures
        spec_stratified(dm, avail, n, seed).to_multiset() == (spec_stratified_parts(
            dm,
            avail,
            n,
            seed,
        ).0 + spec_stratified_parts(dm, avail, n, seed).1 + spec_stratified_parts(
            dm,
            avail,
            n,
            seed,
        ).2).to_multiset(),
        spec_stratified_parts(dm, avail, n, seed).0.len() == n / 3,
        spec_stratified_parts(dm, avail, n, seed).1.len() == n / 3,
        spec_stratified_parts(dm, avail, n, seed).2.len() == n - 2 * (n / 3),
        forall|i: int|
            0 <= i < n / 3 ==> has_name(
                spec_sort_deg(dm, avail).take(avail.len() as int / 3),
                (#[trigger] spec_stratified_parts(dm, avail, n, seed).0[i])@,
            ),
        forall|i: int|
            0 <= i < n / 3 ==> has_name(
                spec_sort_deg(dm, avail).subrange(
                    avail.len() as int / 3,
                    (2 * avail.len()) as int / 3,
                ),
                (#[trigger] spec_stratified_parts(dm, avail, n, seed).1[i])@,
            ),
        forall|i: int|
            0 <= i < n - 2 * (n / 3) ==> has_name(
                spec_sort_deg(dm, avail).skip((2 * avail.len()) as int / 3),
                (#[trigger] spec_stratified_parts(dm, avail, n, seed).2[i])@,
            ),
{
    lemma_sort_deg_names(dm, avail);
    let sorted = spec_sort_deg(dm, avail);
    let len = sorted.len() as int;
    let n2 = spec_min(n, len);
    assert(n2 == n);
    let n_third = n / 3;
    assert(n / 3 >= 1);
    let b1 = len / 3;
    let b2 = (2 * len) / 3;
    assert(len == 3 * (len / 3) + len % 3);
    assert(b1 >= n) by (nonlinear_arith)
        requires
            3 * n <= len,
            b1 == len / 3,
            len == 3 * (len / 3) + len % 3,
            0 <= len % 3 < 3,
    ;
    assert(3 * b2 <= 2 * len && 0 <= b2) by (nonlinear_arith)
        requires
            b2 == (2 * len) / 3,
            0 <= len,
    ;
    assert(len - b2 >= n) by (nonlinear_arith)
        requires
            3 * b2 <= 2 * len,
            3 * n <= len,
    ;
    assert(b2 <= len);
    assert(b1 <= b2) by (nonlinear_arith)
        requires
            b1 == len / 3,
            b2 == (2 * len) / 3,
            0 <= len,
    ;
    assert(n == 3 * (n / 3) + n % 3);
    let want_low = n - 2 * n_third;
    assert(want_low == n / 3 + n % 3);
    assert(n > 2 * n_third);
    assert(want_low <= n);
    let hs = spec_shuffle(sorted.take(b1), seed);
    crate::rng::lemma_shuffle_pure_props(sorted.take(b1), seed);
    let picked_h = hs.0.take(spec_min(n_third, b1));
    assert(spec_min(n_third, b1) == n / 3);
    assert(picked_h.len() == n / 3);
    let ms = spec_shuffle(sorted.subrange(b1, b2), hs.1);
    crate::rng::lemma_shuffle_pure_props(sorted.subrange(b1, b2), hs.1);
    let picked_m = ms.0.take(spec_min(n_third, b1));
    assert(picked_m.len() == n / 3) by {
        assert(ms.0.len() == b2 - b1);
        assert(b2 - b1 >= b1 - b1 + 0);
        assert(b2 - b1 >= n / 3) by (nonlinear_arith)
            requires
                b1 == len / 3,
                b2 == (2 * len) / 3,
                len == 3 * (len / 3) + len % 3,
                0 <= len % 3 < 3,
                3 * b2 <= 2 * len,
                2 * len == 3 * ((2 * len) / 3) + (2 * len) % 3,
                0 <= (2 * len) % 3 < 3,
                b1 >= n,
                n / 3 <= n,
        ;
    }
    let ls = spec_shuffle(sorted.skip(b2), ms.1);
    crate::rng::lemma_shuffle_pure_props(sorted.skip(b2), ms.1);
    let picked_l = ls.0.take(spec_min(want_low, len - b2));
    assert(spec_min(want_low, len - b2) == want_low);
    assert(picked_l.len() == want_low);
    let base = picked_h + picked_m + picked_l;
    assert(base.len() == n);
    let filled = spec_fill(base, sorted, n2);
    assert(filled == base);
    assert(filled.take(spec_min(n2, filled.len() as int)) =~= base);
    crate::rng::lemma_shuffle_pure_props(base, ls.1);
    assert(spec_stratified(dm, avail, n, seed).to_multiset() == base.to_multiset());
    assert forall|i: int| 0 <= i < n / 3 implies has_name(
        sorted.take(b1),
        (#[trigger] picked_h[i])@,
    ) by {
        assert(picked_h[i] == hs.0[i]);
        assert(has_name(hs.0, hs.0[i]@)) by {
            assert(hs.0[i]@ == hs.0[i]@);
        }
    }
    assert forall|i: int| 0 <= i < n / 3 implies has_name(
        sorted.subrange(b1, b2),
        (#[trigger] picked_m[i])@,
    ) by {
        assert(picked_m[i] == ms.0[i]);
        assert(has_name(ms.0, ms.0[i]@)) by {
            assert(ms.0[i]@ == ms.0[i]@);
        }
    }
    assert forall|i: int| 0 <= i < want_low implies has_name(
        sorted.skip(b2),
        (#[trigger] picked_l[i])@,
    ) by {
        assert(picked_l[i] == ls.0[i]);
        assert(has_name(ls.0, ls.0[i]@)) by {
            assert(ls.0[i]@ == ls.0[i]@);
        }
    }
}

/// Fixed-seed sampling is fully reproducible: two draws with the same
/// generator, request, strategy, exclusions and seed are equal.
pub proof fn lemma_sample_reproducible(
    g: QueryGenerator,
    n: int,
    strategy: QueryStrategy,
    excl: Seq<String>,
    seed: u64,
    r1: Seq<String>,
    r2: Seq<String>,
)
    requires
        r1 == spec_sample(g, n, strategy, excl, seed),
        r2 == spec_sample(g, n, strategy, excl, seed),
    ensures
        r1 == r2,
{
}

} // verus!
