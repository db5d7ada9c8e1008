//! Explicitly seeded deterministic pseudo-random generator.
//!
//! Query sampling and bootstrap resampling must be reproducible: the same
//! seed and the same inputs give the same draws on every run. The
//! generator is therefore part of the library and fully specified: a
//! wyrand step (an additive constant followed by a 64x64 multiply whose
//! halves are folded), with bounded draws reduced by modulus.

use vstd::prelude::*;

use crate::table::{has_name, names_nodup, vec_set};

verus! {

/// Additive state constant of the wyrand step.
pub const WY_INC: u64 = 0x2d35_8dcc_aa6c_78a5;

/// Multiplier mask of the wyrand output mix.
pub const WY_MIX: u64 = 0x8bb8_4b93_962e_acc9;

/// The state that follows `s`.
pub open spec fn wy_next(s: u64) -> u64 {
    if s + WY_INC > u64::MAX {
        (s + WY_INC - 0x1_0000_0000_0000_0000) as u64
    } else {
        (s + WY_INC) as u64
    }
}

/// The output word drawn from state `s`: the low and high halves of
/// `s * (s ^ WY_MIX)` folded together.
pub open spec fn wy_out(s: u64) -> u64 {
    let t = (s as int) * ((s ^ WY_MIX) as int);
    (((t % 0x1_0000_0000_0000_0000) as u64) ^ ((t / 0x1_0000_0000_0000_0000) as u64))
}

/// A draw below `n` advances the state once and reduces the output.
pub open spec fn wy_below(s: u64, n: u64) -> u64 {
    wy_out(wy_next(s)) % n
}

/// A deterministic generator seeded with a caller-chosen value.
pub struct SeededRng {
    pub state: u64,
}

impl SeededRng {
    pub fn new(seed: u64) -> (r: SeededRng)
        ensures
            r.state == seed,
    {
        SeededRng { state: seed }
    }

    /// Draws the next word.
    pub fn next_u64(&mut self) -> (r: u64)
        ensures
            final(self).state == wy_next(old(self).state),
            r == wy_out(final(self).state),
    {
        let s: u64 = self.state.wrapping_add(WY_INC);
        self.state = s;
        let a: u128 = s as u128;
        let b: u128 = (s ^ WY_MIX) as u128;
        proof {
            assert(a * b <= u128::MAX) by (nonlinear_arith)
                requires
                    a <= 0xffff_ffff_ffff_ffffu128,
                    b <= 0xffff_ffff_ffff_ffffu128,
            ;
        }
        let t: u128 = a * b;
        proof {
            assert(t / 0x1_0000_0000_0000_0000u128 < 0x1_0000_0000_0000_0000u128)
                by (nonlinear_arith)
                requires
                    t <= u128::MAX,
            ;
        }
        let lo: u64 = (t % 0x1_0000_0000_0000_0000u128) as u64;
        let hi: u64 = (t / 0x1_0000_0000_0000_0000u128) as u64;
        lo ^ hi
    }

    /// Draws a value below `n`.
    pub fn next_below(&mut self, n: u64) -> (r: u64)
        requires
            n >= 1,
        ensures
            final(self).state == wy_next(old(self).state),
            r == wy_below(old(self).state, n),
            r < n,
    {
        let w: u64 = self.next_u64();
        w % n
    }

    /// Draws an index below `n`.
    pub fn index_below(&mut self, n: usize) -> (r: usize)
        requires
            n >= 1,
        ensures
            final(self).state == wy_next(old(self).state),
            r == wy_below(old(self).state, n as u64),
            r < n,
    {
        let w: u64 = self.next_below(n as u64);
        w as usize
    }
}

/// The list after a Fisher-Yates pass from position `i` down to 1,
/// with the state that remains.
pub open spec fn spec_shuffle_from(v: Seq<String>, st: u64, i: int) -> (Seq<String>, u64)
    decreases i,
{
    if i < 1 {
        (v, st)
    } else {
        let s2 = wy_next(st);
        let j = (wy_out(s2) % ((i + 1) as u64)) as int;
        spec_shuffle_from(v.update(i, v[j]).update(j, v[i]), s2, i - 1)
    }
}

/// The deterministic shuffle of `v` under seed state `st`.
pub open spec fn spec_shuffle(v: Seq<String>, st: u64) -> (Seq<String>, u64) {
    spec_shuffle_from(v, st, v.len() - 1)
}

/// Exchanging two positions keeps the names and their distinctness.
proof fn lemma_swap_props(a: Seq<String>, b: Seq<String>, i: int, j: int)
    requires
        0 <= i < a.len(),
        0 <= j < a.len(),
        b == a.update(i, a[j]).update(j, a[i]),
    ensures
        b.len() == a.len(),
        forall|n: Seq<char>| has_name(b, n) == has_name(a, n),
        names_nodup(a) ==> names_nodup(b),
{
    assert(forall|w: int|
        0 <= w < b.len() ==> b[w] == (if w == j {
            a[i]
        } else if w == i {
            a[j]
        } else {
            a[w]
        }));
    assert forall|n: Seq<char>| has_name(b, n) == has_name(a, n) by {
        if has_name(a, n) {
            let w = choose|w: int| 0 <= w < a.len() && a[w]@ == n;
            if w == i {
                assert(b[j]@ == n);
            } else if w == j {
                assert(b[i]@ == n);
            } else {
                assert(b[w]@ == n);
            }
        }
        if has_name(b, n) {
            let w = choose|w: int| 0 <= w < b.len() && b[w]@ == n;
            if w == i {
                assert(a[j]@ == n);
            } else if w == j {
                assert(a[i]@ == n);
            } else {
                assert(a[w]@ == n);
            }
        }
    }
    if names_nodup(a) {
        assert forall|p: int, q: int| 0 <= p < q < b.len() implies b[p]@ != b[q]@ by {
            let sp = if p == i {
                j
            } else if p == j {
                i
            } else {
                p
            };
            let sq = if q == i {
                j
            } else if q == j {
                i
            } else {
                q
            };
            assert(b[p] == a[sp]);
            assert(b[q] == a[sq]);
            assert(sp != sq);
        }
    }
}

/// Exchanging two positions keeps the multiset of elements.
proof fn lemma_swap_multiset(a: Seq<String>, b: Seq<String>, i: int, j: int)
    requires
        0 <= i < a.len(),
        0 <= j < a.len(),
        b == a.update(i, a[j]).update(j, a[i]),
    ensures
        b.to_multiset() =~= a.to_multiset(),
{
    broadcast use vstd::seq_lib::group_to_multiset_ensures;
    broadcast use vstd::multiset::group_multiset_axioms;

    if i == j {
        assert(b =~= a);
    } else {
        let m = a.update(i, a[j]);
        assert(m =~= a.remove(i).insert(i, a[j]));
        a.remove_ensures(i);
        assert(m.to_multiset() =~= a.to_multiset().remove(a[i]).insert(a[j])) by {
            lemma_insert_multiset(a.remove(i), i, a[j]);
        }
        assert(b =~= m.remove(j).insert(j, a[i]));
        assert(m[j] == a[j]);
        assert(b.to_multiset() =~= m.to_multiset().remove(a[j]).insert(a[i])) by {
            lemma_insert_multiset(m.remove(j), j, a[i]);
        }
        assert(a.contains(a[i]));
        assert(a.to_multiset().count(a[i]) > 0);
        assert(m.contains(a[j])) by {
            assert(m[i] == a[j]);
        }
        assert(m.to_multiset().count(a[j]) > 0);
    }
}

/// Inserting an element anywhere adds it to the multiset of the list.
proof fn lemma_insert_multiset(s: Seq<String>, pos: int, x: String)
    requires
        0 <= pos <= s.len(),
    ensures
        s.insert(pos, x).to_multiset() =~= s.to_multiset().insert(x),
{
    broadcast use vstd::seq_lib::group_to_multiset_ensures;

    let t = s.subrange(0, pos);
    let u = s.subrange(pos, s.len() as int);
    assert(s =~= t + u);
    vstd::seq_lib::lemma_multiset_commutative(t, u);
    vstd::seq_lib::lemma_multiset_commutative(t.push(x), u);
    assert(t.push(x).to_multiset() =~= t.to_multiset().insert(x));
}

/// The deterministic shuffle keeps the length, the names, their
/// distinctness, and the multiset of elements.
pub proof fn lemma_shuffle_pure_props(v: Seq<String>, st: u64)
    requires
        v.len() <= u64::MAX,
    ensures
        spec_shuffle(v, st).0.len() == v.len(),
        forall|n: Seq<char>| has_name(spec_shuffle(v, st).0, n) == has_name(v, n),
        names_nodup(v) ==> names_nodup(spec_shuffle(v, st).0),
        spec_shuffle(v, st).0.to_multiset() == v.to_multiset(),
{
    lemma_shuffle_from_props(v, st, v.len() - 1);
}

/// The pass from position `i` down keeps the length, names and
/// distinctness.
proof fn lemma_shuffle_from_props(v: Seq<String>, st: u64, i: int)
    requires
        i < v.len(),
        v.len() <= u64::MAX,
    ensures
        spec_shuffle_from(v, st, i).0.len() == v.len(),
        forall|n: Seq<char>| has_name(spec_shuffle_from(v, st, i).0, n) == has_name(v, n),
        names_nodup(v) ==> names_nodup(spec_shuffle_from(v, st, i).0),
        spec_shuffle_from(v, st, i).0.to_multiset() == v.to_multiset(),
    decreases i,
{
    if i >= 1 {
        let s2 = wy_next(st);
        let m = (i + 1) as u64;
        assert(m >= 1);
        let j = (wy_out(s2) % m) as int;
        assert(0 <= j < i + 1);
        let swapped = v.update(i, v[j]).update(j, v[i]);
        lemma_swap_props(v, swapped, i, j);
        lemma_swap_multiset(v, swapped, i, j);
        lemma_shuffle_from_props(swapped, s2, i - 1);
    }
}

/// Shuffles the list in place with draws from `rng`. The result is the
/// deterministic function [`spec_shuffle`] of the input and the seed state.
pub fn shuffle(rng: &mut SeededRng, v: &mut Vec<String>)
    ensures
        (final(v)@, final(rng).state) == spec_shuffle(old(v)@, old(rng).state),
        final(v)@.len() == old(v)@.len(),
        forall|n: Seq<char>| has_name(final(v)@, n) == has_name(old(v)@, n),
        names_nodup(old(v)@) ==> names_nodup(final(v)@),
{
    if v.len() < 1 {
        return ;
    }
    let mut i: usize = v.len() - 1;
    while i >= 1
        invariant
            i < v@.len(),
            v@.len() == old(v)@.len(),
            spec_shuffle_from(v@, rng.state, i as int) == spec_shuffle(old(v)@, old(rng).state),
            forall|n: Seq<char>| has_name(v@, n) == has_name(old(v)@, n),
            names_nodup(old(v)@) ==> names_nodup(v@),
        decreases i,
    {
        let ghost va = v@;
        let ghost st0 = rng.state;
        let len_now: usize = v.len();
        assert(i < len_now);
        let j: usize = rng.index_below(i + 1);
        let xi: String = v[i].clone();
        let xj: String = v[j].clone();
        vec_set(v, i, xj);
        vec_set(v, j, xi);
        proof {
            assert(v@ == va.update(i as int, va[j as int]).update(j as int, va[i as int]));
            lemma_swap_props(va, v@, i as int, j as int);
        }
        i = i - 1;
    }
}

} // verus!
