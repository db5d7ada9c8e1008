//! Insertion-ordered tables keyed by card name.
//!
//! Signal tables map card names to values. They are held as association
//! lists with unique keys, so iteration order is the insertion order and
//! every lookup has an exact, deterministic meaning.

use vstd::prelude::*;

use crate::strings::str_eq;

verus! {

/// A name occurs in a list of strings.
pub open spec fn has_name(s: Seq<String>, k: Seq<char>) -> bool {
    exists|i: int| 0 <= i < s.len() && s[i]@ == k
}

/// No two strings in the list have the same characters.
pub open spec fn names_nodup(s: Seq<String>) -> bool {
    forall|i: int, j: int| 0 <= i < j < s.len() ==> s[i]@ != s[j]@
}

/// Whether the list holds the name.
pub fn vec_has_name(v: &Vec<String>, k: &str) -> (r: bool)
    ensures
        r == has_name(v@, k@),
{
    let mut i: usize = 0;
    while i < v.len()
        invariant
            i <= v.len(),
            forall|j: int| 0 <= j < i ==> v@[j]@ != k@,
        decreases v.len() - i,
    {
        if str_eq(v[i].as_str(), k) {
            return true;
        }
        i = i + 1;
    }
    false
}

/// Appends the name unless it is already present, keeping the list free of
/// duplicates and leaving existing entries in place.
pub fn push_unique(v: &mut Vec<String>, k: &str)
    ensures
        names_nodup(old(v)@) ==> names_nodup(final(v)@),
        has_name(old(v)@, k@) ==> final(v)@ == old(v)@,
        !has_name(old(v)@, k@) ==> final(v)@.len() == old(v)@.len() + 1
            && final(v)@[old(v)@.len() as int]@ == k@
            && (forall|i: int| 0 <= i < old(v)@.len() ==> final(v)@[i] == old(v)@[i]),
        forall|n: Seq<char>| has_name(final(v)@, n) == (has_name(old(v)@, n) || n == k@),
{
    if !vec_has_name(v, k) {
        let owned: String = k.to_owned();
        v.push(owned);
        proof {
            assert forall|n: Seq<char>| has_name(v@, n) == (has_name(old(v)@, n) || n == k@) by {
                if has_name(old(v)@, n) {
                    let i = choose|i: int| 0 <= i < old(v)@.len() && old(v)@[i]@ == n;
                    assert(v@[i]@ == n);
                }
                if n == k@ {
                    assert(v@[old(v)@.len() as int]@ == n);
                }
                if has_name(v@, n) {
                    let i = choose|i: int| 0 <= i < v@.len() && v@[i]@ == n;
                    if i < old(v)@.len() {
                        assert(has_name(old(v)@, n));
                    }
                }
            }
        }
    }
}

/// Replaces the element at `i`, leaving every other position unchanged.
pub fn vec_set<T>(v: &mut Vec<T>, i: usize, x: T)
    requires
        i < old(v)@.len(),
    ensures
        final(v)@ == old(v)@.update(i as int, x),
{
    let ghost s0 = v@;
    let _removed = v.remove(i);
    v.insert(i, x);
    proof {
        assert(v@ =~= s0.update(i as int, x));
    }
}

/// First-match lookup in an association list.
pub open spec fn seq_get<V>(s: Seq<(String, V)>, k: Seq<char>) -> Option<V>
    decreases s.len(),
{
    if s.len() == 0 {
        None
    } else if s[0].0@ == k {
        Some(s[0].1)
    } else {
        seq_get(s.skip(1), k)
    }
}

/// Keys are pairwise distinct.
pub open spec fn wf_entries<V>(s: Seq<(String, V)>) -> bool {
    forall|i: int, j: int| 0 <= i < j < s.len() ==> s[i].0@ != s[j].0@
}

/// With distinct keys, the entry at a matching index is the lookup result.
pub proof fn lemma_seq_get_at<V>(s: Seq<(String, V)>, k: Seq<char>, i: int)
    requires
        wf_entries(s),
        0 <= i < s.len(),
        s[i].0@ == k,
    ensures
        seq_get(s, k) == Some(s[i].1),
    decreases i,
{
    if i > 0 {
        assert(s[0].0@ != k);
        lemma_seq_get_at(s.skip(1), k, i - 1);
    }
}

/// Without a matching index the lookup misses.
pub proof fn lemma_seq_get_none<V>(s: Seq<(String, V)>, k: Seq<char>)
    requires
        forall|i: int| 0 <= i < s.len() ==> s[i].0@ != k,
    ensures
        seq_get(s, k) is None,
    decreases s.len(),
{
    if s.len() > 0 {
        lemma_seq_get_none(s.skip(1), k);
    }
}

/// A matching index makes the lookup hit.
pub proof fn lemma_seq_get_present<V>(s: Seq<(String, V)>, k: Seq<char>, i: int)
    requires
        0 <= i < s.len(),
        s[i].0@ == k,
    ensures
        seq_get(s, k) is Some,
    decreases i,
{
    if s[0].0@ != k {
        lemma_seq_get_present(s.skip(1), k, i - 1);
    }
}

/// A hit names some matching index.
pub proof fn lemma_seq_get_witness<V>(s: Seq<(String, V)>, k: Seq<char>)
    requires
        seq_get(s, k) is Some,
    ensures
        exists|i: int|
            0 <= i < s.len() && s[i].0@ == k && seq_get(s, k) == Some(s[i].1),
    decreases s.len(),
{
    if s.len() > 0 && s[0].0@ != k {
        lemma_seq_get_witness(s.skip(1), k);
        let i = choose|i: int|
            0 <= i < s.skip(1).len() && s.skip(1)[i].0@ == k && seq_get(s.skip(1), k) == Some(
                s.skip(1)[i].1,
            );
        assert(s[i + 1].0@ == k && seq_get(s, k) == Some(s[i + 1].1));
    }
}

/// Lookup after appending an entry.
pub proof fn lemma_seq_get_push<V>(s: Seq<(String, V)>, e: (String, V), k: Seq<char>)
    ensures
        seq_get(s.push(e), k) == (if seq_get(s, k) is Some {
            seq_get(s, k)
        } else if e.0@ == k {
            Some(e.1)
        } else {
            None
        }),
    decreases s.len(),
{
    if s.len() == 0 {
        assert(s.push(e).skip(1) =~= s);
        assert(seq_get(s.push(e), k) == (if e.0@ == k {
            Some(e.1)
        } else {
            None
        }));
    } else {
        assert(s.push(e)[0] == s[0]);
        assert(s.push(e).skip(1) =~= s.skip(1).push(e));
        lemma_seq_get_push(s.skip(1), e, k);
    }
}

/// Lookup after replacing the value at an index, key kept.
pub proof fn lemma_seq_get_update<V>(s: Seq<(String, V)>, i: int, v: V, k: Seq<char>)
    requires
        wf_entries(s),
        0 <= i < s.len(),
    ensures
        seq_get(s.update(i, (s[i].0, v)), k) == (if s[i].0@ == k {
            Some(v)
        } else {
            seq_get(s, k)
        }),
    decreases i,
{
    let u = s.update(i, (s[i].0, v));
    if i == 0 {
        if s[0].0@ != k {
            assert(u.skip(1) =~= s.skip(1));
        }
    } else {
        assert(u[0] == s[0]);
        if s[0].0@ == k {
            assert(s[i].0@ != k);
        } else {
            assert(u.skip(1) =~= s.skip(1).update(i - 1, (s.skip(1)[i - 1].0, v)));
            lemma_seq_get_update(s.skip(1), i - 1, v, k);
        }
    }
}

/// An insertion-ordered association table from card names to values.
#[derive(Debug)]
pub struct Table<V> {
    pub entries: Vec<(String, V)>,
}

impl<V> Table<V> {
    /// Keys are pairwise distinct.
    pub open spec fn wf(self) -> bool {
        wf_entries(self.entries@)
    }

    /// The value stored under a key.
    pub open spec fn spec_get(self, k: Seq<char>) -> Option<V> {
        seq_get(self.entries@, k)
    }

    /// The key is present.
    pub open spec fn contains_key(self, k: Seq<char>) -> bool {
        self.spec_get(k) is Some
    }

    pub fn new() -> (r: Table<V>)
        ensures
            r.wf(),
            r.entries@.len() == 0,
            forall|k: Seq<char>| r.spec_get(k) is None,
    {
        Table { entries: Vec::new() }
    }

    pub fn len(&self) -> (r: usize)
        ensures
            r == self.entries@.len(),
    {
        self.entries.len()
    }

    /// Index of the first entry whose key matches, if any.
    pub fn find(&self, k: &str) -> (r: Option<usize>)
        ensures
            match r {
                Some(i) => i < self.entries@.len() && self.entries@[i as int].0@ == k@
                    && forall|j: int| 0 <= j < i ==> self.entries@[j].0@ != k@,
                None => forall|j: int|
                    0 <= j < self.entries@.len() ==> self.entries@[j].0@ != k@,
            },
    {
        let mut i: usize = 0;
        while i < self.entries.len()
            invariant
                i <= self.entries@.len(),
                forall|j: int| 0 <= j < i ==> self.entries@[j].0@ != k@,
            decreases self.entries@.len() - i,
        {
            if str_eq(self.entries[i].0.as_str(), k) {
                return Some(i);
            }
            i = i + 1;
        }
        None
    }

    /// Looks the key up.
    pub fn get(&self, k: &str) -> (r: Option<&V>)
        requires
            self.wf(),
        ensures
            match r {
                Some(v) => self.spec_get(k@) == Some(*v),
                None => self.spec_get(k@) is None,
            },
    {
        match self.find(k) {
            Some(i) => {
                proof {
                    lemma_seq_get_at(self.entries@, k@, i as int);
                }
                Some(&self.entries[i].1)
            },
            None => {
                proof {
                    lemma_seq_get_none(self.entries@, k@);
                }
                None
            },
        }
    }

    /// Stores `v` under `k`: replaces the value of an existing key in
    /// place, otherwise appends a new entry.
    pub fn set(&mut self, k: &str, v: V)
        requires
            old(self).wf(),
        ensures
            final(self).wf(),
            final(self).spec_get(k@) == Some(v),
            forall|k2: Seq<char>| k2 != k@ ==> final(self).spec_get(k2) == old(self).spec_get(k2),
            old(self).contains_key(k@) ==> final(self).entries@.len() == old(self).entries@.len(),
            !old(self).contains_key(k@) ==> final(self).entries@.len() == old(
                self,
            ).entries@.len() + 1,
            forall|i: int|
                0 <= i < old(self).entries@.len() ==> final(self).entries@[i].0 == old(
                    self,
                ).entries@[i].0,
    {
        match self.find(k) {
            Some(i) => {
                let ghost s0 = self.entries@;
                let entry = self.entries.remove(i);
                self.entries.insert(i, (entry.0, v));
                proof {
                    assert(self.entries@ =~= s0.update(i as int, (s0[i as int].0, v)));
                    lemma_seq_get_at(s0, k@, i as int);
                    assert(seq_get(self.entries@, k@) == Some(v)) by {
                        lemma_seq_get_update(s0, i as int, v, k@);
                    }
                    assert forall|k2: Seq<char>| k2 != k@ implies seq_get(self.entries@, k2)
                        == seq_get(s0, k2) by {
                        lemma_seq_get_update(s0, i as int, v, k2);
                    }
                    assert(wf_entries(self.entries@)) by {
                        assert(forall|m: int|
                            0 <= m < s0.len() ==> self.entries@[m].0 == s0[m].0);
                    }
                }
            },
            None => {
                let ghost s0 = self.entries@;
                let owned: String = k.to_owned();
                self.entries.push((owned, v));
                proof {
                    lemma_seq_get_none(s0, k@);
                    proof_push_case(s0, self.entries@, k@, v);
                }
            },
        }
    }
}

/// Facts about appending a fresh key, shared by `set`.
proof fn proof_push_case<V>(s0: Seq<(String, V)>, s1: Seq<(String, V)>, k: Seq<char>, v: V)
    requires
        wf_entries(s0),
        forall|j: int| 0 <= j < s0.len() ==> s0[j].0@ != k,
        s1.len() == s0.len() + 1,
        forall|i: int| 0 <= i < s0.len() ==> s1[i] == s0[i],
        s1[s0.len() as int].0@ == k,
        s1[s0.len() as int].1 == v,
    ensures
        wf_entries(s1),
        seq_get(s1, k) == Some(v),
        forall|k2: Seq<char>| k2 != k ==> seq_get(s1, k2) == seq_get(s0, k2),
{
    assert(s1 =~= s0.push(s1[s0.len() as int]));
    lemma_seq_get_none(s0, k);
    lemma_seq_get_push(s0, s1[s0.len() as int], k);
    assert forall|k2: Seq<char>| k2 != k implies seq_get(s1, k2) == seq_get(s0, k2) by {
        lemma_seq_get_push(s0, s1[s0.len() as int], k2);
    }
}

impl Table<u64> {
    /// The stored count, zero when absent.
    pub open spec fn count_of(self, k: Seq<char>) -> int {
        match self.spec_get(k) {
            Some(v) => v as int,
            None => 0,
        }
    }

    /// Adds one to the count stored under `k`.
    pub fn bump(&mut self, k: &str)
        requires
            old(self).wf(),
            old(self).count_of(k@) < u64::MAX,
        ensures
            final(self).wf(),
            final(self).count_of(k@) == old(self).count_of(k@) + 1,
            forall|k2: Seq<char>| k2 != k@ ==> final(self).spec_get(k2) == old(self).spec_get(k2),
            final(self).contains_key(k@),
            forall|k2: Seq<char>|
                final(self).contains_key(k2) == (old(self).contains_key(k2) || k2 == k@),
    {
        let cur: u64 = match self.get(k) {
            Some(c) => *c,
            None => 0,
        };
        self.set(k, cur + 1);
        proof {
            assert forall|k2: Seq<char>|
                self.contains_key(k2) == (old(self).contains_key(k2) || k2 == k@) by {
                if k2 != k@ {
                    assert(self.spec_get(k2) == old(self).spec_get(k2));
                }
            }
        }
    }

    /// Adds one to the count of every name in a duplicate-free list.
    pub fn bump_all(&mut self, keys: &Vec<String>)
        requires
            old(self).wf(),
            names_nodup(keys@),
            forall|k: Seq<char>| #[trigger] old(self).count_of(k) < u64::MAX,
        ensures
            final(self).wf(),
            forall|k: Seq<char>|
                #[trigger] final(self).count_of(k) == old(self).count_of(k) + (if has_name(keys@, k) {
                    1int
                } else {
                    0int
                }),
            forall|k: Seq<char>|
                final(self).contains_key(k) == (old(self).contains_key(k) || has_name(keys@, k)),
    {
        let mut j: usize = 0;
        while j < keys.len()
            invariant
                j <= keys@.len(),
                names_nodup(keys@),
                forall|k: Seq<char>| #[trigger] old(self).count_of(k) < u64::MAX,
                self.wf(),
                forall|k: Seq<char>|
                    #[trigger] self.count_of(k) == old(self).count_of(k) + (if has_name(keys@.take(j as int), k) {
                        1int
                    } else {
                        0int
                    }),
                forall|k: Seq<char>|
                    self.contains_key(k) == (old(self).contains_key(k) || has_name(
                        keys@.take(j as int),
                        k,
                    )),
            decreases keys@.len() - j,
        {
            proof {
                assert(!has_name(keys@.take(j as int), keys@[j as int]@)) by {
                    assert forall|w: int| 0 <= w < keys@.take(j as int).len() implies #[trigger] keys@.take(
                        j as int,
                    )[w]@ != keys@[j as int]@ by {
                        assert(keys@.take(j as int)[w] == keys@[w]);
                    }
                }
                assert(old(self).count_of(keys@[j as int]@) < u64::MAX);
                assert(self.count_of(keys@[j as int]@) == old(self).count_of(keys@[j as int]@));
                assert(self.count_of(keys@[j as int]@) < u64::MAX);
            }
            let ghost before = *self;
            self.bump(keys[j].as_str());
            proof {
                assert(keys@.take(j + 1) =~= keys@.take(j as int).push(keys@[j as int]));
                assert forall|k: Seq<char>|
                    #[trigger] self.count_of(k) == old(self).count_of(k) + (if has_name(
                        keys@.take(j + 1),
                        k,
                    ) {
                        1int
                    } else {
                        0int
                    }) by {
                    assert(has_name(keys@.take(j + 1), k) == (has_name(keys@.take(j as int), k)
                        || k == keys@[j as int]@)) by {
                        if has_name(keys@.take(j as int), k) {
                            let w = choose|w: int|
                                0 <= w < keys@.take(j as int).len() && #[trigger] keys@.take(
                                    j as int,
                                )[w]@ == k;
                            assert(keys@.take(j + 1)[w]@ == k);
                        }
                        if k == keys@[j as int]@ {
                            assert(keys@.take(j + 1)[j as int]@ == k);
                        }
                        if has_name(keys@.take(j + 1), k) {
                            let w = choose|w: int|
                                0 <= w < keys@.take(j + 1).len() && #[trigger] keys@.take(j + 1)[w]@
                                    == k;
                            if w < j {
                                assert(keys@.take(j as int)[w]@ == k);
                            }
                        }
                    }
                    if k == keys@[j as int]@ {
                        assert(before.count_of(k) == old(self).count_of(k));
                        assert(self.count_of(k) == before.count_of(k) + 1);
                    } else {
                        assert(self.spec_get(k) == before.spec_get(k));
                        assert(before.count_of(k) == old(self).count_of(k) + (if has_name(
                            keys@.take(j as int),
                            k,
                        ) {
                            1int
                        } else {
                            0int
                        }));
                    }
                }
            }
            j = j + 1;
        }
        proof {
            assert(keys@.take(keys@.len() as int) =~= keys@);
        }
    }
}

} // verus!
