//! Graded-relevance test sets and merging.
//!
//! A test set maps query cards to five disjoint relevance buckets. When
//! a graded batch is merged in, queries already present keep their
//! existing labels; the batch's labels only fill queries that are new.
//! The stored query count is always recomputed, never trusted.

use vstd::prelude::*;

use crate::batch::{AnnotationBatch, AnnotationTask};
use crate::candidate::Candidate;
use crate::table::{seq_get, Table};

verus! {

/// The version a test set carries when none was recorded.
pub fn default_version() -> (r: String)
    ensures
        r@ == "1.0"@,
{
    "1.0".to_owned()
}

/// Relevance labels of one query: five disjoint buckets from highly
/// relevant down to irrelevant.
#[derive(Debug)]
pub struct RelevanceLabels {
    pub highly_relevant: Vec<String>,
    pub relevant: Vec<String>,
    pub somewhat_relevant: Vec<String>,
    pub marginally_relevant: Vec<String>,
    pub irrelevant: Vec<String>,
}

/// The mathematical content of a label set: the five buckets.
pub ghost struct LabelsView {
    pub highly_relevant: Seq<String>,
    pub relevant: Seq<String>,
    pub somewhat_relevant: Seq<String>,
    pub marginally_relevant: Seq<String>,
    pub irrelevant: Seq<String>,
}

impl View for RelevanceLabels {
    type V = LabelsView;

    open spec fn view(&self) -> LabelsView {
        LabelsView {
            highly_relevant: self.highly_relevant@,
            relevant: self.relevant@,
            somewhat_relevant: self.somewhat_relevant@,
            marginally_relevant: self.marginally_relevant@,
            irrelevant: self.irrelevant@,
        }
    }
}

/// The empty label set.
pub open spec fn empty_labels() -> LabelsView {
    LabelsView {
        highly_relevant: Seq::empty(),
        relevant: Seq::empty(),
        somewhat_relevant: Seq::empty(),
        marginally_relevant: Seq::empty(),
        irrelevant: Seq::empty(),
    }
}

/// A card added under a label lands in exactly its bucket; labels above
/// 4 are ignored.
pub open spec fn spec_add(v: LabelsView, card: String, relevance: u8) -> LabelsView {
    if relevance == 4 {
        LabelsView { highly_relevant: v.highly_relevant.push(card), ..v }
    } else if relevance == 3 {
        LabelsView { relevant: v.relevant.push(card), ..v }
    } else if relevance == 2 {
        LabelsView { somewhat_relevant: v.somewhat_relevant.push(card), ..v }
    } else if relevance == 1 {
        LabelsView { marginally_relevant: v.marginally_relevant.push(card), ..v }
    } else if relevance == 0 {
        LabelsView { irrelevant: v.irrelevant.push(card), ..v }
    } else {
        v
    }
}

impl RelevanceLabels {
    pub fn new() -> (r: RelevanceLabels)
        ensures
            r@ == empty_labels(),
    {
        RelevanceLabels {
            highly_relevant: Vec::new(),
            relevant: Vec::new(),
            somewhat_relevant: Vec::new(),
            marginally_relevant: Vec::new(),
            irrelevant: Vec::new(),
        }
    }

    /// Files a card under its relevance label; values above 4 are
    /// ignored.
    pub fn add(&mut self, card: String, relevance: u8)
        ensures
            final(self)@ == spec_add(old(self)@, card, relevance),
    {
        match relevance {
            4 => self.highly_relevant.push(card),
            3 => self.relevant.push(card),
            2 => self.somewhat_relevant.push(card),
            1 => self.marginally_relevant.push(card),
            0 => self.irrelevant.push(card),
            _ => {},
        }
    }
}

impl Default for RelevanceLabels {
    fn default() -> (r: RelevanceLabels)
        ensures
            r@ == empty_labels(),
    {
        RelevanceLabels::new()
    }
}

/// A graded-relevance test set.
#[derive(Debug)]
pub struct TestSet {
    pub version: String,
    pub game: Option<String>,
    pub description: Option<String>,
    pub num_queries: Option<usize>,
    pub queries: Table<RelevanceLabels>,
}

/// The labels of the annotated candidates of one task, in candidate
/// order.
pub open spec fn labels_of_candidates(cs: Seq<Candidate>) -> LabelsView
    decreases cs.len(),
{
    if cs.len() == 0 {
        empty_labels()
    } else {
        let prev = labels_of_candidates(cs.drop_last());
        match cs.last().relevance {
            Some(rel) => spec_add(prev, cs.last().card, rel),
            None => prev,
        }
    }
}

/// The labels a merge gives to a query not in the test set: the first
/// task with that query decides.
pub open spec fn spec_merged_get(tasks: Seq<AnnotationTask>, k: Seq<char>) -> Option<LabelsView>
    decreases tasks.len(),
{
    if tasks.len() == 0 {
        None
    } else if tasks[0].query@ == k {
        Some(labels_of_candidates(tasks[0].candidates@))
    } else {
        spec_merged_get(tasks.skip(1), k)
    }
}

/// Appending a task answers only queries no earlier task answered.
proof fn lemma_merged_push(tasks: Seq<AnnotationTask>, t: AnnotationTask, k: Seq<char>)
    ensures
        spec_merged_get(tasks.push(t), k) == (if spec_merged_get(tasks, k) is Some {
            spec_merged_get(tasks, k)
        } else if t.query@ == k {
            Some(labels_of_candidates(t.candidates@))
        } else {
            None
        }),
    decreases tasks.len(),
{
    if tasks.len() == 0 {
        assert(tasks.push(t).skip(1) =~= tasks);
    } else {
        assert(tasks.push(t)[0] == tasks[0]);
        assert(tasks.push(t).skip(1) =~= tasks.skip(1).push(t));
        lemma_merged_push(tasks.skip(1), t, k);
    }
}

/// Builds the labels of one task from its annotated candidates.
fn labels_for_task(task: &AnnotationTask) -> (r: RelevanceLabels)
    ensures
        r@ == labels_of_candidates(task.candidates@),
{
    let mut labels: RelevanceLabels = RelevanceLabels::new();
    let mut ci: usize = 0;
    while ci < task.candidates.len()
        invariant
            ci <= task.candidates@.len(),
            labels@ == labels_of_candidates(task.candidates@.take(ci as int)),
        decreases task.candidates@.len() - ci,
    {
        proof {
            assert(task.candidates@.take(ci + 1).drop_last() =~= task.candidates@.take(
                ci as int,
            ));
            assert(task.candidates@.take(ci + 1).last() == task.candidates@[ci as int]);
        }
        match task.candidates[ci].relevance {
            Some(rel) => {
                labels.add(task.candidates[ci].card.clone(), rel);
            },
            None => {},
        }
        ci = ci + 1;
    }
    proof {
        assert(task.candidates@.take(task.candidates@.len() as int) =~= task.candidates@);
    }
    labels
}

/// Merges a graded batch into a test set. Queries already present keep
/// their existing labels untouched; each new query receives the labels
/// of its first task; the query count is recomputed.
pub fn merge_annotations(batch: &AnnotationBatch, test_set: TestSet) -> (r: TestSet)
    requires
        test_set.queries.wf(),
    ensures
        r.queries.wf(),
        r.version == test_set.version,
        r.game == test_set.game,
        r.description == test_set.description,
        r.num_queries == Some(r.queries.entries@.len() as usize),
        forall|k: Seq<char>|
            old_contains(test_set, k) ==> #[trigger] r.queries.spec_get(k)
                == test_set.queries.spec_get(k),
        forall|k: Seq<char>|
            !old_contains(test_set, k) ==> match #[trigger] r.queries.spec_get(k) {
                Some(l) => spec_merged_get(batch.tasks@, k) == Some(l@),
                None => spec_merged_get(batch.tasks@, k) is None,
            },
{
    let mut ts: TestSet = test_set;
    let ghost orig = ts.queries;
    let mut ti: usize = 0;
    while ti < batch.tasks.len()
        invariant
            ti <= batch.tasks@.len(),
            ts.queries.wf(),
            ts.version == test_set.version,
            ts.game == test_set.game,
            ts.description == test_set.description,
            orig == test_set.queries,
            orig.wf(),
            forall|k: Seq<char>|
                orig.contains_key(k) ==> #[trigger] ts.queries.spec_get(k) == orig.spec_get(k),
            forall|k: Seq<char>|
                !orig.contains_key(k) ==> match #[trigger] ts.queries.spec_get(k) {
                    Some(l) => spec_merged_get(batch.tasks@.take(ti as int), k) == Some(l@),
                    None => spec_merged_get(batch.tasks@.take(ti as int), k) is None,
                },
        decreases batch.tasks@.len() - ti,
    {
        let ghost q0 = ts.queries;
        let task: &AnnotationTask = &batch.tasks[ti];
        let present: bool = match ts.queries.find(task.query.as_str()) {
            Some(_) => true,
            None => false,
        };
        proof {
            if present {
                assert(ts.queries.contains_key(task.query@)) by {
                    let i = choose|i: int|
                        0 <= i < ts.queries.entries@.len() && ts.queries.entries@[i].0@
                            == task.query@;
                    crate::table::lemma_seq_get_present(ts.queries.entries@, task.query@, i);
                }
            } else {
                assert(!ts.queries.contains_key(task.query@)) by {
                    if ts.queries.contains_key(task.query@) {
                        crate::table::lemma_seq_get_witness(ts.queries.entries@, task.query@);
                    }
                }
            }
        }
        if !present {
            let labels: RelevanceLabels = labels_for_task(task);
            ts.queries.set(task.query.as_str(), labels);
        }
        proof {
            assert(batch.tasks@.take(ti + 1) =~= batch.tasks@.take(ti as int).push(
                batch.tasks@[ti as int],
            ));
            assert forall|k: Seq<char>|
                !orig.contains_key(k) implies match #[trigger] ts.queries.spec_get(k) {
                Some(l) => spec_merged_get(batch.tasks@.take(ti + 1), k) == Some(l@),
                None => spec_merged_get(batch.tasks@.take(ti + 1), k) is None,
            } by {
                lemma_merged_push(batch.tasks@.take(ti as int), batch.tasks@[ti as int], k);
                if k != task.query@ {
                    assert(ts.queries.spec_get(k) == q0.spec_get(k));
                }
            }
            assert forall|k: Seq<char>|
                orig.contains_key(k) implies #[trigger] ts.queries.spec_get(k) == orig.spec_get(
                k,
            ) by {
                if k != task.query@ {
                    assert(ts.queries.spec_get(k) == q0.spec_get(k));
                }
            }
        }
        ti = ti + 1;
    }
    proof {
        assert(batch.tasks@.take(batch.tasks@.len() as int) =~= batch.tasks@);
    }
    let n: usize = ts.queries.len();
    ts.num_queries = Some(n);
    ts
}

/// Whether the pre-merge test set holds the query.
pub open spec fn old_contains(ts: TestSet, k: Seq<char>) -> bool {
    ts.queries.contains_key(k)
}

/// The queries of a batch that a test set already holds, each once, in
/// task order: they will keep their existing labels in a merge.
pub fn duplicate_queries(batch: &AnnotationBatch, test_set: &TestSet) -> (r: Vec<String>)
    requires
        test_set.queries.wf(),
    ensures
        forall|n: Seq<char>|
            #[trigger] crate::table::has_name(r@, n) == ((exists|i: int|
                0 <= i < batch.tasks@.len() && (#[trigger] batch.tasks@[i]).query@ == n)
                && test_set.queries.contains_key(n)),
{
    let mut r: Vec<String> = Vec::new();
    let mut ti: usize = 0;
    while ti < batch.tasks.len()
        invariant
            ti <= batch.tasks@.len(),
            test_set.queries.wf(),
            forall|n: Seq<char>|
                #[trigger] crate::table::has_name(r@, n) == ((exists|i: int|
                    0 <= i < ti && (#[trigger] batch.tasks@[i]).query@ == n)
                    && test_set.queries.contains_key(n)),
        decreases batch.tasks@.len() - ti,
    {
        let task: &AnnotationTask = &batch.tasks[ti];
        let present: bool = match test_set.queries.get(task.query.as_str()) {
            Some(_) => true,
            None => false,
        };
        if present {
            crate::table::push_unique(&mut r, task.query.as_str());
        }
        proof {
            assert forall|n: Seq<char>|
                #[trigger] crate::table::has_name(r@, n) == ((exists|i: int|
                    0 <= i < ti + 1 && (#[trigger] batch.tasks@[i]).query@ == n)
                    && test_set.queries.contains_key(n)) by {
                assert((exists|i: int|
                    0 <= i < ti + 1 && (#[trigger] batch.tasks@[i]).query@ == n) == ((exists|
                    i: int,
                |
                    0 <= i < ti && (#[trigger] batch.tasks@[i]).query@ == n) || n
                    == batch.tasks@[ti as int].query@)) by {
                    if n == batch.tasks@[ti as int].query@ {
                        assert((#[trigger] batch.tasks@[ti as int]).query@ == n);
                    }
                }
            }
        }
        ti = ti + 1;
    }
    r
}

/// Rebuilds a test set from its serialized parts. The entry list's first
/// occurrence of a key wins, and the query count is recomputed, never
/// taken from the file.
pub fn test_set_from_parts(
    version: String,
    game: Option<String>,
    description: Option<String>,
    entries: Vec<(String, RelevanceLabels)>,
) -> (r: TestSet)
    ensures
        r.queries.wf(),
        r.version == version,
        r.game == game,
        r.description == description,
        r.num_queries == Some(r.queries.entries@.len() as usize),
        forall|k: Seq<char>|
            match #[trigger] r.queries.spec_get(k) {
                Some(l) => seq_get(entries@, k) matches Some(l0) && l0@ == l@,
                None => seq_get(entries@, k) is None,
            },
{
    let mut queries: Table<RelevanceLabels> = Table::new();
    let mut src: Vec<(String, RelevanceLabels)> = entries;
    let ghost orig = src@;
    let mut i: usize = 0;
    let total_entries: usize = src.len();
    proof {
        assert(orig.take(0) =~= Seq::<(String, RelevanceLabels)>::empty());
        assert(orig.len() == total_entries);
    }
    while src.len() > 0
        invariant
            orig.len() <= usize::MAX,
            i + src@.len() == orig.len(),
            i <= orig.len(),
            src@ =~= orig.skip(i as int),
            queries.wf(),
            forall|k: Seq<char>|
                match #[trigger] queries.spec_get(k) {
                    Some(l) => seq_get(orig.take(i as int), k) matches Some(l0) && l0 == l,
                    None => seq_get(orig.take(i as int), k) is None,
                },
        decreases src@.len(),
    {
        let ghost q0 = queries;
        let e: (String, RelevanceLabels) = src.remove(0);
        proof {
            assert(e == orig[i as int]);
            assert(src@ =~= orig.skip(i + 1));
        }
        let present: bool = match queries.find(e.0.as_str()) {
            Some(_) => true,
            None => false,
        };
        proof {
            if present {
                let w = choose|w: int|
                    0 <= w < queries.entries@.len() && queries.entries@[w].0@ == e.0@;
                crate::table::lemma_seq_get_present(queries.entries@, e.0@, w);
                assert(queries.contains_key(e.0@));
            } else {
                if queries.contains_key(e.0@) {
                    crate::table::lemma_seq_get_witness(queries.entries@, e.0@);
                }
                assert(!queries.contains_key(e.0@));
            }
        }
        if !present {
            queries.set(e.0.as_str(), e.1);
        }
        proof {
            assert forall|k: Seq<char>|
                match #[trigger] queries.spec_get(k) {
                    Some(l) => seq_get(orig.take(i + 1), k) matches Some(l0) && l0 == l,
                    None => seq_get(orig.take(i + 1), k) is None,
                } by {
                lemma_first_get_push(orig.take(i as int), orig[i as int], k);
                assert(orig.take(i + 1) =~= orig.take(i as int).push(orig[i as int]));
                if k != e.0@ {
                    assert(queries.spec_get(k) == q0.spec_get(k));
                }
            }
        }
        i = i + 1;
    }
    proof {
        assert(orig.take(orig.len() as int) =~= orig);
    }
    let n: usize = queries.len();
    TestSet { version, game, description, num_queries: Some(n), queries }
}

/// Appending an entry answers only keys no earlier entry answered.
proof fn lemma_first_get_push(
    s: Seq<(String, RelevanceLabels)>,
    e: (String, RelevanceLabels),
    k: Seq<char>,
)
    ensures
        seq_get(s.push(e), k) == (if seq_get(s, k) is Some {
            seq_get(s, k)
        } else if e.0@ == k {
            Some(e.1)
        } else {
            None
        }),
{
    crate::table::lemma_seq_get_push(s, e, k);
}

/// Saving a well-formed test set as its entry list and loading that list
/// back reproduces an identical query-to-label mapping: the entry list
/// determines every lookup, and the rebuilt set's query count is its map
/// size. The file legs around this are plain serialization.
pub proof fn lemma_entries_round_trip(ts: TestSet, rebuilt: TestSet)
    requires
        ts.queries.wf(),
        forall|k: Seq<char>|
            match #[trigger] rebuilt.queries.spec_get(k) {
                Some(l) => seq_get(ts.queries.entries@, k) matches Some(l0) && l0@ == l@,
                None => seq_get(ts.queries.entries@, k) is None,
            },
        rebuilt.num_queries == Some(rebuilt.queries.entries@.len() as usize),
    ensures
        forall|k: Seq<char>|
            match #[trigger] rebuilt.queries.spec_get(k) {
                Some(l) => ts.queries.spec_get(k) matches Some(l0) && l0@ == l@,
                None => ts.queries.spec_get(k) is None,
            },
{
}

} // verus!
