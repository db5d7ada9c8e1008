//! Annotation batches: metadata, tasks, instructions and grading.

use vstd::prelude::*;

use crate::candidate::Candidate;

verus! {

/// Metadata of one annotation batch.
#[derive(Debug)]
pub struct BatchMetadata {
    pub game: String,
    pub batch_id: String,
    pub num_queries: usize,
    pub created: String,
    pub target_total: usize,
    pub current_total: usize,
}

/// The annotation work for a single query.
#[derive(Debug)]
pub struct AnnotationTask {
    pub query: String,
    pub game: String,
    pub candidates: Vec<Candidate>,
}

/// Grading instructions shown to the annotator: the relevance scale and
/// the guidelines.
#[derive(Debug)]
pub struct Instructions {
    pub relevance_scale: Vec<(u8, String)>,
    pub grading_guidelines: Vec<String>,
}

/// A complete annotation batch.
#[derive(Debug)]
pub struct AnnotationBatch {
    pub metadata: BatchMetadata,
    pub instructions: Instructions,
    pub tasks: Vec<AnnotationTask>,
}

/// The default annotator instructions: the five-point relevance scale,
/// highest first, and four grading guidelines.
pub fn default_instructions() -> (r: Instructions)
    ensures
        r.relevance_scale@.len() == 5,
        forall|i: int| 0 <= i < 5 ==> (#[trigger] r.relevance_scale@[i]).0 == 4 - i,
        r.grading_guidelines@.len() == 4,
{
    let mut relevance_scale: Vec<(u8, String)> = Vec::new();
    relevance_scale.push((4, "Extremely similar (near substitutes, same function)".to_owned()));
    relevance_scale.push((3, "Very similar (often seen together, similar role)".to_owned()));
    relevance_scale.push((2, "Somewhat similar (related function or archetype)".to_owned()));
    relevance_scale.push((1, "Marginally similar (loose connection)".to_owned()));
    relevance_scale.push((0, "Irrelevant (different function, color, or archetype)".to_owned()));
    let mut grading_guidelines: Vec<String> = Vec::new();
    grading_guidelines.push(
        "Focus on functional similarity (can they replace each other?)".to_owned(),
    );
    grading_guidelines.push(
        "Consider archetype context (do they appear in same decks?)".to_owned(),
    );
    grading_guidelines.push("Consider mana cost and card type".to_owned());
    grading_guidelines.push("Add notes for edge cases or interesting patterns".to_owned());
    Instructions { relevance_scale, grading_guidelines }
}

/// Assembles a batch from generated tasks; the metadata's query count is
/// always the number of tasks.
pub fn make_batch(
    game: String,
    batch_id: String,
    created: String,
    tasks: Vec<AnnotationTask>,
    target_total: usize,
    current_total: usize,
) -> (r: AnnotationBatch)
    ensures
        r.metadata.game == game,
        r.metadata.batch_id == batch_id,
        r.metadata.created == created,
        r.metadata.num_queries == tasks@.len(),
        r.metadata.target_total == target_total,
        r.metadata.current_total == current_total,
        r.tasks == tasks,
{
    let num_queries: usize = tasks.len();
    AnnotationBatch {
        metadata: BatchMetadata {
            game,
            batch_id,
            num_queries,
            created,
            target_total,
            current_total,
        },
        instructions: default_instructions(),
        tasks,
    }
}

/// Candidates across all tasks.
pub open spec fn spec_total(tasks: Seq<AnnotationTask>) -> nat
    decreases tasks.len(),
{
    if tasks.len() == 0 {
        0
    } else {
        spec_total(tasks.drop_last()) + tasks.last().candidates@.len()
    }
}

/// Candidates across the first candidates of one task.
pub open spec fn spec_graded_in(cs: Seq<Candidate>) -> nat
    decreases cs.len(),
{
    if cs.len() == 0 {
        0
    } else {
        spec_graded_in(cs.drop_last()) + (if cs.last().relevance is Some {
            1nat
        } else {
            0nat
        })
    }
}

/// Graded candidates across all tasks.
pub open spec fn spec_graded(tasks: Seq<AnnotationTask>) -> nat
    decreases tasks.len(),
{
    if tasks.len() == 0 {
        0
    } else {
        spec_graded(tasks.drop_last()) + spec_graded_in(tasks.last().candidates@)
    }
}

/// Candidates of one task graded with exactly `rel`.
pub open spec fn spec_rel_in(cs: Seq<Candidate>, rel: u8) -> nat
    decreases cs.len(),
{
    if cs.len() == 0 {
        0
    } else {
        spec_rel_in(cs.drop_last(), rel) + (if cs.last().relevance == Some(rel) {
            1nat
        } else {
            0nat
        })
    }
}

/// Candidates across all tasks graded with exactly `rel`.
pub open spec fn spec_rel_count(tasks: Seq<AnnotationTask>, rel: u8) -> nat
    decreases tasks.len(),
{
    if tasks.len() == 0 {
        0
    } else {
        spec_rel_count(tasks.drop_last(), rel) + spec_rel_in(tasks.last().candidates@, rel)
    }
}

/// The validation errors of one task, in candidate order: each graded
/// candidate whose label exceeds 4, with its query.
pub open spec fn spec_errors_in(query: String, cs: Seq<Candidate>) -> Seq<(String, u8)>
    decreases cs.len(),
{
    if cs.len() == 0 {
        Seq::empty()
    } else {
        spec_errors_in(query, cs.drop_last()) + (match cs.last().relevance {
            Some(rel) => if rel > 4 {
                seq![(query, rel)]
            } else {
                Seq::<(String, u8)>::empty()
            },
            None => Seq::<(String, u8)>::empty(),
        })
    }
}

/// The validation errors of all tasks, in traversal order.
pub open spec fn spec_errors(tasks: Seq<AnnotationTask>) -> Seq<(String, u8)>
    decreases tasks.len(),
{
    if tasks.len() == 0 {
        Seq::empty()
    } else {
        spec_errors(tasks.drop_last()) + spec_errors_in(
            tasks.last().query,
            tasks.last().candidates@,
        )
    }
}

/// Aggregate grading state of a batch.
#[derive(Debug)]
pub struct GradeReport {
    /// Candidates over all tasks.
    pub total: usize,
    /// Candidates that carry a relevance label.
    pub graded: usize,
    /// How many candidates carry each valid label, index 0 to 4.
    pub relevance_counts: Vec<usize>,
    /// Labels outside 0 to 4, with the query they belong to. They are
    /// reported, not fatal.
    pub errors: Vec<(String, u8)>,
}

/// Counts a batch's annotation state: totals, per-label counts and
/// validation errors. Validation never aborts; the report carries it.
#[verifier::rlimit(60)]
pub fn grade_batch(batch: &AnnotationBatch) -> (r: GradeReport)
    requires
        spec_total(batch.tasks@) <= usize::MAX,
    ensures
        r.total == spec_total(batch.tasks@),
        r.graded == spec_graded(batch.tasks@),
        r.relevance_counts@.len() == 5,
        forall|rel: int|
            0 <= rel < 5 ==> (#[trigger] r.relevance_counts@[rel]) == spec_rel_count(
                batch.tasks@,
                rel as u8,
            ),
        r.errors@ == spec_errors(batch.tasks@),
{
    let mut total: usize = 0;
    let mut graded: usize = 0;
    let mut relevance_counts: Vec<usize> = Vec::new();
    relevance_counts.push(0);
    relevance_counts.push(0);
    relevance_counts.push(0);
    relevance_counts.push(0);
    relevance_counts.push(0);
    let mut errors: Vec<(String, u8)> = Vec::new();
    let mut ti: usize = 0;
    while ti < batch.tasks.len()
        invariant
            ti <= batch.tasks@.len(),
            spec_total(batch.tasks@) <= usize::MAX,
            total == spec_total(batch.tasks@.take(ti as int)),
            graded == spec_graded(batch.tasks@.take(ti as int)),
            graded <= total,
            relevance_counts@.len() == 5,
            forall|rel: int|
                0 <= rel < 5 ==> (#[trigger] relevance_counts@[rel]) == spec_rel_count(
                    batch.tasks@.take(ti as int),
                    rel as u8,
                ),
            forall|rel: int|
                0 <= rel < 5 ==> (#[trigger] relevance_counts@[rel]) <= graded,
            errors@ == spec_errors(batch.tasks@.take(ti as int)),
        decreases batch.tasks@.len() - ti,
    {
        let ghost tpre = batch.tasks@.take(ti as int);
        let task: &AnnotationTask = &batch.tasks[ti];
        proof {
            assert(batch.tasks@.take(ti + 1).drop_last() =~= tpre);
            assert(batch.tasks@.take(ti + 1).last() == batch.tasks@[ti as int]);
            lemma_total_mono(batch.tasks@, ti as int);
        }
        let mut ci: usize = 0;
        while ci < task.candidates.len()
            invariant
                ci <= task.candidates@.len(),
                task == batch.tasks@[ti as int],
                ti < batch.tasks@.len(),
                spec_total(batch.tasks@) <= usize::MAX,
                spec_total(tpre) + task.candidates@.len() <= usize::MAX,
                total == spec_total(tpre) + ci,
                graded == spec_graded(tpre) + spec_graded_in(task.candidates@.take(ci as int)),
                graded <= total,
                relevance_counts@.len() == 5,
                forall|rel: int|
                    0 <= rel < 5 ==> (#[trigger] relevance_counts@[rel]) == spec_rel_count(
                        tpre,
                        rel as u8,
                    ) + spec_rel_in(task.candidates@.take(ci as int), rel as u8),
                forall|rel: int|
                    0 <= rel < 5 ==> (#[trigger] relevance_counts@[rel]) <= graded,
                errors@ == spec_errors(tpre) + spec_errors_in(
                    task.query,
                    task.candidates@.take(ci as int),
                ),
            decreases task.candidates@.len() - ci,
        {
            let ghost cpre = task.candidates@.take(ci as int);
            let ghost ec0 = errors@;
            proof {
                assert(task.candidates@.take(ci + 1).drop_last() =~= cpre);
                assert(task.candidates@.take(ci + 1).last() == task.candidates@[ci as int]);
                lemma_graded_le_len(cpre);
                lemma_graded_le_len(task.candidates@.take(ci + 1));
            }
            total = total + 1;
            match task.candidates[ci].relevance {
                Some(rel) => {
                    graded = graded + 1;
                    if rel <= 4 {
                        let cur: usize = relevance_counts[rel as usize];
                        crate::table::vec_set(&mut relevance_counts, rel as usize, cur + 1);
                        proof {
                            assert forall|r2: int|
                                0 <= r2 < 5 implies (#[trigger] relevance_counts@[r2])
                                == spec_rel_count(tpre, r2 as u8) + spec_rel_in(
                                task.candidates@.take(ci + 1),
                                r2 as u8,
                            ) by {
                                if r2 != rel {
                                    assert(task.candidates@.take(ci + 1).last().relevance
                                        != Some(r2 as u8));
                                }
                            }
                        }
                    } else {
                        errors.push((task.query.clone(), rel));
                        proof {
                            assert(errors@ =~= ec0 + seq![(task.query, rel)]);
                            assert(errors@ =~= spec_errors(tpre) + spec_errors_in(
                                task.query,
                                task.candidates@.take(ci + 1),
                            ));
                        }
                    }
                },
                None => {},
            }
            proof {
                if !(task.candidates@[ci as int].relevance matches Some(rel) && rel > 4) {
                    assert(errors@ =~= spec_errors(tpre) + spec_errors_in(
                        task.query,
                        task.candidates@.take(ci + 1),
                    ));
                }
            }
            ci = ci + 1;
        }
        proof {
            assert(task.candidates@.take(task.candidates@.len() as int) =~= task.candidates@);
        }
        ti = ti + 1;
    }
    proof {
        assert(batch.tasks@.take(batch.tasks@.len() as int) =~= batch.tasks@);
    }
    GradeReport { total, graded, relevance_counts, errors }
}

/// Graded candidates never outnumber candidates.
proof fn lemma_graded_le_len(cs: Seq<Candidate>)
    ensures
        spec_graded_in(cs) <= cs.len(),
    decreases cs.len(),
{
    if cs.len() > 0 {
        lemma_graded_le_len(cs.drop_last());
    }
}

/// A prefix plus one task stays within the batch total.
proof fn lemma_total_mono(tasks: Seq<AnnotationTask>, ti: int)
    requires
        0 <= ti < tasks.len(),
    ensures
        spec_total(tasks.take(ti)) + tasks[ti].candidates@.len() <= spec_total(tasks),
    decreases tasks.len(),
{
    if ti == tasks.len() - 1 {
        assert(tasks.take(tasks.len() - 1) =~= tasks.drop_last());
    } else {
        lemma_total_mono(tasks.drop_last(), ti);
        assert(tasks.drop_last().take(ti) =~= tasks.take(ti));
        assert(tasks.drop_last()[ti] == tasks[ti]);
    }
}

} // verus!
