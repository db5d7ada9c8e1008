//! Candidates produced by fusion and annotated by hand.

use vstd::prelude::*;

use crate::frac::Frac;
use crate::order::scored_wf;

verus! {

/// A candidate card: which sources proposed it, their raw scores, and the
/// annotation it has received, if any.
#[derive(Debug)]
pub struct Candidate {
    pub card: String,
    pub sources: Vec<String>,
    pub scores: Vec<(String, Frac)>,
    pub relevance: Option<u8>,
    pub notes: String,
}

/// The running maximum of the raw scores, started at zero.
pub open spec fn spec_max_score(s: Seq<(String, Frac)>) -> Frac
    decreases s.len(),
{
    if s.len() == 0 {
        Frac { num: 0, den: 1 }
    } else {
        spec_max_score(s.drop_last()).spec_max(s.last().1)
    }
}

impl Candidate {
    /// All raw scores are well-formed rationals.
    pub open spec fn wf(self) -> bool {
        scored_wf(self.scores@)
    }

    pub fn new(card: String, sources: Vec<String>, scores: Vec<(String, Frac)>) -> (r: Candidate)
        ensures
            r.card == card,
            r.sources == sources,
            r.scores == scores,
            r.relevance is None,
            r.notes@ == Seq::<char>::empty(),
    {
        Candidate { card, sources, scores, relevance: None, notes: String::new() }
    }

    /// Whether the candidate has received a relevance label.
    pub fn is_annotated(&self) -> (r: bool)
        ensures
            r == (self.relevance is Some),
    {
        self.relevance.is_some()
    }

    /// The largest raw score over all sources; zero floors the fold, so a
    /// candidate whose scores are all negative reports zero.
    pub fn max_score(&self) -> (r: Frac)
        requires
            self.wf(),
        ensures
            r == spec_max_score(self.scores@),
            r.wf(),
    {
        let mut acc: Frac = Frac::zero();
        let mut i: usize = 0;
        while i < self.scores.len()
            invariant
                i <= self.scores@.len(),
                scored_wf(self.scores@),
                acc == spec_max_score(self.scores@.take(i as int)),
                acc.wf(),
            decreases self.scores@.len() - i,
        {
            let ghost acc0 = acc;
            acc = acc.max(self.scores[i].1);
            proof {
                assert(self.scores@.take(i + 1).drop_last() =~= self.scores@.take(i as int));
                assert(self.scores@.take(i + 1).last() == self.scores@[i as int]);
            }
            i = i + 1;
        }
        proof {
            assert(self.scores@.take(self.scores@.len() as int) =~= self.scores@);
        }
        acc
    }

    /// How many sources proposed the candidate.
    pub fn source_count(&self) -> (r: usize)
        ensures
            r == self.sources@.len(),
    {
        self.sources.len()
    }
}

} // verus!
