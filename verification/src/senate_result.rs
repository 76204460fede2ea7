//! The outcome of a count: elected senators in order, a tie flag, and the
//! gathered statistics.

use vstd::prelude::*;
use crate::candidate::{Candidate, CandidateId, CandidateMap};
use crate::stats::Stats;

verus! {

#[derive(Debug)]
pub struct Senate {
    /// List of senators and the vote tally they were elected on.
    pub senators: Vec<(Candidate, u64)>,
    pub tied: bool,
    pub stats: Stats,
}

impl Senate {
    pub fn new() -> (s: Senate)
        ensures
            s.senators@.len() == 0,
            !s.tied,
            s.stats.wf(),
            s.stats.num_valid_votes == 0,
            s.stats.invalid_votes@.len() == 0,
            s.stats.exhausted_votes@.len() == 0,
    {
        Senate { senators: Vec::new(), tied: false, stats: Stats::new() }
    }

    /// Append the candidate with the given id, at the given final tally.
    pub fn add_senator(&mut self, id: CandidateId, tally: u64, candidates: &CandidateMap)
        requires
            candidates.wf(),
            candidates.spec_contains(id),
        ensures
            final(self).senators@.len() == old(self).senators@.len() + 1,
            final(self).senators@.subrange(0, old(self).senators@.len() as int) == old(
                self,
            ).senators@,
            final(self).senators@.last().0.id == id,
            final(self).senators@.last().1 == tally,
            candidates.spec_get(id) == Some(final(self).senators@.last().0),
            final(self).tied == old(self).tied,
            final(self).stats == old(self).stats,
    {
        proof {
            candidates.lemma_contains_get(id);
            candidates.lemma_get_id(id);
        }
        let ghost prev = self.senators@;
        match candidates.get(id) {
            Some(c) => {
                let copy = c.duplicate();
                self.senators.push((copy, tally));
            },
            None => {
                proof {
                    assert(false);
                }
            },
        }
        proof {
            assert(self.senators@.subrange(0, prev.len() as int) =~= prev);
        }
    }

    pub fn num_elected(&self) -> (n: usize)
        ensures
            n == self.senators@.len(),
    {
        self.senators.len()
    }
}

} // verus!
