//! A ballot: an individual's preference ordering over candidates, with a
//! cursor marking the first preference still in the running.

use vstd::prelude::*;
use crate::candidate::CandidateId;

verus! {

/// A Ballot represents an individual's order of preferences.
#[derive(Debug)]
pub struct Ballot {
    /// Ordering of candidates.
    pub prefs: Vec<CandidateId>,
    /// Index of the first candidate in `prefs` who is still in the running.
    pub current: usize,
    /// Number of identical ballots this value stands for.
    pub weight: u32,
}

impl Ballot {
    pub open spec fn spec_current(self) -> usize {
        self.current
    }

    pub open spec fn spec_weight(self) -> u32 {
        self.weight
    }

    /// A ballot representing a single vote.
    pub fn single(prefs: Vec<CandidateId>) -> (b: Ballot)
        ensures
            b.prefs == prefs,
            b.spec_current() == 0,
            b.spec_weight() == 1,
    {
        Ballot { prefs, current: 0, weight: 1 }
    }

    /// A ballot representing `weight` identical votes.
    pub fn multi(weight: u32, prefs: Vec<CandidateId>) -> (b: Ballot)
        ensures
            b.prefs == prefs,
            b.spec_current() == 0,
            b.spec_weight() == weight,
    {
        Ballot { prefs, current: 0, weight }
    }

    pub fn weight(&self) -> (w: u32)
        ensures
            w == self.spec_weight(),
    {
        self.weight
    }

    pub fn current(&self) -> (c: usize)
        ensures
            c == self.spec_current(),
    {
        self.current
    }

    pub fn set_current(&mut self, idx: usize)
        ensures
            final(self).prefs == old(self).prefs,
            final(self).spec_weight() == old(self).spec_weight(),
            final(self).spec_current() == idx,
    {
        self.current = idx;
    }
}

} // verus!
