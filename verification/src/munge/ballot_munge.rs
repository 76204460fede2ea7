//! The interface every ballot transform implements.

use vstd::prelude::*;
use crate::ballot::Ballot;
use crate::candidate::CandidateMap;
use crate::group::Group;

verus! {

/// A transform applied to each parsed ballot before ingestion; transforms
/// run in the order given and each sees the previous one's output.
pub trait BallotMunge {
    fn munge(
        &mut self,
        ballot: &mut Ballot,
        groups: &Vec<Group>,
        candidates: &CandidateMap,
    );
}

} // verus!
