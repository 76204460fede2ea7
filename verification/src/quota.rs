//! The historical quota formula, kept as an exact fraction.

use vstd::prelude::*;
use crate::frac::Frac;

verus! {

/// `floor(num_ballots / (num_senators + 1)) + 1`, as an exact fraction.
pub fn senate_quota(num_ballots: u32, num_senators: u32) -> (q: Frac)
    ensures
        q.wf(),
        q.den == 1,
        q.num == num_ballots as int / (num_senators + 1) as int + 1,
{
    let f = (num_ballots as u64) / ((num_senators as u64) + 1);
    Frac::from_u64(f + 1)
}

} // verus!
