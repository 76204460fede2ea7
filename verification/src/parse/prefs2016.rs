//! Preference rows of the 2016 formal-preferences file.

use vstd::prelude::*;
use crate::ballot::Ballot;
use crate::ballot_parse::{
    BallotParseErr, Constraints, IOBallot, parse_ballot_str, spec_above_prefs,
    spec_below_prefs, spec_resolve,
};
use crate::candidate::CandidateId;
use crate::group::Group;

verus! {

/// One data row of the preferences file; the count reads only the raw
/// preference string.
pub struct PrefRow {
    pub electorate_name: String,
    pub vote_collection_point: String,
    pub vote_collection_point_id: String,
    pub batch_num: String,
    pub paper_num: String,
    pub preferences: String,
}

/// Parse the preference string of one row into a ballot or its error.
pub fn parse_single_ballot(
    row: &PrefRow,
    groups: &Vec<Group>,
    candidates: &Vec<CandidateId>,
    constraints: &Constraints,
) -> (r: IOBallot)
    requires
        groups@.len() + candidates@.len() <= u32::MAX,
    ensures
        ({
            let above = spec_above_prefs(
                vstd::utf8::encode_utf8(row.preferences@),
                groups@,
                constraints.counts@,
            );
            let below = spec_below_prefs(
                vstd::utf8::encode_utf8(row.preferences@),
                groups@.len() as int,
                candidates@,
                constraints.counts@,
            );
            match spec_resolve(constraints.choice, above, below) {
                Ok(prefs) => match r {
                    Ok(b) => b.prefs@ == prefs && b.spec_current() == 0 && b.spec_weight()
                        == 1,
                    Err(_) => false,
                },
                Err(e) => r == Err::<Ballot, _>(BallotParseErr::InvalidBallot(e)),
            }
        }),
{
    parse_ballot_str(row.preferences.as_str(), groups, candidates, constraints)
}

} // verus!
