//! Candidate rows of the older file layout.

use vstd::prelude::*;
use crate::candidate::Candidate;

verus! {

/// One data row of the candidates file.
pub struct CandidateRow {
    pub state_ab: String,
    pub party_ab: String,
    pub party_name: String,
    pub candidate_id: crate::candidate::CandidateId,
    pub surname: String,
    pub given_names: String,
    pub elected: String,
    pub historic_elected: String,
}

/// Convert every row into a candidate, in order.
pub fn parse(rows: Vec<CandidateRow>) -> (r: Vec<Candidate>)
    ensures
        r@.len() == rows@.len(),
        forall|i: int|
            0 <= i < rows@.len() ==> {
                let c = #[trigger] r@[i];
                let row = rows@[i];
                c.id == row.candidate_id && c.surname == row.surname && c.other_names
                    == row.given_names && c.group_name == row.party_ab && c.party
                    == row.party_name && c.state == row.state_ab
            },
{
    let mut r: Vec<Candidate> = Vec::new();
    let mut rows = rows;
    let ghost orig = rows@;
    let n0 = rows.len();
    proof {
        assert(orig.len() == n0);
    }
    let mut i: usize = 0;
    while rows.len() > 0
        invariant
            orig.len() <= usize::MAX,
            i + rows@.len() == orig.len(),
            rows@ == orig.skip(i as int),
            r@.len() == i,
            forall|a: int|
                0 <= a < i ==> {
                    let c = #[trigger] r@[a];
                    let row = orig[a];
                    c.id == row.candidate_id && c.surname == row.surname && c.other_names
                        == row.given_names && c.group_name == row.party_ab && c.party
                        == row.party_name && c.state == row.state_ab
                },
        decreases rows@.len(),
    {
        proof {
            assert(rows@[0] == orig[i as int]);
            assert(rows@.drop_first() =~= orig.skip(i + 1));
        }
        let row = rows.remove(0);
        r.push(
            Candidate {
                id: row.candidate_id,
                surname: row.surname,
                other_names: row.given_names,
                group_name: row.party_ab,
                party: row.party_name,
                state: row.state_ab,
            },
        );
        i = i + 1;
    }
    r
}

} // verus!
