//! Candidate rows of the 2016 nomination file: only Senate nominations
//! (`nom_ty` of "S") become candidates, with ids assigned by row position.

use vstd::prelude::*;
use vstd::utf8::encode_utf8;
use crate::candidate::{Candidate, CandidateId, string_bytes_eq};

verus! {

/// The fields of a nomination row that the conversion reads.
pub struct CandidateRow {
    pub nom_ty: String,
    pub state_ab: String,
    pub ticket: String,
    pub surname: String,
    pub ballot_given_nm: String,
    pub party_ballot_nm: String,
}

/// The byte of the Senate nomination marker "S".
pub open spec fn senate_marker() -> Seq<u8> {
    seq![83u8]
}

/// The candidates denoted by the rows at or after `i`.
pub open spec fn spec_candidates(rows: Seq<CandidateRow>, i: int) -> Seq<Candidate>
    decreases rows.len() - i,
{
    if i < 0 || i >= rows.len() {
        Seq::empty()
    } else if encode_utf8(rows[i].nom_ty@) == senate_marker() {
        seq![
            Candidate {
                id: i as CandidateId,
                surname: rows[i].surname,
                other_names: rows[i].ballot_given_nm,
                group_name: rows[i].ticket,
                party: rows[i].party_ballot_nm,
                state: rows[i].state_ab,
            },
        ] + spec_candidates(rows, i + 1)
    } else {
        spec_candidates(rows, i + 1)
    }
}

/// Convert the nomination rows, keeping Senate nominations only.
pub fn parse(rows: Vec<CandidateRow>) -> (r: Vec<Candidate>)
    requires
        rows@.len() <= CandidateId::MAX,
    ensures
        r@ == spec_candidates(rows@, 0),
{
    let marker = vec![83u8];
    proof {
        assert(marker@ =~= senate_marker());
    }
    let mut r: Vec<Candidate> = Vec::new();
    let mut rows = rows;
    let ghost orig = rows@;
    let n0 = rows.len();
    proof {
        assert(orig.len() == n0);
    }
    let mut i: usize = 0;
    proof {
        assert(rows@.skip(0) =~= rows@);
        assert(Seq::<Candidate>::empty() + spec_candidates(orig, 0) =~= spec_candidates(
            orig,
            0,
        ));
    }
    while rows.len() > 0
        invariant
            marker@ == senate_marker(),
            orig.len() <= usize::MAX,
            i + rows@.len() == orig.len(),
            orig.len() <= CandidateId::MAX,
            rows@ == orig.skip(i as int),
            spec_candidates(orig, 0) == r@ + spec_candidates(orig, i as int),
        decreases rows@.len(),
    {
        proof {
            assert(rows@[0] == orig[i as int]);
            assert(rows@.drop_first() =~= orig.skip(i + 1));
        }
        let row = rows.remove(0);
        let is_senate = string_bytes_eq(&row.nom_ty, &marker);
        if is_senate {
            let ghost prev = r@;
            r.push(
                Candidate {
                    id: i as CandidateId,
                    surname: row.surname,
                    other_names: row.ballot_given_nm,
                    group_name: row.ticket,
                    party: row.party_ballot_nm,
                    state: row.state_ab,
                },
            );
            proof {
                assert(r@ =~= prev + seq![r@.last()]);
                assert(r@.last() == spec_candidates(orig, i as int)[0]);
                assert(prev + (seq![r@.last()] + spec_candidates(orig, i + 1)) =~= (prev
                    + seq![r@.last()]) + spec_candidates(orig, i + 1));
            }
        }
        i = i + 1;
    }
    proof {
        assert(spec_candidates(orig, orig.len() as int) =~= Seq::<Candidate>::empty());
        assert(r@ + Seq::<Candidate>::empty() =~= r@);
    }
    r
}

} // verus!
