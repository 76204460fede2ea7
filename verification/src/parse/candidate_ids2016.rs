//! Resolving candidate ids from surnames, for the results files.

use vstd::prelude::*;
use vstd::utf8::encode_utf8;
use crate::candidate::{CandidateId, string_bytes_eq};

verus! {

/// Map from surname to the (given names, candidate id) pairs sharing it.
pub struct CandidateIdLookup {
    pub entries: Vec<(String, Vec<(String, CandidateId)>)>,
}

/// The bucket stored for a surname, if any.
pub open spec fn lookup_find(
    s: Seq<(String, Vec<(String, CandidateId)>)>,
    surname: Seq<char>,
) -> Option<Seq<(String, CandidateId)>>
    decreases s.len(),
{
    if s.len() == 0 {
        None
    } else if s[0].0@ == surname {
        Some(s[0].1@)
    } else {
        lookup_find(s.drop_first(), surname)
    }
}

/// The id filed under a surname; the surname must resolve to exactly one
/// candidate.
pub fn lookup_candidate_id(id_lookup: &CandidateIdLookup, surname: &String) -> (r: Result<
    CandidateId,
    (),
>)
    requires
        forall|i: int|
            0 <= i < id_lookup.entries@.len() && encode_utf8(
                (#[trigger] id_lookup.entries@[i]).0@,
            ) == encode_utf8(surname@) ==> id_lookup.entries@[i].1@.len() == 1,
    ensures
        match r {
            Ok(id) => exists|i: int|
                0 <= i < id_lookup.entries@.len() && encode_utf8(
                    (#[trigger] id_lookup.entries@[i]).0@,
                ) == encode_utf8(surname@) && id_lookup.entries@[i].1@[0].1 == id,
            Err(()) => forall|i: int|
                0 <= i < id_lookup.entries@.len() ==> encode_utf8(
                    (#[trigger] id_lookup.entries@[i]).0@,
                ) != encode_utf8(surname@),
        },
{
    let target = surname.as_str().as_bytes();
    let mut i: usize = 0;
    while i < id_lookup.entries.len()
        invariant
            target@ == encode_utf8(surname@),
            i <= id_lookup.entries@.len(),
            forall|j: int|
                0 <= j < id_lookup.entries@.len() && encode_utf8(
                    (#[trigger] id_lookup.entries@[j]).0@,
                ) == encode_utf8(surname@) ==> id_lookup.entries@[j].1@.len() == 1,
            forall|j: int|
                0 <= j < i ==> encode_utf8((#[trigger] id_lookup.entries@[j]).0@)
                    != encode_utf8(surname@),
        decreases id_lookup.entries@.len() - i,
    {
        let key = id_lookup.entries[i].0.as_str().as_bytes();
        let mut same = key.len() == target.len();
        let mut k: usize = 0;
        while same && k < key.len()
            invariant
                k <= key@.len(),
                i < id_lookup.entries@.len(),
                key@ == encode_utf8(id_lookup.entries@[i as int].0@),
                target@ == encode_utf8(surname@),
                same ==> key@.len() == target@.len() && forall|j: int|
                    0 <= j < k ==> key@[j] == target@[j],
                !same ==> (key@.len() != target@.len() || exists|j: int|
                    0 <= j < key@.len() && key@[j] != #[trigger] target@[j]),
            decreases key@.len() - k + (if same { 1int } else { 0int }),
        {
            if key[k] != target[k] {
                proof {
                    assert(0 <= k < key@.len() && key@[k as int] != #[trigger] target@[
                    k as int]);
                }
                same = false;
            } else {
                k = k + 1;
            }
        }
        if same {
            proof {
                assert(key@ =~= target@);
            }
            return Ok(id_lookup.entries[i].1[0].1);
        }
        proof {
            if encode_utf8(id_lookup.entries@[i as int].0@) == encode_utf8(surname@) {
                assert(key@ == target@);
                assert(key@.len() == target@.len());
                let j = choose|j: int| 0 <= j < key@.len() && key@[j] != #[trigger] target@[j];
                assert(key@[j] == target@[j]);
            }
        }
        i = i + 1;
    }
    Err(())
}

} // verus!
