//! A ballot transform that strengthens the two major parties: every ballot
//! is extended to preference both of them.

use vstd::prelude::*;
use vstd::utf8::encode_utf8;
use crate::ballot::Ballot;
use crate::candidate::{Candidate, CandidateId, CandidateMap, string_bytes_eq};
use crate::group::Group;
use crate::munge::ballot_munge::BallotMunge;

verus! {

pub open spec fn nsw_bytes() -> Seq<u8> {
    seq![78u8, 83, 87]
}

pub open spec fn qld_bytes() -> Seq<u8> {
    seq![81u8, 76, 68]
}

pub open spec fn sa_bytes() -> Seq<u8> {
    seq![83u8, 65]
}

/// The munger keeps the two major groups' ballot-paper letters for the
/// state, and counters of what it saw.
pub struct RedVsBlue {
    pub liberal_group: Vec<u8>,
    pub labor_group: Vec<u8>,
    pub num_green: usize,
    pub num_labor: usize,
    pub num_liberal: usize,
    pub num_other: usize,
    pub num_hits: usize,
}

/// The classes a ballot's first recognisable preference falls into.
#[derive(Debug, PartialEq, Eq, Structural, Clone, Copy)]
pub enum FirstPref {
    Green,
    Labor,
    Liberal,
    Other,
}

/// The party class of a candidate, by the party's printed name.
pub open spec fn party_class(party: Seq<u8>) -> Option<FirstPref> {
    if party == seq![76u8, 97, 98, 111, 114] || party == seq![
        65u8, 117, 115, 116, 114, 97, 108, 105, 97, 110, 32, 76, 97, 98, 111, 114, 32, 80, 97,
        114, 116, 121,
    ] {
        Some(FirstPref::Labor)
    } else if party == seq![76u8, 105, 98, 101, 114, 97, 108] || party == seq![
        84u8, 104, 101, 32, 78, 97, 116, 105, 111, 110, 97, 108, 115,
    ] || party == seq![
        76u8, 105, 98, 101, 114, 97, 108, 32, 78, 97, 116, 105, 111, 110, 97, 108, 32, 80, 97,
        114, 116, 121, 32, 111, 102, 32, 81, 117, 101, 101, 110, 115, 108, 97, 110, 100,
    ] {
        Some(FirstPref::Liberal)
    } else if party == seq![84u8, 104, 101, 32, 71, 114, 101, 101, 110, 115] {
        Some(FirstPref::Green)
    } else {
        None
    }
}

/// The class of the first preference with a recognisable party.
pub open spec fn spec_categorise(
    prefs: Seq<CandidateId>,
    candidates: CandidateMap,
) -> FirstPref
    decreases prefs.len(),
{
    if prefs.len() == 0 {
        FirstPref::Other
    } else {
        match candidates.spec_get(prefs[0]) {
            Some(c) => match party_class(encode_utf8(c.party@)) {
                Some(f) => f,
                None => spec_categorise(prefs.drop_first(), candidates),
            },
            None => spec_categorise(prefs.drop_first(), candidates),
        }
    }
}

/// Classify a ballot by the party of its first recognisable preference.
pub fn categorise(ballot: &Ballot, candidates: &CandidateMap) -> (r: FirstPref)
    requires
        candidates.wf(),
    ensures
        r == spec_categorise(ballot.prefs@, *candidates),
{
    let labor1 = vec![76u8, 97, 98, 111, 114];
    let labor2 = vec![
        65u8, 117, 115, 116, 114, 97, 108, 105, 97, 110, 32, 76, 97, 98, 111, 114, 32, 80, 97,
        114, 116, 121,
    ];
    let lib1 = vec![76u8, 105, 98, 101, 114, 97, 108];
    let lib2 = vec![84u8, 104, 101, 32, 78, 97, 116, 105, 111, 110, 97, 108, 115];
    let lib3 = vec![
        76u8, 105, 98, 101, 114, 97, 108, 32, 78, 97, 116, 105, 111, 110, 97, 108, 32, 80, 97,
        114, 116, 121, 32, 111, 102, 32, 81, 117, 101, 101, 110, 115, 108, 97, 110, 100,
    ];
    let green = vec![84u8, 104, 101, 32, 71, 114, 101, 101, 110, 115];
    let mut i: usize = 0;
    proof {
        assert(ballot.prefs@.skip(0) =~= ballot.prefs@);
    }
    while i < ballot.prefs.len()
        invariant
            i <= ballot.prefs@.len(),
            candidates.wf(),
            labor1@ =~= seq![76u8, 97, 98, 111, 114],
            labor2@ =~= seq![
                65u8, 117, 115, 116, 114, 97, 108, 105, 97, 110, 32, 76, 97, 98, 111, 114, 32,
                80, 97, 114, 116, 121,
            ],
            lib1@ =~= seq![76u8, 105, 98, 101, 114, 97, 108],
            lib2@ =~= seq![84u8, 104, 101, 32, 78, 97, 116, 105, 111, 110, 97, 108, 115],
            lib3@ =~= seq![
                76u8, 105, 98, 101, 114, 97, 108, 32, 78, 97, 116, 105, 111, 110, 97, 108, 32,
                80, 97, 114, 116, 121, 32, 111, 102, 32, 81, 117, 101, 101, 110, 115, 108, 97,
                110, 100,
            ],
            green@ =~= seq![84u8, 104, 101, 32, 71, 114, 101, 101, 110, 115],
            spec_categorise(ballot.prefs@, *candidates) == spec_categorise(
                ballot.prefs@.skip(i as int),
                *candidates,
            ),
        decreases ballot.prefs@.len() - i,
    {
        proof {
            assert(ballot.prefs@.skip(i as int)[0] == ballot.prefs@[i as int]);
            assert(ballot.prefs@.skip(i as int).drop_first() =~= ballot.prefs@.skip(i + 1));
        }
        let id = ballot.prefs[i];
        match candidates.get(id) {
            Some(c) => {
                if string_bytes_eq(&c.party, &labor1) || string_bytes_eq(&c.party, &labor2) {
                    return FirstPref::Labor;
                }
                if string_bytes_eq(&c.party, &lib1) || string_bytes_eq(&c.party, &lib2)
                    || string_bytes_eq(&c.party, &lib3) {
                    return FirstPref::Liberal;
                }
                if string_bytes_eq(&c.party, &green) {
                    return FirstPref::Green;
                }
            },
            None => {},
        }
        i = i + 1;
    }
    proof {
        assert(ballot.prefs@.skip(ballot.prefs@.len() as int) =~= Seq::<CandidateId>::empty());
    }
    FirstPref::Other
}

impl RedVsBlue {
    /// The major-party group letters for the given state.
    pub fn new(state: &String) -> (r: RedVsBlue)
        requires
            encode_utf8(state@) == nsw_bytes() || encode_utf8(state@) == qld_bytes()
                || encode_utf8(state@) == sa_bytes(),
        ensures
            r.num_green == 0 && r.num_labor == 0 && r.num_liberal == 0 && r.num_other == 0
                && r.num_hits == 0,
    {
        let nsw = vec![78u8, 83, 87];
        let qld = vec![81u8, 76, 68];
        let sa = vec![83u8, 65];
        proof {
            assert(nsw@ =~= nsw_bytes());
            assert(qld@ =~= qld_bytes());
            assert(sa@ =~= sa_bytes());
        }
        if string_bytes_eq(state, &nsw) {
            RedVsBlue {
                liberal_group: vec![70u8],
                labor_group: vec![78u8],
                num_green: 0,
                num_labor: 0,
                num_liberal: 0,
                num_other: 0,
                num_hits: 0,
            }
        } else if string_bytes_eq(state, &qld) {
            RedVsBlue {
                liberal_group: vec![71u8],
                labor_group: vec![68u8],
                num_green: 0,
                num_labor: 0,
                num_liberal: 0,
                num_other: 0,
                num_hits: 0,
            }
        } else {
            proof {
                assert(encode_utf8(state@) == sa_bytes());
            }
            RedVsBlue {
                liberal_group: vec![72u8],
                labor_group: vec![66u8],
                num_green: 0,
                num_labor: 0,
                num_liberal: 0,
                num_other: 0,
                num_hits: 0,
            }
        }
    }

    /// Extend a ballot so that it preferences both major parties: the
    /// groups to prefer are chosen from the ballot's own first preference,
    /// and only candidates not already preferenced are appended.  The
    /// ballot's existing preferences, cursor and weight are untouched.
    pub fn apply(
        &mut self,
        ballot: &mut Ballot,
        groups: &Vec<Group>,
        candidates: &CandidateMap,
    )
        requires
            candidates.wf(),
        ensures
            final(ballot).prefs@.subrange(0, old(ballot).prefs@.len() as int) == old(
                ballot,
            ).prefs@,
            final(ballot).prefs@.len() >= old(ballot).prefs@.len(),
            final(ballot).spec_current() == old(ballot).spec_current(),
            final(ballot).spec_weight() == old(ballot).spec_weight(),
            forall|j: int|
                old(ballot).prefs@.len() <= j < final(ballot).prefs@.len() ==> !old(
                    ballot,
                ).prefs@.contains(#[trigger] final(ballot).prefs@[j]),
    {
        let class = categorise(ballot, candidates);
        let mut groups_to_pref: Vec<Vec<u8>> = Vec::new();
        match class {
            FirstPref::Labor => {
                if self.num_labor < usize::MAX {
                    self.num_labor = self.num_labor + 1;
                }
                groups_to_pref.push(copy_bytes(&self.liberal_group));
            },
            FirstPref::Liberal => {
                if self.num_liberal < usize::MAX {
                    self.num_liberal = self.num_liberal + 1;
                }
                groups_to_pref.push(copy_bytes(&self.labor_group));
            },
            FirstPref::Green => {
                if self.num_green < usize::MAX {
                    self.num_green = self.num_green + 1;
                }
                groups_to_pref.push(copy_bytes(&self.labor_group));
                groups_to_pref.push(copy_bytes(&self.liberal_group));
            },
            FirstPref::Other => {
                if self.num_other < usize::MAX {
                    self.num_other = self.num_other + 1;
                }
                // alternate between preferencing the two major parties
                if self.num_other % 2 == 0 {
                    groups_to_pref.push(copy_bytes(&self.labor_group));
                    groups_to_pref.push(copy_bytes(&self.liberal_group));
                } else {
                    groups_to_pref.push(copy_bytes(&self.liberal_group));
                    groups_to_pref.push(copy_bytes(&self.labor_group));
                }
            },
        }
        let ghost orig = ballot.prefs@;
        let mut appended = false;
        let mut g: usize = 0;
        while g < groups_to_pref.len()
            invariant
                candidates.wf(),
                ballot.prefs@.subrange(0, orig.len() as int) == orig,
                ballot.prefs@.len() >= orig.len(),
                ballot.spec_current() == old(ballot).spec_current(),
                ballot.spec_weight() == old(ballot).spec_weight(),
                orig == old(ballot).prefs@,
                forall|j: int|
                    orig.len() <= j < ballot.prefs@.len() ==> !orig.contains(
                        #[trigger] ballot.prefs@[j],
                    ),
            decreases groups_to_pref@.len() - g,
        {
            // find the named group
            let mut gi: usize = 0;
            let mut found: Option<usize> = None;
            while gi < groups.len() && found.is_none()
                invariant
                    gi <= groups@.len(),
                    g < groups_to_pref@.len(),
                    match found {
                        Some(f) => f < groups@.len(),
                        None => true,
                    },
                decreases groups@.len() - gi + (if found is Some { 0int } else { 1int }),
            {
                if string_bytes_eq(&groups[gi].name, &groups_to_pref[g]) {
                    found = Some(gi);
                } else {
                    gi = gi + 1;
                }
            }
            if let Some(f) = found {
                let ids = &groups[f].candidate_ids;
                let mut k: usize = 0;
                while k < ids.len()
                    invariant
                        f < groups@.len(),
                        ids == groups@[f as int].candidate_ids,
                        k <= ids@.len(),
                        ballot.prefs@.subrange(0, orig.len() as int) == orig,
                        ballot.prefs@.len() >= orig.len(),
                        ballot.spec_current() == old(ballot).spec_current(),
                        ballot.spec_weight() == old(ballot).spec_weight(),
                        orig == old(ballot).prefs@,
                        forall|j: int|
                            orig.len() <= j < ballot.prefs@.len() ==> !orig.contains(
                                #[trigger] ballot.prefs@[j],
                            ),
                    decreases ids@.len() - k,
                {
                    let cid = ids[k];
                    // take only candidates not already preferenced
                    let mut seen = false;
                    let mut p: usize = 0;
                    while p < ballot.prefs.len() && !seen
                        invariant
                            p <= ballot.prefs@.len(),
                            seen ==> ballot.prefs@.contains(cid),
                            !seen ==> forall|j: int|
                                0 <= j < p ==> ballot.prefs@[j] != cid,
                        decreases ballot.prefs@.len() - p + (if seen { 0int } else { 1int }),
                    {
                        if ballot.prefs[p] == cid {
                            seen = true;
                        } else {
                            p = p + 1;
                        }
                    }
                    if !seen {
                        let ghost pre = ballot.prefs@;
                        ballot.prefs.push(cid);
                        proof {
                            assert(!orig.contains(cid)) by {
                                if orig.contains(cid) {
                                    let w = choose|w: int|
                                        0 <= w < orig.len() && orig[w] == cid;
                                    assert(pre[w] == orig[w]) by {
                                        assert(pre.subrange(0, orig.len() as int)[w]
                                            == orig[w]);
                                    }
                                }
                            }
                            assert(ballot.prefs@.subrange(0, orig.len() as int) =~= orig);
                        }
                    }
                    k = k + 1;
                }
            }
            g = g + 1;
        }
        if self.num_hits < usize::MAX {
            self.num_hits = self.num_hits + 1;
        }
    }
}

/// A plain copy of a byte vector.
fn copy_bytes(v: &Vec<u8>) -> (r: Vec<u8>)
    ensures
        r@ == v@,
{
    let mut r: Vec<u8> = Vec::new();
    let mut i: usize = 0;
    while i < v.len()
        invariant
            i <= v@.len(),
            r@ == v@.subrange(0, i as int),
        decreases v@.len() - i,
    {
        r.push(v[i]);
        proof {
            assert(r@ =~= v@.subrange(0, i + 1));
        }
        i = i + 1;
    }
    proof {
        assert(r@ =~= v@);
    }
    r
}

impl BallotMunge for RedVsBlue {
    fn munge(
        &mut self,
        ballot: &mut Ballot,
        groups: &Vec<Group>,
        candidates: &CandidateMap,
    ) {
        if candidates.wf_check() {
            self.apply(ballot, groups, candidates);
        }
    }
}

} // verus!
