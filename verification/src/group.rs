//! Groups of candidates for above-the-line voting.

use vstd::prelude::*;
use crate::candidate::{Candidate, CandidateId};

verus! {

#[derive(Debug)]
pub struct Group {
    pub name: String,
    pub candidate_ids: Vec<CandidateId>,
}

/// Spec-level image of a group: its name and candidate list.
pub type SpecGroup = (Seq<char>, Seq<CandidateId>);

/// The ungrouped marker, which never forms a group of its own.
pub open spec fn ungrouped() -> Seq<char> {
    seq!['U', 'G']
}

/// One step of group-list construction: a candidate of the wrong state is
/// skipped; one whose group matches the last open group joins it; otherwise
/// a new group is opened, unless the candidate is ungrouped.
pub open spec fn groups_step(acc: Seq<SpecGroup>, c: Candidate, state: Seq<char>) -> Seq<
    SpecGroup,
> {
    if c.state@ != state {
        acc
    } else if acc.len() > 0 && acc.last().0 == c.group_name@ {
        acc.update(acc.len() - 1, (acc.last().0, acc.last().1.push(c.id)))
    } else if c.group_name@ != ungrouped() {
        acc.push((c.group_name@, seq![c.id]))
    } else {
        acc
    }
}

/// The group list built from `candidates[i..]`, given groups built so far.
pub open spec fn spec_groups_from(
    candidates: Seq<Candidate>,
    state: Seq<char>,
    i: int,
    acc: Seq<SpecGroup>,
) -> Seq<SpecGroup>
    decreases candidates.len() - i,
{
    if i < 0 || i >= candidates.len() {
        acc
    } else {
        spec_groups_from(candidates, state, i + 1, groups_step(acc, candidates[i], state))
    }
}

/// The above-the-line group list for one state, in ballot-paper order.
/// Consecutive candidates sharing a group name form one group; the
/// ungrouped marker "UG" forms no group.
pub fn get_group_list(candidates: &Vec<Candidate>, state: &String) -> (r: Vec<Group>)
    ensures
        ({
            let spec = spec_groups_from(candidates@, state@, 0, Seq::empty());
            &&& r@.len() == spec.len()
            &&& forall|j: int|
                0 <= j < r@.len() ==> (#[trigger] r@[j]).name@ == spec[j].0 && r@[j].candidate_ids@
                    == spec[j].1
        }),
{
    let mut done: Vec<Group> = Vec::new();
    // the group currently open for extension, if any
    let mut open_group: Option<Group> = None;
    let mut i: usize = 0;
    proof {
        assert(done@.map_values(|x: Group| (x.name@, x.candidate_ids@)) =~= Seq::<
            SpecGroup,
        >::empty());
    }
    while i < candidates.len()
        invariant
            i <= candidates@.len(),
            ({
                let acc = spec_groups_from(candidates@, state@, 0, Seq::empty());
                let cur = spec_groups_from(
                    candidates@,
                    state@,
                    i as int,
                    match open_group {
                        Some(g) => done@.map_values(
                            |x: Group| (x.name@, x.candidate_ids@),
                        ).push((g.name@, g.candidate_ids@)),
                        None => done@.map_values(|x: Group| (x.name@, x.candidate_ids@)),
                    },
                );
                acc == cur
            }),
            open_group is None ==> done@.len() == 0,
        decreases candidates@.len() - i,
    {
        let c = &candidates[i];
        let ghost pre = match open_group {
            Some(ref g) => done@.map_values(|x: Group| (x.name@, x.candidate_ids@)).push(
                (g.name@, g.candidate_ids@),
            ),
            None => done@.map_values(|x: Group| (x.name@, x.candidate_ids@)),
        };
        if c.state.eq(state) {
            let matches_open = match &open_group {
                Some(g) => g.name.eq(&c.group_name),
                None => false,
            };
            if matches_open {
                if let Some(mut g) = open_group {
                    g.candidate_ids.push(c.id);
                    open_group = Some(g);
                } else {
                    open_group = None;
                }
                proof {
                    let g = open_group->Some_0;
                    assert(groups_step(pre, candidates@[i as int], state@) =~~= done@.map_values(
                        |x: Group| (x.name@, x.candidate_ids@),
                    ).push((g.name@, g.candidate_ids@)));
                }
            } else {
                let is_ungrouped = string_is_ug(&c.group_name);
                if !is_ungrouped {
                    let fresh = Group {
                        name: c.group_name.clone(),
                        candidate_ids: vec![c.id],
                    };
                    match open_group {
                        Some(g) => {
                            done.push(g);
                            proof {
                                assert(done@.map_values(
                                    |x: Group| (x.name@, x.candidate_ids@),
                                ) =~~= pre);
                                assert(done@.map_values(
                                    |x: Group| (x.name@, x.candidate_ids@),
                                ).push((fresh.name@, fresh.candidate_ids@)) =~~= groups_step(
                                    pre,
                                    candidates@[i as int],
                                    state@,
                                ));
                            }
                        },
                        None => {
                            proof {
                                assert(done@.map_values(
                                    |x: Group| (x.name@, x.candidate_ids@),
                                ).push((fresh.name@, fresh.candidate_ids@)) =~~= groups_step(
                                    pre,
                                    candidates@[i as int],
                                    state@,
                                ));
                            }
                        },
                    }
                    open_group = Some(fresh);
                } else {
                    proof {
                        assert(groups_step(pre, candidates@[i as int], state@) =~~= pre);
                    }
                }
            }
        } else {
            proof {
                assert(groups_step(pre, candidates@[i as int], state@) =~~= pre);
            }
        }
        i = i + 1;
    }
    let ghost closing = match open_group {
        Some(ref g) => done@.map_values(|x: Group| (x.name@, x.candidate_ids@)).push(
            (g.name@, g.candidate_ids@),
        ),
        None => done@.map_values(|x: Group| (x.name@, x.candidate_ids@)),
    };
    if let Some(g) = open_group {
        done.push(g);
        proof {
            assert(done@.map_values(|x: Group| (x.name@, x.candidate_ids@)) =~~= closing);
        }
    }
    done
}

/// Whether a group name is the ungrouped marker "UG".
fn string_is_ug(s: &String) -> (r: bool)
    ensures
        r == (s@ == ungrouped()),
{
    let bytes = s.as_str().as_bytes();
    proof {
        assert(bytes@ == vstd::utf8::encode_utf8(s@));
        lemma_ug_bytes(s);
    }
    if bytes.len() == 2 && bytes[0] == 85 && bytes[1] == 71 {
        proof {
            assert(bytes@ =~= seq![85u8, 71u8]);
        }
        true
    } else {
        proof {
            if bytes@ == seq![85u8, 71u8] {
                assert(bytes@.len() == 2);
                assert(bytes@[0] == 85 && bytes@[1] == 71);
            }
        }
        false
    }
}

/// "UG" is the only character sequence whose UTF-8 encoding is `[85, 71]`.
proof fn lemma_ug_bytes(s: &String)
    ensures
        (vstd::utf8::encode_utf8(s@) == seq![85u8, 71u8]) <==> (s@ == ungrouped()),
{
    assert(vstd::utf8::is_ascii_chars(ungrouped())) by {
        assert(ungrouped()[0] == 'U' && ungrouped()[1] == 'G');
    }
    vstd::utf8::is_ascii_chars_encode_utf8(ungrouped());
    assert(vstd::utf8::encode_utf8(ungrouped()) =~= seq![85u8, 71u8]) by {
        assert(vstd::utf8::encode_utf8(ungrouped())[0] == 'U' as u8);
        assert(vstd::utf8::encode_utf8(ungrouped())[1] == 'G' as u8);
    }
    if vstd::utf8::encode_utf8(s@) == seq![85u8, 71u8] {
        vstd::utf8::encode_utf8_decode_utf8(s@);
        vstd::utf8::encode_utf8_decode_utf8(ungrouped());
        assert(s@ == vstd::utf8::decode_utf8(vstd::utf8::encode_utf8(s@)));
    }
}

} // verus!
