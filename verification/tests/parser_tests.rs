//! Ballot parser behaviour: repeats, gaps, constraints, and round trips.

use aus_senate::ballot_parse::{
    BallotParseErr, ChoiceConstraint, Constraints, CountConstraint, InvalidBallotErr,
    PrefMap, create_pref_map, parse_ballot_str, remove_repeats_and_gaps, split_fields,
};
use aus_senate::candidate::CandidateId;
use aus_senate::group::Group;
use aus_senate::pref_map::PrefMapOf;

fn dense_map_with_eleven() -> PrefMap {
    // keys 1..=9 mapping to themselves, plus key 11
    let mut m: PrefMap = PrefMapOf::new();
    for k in 1u32..10 {
        m.insert(k, k as CandidateId);
    }
    m.insert(11, 11);
    m
}

#[test]
fn remove_gaps() {
    assert_eq!(
        remove_repeats_and_gaps(dense_map_with_eleven(), None).unwrap().len(),
        9
    );
    assert_eq!(
        remove_repeats_and_gaps(dense_map_with_eleven(), Some(10)).unwrap().len(),
        9
    );
    assert_eq!(
        remove_repeats_and_gaps(dense_map_with_eleven(), Some(5)).unwrap().len(),
        4
    );
}

#[test]
fn empty_ballot_fails() {
    let groups: Vec<Group> = vec![];
    let candidates: Vec<CandidateId> = vec![0];
    let constraints = Constraints::official();
    let r = parse_ballot_str("", &groups, &candidates, &constraints);
    match r {
        Err(BallotParseErr::InvalidBallot(InvalidBallotErr::EmptyBallot)) => {},
        other => panic!("expected an empty-ballot error, got {:?}", other),
    }
}

#[test]
fn invalid_character_fails() {
    let groups = vec![Group { name: "A".to_string(), candidate_ids: vec![0] }];
    let candidates: Vec<CandidateId> = vec![0];
    let constraints = Constraints {
        choice: ChoiceConstraint::PreferBelow,
        counts: vec![CountConstraint::MinBelow(1)],
    };
    // both halves fail, so the above-the-line error is the one reported
    let r = parse_ballot_str("x,y", &groups, &candidates, &constraints);
    match r {
        Err(BallotParseErr::InvalidBallot(InvalidBallotErr::InvalidCharacter)) => {},
        other => panic!("expected an invalid-character error, got {:?}", other),
    }
}

#[test]
fn repeat_cutoff_keeps_only_earlier_preferences() {
    // preferences 1,2,3,2,5: the repeat at 2 cuts everything from 2 up
    let fields = split_fields("1,2,3,2,5");
    let candidates: Vec<CandidateId> = vec![10, 11, 12, 13, 14];
    let (map, cutoff) = create_pref_map(&fields, 0, 5, &candidates).unwrap();
    assert_eq!(cutoff, Some(2));
    let pruned = remove_repeats_and_gaps(map, cutoff).unwrap();
    assert_eq!(pruned.len(), 1);
    assert_eq!(pruned.entries[0], (1, 10));
}

#[test]
fn gap_cuts_group_preferences() {
    // group preferences 1,2,4,5 (missing 3) with no below-the-line votes
    let groups = vec![
        Group { name: "A".to_string(), candidate_ids: vec![0, 1] },
        Group { name: "B".to_string(), candidate_ids: vec![2] },
        Group { name: "C".to_string(), candidate_ids: vec![3] },
        Group { name: "D".to_string(), candidate_ids: vec![4] },
    ];
    let candidates: Vec<CandidateId> = vec![0, 1, 2, 3, 4];
    // official 2016 rules accept the two surviving group preferences
    let official = Constraints::official();
    let r = parse_ballot_str("1,2,4,5", &groups, &candidates, &official).unwrap();
    assert_eq!(r.prefs, vec![0, 1, 2]);
    // stricter rules demanding six group preferences reject the ballot
    let strict = Constraints {
        choice: ChoiceConstraint::PreferBelow,
        counts: vec![CountConstraint::MinAbove(6), CountConstraint::MinBelow(6)],
    };
    let r2 = parse_ballot_str("1,2,4,5", &groups, &candidates, &strict);
    match r2 {
        Err(BallotParseErr::InvalidBallot(InvalidBallotErr::InvalidMinAbove(2))) => {},
        other => panic!("expected a min-above failure, got {:?}", other),
    }
}

#[test]
fn below_the_line_round_trip() {
    // a legal below-the-line vote with no repeats or gaps comes back as
    // the hand-derived candidate list
    let groups: Vec<Group> = vec![];
    let candidates: Vec<CandidateId> = vec![20, 21, 22, 23, 24, 25];
    let constraints = Constraints::official();
    let r = parse_ballot_str("3,1,2,4,6,5", &groups, &candidates, &constraints).unwrap();
    assert_eq!(r.prefs, vec![21, 22, 20, 23, 25, 24]);
    assert_eq!(r.weight(), 1);
    assert_eq!(r.current(), 0);
}

#[test]
fn above_the_line_round_trip() {
    // a legal above-the-line vote flattens to the groups' candidate lists
    let groups = vec![
        Group { name: "A".to_string(), candidate_ids: vec![5, 6] },
        Group { name: "B".to_string(), candidate_ids: vec![7] },
    ];
    let candidates: Vec<CandidateId> = vec![5, 6, 7, 8, 9, 10];
    let constraints = Constraints::official();
    let r = parse_ballot_str("2,1,,,,,,", &groups, &candidates, &constraints).unwrap();
    assert_eq!(r.prefs, vec![7, 5, 6]);
}

#[test]
fn star_and_slash_mean_first_preference() {
    let groups = vec![
        Group { name: "A".to_string(), candidate_ids: vec![1] },
        Group { name: "B".to_string(), candidate_ids: vec![2] },
    ];
    let candidates: Vec<CandidateId> = vec![1, 2];
    let constraints = Constraints::official();
    let r = parse_ballot_str("*,2,,", &groups, &candidates, &constraints).unwrap();
    assert_eq!(r.prefs, vec![1, 2]);
    let r2 = parse_ballot_str("/,2,,", &groups, &candidates, &constraints).unwrap();
    assert_eq!(r2.prefs, vec![1, 2]);
    // both marks on one ballot collide on preference one: the repeat rule
    // wipes the vote out
    let r3 = parse_ballot_str("*,/,,", &groups, &candidates, &constraints);
    match r3 {
        Err(BallotParseErr::InvalidBallot(InvalidBallotErr::EmptyBallot)) => {},
        other => panic!("expected an empty-ballot error, got {:?}", other),
    }
}

#[test]
fn strict_rules_reject_doubly_filled_ballot() {
    let groups = vec![Group { name: "A".to_string(), candidate_ids: vec![0] }];
    let candidates: Vec<CandidateId> = vec![0];
    let strict = Constraints {
        choice: ChoiceConstraint::Strict,
        counts: vec![CountConstraint::MinAbove(1), CountConstraint::MinBelow(1)],
    };
    let r = parse_ballot_str("1,1", &groups, &candidates, &strict);
    match r {
        Err(BallotParseErr::InvalidBallot(InvalidBallotErr::InvalidStrict)) => {},
        other => panic!("expected a strict-rules failure, got {:?}", other),
    }
}
