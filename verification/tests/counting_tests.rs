//! Whole-count behaviour: quotas, elections, exclusions, ties, and the
//! exhaustion statistics.

use aus_senate::ballot::Ballot;
use aus_senate::ballot_parse::{BallotParseErr, IOBallot, InvalidBallotErr};
use aus_senate::candidate::{Candidate, CandidateId, CandidateMap};
use aus_senate::frac::Frac;
use aus_senate::stats::Stats;
use aus_senate::vote_map::{CountError, VoteMap};
use aus_senate::voting::{ElectionError, compute_quota, decide_election};

fn dummy_candidate(id: CandidateId) -> Candidate {
    Candidate {
        id,
        surname: "Candidate".to_string(),
        other_names: "Dummy".to_string(),
        group_name: "".to_string(),
        party: "".to_string(),
        state: "".to_string(),
    }
}

fn candidate_map(ids: &[CandidateId]) -> CandidateMap {
    let mut m = CandidateMap::new();
    for &id in ids {
        m.insert(id, dummy_candidate(id));
    }
    m
}

#[test]
fn quota_formula() {
    assert_eq!(compute_quota(4376143, 6), 625164);
}

#[test]
fn senate_quota_formula() {
    let q = aus_senate::quota::senate_quota(4376143, 6);
    assert_eq!(q.num, 625164);
    assert_eq!(q.den, 1);
}

#[test]
fn basic_quota_election() {
    // candidate 2 wins the single seat once candidate 3's preferences flow
    let candidates = candidate_map(&[1, 2, 3, 4]);
    let ballots: Vec<IOBallot> = vec![
        Ok(Ballot::multi(4999, vec![1, 2])),
        Ok(Ballot::multi(5000, vec![2, 1])),
        Ok(Ballot::single(vec![3, 1, 2])),
        Ok(Ballot::single(vec![3])),
    ];
    let result = decide_election(&candidates, &vec![], ballots, 1, false, &vec![]).unwrap();
    assert!(!result.tied);
    assert_eq!(result.senators.len(), 1);
    assert_eq!(result.senators[0].0.id, 2);
    assert_eq!(result.stats.num_valid_votes, 10001);
}

#[test]
fn exact_tie_with_majority_shortcircuit() {
    // with the two-candidate majority rule on, a dead tie seats both and
    // reports the tie
    let candidates = candidate_map(&[1, 2, 3]);
    let ballots: Vec<IOBallot> = vec![
        Ok(Ballot::multi(4999, vec![1, 2])),
        Ok(Ballot::multi(5000, vec![2, 1])),
        Ok(Ballot::single(vec![3, 1, 2])),
        Ok(Ballot::single(vec![3])),
    ];
    let result = decide_election(&candidates, &vec![], ballots, 1, true, &vec![]).unwrap();
    assert!(result.tied);
    assert_eq!(result.senators.len(), 2);
}

#[test]
fn unresolved_tie_reaches_the_resolver() {
    // two candidates with identical tallies and identical vote histories:
    // with no resolution supplied the count fails on the tie
    let candidates = candidate_map(&[1, 2, 3]);
    let ballots: Vec<IOBallot> = vec![
        Ok(Ballot::multi(3, vec![1])),
        Ok(Ballot::multi(3, vec![2])),
        Ok(Ballot::multi(2, vec![3])),
    ];
    let r = decide_election(&candidates, &vec![], ballots, 1, false, &vec![]);
    assert_eq!(r.unwrap_err(), ElectionError::Count(CountError::TieUnresolved));
}

#[test]
fn resolved_tie_excludes_the_chosen_candidate() {
    let candidates = candidate_map(&[1, 2, 3]);
    let ballots: Vec<IOBallot> = vec![
        Ok(Ballot::multi(3, vec![1])),
        Ok(Ballot::multi(3, vec![2])),
        Ok(Ballot::multi(2, vec![3])),
    ];
    let result =
        decide_election(&candidates, &vec![], ballots, 1, false, &vec![1]).unwrap();
    assert_eq!(result.senators.len(), 1);
    assert_eq!(result.senators[0].0.id, 2);
}

#[test]
fn exhausted_ballot_charged_at_incoming_value() {
    // a ballot whose only preference is the already-elected candidate
    // exhausts immediately, at the surplus transfer value
    let candidates = candidate_map(&[1, 2, 3]);
    let ballots: Vec<IOBallot> = vec![
        Ok(Ballot::multi(4, vec![1])),
        Ok(Ballot::multi(2, vec![2])),
        Ok(Ballot::single(vec![3])),
    ];
    // total 7 votes, 2 seats: quota 3; candidate 1 elected at once with
    // surplus value (4 - 3) / 4
    let result = decide_election(&candidates, &vec![], ballots, 2, false, &vec![]).unwrap();
    assert_eq!(result.senators.len(), 2);
    assert_eq!(result.senators[0].0.id, 1);
    assert_eq!(result.senators[1].0.id, 2);
    let exhausted = &result.stats.exhausted_votes;
    assert!(exhausted.iter().any(|e| e.0 == 1 && e.1.0 == 1 && e.1.1 == Frac::new(1, 4)));
}

#[test]
fn input_error_aborts_the_count() {
    let candidates = candidate_map(&[1]);
    let ballots: Vec<IOBallot> = vec![
        Ok(Ballot::single(vec![1])),
        Err(BallotParseErr::InputError("broken row".to_string())),
    ];
    let r = decide_election(&candidates, &vec![], ballots, 1, false, &vec![]);
    match r {
        Err(ElectionError::Input(m)) => assert_eq!(m, "broken row"),
        other => panic!("expected an input error, got {:?}", other),
    }
}

#[test]
fn invalid_ballots_are_counted_not_fatal() {
    let candidates = candidate_map(&[1, 2]);
    let ballots: Vec<IOBallot> = vec![
        Ok(Ballot::multi(2, vec![1])),
        Ok(Ballot::single(vec![2])),
        Err(BallotParseErr::InvalidBallot(InvalidBallotErr::EmptyBallot)),
        Err(BallotParseErr::InvalidBallot(InvalidBallotErr::InvalidMinBelow(3))),
        Err(BallotParseErr::InvalidBallot(InvalidBallotErr::InvalidMinBelow(5))),
    ];
    let result = decide_election(&candidates, &vec![], ballots, 1, false, &vec![]).unwrap();
    assert_eq!(result.stats.num_valid_votes, 3);
    assert_eq!(result.stats.num_invalid_votes(), 3);
    assert_eq!(result.senators.len(), 1);
    assert_eq!(result.senators[0].0.id, 1);
}

#[test]
fn disqualified_candidate_is_excluded_before_counting() {
    let candidates = candidate_map(&[1, 2]);
    let ballots: Vec<IOBallot> = vec![
        Ok(Ballot::multi(3, vec![1, 2])),
        Ok(Ballot::multi(1, vec![2])),
    ];
    let result = decide_election(&candidates, &vec![1], ballots, 1, false, &vec![]).unwrap();
    assert_eq!(result.senators.len(), 1);
    assert_eq!(result.senators[0].0.id, 2);
    // the disqualified candidate's ballots flowed on at full value
    assert_eq!(result.senators[0].1, 4);
}

#[test]
fn exclusion_conserves_full_value_votes() {
    // one exclusion at full transfer value: the tallies of the continuing
    // candidates plus the newly exhausted ballots account for every vote
    // the excluded candidate held
    let ids: Vec<CandidateId> = vec![1, 2, 3];
    let mut vote_map = VoteMap::new(&ids).unwrap();
    let mut ballots = vec![
        Ballot::single(vec![1]),
        Ballot::single(vec![2]),
        Ballot::single(vec![3, 1]),
        Ballot::single(vec![3]),
    ];
    let mut stats = Stats::new();
    for i in 0..ballots.len() {
        vote_map.add(0, i, &ballots).unwrap();
    }
    let before: u64 = vote_map.summary().iter().map(|e| e.1).sum();
    assert_eq!(before, 4);
    let excluded = vote_map.exclude_candidate_by_id(3, &ballots).unwrap();
    for tr in excluded.transfers {
        vote_map.transfer_preferences(1, tr, &mut ballots, &mut stats).unwrap();
    }
    // candidate 3's two votes: one flows to candidate 1, one exhausts
    let after: u64 = vote_map.summary().iter().map(|e| e.1).sum();
    let exhausted = stats.exhausted_votes.iter().map(|e| e.1 .0).sum::<u64>();
    assert_eq!(after, 3);
    assert_eq!(exhausted, 1);
    assert_eq!(before, after + exhausted);
}
