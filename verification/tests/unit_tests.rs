//! Unit behaviour of the smaller components: vote logs, fractions,
//! statistics, groups and the name helpers.

use aus_senate::ballot::Ballot;
use aus_senate::ballot_parse::InvalidBallotErr;
use aus_senate::candidate::{
    Candidate, CandidateMap, find_candidates_with_names, get_candidate_id_list,
    get_state_candidates, CandidateName,
};
use aus_senate::cli::{MungerType, parse_munger};
use aus_senate::exhausted_votes::exhausted_rows;
use aus_senate::frac::Frac;
use aus_senate::group::{Group, get_group_list};
use aus_senate::munge::red_vs_blue::RedVsBlue;
use aus_senate::parse::candidates2016;
use aus_senate::stats::Stats;
use aus_senate::transfer_value::TransferValue;
use aus_senate::vote_log::VoteLog;

#[test]
fn ordering() {
    let mut v1 = VoteLog::new();
    let mut v2 = VoteLog::new();

    // v1 = [15, 16, 19]
    v1.update_vote(0, 5);
    v1.update_vote(0, 10);
    v1.update_vote(1, 1);
    v1.update_vote(2, 3);
    assert_eq!(v1.latest(), 19);

    // v2 = [15, 16, 20]
    v2.update_vote(0, 15);
    v2.update_vote(1, 1);
    v2.update_vote(2, 1);
    v2.update_vote(2, 3);
    assert_eq!(v2.latest(), 20);

    assert!(v1 < v2);
    assert!(v1 != v2);
    assert!(v2 > v1);
}

#[test]
fn vote_log_gap_filling() {
    let mut v = VoteLog::new();
    v.update_vote(0, 7);
    v.update_vote(3, 2);
    assert_eq!(v.log, vec![7, 7, 7, 9]);
}

#[test]
fn fractions_are_canonical() {
    let f = Frac::new(2, 4);
    assert_eq!(f, Frac::new(1, 2));
    assert_eq!(f.num, 1);
    assert_eq!(f.den, 2);
    assert!(Frac::new(1, 3).lt(&f));
    assert!(f.le(&Frac::one()));
    assert!(Frac::new(3, 9).eq_value(&Frac::new(1, 3)));
}

#[test]
fn fraction_addition_is_exact() {
    let sum = Frac::new(1, 2).add(&Frac::new(1, 3)).unwrap();
    assert_eq!(sum, Frac::new(5, 6));
    let whole = Frac::new(1, 4).add(&Frac::new(3, 4)).unwrap();
    assert_eq!(whole, Frac::one());
}

#[test]
fn fraction_floor_multiplication() {
    let quarter = Frac::new(1, 4);
    assert_eq!(quarter.mul_floor(10), 2);
    assert_eq!(Frac::one().mul_floor(17), 17);
    assert_eq!(Frac::zero().mul_floor(17), 0);
}

#[test]
fn transfer_value_applies_in_integers() {
    let tv = TransferValue::new(1, 2);
    assert_eq!(tv.apply(10), 5);
    assert_eq!(TransferValue::new(2, 3).apply(10), 6);
}

#[test]
fn invalid_vote_detail_is_erased() {
    assert_eq!(
        InvalidBallotErr::InvalidMinAbove(7).erase_detail(),
        InvalidBallotErr::InvalidMinAbove(0)
    );
    assert_eq!(
        InvalidBallotErr::InvalidCharacter.erase_detail(),
        InvalidBallotErr::InvalidCharacter
    );
    let mut stats = Stats::new();
    stats.record_invalid_vote(InvalidBallotErr::InvalidMinBelow(3));
    stats.record_invalid_vote(InvalidBallotErr::InvalidMinBelow(9));
    assert_eq!(stats.invalid_votes.len(), 1);
    assert_eq!(stats.invalid_votes[0], (InvalidBallotErr::InvalidMinBelow(0), 2));
}

#[test]
fn exhausted_rows_render_exact_fractions() {
    let mut stats = Stats::new();
    stats.record_exhausted_vote(2, &Frac::new(1, 4)).unwrap();
    stats.record_exhausted_vote(2, &Frac::new(1, 4)).unwrap();
    let rows = exhausted_rows(&stats);
    assert_eq!(rows.len(), 1);
    assert_eq!(rows[0].round, 2);
    assert_eq!(rows[0].ballots_exhausted, 2);
    assert_eq!(rows[0].value_exhausted_num, "1");
    assert_eq!(rows[0].value_exhausted_den, "2");
}

fn candidate(id: u16, group: &str, state: &str) -> Candidate {
    Candidate {
        id,
        surname: format!("Surname{}", id),
        other_names: format!("Given{}", id),
        group_name: group.to_string(),
        party: "".to_string(),
        state: state.to_string(),
    }
}

#[test]
fn group_list_merges_consecutive_and_skips_ungrouped() {
    let all = vec![
        candidate(0, "A", "NSW"),
        candidate(1, "A", "NSW"),
        candidate(2, "UG", "NSW"),
        candidate(3, "A", "NSW"),
        candidate(4, "B", "NSW"),
        candidate(5, "B", "VIC"),
    ];
    let groups = get_group_list(&all, &"NSW".to_string());
    assert_eq!(groups.len(), 2);
    assert_eq!(groups[0].name, "A");
    assert_eq!(groups[0].candidate_ids, vec![0, 1, 3]);
    assert_eq!(groups[1].name, "B");
    assert_eq!(groups[1].candidate_ids, vec![4]);
}

#[test]
fn state_candidate_selection() {
    let all = vec![
        candidate(0, "A", "NSW"),
        candidate(1, "A", "VIC"),
        candidate(2, "B", "NSW"),
    ];
    let m = get_state_candidates(&all, &"NSW".to_string());
    assert_eq!(m.len(), 2);
    assert!(m.contains(0));
    assert!(!m.contains(1));
    assert!(m.contains(2));
    assert_eq!(get_candidate_id_list(&all, &"NSW".to_string()), vec![0, 2]);
}

#[test]
fn candidates_found_by_name() {
    let mut m = CandidateMap::new();
    let mut c = candidate(3, "A", "NSW");
    c.surname = "Payne".to_string();
    c.other_names = "Marise Ann".to_string();
    m.insert(3, c);
    let names = vec![CandidateName { first: "marise".to_string(), last: "PAYNE".to_string() }];
    assert_eq!(find_candidates_with_names(&names, &m), vec![3]);
    let missing = vec![CandidateName { first: "x".to_string(), last: "Payne".to_string() }];
    assert_eq!(find_candidates_with_names(&missing, &m), Vec::<u16>::new());
}

#[test]
fn munger_names_parse() {
    assert_eq!(parse_munger(&"red-vs-blue".to_string()), Ok(MungerType::RedVsBlue));
    assert_eq!(parse_munger(&"rvb".to_string()), Ok(MungerType::RedVsBlue));
    assert_eq!(parse_munger(&"other".to_string()), Err(()));
}

#[test]
fn red_vs_blue_extends_ballots() {
    let mut m = CandidateMap::new();
    let mut labor = candidate(0, "N", "NSW");
    labor.party = "Labor".to_string();
    let mut liberal = candidate(1, "F", "NSW");
    liberal.party = "Liberal".to_string();
    m.insert(0, labor);
    m.insert(1, liberal);
    let groups = vec![
        Group { name: "F".to_string(), candidate_ids: vec![1] },
        Group { name: "N".to_string(), candidate_ids: vec![0] },
    ];
    let mut munger = RedVsBlue::new(&"NSW".to_string());
    // a labor-first ballot gets the liberal candidates appended
    let mut ballot = Ballot::single(vec![0]);
    munger.apply(&mut ballot, &groups, &m);
    assert_eq!(ballot.prefs, vec![0, 1]);
}

#[test]
fn senate_nominations_filtered_and_numbered() {
    let row = |nom: &str, surname: &str| candidates2016::CandidateRow {
        nom_ty: nom.to_string(),
        state_ab: "NSW".to_string(),
        ticket: "A".to_string(),
        surname: surname.to_string(),
        ballot_given_nm: "X".to_string(),
        party_ballot_nm: "P".to_string(),
    };
    let rows = vec![row("H", "Skip"), row("S", "Keep"), row("S", "Also")];
    let out = candidates2016::parse(rows);
    assert_eq!(out.len(), 2);
    assert_eq!(out[0].id, 1);
    assert_eq!(out[0].surname, "Keep");
    assert_eq!(out[1].id, 2);
    assert_eq!(out[1].surname, "Also");
}
