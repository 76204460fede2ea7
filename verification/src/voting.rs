//! The count-round state machine: ingest ballots, allocate first
//! preferences, then repeatedly elect candidates at quota and exclude the
//! lowest candidate, until every seat is filled.

use vstd::prelude::*;
use crate::ballot::Ballot;
use crate::ballot_parse::{BallotParseErr, IOBallot};
use crate::candidate::{CandidateId, CandidateMap};
use crate::senate_result::Senate;
use crate::stats::total_err_count;
use crate::vote_map::{CountError, PreferenceTransfer, VoteMap};

verus! {

/// A fatal failure of a whole count.
#[derive(Debug, PartialEq, Eq)]
pub enum ElectionError {
    /// An I/O or framing failure in the ballot stream; the run aborts.
    Input(String),
    /// A fatal counting error (duplicate id, unknown candidate, an exact
    /// value that no longer fits, or an unresolvable tie).
    Count(CountError),
}

/// Droop quota: `ceil(num_votes / (num_positions + 1))`.
pub fn compute_quota(num_votes: u32, num_positions: usize) -> (q: u64)
    requires
        num_positions <= u32::MAX,
    ensures
        q == ((num_votes + num_positions) as int) / ((num_positions + 1) as int),
        num_votes > 0 ==> q >= 1,
{
    let n = num_votes as u64;
    let s = num_positions as u64;
    proof {
        if num_votes > 0 {
            vstd::arithmetic::div_mod::lemma_div_non_zero(
                (num_votes + num_positions) as int,
                (num_positions + 1) as int,
            );
        }
    }
    (n + s) / (s + 1)
}

/// Combined weight of the valid ballots in a stream.
pub open spec fn sum_valid_weights(s: Seq<IOBallot>) -> int
    decreases s.len(),
{
    if s.len() == 0 {
        0
    } else {
        (match s[0] {
            Ok(b) => b.spec_weight() as int,
            Err(_) => 0,
        }) + sum_valid_weights(s.drop_first())
    }
}

/// The first unrecoverable input error in a stream, if any.
pub open spec fn first_input_error(s: Seq<IOBallot>) -> Option<String>
    decreases s.len(),
{
    if s.len() == 0 {
        None
    } else {
        match s[0] {
            Err(BallotParseErr::InputError(m)) => Some(m),
            _ => first_input_error(s.drop_first()),
        }
    }
}

/// How many stream items fail with the given (erased) error kind.
pub open spec fn count_invalid_kind(
    s: Seq<IOBallot>,
    kind: crate::ballot_parse::InvalidBallotErr,
) -> int
    decreases s.len(),
{
    if s.len() == 0 {
        0
    } else {
        (match s[0] {
            Err(BallotParseErr::InvalidBallot(e)) => if e.erase_detail_spec() == kind {
                1int
            } else {
                0int
            },
            _ => 0int,
        }) + count_invalid_kind(s.drop_first(), kind)
    }
}

proof fn lemma_sum_valid_nonneg(s: Seq<IOBallot>)
    ensures
        sum_valid_weights(s) >= 0,
    decreases s.len(),
{
    if s.len() > 0 {
        lemma_sum_valid_nonneg(s.drop_first());
    }
}

/// Append each elected candidate to the result, and queue their pending
/// transfers.
fn elect_candidates(
    elected: Vec<crate::vote_map::CandidateElected>,
    result: &mut Senate,
    preference_transfers: &mut Vec<PreferenceTransfer>,
    candidates: &CandidateMap,
    Ghost(n_ballots): Ghost<int>,
) -> (count: usize)
    requires
        candidates.wf(),
        forall|j: int|
            0 <= j < elected@.len() ==> candidates.spec_contains(
                (#[trigger] elected@[j]).id,
            ),
        forall|j: int, k: int|
            0 <= j < k < elected@.len() ==> (#[trigger] elected@[j]).id
                != (#[trigger] elected@[k]).id,
        forall|j: int, k: int|
            0 <= j < elected@.len() && 0 <= k < old(result).senators@.len() ==> (
            #[trigger] elected@[j]).id != (#[trigger] old(result).senators@[k]).0.id,
        forall|j: int, t: int|
            0 <= j < elected@.len() && 0 <= t < (#[trigger] elected@[j]).transfers@.len()
                ==> {
                let tr = #[trigger] elected@[j].transfers@[t];
                tr.1.wf() && tr.1.num <= tr.1.den && forall|k: int|
                    0 <= k < tr.2@.len() ==> (#[trigger] tr.2@[k]) < n_ballots
            },
        forall|t: int|
            0 <= t < old(preference_transfers)@.len() ==> {
                let tr = #[trigger] old(preference_transfers)@[t];
                tr.1.wf() && tr.1.num <= tr.1.den && forall|k: int|
                    0 <= k < tr.2@.len() ==> (#[trigger] tr.2@[k]) < n_ballots
            },
    ensures
        count == elected@.len(),
        final(result).senators@.len() == old(result).senators@.len() + elected@.len(),
        final(result).senators@.subrange(0, old(result).senators@.len() as int) == old(
            result,
        ).senators@,
        forall|j: int|
            old(result).senators@.len() <= j < final(result).senators@.len() ==> (
            #[trigger] final(result).senators@[j]).0.id == elected@[j - old(
                result,
            ).senators@.len()].id && final(result).senators@[j].1 == elected@[j - old(
                result,
            ).senators@.len()].votes,
        final(result).tied == old(result).tied,
        final(result).stats == old(result).stats,
        forall|t: int|
            0 <= t < final(preference_transfers)@.len() ==> {
                let tr = #[trigger] final(preference_transfers)@[t];
                tr.1.wf() && tr.1.num <= tr.1.den && forall|k: int|
                    0 <= k < tr.2@.len() ==> (#[trigger] tr.2@[k]) < n_ballots
            },
        final(preference_transfers)@.len() >= old(preference_transfers)@.len(),
        elected@.len() == 0 ==> final(preference_transfers)@.len() == old(
            preference_transfers,
        )@.len(),
{
    let n = elected.len();
    let mut elected = elected;
    let ghost orig_elected = elected@;
    let ghost orig_senators = result.senators@;
    let mut j: usize = 0;
    while j < n
        invariant
            n == orig_elected.len(),
            j <= n,
            candidates.wf(),
            elected@ == orig_elected.skip(j as int),
            forall|a: int|
                0 <= a < orig_elected.len() ==> candidates.spec_contains(
                    (#[trigger] orig_elected[a]).id,
                ),
            forall|a: int, t: int|
                0 <= a < orig_elected.len() && 0 <= t < (#[trigger] orig_elected[
                a]).transfers@.len() ==> {
                    let tr = #[trigger] orig_elected[a].transfers@[t];
                    tr.1.wf() && tr.1.num <= tr.1.den && forall|k: int|
                        0 <= k < tr.2@.len() ==> (#[trigger] tr.2@[k]) < n_ballots
                },
            result.senators@.len() == orig_senators.len() + j,
            result.senators@.subrange(0, orig_senators.len() as int) == orig_senators,
            forall|a: int|
                orig_senators.len() <= a < result.senators@.len() ==> (
                #[trigger] result.senators@[a]).0.id == orig_elected[a - orig_senators.len()].id
                    && result.senators@[a].1 == orig_elected[a - orig_senators.len()].votes,
            result.tied == old(result).tied,
            result.stats == old(result).stats,
            forall|t: int|
                0 <= t < preference_transfers@.len() ==> {
                    let tr = #[trigger] preference_transfers@[t];
                    tr.1.wf() && tr.1.num <= tr.1.den && forall|k: int|
                        0 <= k < tr.2@.len() ==> (#[trigger] tr.2@[k]) < n_ballots
                },
            preference_transfers@.len() >= old(preference_transfers)@.len(),
            orig_elected.len() == 0 ==> preference_transfers@.len() == old(
                preference_transfers,
            )@.len(),
        decreases n - j,
    {
        let c = elected.remove(0);
        proof {
            assert(c == orig_elected[j as int]);
            assert(elected@ =~= orig_elected.skip(j + 1));
        }
        let ghost pre_sen = result.senators@;
        result.add_senator(c.id, c.votes, candidates);
        proof {
            assert(result.senators@.subrange(0, orig_senators.len() as int)
                =~= orig_senators);
            assert forall|a: int|
                orig_senators.len() <= a < result.senators@.len() implies (
            #[trigger] result.senators@[a]).0.id == orig_elected[a - orig_senators.len()].id
                && result.senators@[a].1 == orig_elected[a - orig_senators.len()].votes by {
                if a < pre_sen.len() {
                    assert(result.senators@.subrange(0, pre_sen.len() as int)[a]
                        == pre_sen[a]);
                    assert(result.senators@[a] == pre_sen[a]);
                } else {
                    assert(result.senators@[a] == result.senators@.last());
                }
            }
        }
        let mut transfers = c.transfers;
        let nt = transfers.len();
        let mut t: usize = 0;
        while t < nt
            invariant
                t <= nt,
                nt == orig_elected[j as int].transfers@.len(),
                j < orig_elected.len(),
                transfers@ == orig_elected[j as int].transfers@.skip(t as int),
                forall|a: int, tt: int|
                    0 <= a < orig_elected.len() && 0 <= tt < (#[trigger] orig_elected[
                    a]).transfers@.len() ==> {
                        let tr = #[trigger] orig_elected[a].transfers@[tt];
                        tr.1.wf() && tr.1.num <= tr.1.den && forall|k: int|
                            0 <= k < tr.2@.len() ==> (#[trigger] tr.2@[k]) < n_ballots
                    },
                forall|tt: int|
                    0 <= tt < preference_transfers@.len() ==> {
                        let tr = #[trigger] preference_transfers@[tt];
                        tr.1.wf() && tr.1.num <= tr.1.den && forall|k: int|
                            0 <= k < tr.2@.len() ==> (#[trigger] tr.2@[k]) < n_ballots
                    },
                preference_transfers@.len() >= old(preference_transfers)@.len(),
                orig_elected.len() == 0 ==> preference_transfers@.len() == old(
                    preference_transfers,
                )@.len(),
            decreases nt - t,
        {
            let tr = transfers.remove(0);
            proof {
                assert(tr == orig_elected[j as int].transfers@[t as int]);
                assert(transfers@ =~= orig_elected[j as int].transfers@.skip(t + 1));
            }
            preference_transfers.push(tr);
            t = t + 1;
        }
        j = j + 1;
    }
    n
}

} // verus!

verus! {

/// The vote map holds exactly the candidates of the candidate map, in
/// entry order.
pub open spec fn map_matches(vote_map: VoteMap, candidates: CandidateMap) -> bool {
    &&& vote_map.entries@.len() == candidates.entries@.len()
    &&& forall|i: int|
        0 <= i < vote_map.entries@.len() ==> (#[trigger] vote_map.entries@[i]).id
            == candidates.entries@[i].0
}

/// Every preference of every stored ballot names a known candidate.
pub open spec fn ballots_ok(ballots: Seq<Ballot>, vote_map: VoteMap) -> bool {
    forall|n: int, k: int|
        0 <= n < ballots.len() && 0 <= k < (#[trigger] ballots[n]).prefs@.len()
            ==> vote_map.is_candidate(#[trigger] ballots[n].prefs@[k])
}

/// Queued transfers carry canonical values at most one and in-range
/// ballot indices.
pub open spec fn queue_ok(q: Seq<PreferenceTransfer>, n_ballots: int) -> bool {
    forall|t: int|
        0 <= t < q.len() ==> {
            let tr = #[trigger] q[t];
            tr.1.wf() && tr.1.num <= tr.1.den && forall|k: int|
                0 <= k < tr.2@.len() ==> (#[trigger] tr.2@[k]) < n_ballots
        }
}

/// Elected senators are distinct, known, and out of the running.
pub open spec fn senators_ok(senators: Seq<(crate::candidate::Candidate, u64)>, vote_map: VoteMap) -> bool {
    &&& forall|a: int, b: int|
        0 <= a < b < senators.len() ==> (#[trigger] senators[a]).0.id
            != (#[trigger] senators[b]).0.id
    &&& forall|a: int|
        0 <= a < senators.len() ==> vote_map.is_candidate((#[trigger] senators[a]).0.id)
            && vote_map.spec_eliminated(senators[a].0.id)
}

/// No tally log extends past the given count bound.
pub open spec fn logs_bounded(m: VoteMap, bound: int) -> bool {
    forall|i: int|
        0 <= i < m.entries@.len() ==> (#[trigger] m.entries@[i]).votes@.len() <= bound
}

/// Decide an election: ingest the ballot stream, allocate first
/// preferences, exclude the disqualified, then run count rounds electing
/// candidates at quota and excluding the last-placed candidate, until
/// every position is filled.
///
/// The result list holds exactly `num_positions` senators, each candidate
/// at most once; when the two-candidate majority short circuit is enabled
/// and fires on a dead tie, the tie is reported and both tied candidates
/// are seated.
#[verifier::rlimit(80)]
pub fn decide_election(
    candidates: &CandidateMap,
    disqualified_candidates: &Vec<CandidateId>,
    ballot_stream: Vec<IOBallot>,
    num_positions: usize,
    majority_shortcircuit: bool,
    tie_breaker: &Vec<CandidateId>,
) -> (r: Result<Senate, ElectionError>)
    requires
        candidates.wf(),
        num_positions <= u32::MAX,
        ballot_stream@.len() < u64::MAX,
        sum_valid_weights(ballot_stream@) <= u32::MAX,
        forall|i: int|
            0 <= i < ballot_stream@.len() ==> ((#[trigger] ballot_stream@[i]) matches Ok(b)
                ==> b.prefs@.len() >= 1 && b.spec_current() == 0 && (forall|k: int|
                0 <= k < b.prefs@.len() ==> candidates.spec_contains(
                    #[trigger] b.prefs@[k],
                ))),
    ensures
        r matches Ok(senate) ==> {
            &&& !senate.tied ==> senate.senators@.len() == num_positions
            &&& senate.tied ==> num_positions <= senate.senators@.len() <= num_positions + 1
            &&& senate.tied ==> majority_shortcircuit
            &&& forall|a: int, b: int|
                0 <= a < b < senate.senators@.len() ==> (#[trigger] senate.senators@[a]).0.id
                    != (#[trigger] senate.senators@[b]).0.id
            &&& senate.stats.num_valid_votes == sum_valid_weights(ballot_stream@)
        },
        r matches Err(ElectionError::Input(m)) ==> first_input_error(ballot_stream@)
            == Some(m),
        first_input_error(ballot_stream@) matches Some(m0) ==> r == Err::<Senate, _>(
            ElectionError::Input(m0),
        ),
        r matches Ok(senate) ==> forall|kind: crate::ballot_parse::InvalidBallotErr|
            crate::stats::err_count(senate.stats.invalid_votes@, kind)
                == #[trigger] count_invalid_kind(ballot_stream@, kind),
        r matches Err(ElectionError::Count(e)) ==> (e is Overflow || e is TieUnresolved
            || e is CandidateNotFound || e is NoContinuingCandidates),
        r matches Err(ElectionError::Count(e)) ==> (e matches
            CountError::CandidateNotFound(d) ==> (exists|i: int|
            0 <= i < disqualified_candidates@.len() && #[trigger] disqualified_candidates@[i]
                == d) && !candidates.spec_contains(d)),
        (forall|i: int|
            0 <= i < disqualified_candidates@.len() ==> candidates.spec_contains(
                #[trigger] disqualified_candidates@[i],
            )) ==> !(r matches Err(ElectionError::Count(CountError::CandidateNotFound(_)))),
{
    let ghost orig_stream = ballot_stream@;
    let mut result = Senate::new();

    // Ingest ballots.
    let mut stream = ballot_stream;
    let mut ballots: Vec<Ballot> = Vec::new();
    let ghost mut processed: int = 0;
    while stream.len() > 0
        invariant
            candidates.wf(),
            orig_stream == ballot_stream@,
            0 <= processed <= orig_stream.len(),
            stream@ == orig_stream.skip(processed),
            orig_stream.len() < u64::MAX,
            sum_valid_weights(orig_stream) <= u32::MAX,
            forall|i: int|
                0 <= i < orig_stream.len() ==> ((#[trigger] orig_stream[i]) matches Ok(b)
                    ==> b.prefs@.len() >= 1 && b.spec_current() == 0 && (forall|k: int|
                    0 <= k < b.prefs@.len() ==> candidates.spec_contains(
                        #[trigger] b.prefs@[k],
                    ))),
            result.stats.wf(),
            result.stats.num_valid_votes + sum_valid_weights(stream@) == sum_valid_weights(
                orig_stream,
            ),
            total_err_count(result.stats.invalid_votes@) <= processed,
            first_input_error(orig_stream) == first_input_error(stream@),
            forall|kind: crate::ballot_parse::InvalidBallotErr|
                crate::stats::err_count(result.stats.invalid_votes@, kind)
                    + #[trigger] count_invalid_kind(stream@, kind) == count_invalid_kind(
                    orig_stream,
                    kind,
                ),
            result.senators@.len() == 0,
            !result.tied,
            forall|n: int|
                0 <= n < ballots@.len() ==> (#[trigger] ballots@[n]).prefs@.len() >= 1 && (
                #[trigger] ballots@[n]).spec_current() == 0 && (forall|k: int|
                    0 <= k < ballots@[n].prefs@.len() ==> candidates.spec_contains(
                        #[trigger] ballots@[n].prefs@[k],
                    )),
        decreases stream@.len(),
    {
        proof {
            assert(stream@[0] == orig_stream[processed]);
            assert(stream@.drop_first() =~= orig_stream.skip(processed + 1));
            lemma_sum_valid_nonneg(stream@.drop_first());
        }
        let ghost pre_counts = result.stats.invalid_votes@;
        let ghost pre_stream = stream@;
        let maybe_ballot = stream.remove(0);
        proof {
            assert forall|kind: crate::ballot_parse::InvalidBallotErr|
                #[trigger] count_invalid_kind(pre_stream, kind) == (match pre_stream[0] {
                Err(BallotParseErr::InvalidBallot(e)) => if e.erase_detail_spec() == kind {
                    1int
                } else {
                    0int
                },
                _ => 0int,
            }) + count_invalid_kind(pre_stream.drop_first(), kind) by {}
        }
        proof {
            assert(stream@ =~= pre_stream.drop_first());
        }
        match maybe_ballot {
            Ok(ballot) => {
                result.stats.record_valid_vote(&ballot);
                ballots.push(ballot);
                proof {
                    assert(pre_stream[0] matches Ok(_));
                    assert forall|kind: crate::ballot_parse::InvalidBallotErr|
                        crate::stats::err_count(result.stats.invalid_votes@, kind)
                            + #[trigger] count_invalid_kind(stream@, kind)
                            == count_invalid_kind(orig_stream, kind) by {
                        assert(crate::stats::err_count(pre_counts, kind)
                            + count_invalid_kind(pre_stream, kind) == count_invalid_kind(
                            orig_stream,
                            kind,
                        ));
                        assert(count_invalid_kind(pre_stream, kind) == count_invalid_kind(
                            pre_stream.drop_first(),
                            kind,
                        ));
                    }
                }
            },
            Err(BallotParseErr::InvalidBallot(err)) => {
                proof {
                    crate::stats::lemma_err_le_total(
                        result.stats.invalid_votes@,
                        err.erase_detail_spec(),
                    );
                }
                result.stats.record_invalid_vote(err);
                proof {
                    assert(pre_stream[0] matches Err(BallotParseErr::InvalidBallot(e2))
                        && e2 == err);
                    assert forall|kind: crate::ballot_parse::InvalidBallotErr|
                        crate::stats::err_count(result.stats.invalid_votes@, kind)
                            + #[trigger] count_invalid_kind(stream@, kind)
                            == count_invalid_kind(orig_stream, kind) by {
                        assert(crate::stats::err_count(pre_counts, kind)
                            + count_invalid_kind(pre_stream, kind) == count_invalid_kind(
                            orig_stream,
                            kind,
                        ));
                        assert(count_invalid_kind(pre_stream, kind) == (
                        if err.erase_detail_spec() == kind {
                            1int
                        } else {
                            0int
                        }) + count_invalid_kind(pre_stream.drop_first(), kind));
                        if kind != err.erase_detail_spec() {
                            assert(crate::stats::err_count(
                                result.stats.invalid_votes@,
                                kind,
                            ) == crate::stats::err_count(pre_counts, kind));
                        }
                    }
                }
            },
            Err(BallotParseErr::InputError(e)) => {
                proof {
                    assert(first_input_error(pre_stream) == Some(e));
                }
                return Err(ElectionError::Input(e));
            },
        }
        proof {
            processed = processed + 1;
        }
    }
    proof {
        assert(stream@ =~= Seq::<IOBallot>::empty());
        assert(result.stats.num_valid_votes == sum_valid_weights(orig_stream));
        assert(first_input_error(orig_stream) is None);
        assert forall|kind: crate::ballot_parse::InvalidBallotErr|
            crate::stats::err_count(result.stats.invalid_votes@, kind)
                == #[trigger] count_invalid_kind(orig_stream, kind) by {
            assert(count_invalid_kind(stream@, kind) == 0);
        }
    }

    // Map from candidate IDs to vote information.
    let ids = candidates.ids();
    proof {
        assert forall|i: int, j: int| 0 <= i < j < ids@.len() implies ids@[i] != ids@[j] by {
            assert(ids@[i] == (#[trigger] candidates.entries@[i]).0);
            assert(ids@[j] == (#[trigger] candidates.entries@[j]).0);
        }
    }
    let mut vote_map = match VoteMap::new(&ids) {
        Ok(m) => m,
        Err(e) => {
            proof {
                assert(false);
            }
            return Err(ElectionError::Count(e));
        },
    };
    proof {
        assert(map_matches(vote_map, *candidates));
        assert(ballots_ok(ballots@, vote_map)) by {
            assert forall|n: int, k: int|
                0 <= n < ballots@.len() && 0 <= k < (#[trigger] ballots@[n]).prefs@.len()
                implies vote_map.is_candidate(#[trigger] ballots@[n].prefs@[k]) by {
                let c = ballots@[n].prefs@[k];
                assert(candidates.spec_contains(c));
                let i = choose|i: int|
                    0 <= i < candidates.entries@.len() && (#[trigger] candidates.entries@[
                    i]).0 == c;
                assert(vote_map.entries@[i].id == c);
            }
        }
    }

    // Allocate first preference votes.
    let mut bi: usize = 0;
    while bi < ballots.len()
        invariant
            bi <= ballots@.len(),
            orig_stream == ballot_stream@,
            first_input_error(orig_stream) is None,
            forall|kind: crate::ballot_parse::InvalidBallotErr|
                crate::stats::err_count(result.stats.invalid_votes@, kind)
                    == #[trigger] count_invalid_kind(orig_stream, kind),
            result.stats.wf(),
            result.senators@.len() == 0,
            !result.tied,
            vote_map.wf(ballots@),
            map_matches(vote_map, *candidates),
            ballots_ok(ballots@, vote_map),
            logs_bounded(vote_map, 1),
            forall|n: int|
                0 <= n < ballots@.len() ==> (#[trigger] ballots@[n]).prefs@.len() >= 1 && (
                #[trigger] ballots@[n]).spec_current() == 0,
        decreases ballots@.len() - bi,
    {
        let ghost pre_map = vote_map;
        match vote_map.add(0, bi, &ballots) {
            Ok(()) => {},
            Err(e) => {
                proof {
                    if e matches CountError::CandidateNotFound(d) {
                        assert(pre_map.is_candidate(
                            ballots@[bi as int].prefs@[ballots@[bi as int].spec_current() as int],
                        ));
                        assert(false);
                    }
                }
                return Err(ElectionError::Count(e));
            },
        }
        proof {
            assert(map_matches(vote_map, *candidates));
            pre_map.lemma_elim_monotone(vote_map);
            assert(ballots_ok(ballots@, vote_map));
        }
        bi = bi + 1;
    }

    let quota = compute_quota(result.stats.num_valid_votes(), num_positions);

    let mut preference_transfers: Vec<PreferenceTransfer> = Vec::new();

    // Exclude all the disqualified candidates, transferring at round zero.
    let mut di: usize = 0;
    while di < disqualified_candidates.len()
        invariant
            di <= disqualified_candidates@.len(),
            orig_stream == ballot_stream@,
            first_input_error(orig_stream) is None,
            forall|kind: crate::ballot_parse::InvalidBallotErr|
                crate::stats::err_count(result.stats.invalid_votes@, kind)
                    == #[trigger] count_invalid_kind(orig_stream, kind),
            candidates.wf(),
            vote_map.wf(ballots@),
            map_matches(vote_map, *candidates),
            ballots_ok(ballots@, vote_map),
            logs_bounded(vote_map, 1),
            result.stats.wf(),
            result.stats.num_valid_votes == sum_valid_weights(orig_stream),
            result.senators@.len() == 0,
            !result.tied,
            preference_transfers@.len() == 0,
            forall|n: int| 0 <= n < ballots@.len() ==> (#[trigger] ballots@[n]).prefs@.len() >= 1,
        decreases disqualified_candidates@.len() - di,
    {
        let disqual_id = disqualified_candidates[di];
        let ghost pre_map = vote_map;
        let exc = match vote_map.exclude_candidate_by_id(disqual_id, &ballots) {
            Ok(exc) => exc,
            Err(e) => {
                proof {
                    assert(e matches CountError::CandidateNotFound(d) && d == disqual_id
                        && !pre_map.is_candidate(d));
                    let d = disqual_id;
                    assert(!candidates.spec_contains(d)) by {
                        if candidates.spec_contains(d) {
                            let i = choose|i: int|
                                0 <= i < candidates.entries@.len() && (
                                #[trigger] candidates.entries@[i]).0 == d;
                            assert(pre_map.entries@[i].id == d);
                            assert(pre_map.is_candidate(d));
                        }
                    }
                    assert(disqualified_candidates@[di as int] == d);
                }
                return Err(ElectionError::Count(e));
            },
        };
        proof {
            assert forall|i: int|
                0 <= i < vote_map.entries@.len() implies (#[trigger] vote_map.entries@[i]).id
                == pre_map.entries@[i].id && (pre_map.entries@[i].eliminated
                ==> vote_map.entries@[i].eliminated) by {
                if i != pre_map.index_of(disqual_id) {
                    assert(vote_map.entries@[i] == pre_map.entries@[i]);
                }
            }
            pre_map.lemma_elim_monotone(vote_map);
            assert(map_matches(vote_map, *candidates));
            assert(ballots_ok(ballots@, vote_map));
            assert(logs_bounded(vote_map, 1)) by {
                assert forall|i: int|
                    0 <= i < vote_map.entries@.len() implies (#[trigger] vote_map.entries@[
                i]).votes@.len() <= 1 by {
                    if i != pre_map.index_of(disqual_id) {
                        assert(vote_map.entries@[i] == pre_map.entries@[i]);
                    } else {
                        assert(vote_map.entries@[i].votes == pre_map.entries@[i].votes);
                    }
                }
            }
        }
        let mut transfers = exc.transfers;
        while transfers.len() > 0
            invariant
            orig_stream == ballot_stream@,
            first_input_error(orig_stream) is None,
            forall|kind: crate::ballot_parse::InvalidBallotErr|
                crate::stats::err_count(result.stats.invalid_votes@, kind)
                    == #[trigger] count_invalid_kind(orig_stream, kind),
                candidates.wf(),
                vote_map.wf(ballots@),
                map_matches(vote_map, *candidates),
                ballots_ok(ballots@, vote_map),
                logs_bounded(vote_map, 1),
                result.stats.wf(),
                result.stats.num_valid_votes == sum_valid_weights(orig_stream),
                result.senators@.len() == 0,
                !result.tied,
                queue_ok(transfers@, ballots@.len() as int),
                forall|n: int|
                    0 <= n < ballots@.len() ==> (#[trigger] ballots@[n]).prefs@.len() >= 1,
            decreases transfers@.len(),
        {
            let tr = transfers.remove(0);
            let ghost pre_map = vote_map;
            let ghost pre_ballots = ballots@;
            match vote_map.transfer_preferences(0, tr, &mut ballots, &mut result.stats) {
                Ok(()) => {},
                Err(e) => {
                    return Err(ElectionError::Count(e));
                },
            }
            proof {
                assert forall|i: int|
                    0 <= i < vote_map.entries@.len() implies (#[trigger] vote_map.entries@[
                i]).id == pre_map.entries@[i].id && (pre_map.entries@[i].eliminated
                    ==> vote_map.entries@[i].eliminated) by {}
                pre_map.lemma_elim_monotone(vote_map);
                assert(map_matches(vote_map, *candidates));
                assert(ballots_ok(ballots@, vote_map)) by {
                    assert forall|n: int, k: int|
                        0 <= n < ballots@.len() && 0 <= k < (#[trigger] ballots@[
                    n]).prefs@.len() implies vote_map.is_candidate(
                        #[trigger] ballots@[n].prefs@[k],
                    ) by {
                        assert(ballots@[n].prefs == pre_ballots[n].prefs);
                        assert(pre_map.is_candidate(pre_ballots[n].prefs@[k]));
                    }
                }
            }
        }
        di = di + 1;
    }

    // Count #1: elect everyone already at quota.
    let ghost pre_map = vote_map;
    let elected_on_first_prefs = match vote_map.elect_candidates_with_quota(quota, &ballots) {
        Ok(e) => e,
        Err(e) => {
            return Err(ElectionError::Count(e));
        },
    };
    proof {
        assert forall|i: int|
            0 <= i < vote_map.entries@.len() implies (#[trigger] vote_map.entries@[i]).id
            == pre_map.entries@[i].id && (pre_map.entries@[i].eliminated
            ==> vote_map.entries@[i].eliminated) by {}
        pre_map.lemma_elim_monotone(vote_map);
        assert(map_matches(vote_map, *candidates));
        assert(ballots_ok(ballots@, vote_map));
        assert(logs_bounded(vote_map, 1)) by {
            assert forall|i: int|
                0 <= i < vote_map.entries@.len() implies (#[trigger] vote_map.entries@[
            i]).votes@.len() <= 1 by {
                assert(vote_map.entries@[i].votes == pre_map.entries@[i].votes);
            }
        }
        // the elected are known candidates, and afterwards eliminated
        assert forall|j: int|
            0 <= j < elected_on_first_prefs@.len() implies candidates.spec_contains(
            (#[trigger] elected_on_first_prefs@[j]).id,
        ) && vote_map.is_candidate(elected_on_first_prefs@[j].id) && vote_map.spec_eliminated(
            elected_on_first_prefs@[j].id,
        ) by {
            let id = elected_on_first_prefs@[j].id;
            pre_map.lemma_elected_eliminated(vote_map, id, quota);
            let i = choose|i: int|
                0 <= i < pre_map.entries@.len() && (#[trigger] pre_map.entries@[i]).id == id;
            assert(candidates.entries@[i].0 == id);
        }
    }
    let _ = elect_candidates(
        elected_on_first_prefs,
        &mut result,
        &mut preference_transfers,
        candidates,
        Ghost(ballots@.len() as int),
    );
    proof {
        assert(senators_ok(result.senators@, vote_map));
        crate::vote_map::lemma_count_continuing_bounds(vote_map.entries@);
    }
    if result.num_elected() > num_positions {
        return Err(ElectionError::Count(CountError::Overflow));
    }

    // Subsequent counts.
    let mut count: usize = 2;
    while result.num_elected() < num_positions
        invariant
            first_input_error(orig_stream) is None,
            forall|kind: crate::ballot_parse::InvalidBallotErr|
                crate::stats::err_count(result.stats.invalid_votes@, kind)
                    == #[trigger] count_invalid_kind(orig_stream, kind),
            candidates.wf(),
            orig_stream == ballot_stream@,
            num_positions <= u32::MAX,
            vote_map.wf(ballots@),
            map_matches(vote_map, *candidates),
            ballots_ok(ballots@, vote_map),
            logs_bounded(vote_map, count - 1),
            2 <= count,
            result.stats.wf(),
            result.stats.num_valid_votes == sum_valid_weights(orig_stream),
            result.senators@.len() <= num_positions,
            !result.tied,
            senators_ok(result.senators@, vote_map),
            queue_ok(preference_transfers@, ballots@.len() as int),
            vote_map.count_remaining() >= 0,
            forall|n: int| 0 <= n < ballots@.len() ==> (#[trigger] ballots@[n]).prefs@.len() >= 1,
        decreases vote_map.count_remaining(), preference_transfers@.len(),
    {
        let ghost loop_map = vote_map;
        let ghost loop_queue = preference_transfers@;
        if preference_transfers.len() == 0 {
            let positions_remaining = num_positions - result.num_elected();
            let remaining_count = vote_map.num_candidates_remaining();

            // Two-candidate majority short circuit (older rules).
            if majority_shortcircuit && remaining_count == 2 && positions_remaining == 1 {
                let remaining = vote_map.elect_remaining();
                let id0 = remaining[0].id;
                let id1 = remaining[1].id;
                let v0 = remaining[0].votes;
                let v1 = remaining[1].votes;
                proof {
                    assert(vote_map.is_candidate(id0) && !vote_map.spec_eliminated(id0));
                    assert(vote_map.is_candidate(id1) && !vote_map.spec_eliminated(id1));
                    assert forall|a: int|
                        0 <= a < result.senators@.len() implies (#[trigger] result.senators@[
                    a]).0.id != id0 && result.senators@[a].0.id != id1 by {
                        assert(vote_map.spec_eliminated(result.senators@[a].0.id));
                    }
                    assert(candidates.spec_contains(id0)) by {
                        let i = choose|i: int|
                            0 <= i < vote_map.entries@.len() && (#[trigger] vote_map.entries@[
                            i]).id == id0;
                        assert(candidates.entries@[i].0 == id0);
                    }
                    assert(candidates.spec_contains(id1)) by {
                        let i = choose|i: int|
                            0 <= i < vote_map.entries@.len() && (#[trigger] vote_map.entries@[
                            i]).id == id1;
                        assert(candidates.entries@[i].0 == id1);
                    }
                }
                proof {
                    assert(remaining@[0].id != remaining@[1].id);
                }
                let ghost pre_sen = result.senators@;
                if v0 > v1 {
                    result.add_senator(id0, v0, candidates);
                    proof {
                        assert forall|a: int|
                            0 <= a < pre_sen.len() implies #[trigger] result.senators@[a]
                            == pre_sen[a] by {
                            assert(result.senators@.subrange(0, pre_sen.len() as int)[a]
                                == pre_sen[a]);
                        }
                    }
                } else if v1 > v0 {
                    result.add_senator(id1, v1, candidates);
                    proof {
                        assert forall|a: int|
                            0 <= a < pre_sen.len() implies #[trigger] result.senators@[a]
                            == pre_sen[a] by {
                            assert(result.senators@.subrange(0, pre_sen.len() as int)[a]
                                == pre_sen[a]);
                        }
                    }
                } else {
                    result.tied = true;
                    result.add_senator(id0, v0, candidates);
                    let ghost mid_sen = result.senators@;
                    result.add_senator(id1, v1, candidates);
                    proof {
                        assert forall|a: int|
                            0 <= a < mid_sen.len() implies #[trigger] result.senators@[a]
                            == mid_sen[a] by {
                            assert(result.senators@.subrange(0, mid_sen.len() as int)[a]
                                == mid_sen[a]);
                        }
                        assert forall|a: int|
                            0 <= a < pre_sen.len() implies #[trigger] result.senators@[a]
                            == pre_sen[a] by {
                            assert(mid_sen.subrange(0, pre_sen.len() as int)[a]
                                == pre_sen[a]);
                        }
                        assert(result.senators@[pre_sen.len() as int].0.id == id0) by {
                            assert(mid_sen.last().0.id == id0);
                            assert(result.senators@[pre_sen.len() as int] == mid_sen[
                            pre_sen.len() as int]);
                        }
                        assert(result.senators@.last().0.id == id1);
                    }
                }
                proof {
                    assert forall|a: int, b: int|
                        0 <= a < b < result.senators@.len() implies (
                    #[trigger] result.senators@[a]).0.id != (#[trigger] result.senators@[
                    b]).0.id by {
                        if b < pre_sen.len() {
                            assert(result.senators@[a] == pre_sen[a]);
                            assert(result.senators@[b] == pre_sen[b]);
                        } else if a < pre_sen.len() {
                            assert(result.senators@[a] == pre_sen[a]);
                            assert(vote_map.spec_eliminated(pre_sen[a].0.id));
                        }
                    }
                }
                return Ok(result);
            }

            // If the number of candidates remaining equals the number of
            // positions remaining, elect them all.
            if remaining_count == positions_remaining {
                let remaining = vote_map.elect_remaining();
                proof {
                    assert forall|j: int|
                        0 <= j < remaining@.len() implies candidates.spec_contains(
                        (#[trigger] remaining@[j]).id,
                    ) by {
                        let id = remaining@[j].id;
                        let i = choose|i: int|
                            0 <= i < vote_map.entries@.len() && (#[trigger] vote_map.entries@[
                            i]).id == id;
                        assert(candidates.entries@[i].0 == id);
                    }
                    assert forall|j: int, k: int|
                        0 <= j < remaining@.len() && 0 <= k < result.senators@.len() implies (
                    #[trigger] remaining@[j]).id != (#[trigger] result.senators@[k]).0.id by {
                        assert(vote_map.spec_eliminated(result.senators@[k].0.id));
                        assert(!vote_map.spec_eliminated(remaining@[j].id));
                    }
                }
                let ghost pre_sen = result.senators@;
                let _ = elect_candidates(
                    remaining,
                    &mut result,
                    &mut preference_transfers,
                    candidates,
                    Ghost(ballots@.len() as int),
                );
                proof {
                    assert forall|a: int, b: int|
                        0 <= a < b < result.senators@.len() implies (
                    #[trigger] result.senators@[a]).0.id != (#[trigger] result.senators@[
                    b]).0.id by {
                        if b < pre_sen.len() {
                            assert(result.senators@[a] == pre_sen[a]);
                            assert(result.senators@[b] == pre_sen[b]);
                        } else if a < pre_sen.len() {
                            assert(result.senators@[a] == pre_sen[a]);
                            assert(vote_map.spec_eliminated(result.senators@[a].0.id));
                            assert(!vote_map.spec_eliminated(result.senators@[b].0.id));
                        }
                    }
                }
                return Ok(result);
            }

            // Exclude the last-placed candidate.
            let ghost pre_map = vote_map;
            let excluded = match vote_map.exclude_candidates(tie_breaker, &ballots) {
                Ok(exc) => exc,
                Err(e) => {
                    return Err(ElectionError::Count(e));
                },
            };
            let mut excluded = excluded;
            let exc = excluded.remove(0);
            let mut trs = exc.transfers;
            while trs.len() > 0
                invariant
                    queue_ok(trs@, ballots@.len() as int),
                    queue_ok(preference_transfers@, ballots@.len() as int),
                decreases trs@.len(),
            {
                let tr = trs.remove(0);
                preference_transfers.push(tr);
            }
            proof {
                let excl_id = exc.id;
                assert forall|i: int|
                    0 <= i < vote_map.entries@.len() implies (#[trigger] vote_map.entries@[
                i]).id == pre_map.entries@[i].id && (pre_map.entries@[i].eliminated
                    ==> vote_map.entries@[i].eliminated) by {
                    if i != pre_map.index_of(excl_id) {
                        assert(vote_map.entries@[i] == pre_map.entries@[i]);
                    }
                }
                pre_map.lemma_elim_monotone(vote_map);
                assert(map_matches(vote_map, *candidates));
                assert(ballots_ok(ballots@, vote_map));
                assert(senators_ok(result.senators@, vote_map));
                assert(logs_bounded(vote_map, count - 1)) by {
                    assert forall|i: int|
                        0 <= i < vote_map.entries@.len() implies (#[trigger] vote_map
                        .entries@[i]).votes@.len() <= count - 1 by {
                        if i != pre_map.index_of(excl_id) {
                            assert(vote_map.entries@[i] == pre_map.entries@[i]);
                        } else {
                            assert(vote_map.entries@[i].votes == pre_map.entries@[i].votes);
                        }
                    }
                }
                assert(vote_map.count_remaining() == pre_map.count_remaining() - 1);
                crate::vote_map::lemma_count_continuing_bounds(vote_map.entries@);
            }
        }

        // Transfer the next pending preferences.
        if preference_transfers.len() > 0 {
            if count == usize::MAX {
                return Err(ElectionError::Count(CountError::Overflow));
            }
            let transfer = preference_transfers.remove(0);
            let ghost pre_map = vote_map;
            let ghost pre_ballots = ballots@;
            match vote_map.transfer_preferences(
                count - 1,
                transfer,
                &mut ballots,
                &mut result.stats,
            ) {
                Ok(()) => {},
                Err(e) => {
                    return Err(ElectionError::Count(e));
                },
            }
            proof {
                assert forall|i: int|
                    0 <= i < vote_map.entries@.len() implies (#[trigger] vote_map.entries@[
                i]).id == pre_map.entries@[i].id && (pre_map.entries@[i].eliminated
                    ==> vote_map.entries@[i].eliminated) by {}
                pre_map.lemma_elim_monotone(vote_map);
                assert(map_matches(vote_map, *candidates));
                assert(ballots_ok(ballots@, vote_map)) by {
                    assert forall|n: int, k: int|
                        0 <= n < ballots@.len() && 0 <= k < (#[trigger] ballots@[
                    n]).prefs@.len() implies vote_map.is_candidate(
                        #[trigger] ballots@[n].prefs@[k],
                    ) by {
                        assert(ballots@[n].prefs == pre_ballots[n].prefs);
                        assert(pre_map.is_candidate(pre_ballots[n].prefs@[k]));
                    }
                }
                assert(senators_ok(result.senators@, vote_map));
                crate::vote_map::lemma_count_congruent(
                    pre_map.entries@,
                    vote_map.entries@,
                );
                assert(vote_map.count_remaining() == pre_map.count_remaining());
            }

            // Elect any candidates now at quota.
            let ghost pre_map2 = vote_map;
            let elected = match vote_map.elect_candidates_with_quota(quota, &ballots) {
                Ok(e) => e,
                Err(e) => {
                    return Err(ElectionError::Count(e));
                },
            };
            proof {
                assert forall|i: int|
                    0 <= i < vote_map.entries@.len() implies (#[trigger] vote_map.entries@[
                i]).id == pre_map2.entries@[i].id && (pre_map2.entries@[i].eliminated
                    ==> vote_map.entries@[i].eliminated) by {}
                pre_map2.lemma_elim_monotone(vote_map);
                assert(map_matches(vote_map, *candidates));
                assert(ballots_ok(ballots@, vote_map));
                assert(logs_bounded(vote_map, count as int)) by {
                    assert forall|i: int|
                        0 <= i < vote_map.entries@.len() implies (#[trigger] vote_map
                        .entries@[i]).votes@.len() <= count by {
                        assert(vote_map.entries@[i].votes == pre_map2.entries@[i].votes);
                    }
                }
                assert forall|j: int|
                    0 <= j < elected@.len() implies candidates.spec_contains(
                    (#[trigger] elected@[j]).id,
                ) && vote_map.is_candidate(elected@[j].id) && vote_map.spec_eliminated(
                    elected@[j].id,
                ) by {
                    let id = elected@[j].id;
                    pre_map2.lemma_elected_eliminated(vote_map, id, quota);
                    let i = choose|i: int|
                        0 <= i < pre_map2.entries@.len() && (#[trigger] pre_map2.entries@[
                        i]).id == id;
                    assert(candidates.entries@[i].0 == id);
                }
                assert forall|j: int, k: int|
                    0 <= j < elected@.len() && 0 <= k < result.senators@.len() implies (
                #[trigger] elected@[j]).id != (#[trigger] result.senators@[k]).0.id by {
                    assert(vote_map.spec_eliminated(result.senators@[k].0.id) || !pre_map2
                        .spec_eliminated(result.senators@[k].0.id));
                    assert(pre_map2.spec_eliminated(result.senators@[k].0.id));
                    assert(pre_map2.continuing(elected@[j].id));
                }
            }
            let ghost pre_sen = result.senators@;
            let n_elected = elect_candidates(
                elected,
                &mut result,
                &mut preference_transfers,
                candidates,
                Ghost(ballots@.len() as int),
            );
            proof {
                assert(senators_ok(result.senators@, vote_map)) by {
                    assert forall|a: int, b: int|
                        0 <= a < b < result.senators@.len() implies (
                    #[trigger] result.senators@[a]).0.id != (#[trigger] result.senators@[
                    b]).0.id by {
                        if b < pre_sen.len() {
                            assert(result.senators@[a] == pre_sen[a]);
                            assert(result.senators@[b] == pre_sen[b]);
                        } else if a < pre_sen.len() {
                            assert(result.senators@[a] == pre_sen[a]);
                        }
                    }
                    assert forall|a: int|
                        0 <= a < result.senators@.len() implies vote_map.is_candidate(
                        (#[trigger] result.senators@[a]).0.id,
                    ) && vote_map.spec_eliminated(result.senators@[a].0.id) by {
                        if a < pre_sen.len() {
                            assert(result.senators@[a] == pre_sen[a]);
                        }
                    }
                }
                // the measure decreases: either somebody was elected, or
                // the queue shrank by the popped transfer
                assert(vote_map.count_remaining() == pre_map2.count_remaining()
                    - n_elected);
                crate::vote_map::lemma_count_continuing_bounds(vote_map.entries@);
            }
            // cap the number of seated senators
            if result.num_elected() > num_positions {
                return Err(ElectionError::Count(CountError::Overflow));
            }
            count = count + 1;
            proof {
                // the measure falls: a candidate left the count, or the
                // queue shrank by the transfer just applied
                if n_elected == 0 {
                    assert(vote_map.count_remaining() <= loop_map.count_remaining());
                    assert(preference_transfers@.len() < loop_queue.len()
                        || vote_map.count_remaining() < loop_map.count_remaining());
                } else {
                    assert(vote_map.count_remaining() < loop_map.count_remaining());
                }
            }
        }
    }
    proof {
        assert(result.senators@.len() == num_positions);
    }
    Ok(result)
}

} // verus!
