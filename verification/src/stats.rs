//! Aggregate statistics for a count: valid and invalid vote totals, and the
//! per-round exhausted-ballot series.

use vstd::prelude::*;
use crate::ballot::Ballot;
use crate::ballot_parse::InvalidBallotErr;
use crate::frac::Frac;

verus! {

/// Number of votes recorded against an error kind.
pub open spec fn err_count(s: Seq<(InvalidBallotErr, u64)>, e: InvalidBallotErr) -> int
    decreases s.len(),
{
    if s.len() == 0 {
        0
    } else if s[0].0 == e {
        s[0].1 as int
    } else {
        err_count(s.drop_first(), e)
    }
}

/// Sum of all recorded invalid-vote counts.
pub open spec fn total_err_count(s: Seq<(InvalidBallotErr, u64)>) -> int
    decreases s.len(),
{
    if s.len() == 0 {
        0
    } else {
        s[0].1 + total_err_count(s.drop_first())
    }
}

/// The exhausted-vote record of one round, if any.
pub open spec fn round_entry(s: Seq<(usize, (u64, Frac))>, round: usize) -> Option<(u64, Frac)>
    decreases s.len(),
{
    if s.len() == 0 {
        None
    } else if s[0].0 == round {
        Some(s[0].1)
    } else {
        round_entry(s.drop_first(), round)
    }
}

#[derive(Debug)]
pub struct Stats {
    pub num_valid_votes: u32,
    /// Invalid votes, one bucket per erased error kind.
    pub invalid_votes: Vec<(InvalidBallotErr, u64)>,
    /// Map from vote round to number of ballots exhausted during that round
    /// (not cumulative) and their combined value (sum of transfer values).
    pub exhausted_votes: Vec<(usize, (u64, Frac))>,
}

impl Stats {
    /// Error keys are unique and counts are positive; exhausted rounds are
    /// unique and their fractions canonical.
    pub open spec fn wf(self) -> bool {
        &&& forall|i: int, j: int|
            0 <= i < j < self.invalid_votes@.len() ==> (#[trigger] self.invalid_votes@[i]).0
                != (#[trigger] self.invalid_votes@[j]).0
        &&& forall|i: int, j: int|
            0 <= i < j < self.exhausted_votes@.len() ==> (#[trigger] self.exhausted_votes@[i]).0
                != (#[trigger] self.exhausted_votes@[j]).0
        &&& forall|i: int|
            0 <= i < self.exhausted_votes@.len() ==> (#[trigger] self.exhausted_votes@[i]).1.1
                .wf()
    }

    pub fn new() -> (s: Stats)
        ensures
            s.wf(),
            s.num_valid_votes == 0,
            s.invalid_votes@.len() == 0,
            s.exhausted_votes@.len() == 0,
    {
        Stats { num_valid_votes: 0, invalid_votes: Vec::new(), exhausted_votes: Vec::new() }
    }

    /// Add a ballot's weight to the running valid total.
    pub fn record_valid_vote(&mut self, ballot: &Ballot)
        requires
            old(self).num_valid_votes + ballot.spec_weight() <= u32::MAX,
        ensures
            final(self).num_valid_votes == old(self).num_valid_votes + ballot.spec_weight(),
            final(self).invalid_votes == old(self).invalid_votes,
            final(self).exhausted_votes == old(self).exhausted_votes,
            old(self).wf() ==> final(self).wf(),
    {
        self.num_valid_votes = self.num_valid_votes + ballot.weight();
    }

    /// Count an invalid ballot, first erasing the numeric detail of
    /// count-bound errors so that all size variants share one bucket.
    #[verifier::loop_isolation(false)]
    pub fn record_invalid_vote(&mut self, err: InvalidBallotErr)
        requires
            old(self).wf(),
            err_count(old(self).invalid_votes@, err.erase_detail_spec()) < u64::MAX,
        ensures
            final(self).wf(),
            final(self).num_valid_votes == old(self).num_valid_votes,
            final(self).exhausted_votes == old(self).exhausted_votes,
            err_count(final(self).invalid_votes@, err.erase_detail_spec()) == err_count(
                old(self).invalid_votes@,
                err.erase_detail_spec(),
            ) + 1,
            forall|e: InvalidBallotErr|
                e != err.erase_detail_spec() ==> #[trigger] err_count(
                    final(self).invalid_votes@,
                    e,
                ) == err_count(old(self).invalid_votes@, e),
            total_err_count(final(self).invalid_votes@) == total_err_count(
                old(self).invalid_votes@,
            ) + 1,
    {
        let key = err.erase_detail();
        let ghost prev = self.invalid_votes@;
        let mut i: usize = 0;
        while i < self.invalid_votes.len()
            invariant
                i <= self.invalid_votes@.len(),
                self.invalid_votes@ == prev,
                self.invalid_votes == old(self).invalid_votes,
                self.num_valid_votes == old(self).num_valid_votes,
                self.exhausted_votes == old(self).exhausted_votes,
                forall|j: int| 0 <= j < i ==> (#[trigger] prev[j]).0 != key,
            decreases self.invalid_votes@.len() - i,
        {
            if self.invalid_votes[i].0 == key {
                proof {
                    lemma_err_count_at(prev, key, i as int);
                }
                let c = self.invalid_votes[i].1;
                self.invalid_votes.set(i, (key, c + 1));
                proof {
                    lemma_err_count_update(prev, self.invalid_votes@, i as int, key);
                    assert forall|a: int, b: int|
                        0 <= a < b < self.invalid_votes@.len() implies (#[trigger] self
                        .invalid_votes@[a]).0 != (#[trigger] self.invalid_votes@[b]).0 by {
                        assert(self.invalid_votes@[a].0 == prev[a].0);
                        assert(self.invalid_votes@[b].0 == prev[b].0);
                    }
                }
                return ;
            }
            i = i + 1;
        }
        proof {
            lemma_err_count_missing(prev, key);
        }
        self.invalid_votes.push((key, 1));
        proof {
            lemma_err_count_push(prev, key, 1);
            assert forall|a: int, b: int|
                0 <= a < b < self.invalid_votes@.len() implies (#[trigger] self
                .invalid_votes@[a]).0 != (#[trigger] self.invalid_votes@[b]).0 by {
                if b < prev.len() {
                    assert(self.invalid_votes@[a].0 == prev[a].0);
                    assert(self.invalid_votes@[b].0 == prev[b].0);
                } else {
                    assert(self.invalid_votes@[a].0 == prev[a].0);
                    assert(self.invalid_votes@[b].0 == key);
                }
            }
        }
    }

    /// Charge one exhausted ballot to `round` at the incoming transfer
    /// value; fails exactly when the round's counter or its exact running
    /// value no longer fits 64 bits.
    #[verifier::loop_isolation(false)]
    pub fn record_exhausted_vote(&mut self, round: usize, transfer_value: &Frac) -> (r: Result<
        (),
        (),
    >)
        requires
            old(self).wf(),
            transfer_value.wf(),
        ensures
            final(self).num_valid_votes == old(self).num_valid_votes,
            final(self).invalid_votes == old(self).invalid_votes,
            final(self).wf(),
            (r is Err) == (round_entry(old(self).exhausted_votes@, round) matches Some(e)
                && (e.0 == u64::MAX || e.1.add_fails(*transfer_value))),
            r is Err ==> *final(self) == *old(self),
            match r {
                Ok(()) => {
                    &&& match round_entry(old(self).exhausted_votes@, round) {
                        None => round_entry(final(self).exhausted_votes@, round) matches Some(
                            e,
                        ) && e.0 == 1 && e.1 == *transfer_value,
                        Some(prev) => round_entry(final(self).exhausted_votes@, round)
                            matches Some(e) && e.0 == prev.0 + 1 && e.1.num * (prev.1.den
                            * transfer_value.den) == (prev.1.num * transfer_value.den
                            + transfer_value.num * prev.1.den) * e.1.den,
                    }
                    &&& forall|other: usize|
                        other != round ==> #[trigger] round_entry(
                            final(self).exhausted_votes@,
                            other,
                        ) == round_entry(old(self).exhausted_votes@, other)
                },
                Err(()) => true,
            },
    {
        let ghost prev = self.exhausted_votes@;
        let mut i: usize = 0;
        while i < self.exhausted_votes.len()
            invariant
                i <= self.exhausted_votes@.len(),
                self.exhausted_votes@ == prev,
                self.exhausted_votes == old(self).exhausted_votes,
                self.num_valid_votes == old(self).num_valid_votes,
                self.invalid_votes == old(self).invalid_votes,
                forall|j: int| 0 <= j < i ==> (#[trigger] prev[j]).0 != round,
            decreases self.exhausted_votes@.len() - i,
        {
            if self.exhausted_votes[i].0 == round {
                proof {
                    lemma_round_entry_at(prev, round, i as int);
                }
                let (count, value) = (self.exhausted_votes[i].1.0, self.exhausted_votes[i].1.1);
                if count == u64::MAX {
                    return Err(());
                }
                let new_value = match value.add(transfer_value) {
                    Some(v) => v,
                    None => {
                        proof {
                            assert(value.add_fails(*transfer_value));
                        }
                        return Err(());
                    },
                };
                proof {
                    assert(!value.add_fails(*transfer_value));
                }
                self.exhausted_votes.set(i, (round, (count + 1, new_value)));
                proof {
                    lemma_round_entry_update(prev, self.exhausted_votes@, i as int, round);
                    assert forall|a: int, b: int|
                        0 <= a < b < self.exhausted_votes@.len() implies (#[trigger] self
                        .exhausted_votes@[a]).0 != (#[trigger] self.exhausted_votes@[b]).0 by {
                        assert(self.exhausted_votes@[a].0 == prev[a].0);
                        assert(self.exhausted_votes@[b].0 == prev[b].0);
                    }
                    assert forall|a: int|
                        0 <= a < self.exhausted_votes@.len() implies (#[trigger] self
                        .exhausted_votes@[a]).1.1.wf() by {
                        if a != i {
                            assert(self.exhausted_votes@[a].1 == prev[a].1);
                        }
                    }
                }
                return Ok(());
            }
            i = i + 1;
        }
        proof {
            lemma_round_entry_missing(prev, round);
        }
        self.exhausted_votes.push((round, (1, transfer_value.clone())));
        proof {
            lemma_round_entry_push(prev, round, (1, *transfer_value));
            assert forall|a: int, b: int|
                0 <= a < b < self.exhausted_votes@.len() implies (#[trigger] self
                .exhausted_votes@[a]).0 != (#[trigger] self.exhausted_votes@[b]).0 by {
                if b < prev.len() {
                    assert(self.exhausted_votes@[a].0 == prev[a].0);
                    assert(self.exhausted_votes@[b].0 == prev[b].0);
                } else {
                    assert(self.exhausted_votes@[a].0 == prev[a].0);
                    assert(self.exhausted_votes@[b].0 == round);
                }
            }
            assert forall|a: int|
                0 <= a < self.exhausted_votes@.len() implies (#[trigger] self
                .exhausted_votes@[a]).1.1.wf() by {
                if a < prev.len() {
                    assert(self.exhausted_votes@[a].1 == prev[a].1);
                }
            }
        }
        Ok(())
    }

    pub fn num_total_votes(&self) -> (r: u64)
        requires
            self.num_valid_votes + total_err_count(self.invalid_votes@) <= u64::MAX,
        ensures
            r == self.num_valid_votes + total_err_count(self.invalid_votes@),
    {
        let invalid = self.num_invalid_votes();
        self.num_valid_votes as u64 + invalid
    }

    pub fn num_valid_votes(&self) -> (r: u32)
        ensures
            r == self.num_valid_votes,
    {
        self.num_valid_votes
    }

    pub fn num_invalid_votes(&self) -> (r: u64)
        requires
            total_err_count(self.invalid_votes@) <= u64::MAX,
        ensures
            r == total_err_count(self.invalid_votes@),
    {
        let mut sum: u64 = 0;
        let mut i: usize = 0;
        proof {
            assert(self.invalid_votes@.skip(0) =~= self.invalid_votes@);
            lemma_total_nonneg(self.invalid_votes@);
        }
        while i < self.invalid_votes.len()
            invariant
                i <= self.invalid_votes@.len(),
                sum == total_err_count(self.invalid_votes@) - total_err_count(
                    self.invalid_votes@.skip(i as int),
                ),
                total_err_count(self.invalid_votes@.skip(i as int)) >= 0,
                total_err_count(self.invalid_votes@) <= u64::MAX,
            decreases self.invalid_votes@.len() - i,
        {
            proof {
                assert(self.invalid_votes@.skip(i as int).drop_first() =~= self.invalid_votes@
                    .skip(i + 1));
                assert(self.invalid_votes@.skip(i as int)[0] == self.invalid_votes@[i as int]);
                lemma_total_nonneg(self.invalid_votes@.skip(i + 1));
            }
            sum = sum + self.invalid_votes[i].1;
            i = i + 1;
        }
        proof {
            assert(self.invalid_votes@.skip(self.invalid_votes@.len() as int) =~= Seq::<(
                InvalidBallotErr,
                u64,
            )>::empty());
        }
        sum
    }
}

impl InvalidBallotErr {
    /// The bucket an error is counted in: count-bound errors collapse to a
    /// single representative per class.
    pub open spec fn erase_detail_spec(self) -> InvalidBallotErr {
        match self {
            InvalidBallotErr::InvalidMinAbove(_) => InvalidBallotErr::InvalidMinAbove(0),
            InvalidBallotErr::InvalidMaxAbove(_) => InvalidBallotErr::InvalidMaxAbove(0),
            InvalidBallotErr::InvalidMinBelow(_) => InvalidBallotErr::InvalidMinBelow(0),
            InvalidBallotErr::InvalidMaxBelow(_) => InvalidBallotErr::InvalidMaxBelow(0),
            x => x,
        }
    }

    /// Erase the numeric detail of count-bound errors.
    pub fn erase_detail(self) -> (r: InvalidBallotErr)
        ensures
            r == self.erase_detail_spec(),
    {
        match self {
            InvalidBallotErr::InvalidMinAbove(_) => InvalidBallotErr::InvalidMinAbove(0),
            InvalidBallotErr::InvalidMaxAbove(_) => InvalidBallotErr::InvalidMaxAbove(0),
            InvalidBallotErr::InvalidMinBelow(_) => InvalidBallotErr::InvalidMinBelow(0),
            InvalidBallotErr::InvalidMaxBelow(_) => InvalidBallotErr::InvalidMaxBelow(0),
            x => x,
        }
    }
}

/// Each bucket's count is at most the total.
pub proof fn lemma_err_le_total(s: Seq<(InvalidBallotErr, u64)>, e: InvalidBallotErr)
    ensures
        0 <= err_count(s, e) <= total_err_count(s),
    decreases s.len(),
{
    if s.len() > 0 {
        lemma_err_le_total(s.drop_first(), e);
        lemma_total_nonneg(s.drop_first());
    }
}

pub proof fn lemma_total_nonneg(s: Seq<(InvalidBallotErr, u64)>)
    ensures
        total_err_count(s) >= 0,
    decreases s.len(),
{
    if s.len() > 0 {
        lemma_total_nonneg(s.drop_first());
    }
}

proof fn lemma_err_count_at(s: Seq<(InvalidBallotErr, u64)>, e: InvalidBallotErr, i: int)
    requires
        0 <= i < s.len(),
        s[i].0 == e,
        forall|j: int| 0 <= j < i ==> (#[trigger] s[j]).0 != e,
    ensures
        err_count(s, e) == s[i].1,
    decreases i,
{
    if i > 0 {
        lemma_err_count_at(s.drop_first(), e, i - 1);
    }
}

proof fn lemma_err_count_update(
    prev: Seq<(InvalidBallotErr, u64)>,
    cur: Seq<(InvalidBallotErr, u64)>,
    i: int,
    e: InvalidBallotErr,
)
    requires
        0 <= i < prev.len(),
        prev[i].0 == e,
        cur == prev.update(i, (e, cur[i].1)),
        forall|j: int| 0 <= j < i ==> (#[trigger] prev[j]).0 != e,
    ensures
        err_count(cur, e) == cur[i].1,
        forall|other: InvalidBallotErr|
            other != e ==> #[trigger] err_count(cur, other) == err_count(prev, other),
        total_err_count(cur) == total_err_count(prev) - prev[i].1 + cur[i].1,
    decreases i,
{
    if i == 0 {
        assert(cur.drop_first() =~= prev.drop_first());
        assert(cur[0].0 == e);
        assert forall|other: InvalidBallotErr| other != e implies #[trigger] err_count(
            cur,
            other,
        ) == err_count(prev, other) by {
            assert(err_count(cur, other) == err_count(cur.drop_first(), other));
            assert(err_count(prev, other) == err_count(prev.drop_first(), other));
        }
    } else {
        assert(cur[0] == prev[0]);
        assert(cur.drop_first() =~= prev.drop_first().update(i - 1, (e, cur[i].1)));
        lemma_err_count_update(prev.drop_first(), cur.drop_first(), i - 1, e);
        assert(cur[0].0 != e);
        assert(err_count(cur, e) == err_count(cur.drop_first(), e));
        assert forall|other: InvalidBallotErr| other != e implies #[trigger] err_count(
            cur,
            other,
        ) == err_count(prev, other) by {
            if cur[0].0 != other {
                assert(err_count(cur, other) == err_count(cur.drop_first(), other));
                assert(err_count(prev, other) == err_count(prev.drop_first(), other));
            }
        }
    }
}

proof fn lemma_err_count_missing(s: Seq<(InvalidBallotErr, u64)>, e: InvalidBallotErr)
    requires
        forall|j: int| 0 <= j < s.len() ==> (#[trigger] s[j]).0 != e,
    ensures
        err_count(s, e) == 0,
    decreases s.len(),
{
    if s.len() > 0 {
        lemma_err_count_missing(s.drop_first(), e);
    }
}

proof fn lemma_err_count_push(s: Seq<(InvalidBallotErr, u64)>, e: InvalidBallotErr, c: u64)
    requires
        forall|j: int| 0 <= j < s.len() ==> (#[trigger] s[j]).0 != e,
    ensures
        err_count(s.push((e, c)), e) == c,
        forall|other: InvalidBallotErr|
            other != e ==> #[trigger] err_count(s.push((e, c)), other) == err_count(s, other),
        total_err_count(s.push((e, c))) == total_err_count(s) + c,
    decreases s.len(),
{
    let cur = s.push((e, c));
    if s.len() == 0 {
        assert(cur[0] == (e, c));
        assert(cur.drop_first() =~= Seq::<(InvalidBallotErr, u64)>::empty());
        assert(total_err_count(cur) == cur[0].1 + total_err_count(cur.drop_first()));
        assert forall|other: InvalidBallotErr| other != e implies #[trigger] err_count(
            cur,
            other,
        ) == err_count(s, other) by {
            assert(err_count(cur, other) == err_count(cur.drop_first(), other));
        }
    } else {
        assert(cur.drop_first() =~= s.drop_first().push((e, c)));
        lemma_err_count_push(s.drop_first(), e, c);
        assert(cur[0] == s[0]);
        assert(err_count(cur, e) == err_count(cur.drop_first(), e));
        assert forall|other: InvalidBallotErr| other != e implies #[trigger] err_count(
            cur,
            other,
        ) == err_count(s, other) by {
            if cur[0].0 != other {
                assert(err_count(cur, other) == err_count(cur.drop_first(), other));
                assert(err_count(s, other) == err_count(s.drop_first(), other));
            }
        }
    }
}

/// A found round entry of a well-formed record carries a canonical value.
pub proof fn lemma_round_entry_wf(s: Seq<(usize, (u64, Frac))>, round: usize)
    requires
        forall|i: int| 0 <= i < s.len() ==> (#[trigger] s[i]).1.1.wf(),
    ensures
        match round_entry(s, round) {
            Some(e) => e.1.wf(),
            None => true,
        },
    decreases s.len(),
{
    if s.len() > 0 && s[0].0 != round {
        assert(forall|i: int|
            0 <= i < s.drop_first().len() ==> (#[trigger] s.drop_first()[i]).1.1.wf());
        lemma_round_entry_wf(s.drop_first(), round);
    }
}

proof fn lemma_round_entry_at(s: Seq<(usize, (u64, Frac))>, round: usize, i: int)
    requires
        0 <= i < s.len(),
        s[i].0 == round,
        forall|j: int| 0 <= j < i ==> (#[trigger] s[j]).0 != round,
    ensures
        round_entry(s, round) == Some(s[i].1),
    decreases i,
{
    if i > 0 {
        lemma_round_entry_at(s.drop_first(), round, i - 1);
    }
}

proof fn lemma_round_entry_update(
    prev: Seq<(usize, (u64, Frac))>,
    cur: Seq<(usize, (u64, Frac))>,
    i: int,
    round: usize,
)
    requires
        0 <= i < prev.len(),
        prev[i].0 == round,
        cur == prev.update(i, (round, cur[i].1)),
        forall|j: int| 0 <= j < i ==> (#[trigger] prev[j]).0 != round,
    ensures
        round_entry(cur, round) == Some(cur[i].1),
        forall|other: usize|
            other != round ==> #[trigger] round_entry(cur, other) == round_entry(prev, other),
    decreases i,
{
    if i == 0 {
        assert(cur.drop_first() =~= prev.drop_first());
        assert(cur[0].0 == round);
        assert forall|other: usize| other != round implies #[trigger] round_entry(cur, other)
            == round_entry(prev, other) by {
            assert(round_entry(cur, other) == round_entry(cur.drop_first(), other));
            assert(round_entry(prev, other) == round_entry(prev.drop_first(), other));
        }
    } else {
        assert(cur[0] == prev[0]);
        assert(cur.drop_first() =~= prev.drop_first().update(i - 1, (round, cur[i].1)));
        lemma_round_entry_update(prev.drop_first(), cur.drop_first(), i - 1, round);
        assert(cur[0].0 != round);
        assert(round_entry(cur, round) == round_entry(cur.drop_first(), round));
        assert forall|other: usize| other != round implies #[trigger] round_entry(cur, other)
            == round_entry(prev, other) by {
            if cur[0].0 != other {
                assert(round_entry(cur, other) == round_entry(cur.drop_first(), other));
                assert(round_entry(prev, other) == round_entry(prev.drop_first(), other));
            }
        }
    }
}

proof fn lemma_round_entry_missing(s: Seq<(usize, (u64, Frac))>, round: usize)
    requires
        forall|j: int| 0 <= j < s.len() ==> (#[trigger] s[j]).0 != round,
    ensures
        round_entry(s, round) is None,
    decreases s.len(),
{
    if s.len() > 0 {
        lemma_round_entry_missing(s.drop_first(), round);
    }
}

proof fn lemma_round_entry_push(s: Seq<(usize, (u64, Frac))>, round: usize, e: (u64, Frac))
    requires
        forall|j: int| 0 <= j < s.len() ==> (#[trigger] s[j]).0 != round,
    ensures
        round_entry(s.push((round, e)), round) == Some(e),
        forall|other: usize|
            other != round ==> #[trigger] round_entry(s.push((round, e)), other) == round_entry(
                s,
                other,
            ),
    decreases s.len(),
{
    let cur = s.push((round, e));
    if s.len() == 0 {
        assert(cur[0] == (round, e));
        assert(cur.drop_first() =~= Seq::<(usize, (u64, Frac))>::empty());
        assert forall|other: usize| other != round implies #[trigger] round_entry(cur, other)
            == round_entry(s, other) by {
            assert(round_entry(cur, other) == round_entry(cur.drop_first(), other));
        }
    } else {
        assert(cur.drop_first() =~= s.drop_first().push((round, e)));
        lemma_round_entry_push(s.drop_first(), round, e);
        assert(cur[0] == s[0]);
        assert(round_entry(cur, round) == round_entry(cur.drop_first(), round));
        assert forall|other: usize| other != round implies #[trigger] round_entry(cur, other)
            == round_entry(s, other) by {
            if cur[0].0 != other {
                assert(round_entry(cur, other) == round_entry(cur.drop_first(), other));
                assert(round_entry(s, other) == round_entry(s.drop_first(), other));
            }
        }
    }
}

} // verus!
