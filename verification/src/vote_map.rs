//! Per-candidate tallies and ballot buckets keyed by transfer value, with
//! the elect / exclude / transfer primitives of the count.
//!
//! Ballots live in one owning vector held by the engine; buckets store
//! indices into it.  Every bucket key is a canonical fraction at most one,
//! and a continuing candidate's tally never exceeds the combined weight of
//! the ballots in their buckets — which is what makes every surplus
//! transfer value at most one.

use vstd::prelude::*;
use crate::ballot::Ballot;
use crate::candidate::CandidateId;
use crate::frac::Frac;
use crate::stats::{Stats, round_entry};
use crate::vote_log::{VoteLog, lex_lt};

verus! {

/// A fatal counting error: the run aborts.
#[derive(Debug, PartialEq, Eq, Structural, Clone, Copy)]
pub enum CountError {
    /// A candidate id appeared more than once at construction.
    DuplicateCandidate(CandidateId),
    /// A ballot named a candidate that the map does not know.
    CandidateNotFound(CandidateId),
    /// A tally or an exact value no longer fits the machine word.
    Overflow,
    /// A tie for last place that the resolver could not break.
    TieUnresolved,
    /// An exclusion was requested with no continuing candidate left.
    NoContinuingCandidates,
}

/// Ballots carrying one transfer value for one candidate.
pub struct Bucket {
    pub tv: Frac,
    pub ballots: Vec<usize>,
}

/// Per-candidate intermediate data.
pub struct VoteEntry {
    pub id: CandidateId,
    pub votes: VoteLog,
    pub buckets: Vec<Bucket>,
    pub eliminated: bool,
}

/// A pending redistribution: source candidate, transfer value, and the
/// indices of the ballots to move.
pub struct PreferenceTransfer(pub CandidateId, pub Frac, pub Vec<usize>);

pub struct CandidateElected {
    pub id: CandidateId,
    pub votes: u64,
    pub transfers: Vec<PreferenceTransfer>,
}

pub struct CandidateExcluded {
    pub id: CandidateId,
    pub transfers: Vec<PreferenceTransfer>,
}

/// Intermediate data structure mapping candidates to ballots.
pub struct VoteMap {
    pub entries: Vec<VoteEntry>,
}

/// Combined weight of the ballots at the given indices.
pub open spec fn sum_weights(idxs: Seq<usize>, ballots: Seq<Ballot>) -> int
    decreases idxs.len(),
{
    if idxs.len() == 0 {
        0
    } else {
        ballots[idxs[0] as int].spec_weight() + sum_weights(idxs.drop_first(), ballots)
    }
}

/// Combined weight of all ballots across a candidate's buckets.
pub open spec fn buckets_weight(bs: Seq<Bucket>, ballots: Seq<Ballot>) -> int
    decreases bs.len(),
{
    if bs.len() == 0 {
        0
    } else {
        sum_weights(bs[0].ballots@, ballots) + buckets_weight(bs.drop_first(), ballots)
    }
}

/// A well-formed bucket list: canonical keys at most one, in strictly
/// ascending value order, holding only indices into the ballot store.
pub open spec fn buckets_wf(bs: Seq<Bucket>, n_ballots: int) -> bool {
    &&& forall|i: int|
        0 <= i < bs.len() ==> (#[trigger] bs[i]).tv.wf() && bs[i].tv.num <= bs[i].tv.den
    &&& forall|i: int, j: int| 0 <= i < j < bs.len() ==> (#[trigger] bs[i]).tv.spec_lt(
        (#[trigger] bs[j]).tv,
    )
    &&& forall|i: int, j: int|
        0 <= i < bs.len() && 0 <= j < (#[trigger] bs[i]).ballots@.len() ==> (
        #[trigger] bs[i].ballots@[j]) < n_ballots
}

impl VoteMap {
    /// Candidate ids are unique; every bucket list is well formed; and no
    /// continuing candidate's tally exceeds the weight in their buckets.
    /// Candidate ids are unique.
    pub open spec fn ids_unique(self) -> bool {
        forall|i: int, j: int|
            0 <= i < j < self.entries@.len() ==> (#[trigger] self.entries@[i]).id
                != (#[trigger] self.entries@[j]).id
    }

    pub open spec fn wf(self, ballots: Seq<Ballot>) -> bool {
        &&& self.ids_unique()
        &&& forall|i: int|
            0 <= i < self.entries@.len() ==> buckets_wf(
                (#[trigger] self.entries@[i]).buckets@,
                ballots.len() as int,
            )
        &&& forall|i: int|
            0 <= i < self.entries@.len() && !(#[trigger] self.entries@[i]).eliminated ==> self
                .entries@[i].votes.latest_spec() <= buckets_weight(
                self.entries@[i].buckets@,
                ballots,
            )
    }

    pub open spec fn is_candidate(self, id: CandidateId) -> bool {
        exists|i: int| 0 <= i < self.entries@.len() && (#[trigger] self.entries@[i]).id == id
    }

    /// The entry index of a candidate (meaningful only when present).
    pub open spec fn index_of(self, id: CandidateId) -> int {
        choose|i: int| 0 <= i < self.entries@.len() && (#[trigger] self.entries@[i]).id == id
    }

    pub open spec fn spec_eliminated(self, id: CandidateId) -> bool {
        self.entries@[self.index_of(id)].eliminated
    }

    /// A candidate still in the running.
    pub open spec fn continuing(self, id: CandidateId) -> bool {
        self.is_candidate(id) && !self.spec_eliminated(id)
    }

    pub open spec fn tally_of(self, id: CandidateId) -> u64 {
        self.entries@[self.index_of(id)].votes.latest_spec()
    }

    pub open spec fn log_of(self, id: CandidateId) -> Seq<u64> {
        self.entries@[self.index_of(id)].votes@
    }

    /// Number of continuing candidates.
    pub open spec fn count_remaining(self) -> int {
        count_continuing(self.entries@)
    }

    /// Construct one entry per candidate id, each with no votes and a
    /// single empty full-value bucket; duplicate ids fail.
    pub fn new(candidate_ids: &Vec<CandidateId>) -> (r: Result<VoteMap, CountError>)
        ensures
            match r {
                Ok(m) => {
                    &&& forall|ballots: Seq<Ballot>| #[trigger] m.wf(ballots)
                    &&& m.entries@.len() == candidate_ids@.len()
                    &&& forall|i: int|
                        0 <= i < candidate_ids@.len() ==> (#[trigger] m.entries@[i]).id
                            == candidate_ids@[i]
                    &&& forall|i: int|
                        0 <= i < m.entries@.len() ==> !(#[trigger] m.entries@[i]).eliminated
                            && m.entries@[i].votes@.len() == 0
                    &&& forall|i: int|
                        0 <= i < m.entries@.len() ==> (#[trigger] m.entries@[i]).buckets@
                            .len() == 1 && m.entries@[i].buckets@[0].tv.num == 1 && m
                            .entries@[i].buckets@[0].tv.den == 1 && m.entries@[i].buckets@[
                        0].ballots@.len() == 0
                    &&& forall|i: int, j: int|
                        0 <= i < j < candidate_ids@.len() ==> candidate_ids@[i]
                            != candidate_ids@[j]
                },
                Err(CountError::DuplicateCandidate(id)) => exists|i: int, j: int|
                    0 <= i < j < candidate_ids@.len() && candidate_ids@[i] == candidate_ids@[j]
                        && candidate_ids@[j] == id,
                Err(_) => false,
            },
    {
        let mut entries: Vec<VoteEntry> = Vec::new();
        let mut i: usize = 0;
        while i < candidate_ids.len()
            invariant
                i <= candidate_ids@.len(),
                entries@.len() == i,
                forall|j: int|
                    0 <= j < i ==> (#[trigger] entries@[j]).id == candidate_ids@[j],
                forall|j: int|
                    0 <= j < i ==> !(#[trigger] entries@[j]).eliminated && entries@[j].votes@
                        .len() == 0,
                forall|j: int|
                    0 <= j < i ==> (#[trigger] entries@[j]).buckets@.len() == 1
                        && entries@[j].buckets@[0].tv.wf() && entries@[j].buckets@[0].tv.num
                        == 1 && entries@[j].buckets@[0].tv.den == 1
                        && entries@[j].buckets@[0].ballots@.len() == 0,
                forall|j: int, k: int|
                    0 <= j < k < i ==> candidate_ids@[j] != candidate_ids@[k],
            decreases candidate_ids@.len() - i,
        {
            let id = candidate_ids[i];
            // reject a repeated id
            let mut j: usize = 0;
            while j < i
                invariant
                    j <= i,
                    i < candidate_ids@.len(),
                    id == candidate_ids@[i as int],
                    forall|k: int| 0 <= k < j ==> candidate_ids@[k] != candidate_ids@[i as int],
                decreases i - j,
            {
                if candidate_ids[j] == id {
                    proof {
                        assert(0 <= j < i < candidate_ids@.len() && candidate_ids@[j as int]
                            == candidate_ids@[i as int] && candidate_ids@[i as int] == id);
                    }
                    return Err(CountError::DuplicateCandidate(id));
                }
                j = j + 1;
            }
            let one = Frac::one();
            let bucket = Bucket { tv: one, ballots: Vec::new() };
            let mut buckets: Vec<Bucket> = Vec::new();
            buckets.push(bucket);
            entries.push(
                VoteEntry { id, votes: VoteLog::new(), buckets, eliminated: false },
            );
            i = i + 1;
        }
        let m = VoteMap { entries };
        proof {
            assert forall|ballots: Seq<Ballot>| #[trigger] m.wf(ballots) by {
                assert forall|a: int|
                    0 <= a < m.entries@.len() implies buckets_wf(
                    (#[trigger] m.entries@[a]).buckets@,
                    ballots.len() as int,
                ) by {
                    assert(m.entries@[a].buckets@.len() == 1);
                }
                assert forall|a: int|
                    0 <= a < m.entries@.len() && !(#[trigger] m.entries@[a]).eliminated
                    implies m.entries@[a].votes.latest_spec() <= buckets_weight(
                    m.entries@[a].buckets@,
                    ballots,
                ) by {
                    assert(m.entries@[a].buckets@[0].ballots@.len() == 0);
                    assert(sum_weights(m.entries@[a].buckets@[0].ballots@, ballots) == 0);
                    assert(m.entries@[a].buckets@.drop_first() =~= Seq::<Bucket>::empty());
                    assert(buckets_weight(Seq::<Bucket>::empty(), ballots) == 0);
                    assert(buckets_weight(m.entries@[a].buckets@, ballots) == sum_weights(
                        m.entries@[a].buckets@[0].ballots@,
                        ballots,
                    ) + buckets_weight(m.entries@[a].buckets@.drop_first(), ballots));
                }
                assert forall|a: int, b: int|
                    0 <= a < b < m.entries@.len() implies (#[trigger] m.entries@[a]).id
                    != (#[trigger] m.entries@[b]).id by {}
            }
        }
        Ok(m)
    }

    /// The entry index of a candidate id, if present.
    fn position(&self, id: CandidateId) -> (r: Option<usize>)
        requires
            self.ids_unique(),
        ensures
            match r {
                Some(i) => i < self.entries@.len() && self.entries@[i as int].id == id
                    && self.is_candidate(id) && self.index_of(id) == i,
                None => !self.is_candidate(id),
            },
    {
        let mut i: usize = 0;
        while i < self.entries.len()
            invariant
                self.ids_unique(),
                i <= self.entries@.len(),
                forall|j: int| 0 <= j < i ==> (#[trigger] self.entries@[j]).id != id,
            decreases self.entries@.len() - i,
        {
            if self.entries[i].id == id {
                proof {
                    assert(self.entries@[i as int].id == id);
                    assert(self.is_candidate(id));
                    let w = self.index_of(id);
                    assert(0 <= w < self.entries@.len() && self.entries@[w].id == id);
                    if w < i {
                        assert((#[trigger] self.entries@[w]).id != (#[trigger] self
                            .entries@[i as int]).id);
                    }
                    if i < w {
                        assert((#[trigger] self.entries@[i as int]).id != (#[trigger] self
                            .entries@[w]).id);
                    }
                }
                return Some(i);
            }
            i = i + 1;
        }
        None
    }

    /// The latest tally of a candidate.
    pub fn get_tally(&self, id: CandidateId) -> (r: u64)
        requires
            self.ids_unique(),
            self.is_candidate(id),
        ensures
            r == self.tally_of(id),
    {
        match self.position(id) {
            Some(i) => self.entries[i].votes.latest(),
            None => 0,
        }
    }

    pub fn num_candidates_remaining(&self) -> (r: usize)
        ensures
            r == self.count_remaining(),
    {
        proof {
            lemma_count_continuing_bounds(self.entries@);
            assert(self.entries@.skip(0) =~= self.entries@);
        }
        let mut n: usize = 0;
        let mut i: usize = 0;
        while i < self.entries.len()
            invariant
                i <= self.entries@.len(),
                n == count_continuing(self.entries@) - count_continuing(
                    self.entries@.skip(i as int),
                ),
                count_continuing(self.entries@.skip(i as int)) >= 0,
                count_continuing(self.entries@) <= self.entries@.len(),
            decreases self.entries@.len() - i,
        {
            proof {
                assert(self.entries@.skip(i as int).drop_first() =~= self.entries@.skip(i + 1));
                assert(self.entries@.skip(i as int)[0] == self.entries@[i as int]);
                lemma_count_continuing_bounds(self.entries@.skip(i + 1));
            }
            if !self.entries[i].eliminated {
                n = n + 1;
            }
            i = i + 1;
        }
        proof {
            assert(self.entries@.skip(self.entries@.len() as int) =~= Seq::<
                VoteEntry,
            >::empty());
        }
        n
    }

    /// First continuing preference of a ballot at or after its cursor.
    pub fn find_next_valid_preference(&self, b: &Ballot) -> (r: Option<usize>)
        requires
            self.ids_unique(),
            forall|j: int|
                b.spec_current() <= j < b.prefs@.len() ==> self.is_candidate(
                    #[trigger] b.prefs@[j],
                ),
        ensures
            match r {
                Some(i) => {
                    &&& b.spec_current() <= i < b.prefs@.len()
                    &&& self.continuing(b.prefs@[i as int])
                    &&& forall|j: int|
                        b.spec_current() <= j < i ==> self.spec_eliminated(
                            #[trigger] b.prefs@[j],
                        )
                },
                None => forall|j: int|
                    b.spec_current() <= j < b.prefs@.len() ==> self.spec_eliminated(
                        #[trigger] b.prefs@[j],
                    ),
            },
            (match r {
                Some(i) => Some(i as int),
                None => None,
            }) == next_valid_from(*self, b.prefs@, b.spec_current() as int),
    {
        let mut i: usize = b.current();
        if i > b.prefs.len() {
            return None;
        }
        while i < b.prefs.len()
            invariant
                self.ids_unique(),
                b.spec_current() <= i <= b.prefs@.len(),
                forall|j: int|
                    b.spec_current() <= j < b.prefs@.len() ==> self.is_candidate(
                        #[trigger] b.prefs@[j],
                    ),
                forall|j: int|
                    b.spec_current() <= j < i ==> self.spec_eliminated(#[trigger] b.prefs@[j]),
            decreases b.prefs@.len() - i,
        {
            let c = b.prefs[i];
            match self.position(c) {
                Some(p) => {
                    if !self.entries[p].eliminated {
                        proof {
                            assert(self.continuing(b.prefs@[i as int]));
                            assert forall|k: int|
                                b.spec_current() <= k < i implies !self.continuing(
                                #[trigger] b.prefs@[k],
                            ) by {}
                            lemma_next_valid_at(
                                *self,
                                b.prefs@,
                                b.spec_current() as int,
                                i as int,
                            );
                        }
                        return Some(i);
                    }
                },
                None => {},
            }
            i = i + 1;
        }
        proof {
            assert forall|k: int|
                b.spec_current() as int <= k < b.prefs@.len() implies !self.continuing(
                #[trigger] b.prefs@[k],
            ) by {}
            lemma_next_valid_none(*self, b.prefs@, b.spec_current() as int);
        }
        None
    }
}

/// Combined latest tally across all entries.  Votes are conserved at the
/// first-preference allocation: each `add` raises this total by exactly
/// the ballot's weight, so after setup it equals the valid-vote count.
pub open spec fn tally_sum(s: Seq<VoteEntry>) -> int
    decreases s.len(),
{
    if s.len() == 0 {
        0
    } else {
        s[0].votes.latest_spec() + tally_sum(s.drop_first())
    }
}

/// Changing one entry moves the tally total by that entry's change.
proof fn lemma_tally_sum_update(prev: Seq<VoteEntry>, cur: Seq<VoteEntry>, i: int)
    requires
        0 <= i < prev.len(),
        cur == prev.update(i, cur[i]),
    ensures
        tally_sum(cur) == tally_sum(prev) - prev[i].votes.latest_spec() + cur[i].votes
            .latest_spec(),
    decreases i,
{
    if i == 0 {
        assert(cur.drop_first() =~= prev.drop_first());
    } else {
        assert(cur[0] == prev[0]);
        assert(cur.drop_first() =~= prev.drop_first().update(i - 1, cur[i]));
        lemma_tally_sum_update(prev.drop_first(), cur.drop_first(), i - 1);
    }
}

/// Number of entries not yet eliminated.
pub open spec fn count_continuing(s: Seq<VoteEntry>) -> int
    decreases s.len(),
{
    if s.len() == 0 {
        0
    } else {
        (if s[0].eliminated {
            0int
        } else {
            1int
        }) + count_continuing(s.drop_first())
    }
}

pub proof fn lemma_count_continuing_bounds(s: Seq<VoteEntry>)
    ensures
        0 <= count_continuing(s) <= s.len(),
    decreases s.len(),
{
    if s.len() > 0 {
        lemma_count_continuing_bounds(s.drop_first());
    }
}

} // verus!

verus! {

/// Transitivity of fraction value equality through a well-formed middle.
proof fn lemma_frac_eq_trans(x: Frac, y: Frac, z: Frac)
    requires
        y.den >= 1,
        x.num * y.den == y.num * x.den,
        y.num * z.den == z.num * y.den,
    ensures
        x.num * z.den == z.num * x.den,
{
    assert(x.num * z.den == z.num * x.den) by (nonlinear_arith)
        requires
            x.num * y.den == y.num * x.den,
            y.num * z.den == z.num * y.den,
            y.den >= 1;
}

/// Transitivity of fraction value comparison.
proof fn lemma_frac_lt_trans(x: Frac, y: Frac, z: Frac)
    requires
        x.den >= 1,
        y.den >= 1,
        z.den >= 1,
        x.spec_lt(y),
        y.spec_lt(z),
    ensures
        x.spec_lt(z),
{
    assert(x.num * z.den < z.num * x.den) by (nonlinear_arith)
        requires
            x.num * y.den < y.num * x.den,
            y.num * z.den < z.num * y.den,
            x.den >= 1,
            y.den >= 1,
            z.den >= 1,
            x.num >= 0,
            y.num >= 0,
            z.num >= 0;
}

proof fn lemma_sum_weights_nonneg(idxs: Seq<usize>, ballots: Seq<Ballot>)
    ensures
        sum_weights(idxs, ballots) >= 0,
    decreases idxs.len(),
{
    if idxs.len() > 0 {
        lemma_sum_weights_nonneg(idxs.drop_first(), ballots);
    }
}

proof fn lemma_sum_weights_concat(a: Seq<usize>, b: Seq<usize>, ballots: Seq<Ballot>)
    ensures
        sum_weights(a + b, ballots) == sum_weights(a, ballots) + sum_weights(b, ballots),
    decreases a.len(),
{
    if a.len() == 0 {
        assert(a + b =~= b);
    } else {
        assert((a + b).drop_first() =~= a.drop_first() + b);
        assert((a + b)[0] == a[0]);
        lemma_sum_weights_concat(a.drop_first(), b, ballots);
    }
}

/// Updating one bucket changes the total weight by that bucket's change.
proof fn lemma_buckets_weight_update(
    prev: Seq<Bucket>,
    cur: Seq<Bucket>,
    i: int,
    ballots: Seq<Ballot>,
)
    requires
        0 <= i < prev.len(),
        cur == prev.update(i, cur[i]),
    ensures
        buckets_weight(cur, ballots) == buckets_weight(prev, ballots) + sum_weights(
            cur[i].ballots@,
            ballots,
        ) - sum_weights(prev[i].ballots@, ballots),
    decreases i,
{
    if i == 0 {
        assert(cur.drop_first() =~= prev.drop_first());
    } else {
        assert(cur[0] == prev[0]);
        assert(cur.drop_first() =~= prev.drop_first().update(i - 1, cur[i]));
        lemma_buckets_weight_update(prev.drop_first(), cur.drop_first(), i - 1, ballots);
    }
}

/// Inserting a bucket adds its weight to the total.
proof fn lemma_buckets_weight_insert(
    prev: Seq<Bucket>,
    i: int,
    nb: Bucket,
    ballots: Seq<Ballot>,
)
    requires
        0 <= i <= prev.len(),
    ensures
        buckets_weight(prev.take(i) + seq![nb] + prev.skip(i), ballots) == buckets_weight(
            prev,
            ballots,
        ) + sum_weights(nb.ballots@, ballots),
    decreases i,
{
    let cur = prev.take(i) + seq![nb] + prev.skip(i);
    if i == 0 {
        assert(cur =~= seq![nb] + prev);
        assert((seq![nb] + prev)[0] == nb);
        assert((seq![nb] + prev).drop_first() =~= prev);
    } else {
        assert(cur[0] == prev[0]);
        assert(cur.drop_first() =~= prev.drop_first().take(i - 1) + seq![nb]
            + prev.drop_first().skip(i - 1));
        lemma_buckets_weight_insert(prev.drop_first(), i - 1, nb, ballots);
    }
}

/// Append ballot indices to the bucket keyed by `tv`, creating the bucket
/// at its sorted position if it is not there yet.
fn bucket_extend(
    buckets: &mut Vec<Bucket>,
    tv: &Frac,
    idxs: &Vec<usize>,
    ballots: &Vec<Ballot>,
)
    requires
        buckets_wf(old(buckets)@, ballots@.len() as int),
        tv.wf(),
        tv.num <= tv.den,
        forall|j: int| 0 <= j < idxs@.len() ==> (#[trigger] idxs@[j]) < ballots@.len(),
    ensures
        buckets_wf(final(buckets)@, ballots@.len() as int),
        buckets_weight(final(buckets)@, ballots@) == buckets_weight(old(buckets)@, ballots@)
            + sum_weights(idxs@, ballots@),
        bucket_list_of(final(buckets)@, *tv) == bucket_list_of(old(buckets)@, *tv) + idxs@,
        forall|v: Frac|
            v.num * tv.den != tv.num * v.den ==> #[trigger] bucket_list_of(
                final(buckets)@,
                v,
            ) == bucket_list_of(old(buckets)@, v),
{
    let ghost prev = buckets@;
    let mut p: usize = 0;
    while p < buckets.len() && buckets[p].tv.lt(tv)
        invariant
            p <= buckets@.len(),
            buckets@ == prev,
            buckets_wf(prev, ballots@.len() as int),
            forall|j: int| 0 <= j < p ==> (#[trigger] prev[j]).tv.spec_lt(*tv),
        decreases buckets@.len() - p,
    {
        p = p + 1;
    }
    if p < buckets.len() && buckets[p].tv.eq_value(tv) {
        // existing bucket: replace it with one holding the appended list
        let ghost prev_list = buckets@[p as int].ballots@;
        let tv_keep = buckets[p].tv;
        let mut list: Vec<usize> = Vec::new();
        let mut k: usize = 0;
        while k < buckets[p].ballots.len()
            invariant
                p < buckets@.len(),
                buckets@ == prev,
                k <= buckets@[p as int].ballots@.len(),
                list@ == prev[p as int].ballots@.subrange(0, k as int),
            decreases buckets@[p as int].ballots@.len() - k,
        {
            list.push(buckets[p].ballots[k]);
            proof {
                assert(list@ =~= prev[p as int].ballots@.subrange(0, k + 1));
            }
            k = k + 1;
        }
        proof {
            assert(list@ =~= prev_list);
        }
        let mut k2: usize = 0;
        while k2 < idxs.len()
            invariant
                k2 <= idxs@.len(),
                list@ == prev_list + idxs@.subrange(0, k2 as int),
            decreases idxs@.len() - k2,
        {
            proof {
                assert(list@ =~= prev_list + idxs@.subrange(0, k2 as int));
            }
            list.push(idxs[k2]);
            proof {
                assert(list@ =~= prev_list + idxs@.subrange(0, k2 + 1));
            }
            k2 = k2 + 1;
        }
        proof {
            assert(list@ =~= prev_list + idxs@);
            assert(list@ == prev_list + idxs@);
        }
        buckets.set(p, Bucket { tv: tv_keep, ballots: list });
        proof {
            assert(buckets@ == prev.update(p as int, buckets@[p as int]));
            lemma_sum_weights_concat(prev_list, idxs@, ballots@);
            lemma_buckets_weight_update(prev, buckets@, p as int, ballots@);
            // filing: this value's list grew by the new indices, the rest
            // are untouched
            lemma_bucket_list_at(prev, *tv, p as int);
            assert(forall|j: int| 0 <= j < p ==> (#[trigger] buckets@[j]).tv.spec_lt(*tv));
            lemma_bucket_list_at(buckets@, *tv, p as int);
            assert(buckets@[p as int].ballots@ == prev_list + idxs@);
            assert forall|v: Frac|
                v.num * tv.den != tv.num * v.den implies #[trigger] bucket_list_of(
                buckets@,
                v,
            ) == bucket_list_of(prev, v) by {
                assert(prev[p as int].tv.num * v.den != v.num * prev[p as int].tv.den) by {
                    if prev[p as int].tv.num * v.den == v.num * prev[p as int].tv.den {
                        lemma_frac_eq_trans(v, prev[p as int].tv, *tv);
                    }
                }
                lemma_bucket_list_update_other(prev, buckets@, p as int, v);
            }
            assert forall|a: int, b: int|
                0 <= a < b < buckets@.len() implies (#[trigger] buckets@[a]).tv.spec_lt(
                (#[trigger] buckets@[b]).tv,
            ) by {
                assert(buckets@[a].tv == prev[a].tv);
                assert(buckets@[b].tv == prev[b].tv);
                assert(prev[a].tv.spec_lt(prev[b].tv));
            }
            assert forall|a: int|
                0 <= a < buckets@.len() implies (#[trigger] buckets@[a]).tv.wf()
                && buckets@[a].tv.num <= buckets@[a].tv.den by {
                assert(buckets@[a].tv == prev[a].tv);
            }
            assert forall|a: int, b: int|
                0 <= a < buckets@.len() && 0 <= b < (#[trigger] buckets@[a]).ballots@.len()
                implies (#[trigger] buckets@[a].ballots@[b]) < ballots@.len() by {
                if a != p {
                    assert(buckets@[a] == prev[a]);
                } else {
                    if b < prev_list.len() {
                        assert(buckets@[a].ballots@[b] == prev_list[b]);
                        assert(prev[a].ballots@[b] == prev_list[b]);
                    } else {
                        assert(buckets@[a].ballots@[b] == idxs@[b - prev_list.len()]);
                    }
                }
            }
        }
    } else {
        // new bucket at the sorted position
        let mut list: Vec<usize> = Vec::new();
        let mut k: usize = 0;
        while k < idxs.len()
            invariant
                k <= idxs@.len(),
                list@ == idxs@.subrange(0, k as int),
                forall|j: int| 0 <= j < idxs@.len() ==> (#[trigger] idxs@[j]) < ballots@.len(),
            decreases idxs@.len() - k,
        {
            list.push(idxs[k]);
            proof {
                assert(list@ =~= idxs@.subrange(0, k + 1));
            }
            k = k + 1;
        }
        proof {
            assert(list@ =~= idxs@);
        }
        let nb = Bucket { tv: tv.clone(), ballots: list };
        buckets.insert(p, nb);
        proof {
            assert(buckets@ =~= prev.take(p as int) + seq![buckets@[p as int]] + prev.skip(
                p as int,
            ));
            lemma_buckets_weight_insert(prev, p as int, buckets@[p as int], ballots@);
            assert forall|a: int, b: int|
                0 <= a < b < buckets@.len() implies (#[trigger] buckets@[a]).tv.spec_lt(
                (#[trigger] buckets@[b]).tv,
            ) by {
                if a < p && b < p {
                    assert(buckets@[a] == prev[a] && buckets@[b] == prev[b]);
                } else if a < p && b == p {
                    assert(buckets@[a] == prev[a]);
                    assert(prev[a].tv.spec_lt(*tv));
                } else if a < p && b > p {
                    assert(buckets@[a] == prev[a] && buckets@[b] == prev[b - 1]);
                } else if a == p && b > p {
                    assert(buckets@[b] == prev[b - 1]);
                    assert(p < prev.len());
                    assert(!prev[p as int].tv.spec_lt(*tv));
                    assert(prev[p as int].tv.num * tv.den != tv.num * prev[p as int].tv.den);
                    assert(tv.spec_lt(prev[p as int].tv));
                    if b - 1 > p {
                        assert(prev[p as int].tv.spec_lt(prev[b - 1].tv));
                        lemma_frac_lt_trans(*tv, prev[p as int].tv, prev[b - 1].tv);
                    }
                } else {
                    assert(buckets@[a] == prev[a - 1] && buckets@[b] == prev[b - 1]);
                }
            }
            assert forall|a: int|
                0 <= a < buckets@.len() implies (#[trigger] buckets@[a]).tv.wf()
                && buckets@[a].tv.num <= buckets@[a].tv.den by {
                if a < p {
                    assert(buckets@[a] == prev[a]);
                } else if a > p {
                    assert(buckets@[a] == prev[a - 1]);
                }
            }
            assert forall|a: int, b: int|
                0 <= a < buckets@.len() && 0 <= b < (#[trigger] buckets@[a]).ballots@.len()
                implies (#[trigger] buckets@[a].ballots@[b]) < ballots@.len() by {
                if a < p {
                    assert(buckets@[a] == prev[a]);
                } else if a > p {
                    assert(buckets@[a] == prev[a - 1]);
                }
            }
            // filing: nothing was stored under this value before; the new
            // bucket carries exactly the new indices
            let nb = buckets@[p as int];
            assert(nb.tv == *tv);
            assert forall|j: int|
                0 <= j < prev.len() implies (#[trigger] prev[j]).tv.num * tv.den != tv.num
                * prev[j].tv.den by {
                if j < p {
                    assert(prev[j].tv.spec_lt(*tv));
                } else {
                    assert(p < prev.len());
                    assert(!prev[p as int].tv.spec_lt(*tv));
                    assert(prev[p as int].tv.num * tv.den != tv.num * prev[p as int].tv.den);
                    assert(tv.spec_lt(prev[p as int].tv));
                    if j > p {
                        assert(prev[p as int].tv.spec_lt(prev[j].tv));
                        lemma_frac_lt_trans(*tv, prev[p as int].tv, prev[j].tv);
                    }
                }
            }
            lemma_bucket_list_none(prev, *tv);
            lemma_bucket_list_insert_at(prev, p as int, nb, *tv);
            assert(bucket_list_of(buckets@, *tv) =~= Seq::<usize>::empty() + idxs@);
            assert forall|v: Frac|
                v.num * tv.den != tv.num * v.den implies #[trigger] bucket_list_of(
                buckets@,
                v,
            ) == bucket_list_of(prev, v) by {
                assert(nb.tv.num * v.den != v.num * nb.tv.den);
                lemma_bucket_list_insert_other(prev, p as int, nb, v);
            }
        }
    }
}

impl VoteMap {
    /// Add a ballot's weight to the tally of its current preference at
    /// count `idx`, and file the ballot in that candidate's full-value
    /// bucket.
    pub fn add(&mut self, idx: usize, ballot_index: usize, ballots: &Vec<Ballot>) -> (r: Result<
        (),
        CountError,
    >)
        requires
            old(self).wf(ballots@),
            ballot_index < ballots@.len(),
            ballots@[ballot_index as int].spec_current() < ballots@[ballot_index as int].prefs@
                .len(),
            forall|i: int|
                0 <= i < old(self).entries@.len() ==> (#[trigger] old(self).entries@[i]).votes@.len() <= idx + 1,
        ensures
            final(self).wf(ballots@),
            final(self).entries@.len() == old(self).entries@.len(),
            forall|i: int|
                0 <= i < final(self).entries@.len()
                    ==> (#[trigger] final(self).entries@[i]).votes@.len() <= idx + 1,
            forall|i: int|
                0 <= i < final(self).entries@.len() ==> (#[trigger] final(self).entries@[i]).id
                    == old(self).entries@[i].id && final(self).entries@[i].eliminated == old(self).entries@[i].eliminated,
            ({
                let c = ballots@[ballot_index as int].prefs@[ballots@[ballot_index as int]
                    .spec_current() as int];
                match r {
                    Ok(()) => {
                        &&& old(self).is_candidate(c)
                        &&& final(self).tally_of(c) == old(self).tally_of(c) + ballots@[
                            ballot_index as int].spec_weight()
                        &&& tally_sum(final(self).entries@) == tally_sum(old(self).entries@)
                            + ballots@[ballot_index as int].spec_weight()
                        &&& forall|i: int|
                            0 <= i < final(self).entries@.len() && i != old(self).index_of(c)
                                ==> #[trigger] final(self).entries@[i] == old(self).entries@[i]
                        &&& ({
                            let e = final(self).entries@[old(self).index_of(c)];
                            let o = old(self).entries@[old(self).index_of(c)];
                            let w = ballots@[ballot_index as int].spec_weight();
                            // the ballot is filed in the full-value bucket
                            &&& bucket_list_of(e.buckets@, (Frac { num: 1, den: 1 }))
                                == bucket_list_of(o.buckets@, (Frac { num: 1, den: 1 }))
                                + seq![ballot_index]
                            // and the tally log takes the weight at count `idx`
                            &&& (idx < o.votes@.len() ==> e.votes@ == o.votes@.update(
                                idx as int,
                                (o.votes@[idx as int] + w) as u64,
                            ))
                            &&& (idx >= o.votes@.len() ==> e.votes@.len() == idx + 1
                                && e.votes@.subrange(0, o.votes@.len() as int) == o.votes@
                                && (forall|t: int|
                                o.votes@.len() <= t < idx ==> e.votes@[t] == o.votes
                                    .latest_spec()) && e.votes@[idx as int] == o.votes
                                .latest_spec() + w)
                        })
                    },
                    Err(CountError::CandidateNotFound(d)) => d == c && !old(self).is_candidate(
                        c,
                    ),
                    Err(CountError::Overflow) => old(self).is_candidate(c) && old(self).tally_of(c) + ballots@[ballot_index as int].spec_weight() > u64::MAX,
                    Err(_) => false,
                }
            }),
    {
        let b = &ballots[ballot_index];
        let c = b.prefs[b.current()];
        let p = match self.position(c) {
            Some(p) => p,
            None => {
                return Err(CountError::CandidateNotFound(c));
            },
        };
        let w64 = b.weight() as u64;
        let latest = self.entries[p].votes.latest();
        if latest > u64::MAX - w64 {
            return Err(CountError::Overflow);
        }
        let ghost prev_entries = self.entries@;
        let ghost prev_entry = self.entries@[p as int];
        let one = Frac::one();
        let single = vec![ballot_index];
        self.entries[p].votes.update_vote(idx, w64);
        proof {
            assert(self.entries@ =~= prev_entries.update(p as int, self.entries@[p as int]));
            assert(single@ =~= seq![ballot_index]);
            assert(sum_weights(seq![ballot_index], ballots@) == ballots@[ballot_index as int]
                .spec_weight() + sum_weights(Seq::<usize>::empty(), ballots@)) by {
                assert(seq![ballot_index].drop_first() =~= Seq::<usize>::empty());
                assert(seq![ballot_index][0] == ballot_index);
            }
        }
        let ghost mid_entries = self.entries@;
        let ghost mid_buckets = self.entries@[p as int].buckets@;
        bucket_extend(&mut self.entries[p].buckets, &one, &single, ballots);
        proof {
            assert(one == (Frac { num: 1u64, den: 1u64 }));
            assert(mid_buckets == prev_entry.buckets@);
            assert(bucket_list_of(self.entries@[p as int].buckets@, one) == bucket_list_of(
                prev_entry.buckets@,
                one,
            ) + single@);
            assert(single@ =~= seq![ballot_index]);
            assert(self.entries@ =~= prev_entries.update(p as int, self.entries@[p as int]));
            let fin = self.entries@;
            assert forall|i: int|
                0 <= i < fin.len() && i != p implies #[trigger] fin[i] == prev_entries[i] by {}
            // the updated entry keeps the tally-versus-weight bound
            let e = fin[p as int];
            assert(e.votes.latest_spec() == prev_entry.votes.latest_spec() + w64);
            assert(buckets_weight(e.buckets@, ballots@) == buckets_weight(
                prev_entry.buckets@,
                ballots@,
            ) + w64);
            assert forall|i: int|
                0 <= i < fin.len() && !(#[trigger] fin[i]).eliminated implies fin[i].votes
                .latest_spec() <= buckets_weight(fin[i].buckets@, ballots@) by {
                if i != p {
                    assert(fin[i] == prev_entries[i]);
                }
            }
            assert forall|i: int|
                0 <= i < fin.len() implies buckets_wf(
                (#[trigger] fin[i]).buckets@,
                ballots@.len() as int,
            ) by {
                if i != p {
                    assert(fin[i] == prev_entries[i]);
                }
            }
            assert(self.is_candidate(c)) by {
                assert(fin[p as int].id == c);
            }
            self.lemma_index_stable(*old(self), c, p as int);
            lemma_tally_sum_update(prev_entries, self.entries@, p as int);
        }
        Ok(())
    }

    /// Entry indices are stable across an update that keeps every id.
    proof fn lemma_index_stable(self, prev: VoteMap, id: CandidateId, p: int)
        requires
            self.ids_unique(),
            self.entries@.len() == prev.entries@.len(),
            forall|i: int|
                0 <= i < self.entries@.len() ==> (#[trigger] self.entries@[i]).id
                    == prev.entries@[i].id,
            0 <= p < self.entries@.len(),
            self.entries@[p].id == id,
        ensures
            self.index_of(id) == p,
            prev.index_of(id) == p,
            self.is_candidate(id),
            prev.is_candidate(id),
    {
        assert(prev.entries@[p].id == id);
        assert(self.is_candidate(id));
        assert(prev.is_candidate(id));
        let w = self.index_of(id);
        assert(0 <= w < self.entries@.len() && self.entries@[w].id == id);
        if w != p {
            if w < p {
                assert((#[trigger] self.entries@[w]).id != (#[trigger] self.entries@[p]).id);
            } else {
                assert((#[trigger] self.entries@[p]).id != (#[trigger] self.entries@[w]).id);
            }
        }
        assert(prev.ids_unique()) by {
            assert forall|i: int, j: int|
                0 <= i < j < prev.entries@.len() implies (#[trigger] prev.entries@[i]).id
                != (#[trigger] prev.entries@[j]).id by {
                assert(self.entries@[i].id == prev.entries@[i].id);
                assert(self.entries@[j].id == prev.entries@[j].id);
            }
        }
        let w2 = prev.index_of(id);
        assert(0 <= w2 < prev.entries@.len() && prev.entries@[w2].id == id);
        if w2 != p {
            if w2 < p {
                assert((#[trigger] prev.entries@[w2]).id != (#[trigger] prev.entries@[p]).id);
            } else {
                assert((#[trigger] prev.entries@[p]).id != (#[trigger] prev.entries@[w2]).id);
            }
        }
    }
}

} // verus!

verus! {

/// Eliminating the entry at `i` lowers the continuing count by one.
proof fn lemma_count_update(prev: Seq<VoteEntry>, cur: Seq<VoteEntry>, i: int)
    requires
        0 <= i < prev.len(),
        cur == prev.update(i, cur[i]),
        !prev[i].eliminated,
        cur[i].eliminated,
    ensures
        count_continuing(cur) == count_continuing(prev) - 1,
    decreases i,
{
    if i == 0 {
        assert(cur.drop_first() =~= prev.drop_first());
    } else {
        assert(cur[0] == prev[0]);
        assert(cur.drop_first() =~= prev.drop_first().update(i - 1, cur[i]));
        lemma_count_update(prev.drop_first(), cur.drop_first(), i - 1);
    }
}

/// An update that keeps the eliminated flag keeps the continuing count.
proof fn lemma_count_same(prev: Seq<VoteEntry>, cur: Seq<VoteEntry>, i: int)
    requires
        0 <= i < prev.len(),
        cur == prev.update(i, cur[i]),
        cur[i].eliminated == prev[i].eliminated,
    ensures
        count_continuing(cur) == count_continuing(prev),
    decreases i,
{
    if i == 0 {
        assert(cur.drop_first() =~= prev.drop_first());
    } else {
        assert(cur[0] == prev[0]);
        assert(cur.drop_first() =~= prev.drop_first().update(i - 1, cur[i]));
        lemma_count_same(prev.drop_first(), cur.drop_first(), i - 1);
    }
}

impl VoteMap {
    /// The IDs of all continuing candidates whose latest tally reaches the
    /// quota, in descending tally order (stable in ballot-paper order for
    /// equal tallies).
    #[verifier::rlimit(60)]
    pub fn get_candidates_with_quota(&self, quota: u64) -> (r: Vec<CandidateId>)
        requires
            self.ids_unique(),
        ensures
            forall|j: int|
                0 <= j < r@.len() ==> self.continuing(#[trigger] r@[j]) && self.tally_of(
                    r@[j],
                ) >= quota,
            forall|j: int, k: int| 0 <= j < k < r@.len() ==> #[trigger] r@[j] != #[trigger] r@[k],
            forall|j: int, k: int|
                0 <= j < k < r@.len() ==> self.tally_of(#[trigger] r@[j]) >= self.tally_of(
                    #[trigger] r@[k],
                ),
            forall|i: int|
                0 <= i < self.entries@.len() && !(#[trigger] self.entries@[i]).eliminated
                    && self.entries@[i].votes.latest_spec() >= quota ==> exists|j: int|
                    0 <= j < r@.len() && r@[j] == self.entries@[i].id,
    {
        let mut r: Vec<CandidateId> = Vec::new();
        let mut i: usize = 0;
        while i < self.entries.len()
            invariant
                self.ids_unique(),
                i <= self.entries@.len(),
                forall|j: int|
                    0 <= j < r@.len() ==> self.continuing(#[trigger] r@[j]) && self.tally_of(
                        r@[j],
                    ) >= quota,
                forall|j: int, k: int|
                    0 <= j < k < r@.len() ==> #[trigger] r@[j] != #[trigger] r@[k],
                forall|j: int, k: int|
                    0 <= j < k < r@.len() ==> self.tally_of(#[trigger] r@[j]) >= self.tally_of(
                        #[trigger] r@[k],
                    ),
                forall|a: int|
                    0 <= a < i && !(#[trigger] self.entries@[a]).eliminated && self.entries@[a]
                        .votes.latest_spec() >= quota ==> exists|j: int|
                        0 <= j < r@.len() && r@[j] == self.entries@[a].id,
                forall|j: int|
                    #![trigger r@[j]]
                    0 <= j < r@.len() ==> exists|a: int|
                        0 <= a < i && r@[j] == (#[trigger] self.entries@[a]).id,
            decreases self.entries@.len() - i,
        {
            if !self.entries[i].eliminated && self.entries[i].votes.latest() >= quota {
                let id = self.entries[i].id;
                let t = self.entries[i].votes.latest();
                proof {
                    self.lemma_index_stable(*self, id, i as int);
                }
                // find the first position whose tally is below the new one
                let ghost prev_r = r@;
                let mut p: usize = 0;
                while p < r.len() && self.get_tally(r[p]) >= t
                    invariant
                        self.ids_unique(),
                        p <= r@.len(),
                        r@ == prev_r,
                        forall|j: int|
                            0 <= j < r@.len() ==> self.continuing(#[trigger] r@[j])
                                && self.tally_of(r@[j]) >= quota,
                        forall|j: int|
                            0 <= j < p ==> self.tally_of(#[trigger] r@[j]) >= t,
                    decreases r@.len() - p,
                {
                    p = p + 1;
                }
                r.insert(p, id);
                proof {
                    assert(r@ =~= prev_r.take(p as int) + seq![id] + prev_r.skip(p as int));
                    assert(self.tally_of(id) == t);
                    assert(self.continuing(id)) by {
                        assert(self.index_of(id) == i);
                    }
                    // the new element is distinct from all previous ones: each
                    // came from an earlier entry, and entry ids are unique
                    assert forall|j: int|
                        0 <= j < prev_r.len() implies #[trigger] prev_r[j] != id by {
                        if prev_r[j] == id {
                            let a = choose|a: int|
                                0 <= a < i && prev_r[j] == (#[trigger] self.entries@[a]).id;
                            assert(self.entries@[a].id != self.entries@[i as int].id);
                        }
                    }
                    assert forall|j: int|
                        #![trigger r@[j]]
                        0 <= j < r@.len() implies exists|a: int|
                        0 <= a < i + 1 && r@[j] == (#[trigger] self.entries@[a]).id by {
                        if j < p {
                            assert(r@[j] == prev_r[j]);
                            let a = choose|a: int|
                                0 <= a < i && prev_r[j] == (#[trigger] self.entries@[a]).id;
                            assert(r@[j] == self.entries@[a].id);
                        } else if j == p {
                            assert(r@[j] == self.entries@[i as int].id);
                        } else {
                            assert(r@[j] == prev_r[j - 1]);
                            let a = choose|a: int|
                                0 <= a < i && prev_r[j - 1] == (#[trigger] self
                                .entries@[a]).id;
                            assert(r@[j] == self.entries@[a].id);
                        }
                    }
                    assert forall|j: int, k: int|
                        0 <= j < k < r@.len() implies self.tally_of(#[trigger] r@[j])
                        >= self.tally_of(#[trigger] r@[k]) by {
                        if j < p && k == p {
                        } else if j == p && k > p {
                            assert(r@[k] == prev_r[k - 1]);
                            assert(!(self.tally_of(prev_r[p as int]) >= t) || p >= prev_r.len());
                        } else if j < p && k > p {
                            assert(r@[j] == prev_r[j] && r@[k] == prev_r[k - 1]);
                        } else if j > p {
                            assert(r@[j] == prev_r[j - 1] && r@[k] == prev_r[k - 1]);
                        }
                    }
                    assert forall|a: int|
                        0 <= a < i + 1 && !(#[trigger] self.entries@[a]).eliminated
                            && self.entries@[a].votes.latest_spec() >= quota implies exists|
                        j: int,
                    |
                        0 <= j < r@.len() && r@[j] == self.entries@[a].id by {
                        if a < i {
                            let j = choose|j: int|
                                0 <= j < prev_r.len() && prev_r[j] == self.entries@[a].id;
                            if j < p {
                                assert(r@[j] == self.entries@[a].id);
                            } else {
                                assert(r@[j + 1] == self.entries@[a].id);
                            }
                        } else {
                            assert(r@[p as int] == id);
                        }
                    }
                }
            } else {
                proof {
                    if !self.entries@[i as int].eliminated && self.entries@[i as int].votes
                        .latest_spec() >= quota {
                        assert(false);
                    }
                }
            }
            i = i + 1;
        }
        r
    }

    /// Mark each candidate in the given list eliminated, drain their
    /// buckets into one full list of ballot indices, and compute the
    /// surplus transfer value `(votes - quota) / weight`.
    #[verifier::rlimit(80)]
    pub fn elect_candidates_with_quota(&mut self, quota: u64, ballots: &Vec<Ballot>) -> (r:
        Result<Vec<CandidateElected>, CountError>)
        requires
            old(self).wf(ballots@),
        ensures
            match r {
                Ok(elected) => {
                    &&& final(self).wf(ballots@)
                    &&& final(self).entries@.len() == old(self).entries@.len()
                    &&& forall|i: int|
                        0 <= i < final(self).entries@.len() ==> {
                            let e = #[trigger] final(self).entries@[i];
                            let o = old(self).entries@[i];
                            e.id == o.id && e.votes == o.votes && e.eliminated == (
                            o.eliminated || o.votes.latest_spec() >= quota)
                        }
                    &&& forall|j: int|
                        0 <= j < elected@.len() ==> {
                            let e = #[trigger] elected@[j];
                            &&& old(self).continuing(e.id)
                            &&& old(self).tally_of(e.id) >= quota
                            &&& e.votes == old(self).tally_of(e.id)
                            &&& e.transfers@.len() == 1
                            &&& e.transfers@[0].0 == e.id
                            &&& e.transfers@[0].1.wf()
                            &&& e.transfers@[0].1.num <= e.transfers@[0].1.den
                            &&& forall|k: int|
                                0 <= k < e.transfers@[0].2@.len() ==> (
                                #[trigger] e.transfers@[0].2@[k]) < ballots@.len()
                        }
                    &&& forall|j: int, k: int|
                        0 <= j < k < elected@.len() ==> (#[trigger] elected@[j]).id
                            != (#[trigger] elected@[k]).id
                    &&& forall|j: int, k: int|
                        0 <= j < k < elected@.len() ==> (#[trigger] elected@[j]).votes
                            >= (#[trigger] elected@[k]).votes
                    &&& forall|i: int|
                        0 <= i < old(self).entries@.len() && !(#[trigger] old(self).entries@[i]).eliminated && old(self).entries@[i].votes.latest_spec()
                            >= quota ==> exists|j: int|
                            0 <= j < elected@.len() && (#[trigger] elected@[j]).id == old(self).entries@[i].id
                    &&& final(self).count_remaining() == old(self).count_remaining()
                        - elected@.len()
                },
                Err(CountError::Overflow) => final(self).wf(ballots@) && final(self).entries@.len() == old(self).entries@.len(),
                Err(_) => false,
            },
    {
        let candidates = self.get_candidates_with_quota(quota);
        let mut elected: Vec<CandidateElected> = Vec::new();
        let ghost orig = *self;
        let mut n: usize = 0;
        while n < candidates.len()
            invariant
                n <= candidates@.len(),
                orig == *old(self),
                orig.wf(ballots@),
                self.wf(ballots@),
                self.entries@.len() == orig.entries@.len(),
                forall|j: int|
                    0 <= j < candidates@.len() ==> orig.continuing(#[trigger] candidates@[j])
                        && orig.tally_of(candidates@[j]) >= quota,
                forall|j: int, k: int|
                    0 <= j < k < candidates@.len() ==> #[trigger] candidates@[j]
                        != #[trigger] candidates@[k],
                forall|j: int, k: int|
                    0 <= j < k < candidates@.len() ==> orig.tally_of(
                        #[trigger] candidates@[j],
                    ) >= orig.tally_of(#[trigger] candidates@[k]),
                forall|i: int|
                    0 <= i < orig.entries@.len() && !(#[trigger] orig.entries@[i]).eliminated
                        && orig.entries@[i].votes.latest_spec() >= quota ==> exists|j: int|
                        0 <= j < candidates@.len() && candidates@[j] == orig.entries@[i].id,
                forall|i: int|
                    0 <= i < self.entries@.len() ==> {
                        let e = #[trigger] self.entries@[i];
                        let o = orig.entries@[i];
                        e.id == o.id && e.votes == o.votes && e.eliminated == (o.eliminated
                            || exists|j: int|
                            0 <= j < n && #[trigger] candidates@[j] == o.id)
                    },
                elected@.len() == n,
                forall|j: int|
                    0 <= j < n ==> (#[trigger] elected@[j]).id == candidates@[j]
                        && elected@[j].votes == orig.tally_of(candidates@[j]),
                forall|j: int|
                    0 <= j < elected@.len() ==> {
                        let e = #[trigger] elected@[j];
                        &&& e.transfers@.len() == 1
                        &&& e.transfers@[0].0 == e.id
                        &&& e.transfers@[0].1.wf()
                        &&& e.transfers@[0].1.num <= e.transfers@[0].1.den
                        &&& forall|k: int|
                            0 <= k < e.transfers@[0].2@.len() ==> (
                            #[trigger] e.transfers@[0].2@[k]) < ballots@.len()
                    },
                count_continuing(self.entries@) == count_continuing(orig.entries@) - n,
            decreases candidates@.len() - n,
        {
            let id = candidates[n];
            let p = match self.position(id) {
                Some(p) => p,
                None => {
                    proof {
                        assert(orig.is_candidate(id));
                        let w = orig.index_of(id);
                        assert(orig.entries@[w].id == id);
                        assert(self.entries@[w].id == id);
                        assert(self.is_candidate(id));
                    }
                    return Err(CountError::Overflow);
                },
            };
            proof {
                // this candidate is still continuing: it is not among the
                // previously elected (ids are distinct)
                assert(orig.entries@[p as int].id == id);
                orig.lemma_index_stable(orig, id, p as int);
                assert(!orig.entries@[p as int].eliminated) by {
                    assert(orig.continuing(id));
                }
                assert forall|j: int| 0 <= j < n implies #[trigger] candidates@[j] != id by {
                    assert(candidates@[j] != candidates@[n as int]);
                }
                assert(!self.entries@[p as int].eliminated);
            }
            let num_votes = self.entries[p].votes.latest();
            // take the entry out, drain its buckets into one flat list
            let ghost pre = *self;
            let ghost pre_entry = self.entries@[p as int];
            let mut old_entry = VoteEntry {
                id,
                votes: VoteLog::new(),
                buckets: Vec::new(),
                eliminated: true,
            };
            core::mem::swap(&mut old_entry, &mut self.entries[p]);
            proof {
                assert(old_entry == pre_entry);
                assert(num_votes as int <= buckets_weight(old_entry.buckets@, ballots@));
                assert(self.entries@ == pre.entries@.update(p as int, self.entries@[p as int]));
                assert forall|i: int|
                    0 <= i < self.entries@.len() implies buckets_wf(
                    (#[trigger] self.entries@[i]).buckets@,
                    ballots@.len() as int,
                ) by {
                    if i != p {
                        assert(self.entries@[i] == pre.entries@[i]);
                    } else {
                        assert(self.entries@[i].buckets@.len() == 0);
                    }
                }
                assert forall|i: int|
                    0 <= i < self.entries@.len() && !(#[trigger] self.entries@[i]).eliminated
                    implies self.entries@[i].votes.latest_spec() <= buckets_weight(
                    self.entries@[i].buckets@,
                    ballots@,
                ) by {
                    if i != p {
                        assert(self.entries@[i] == pre.entries@[i]);
                    }
                }
                assert forall|i: int, j: int|
                    0 <= i < j < self.entries@.len() implies (#[trigger] self.entries@[i]).id
                    != (#[trigger] self.entries@[j]).id by {
                    assert(self.entries@[i].id == pre.entries@[i].id);
                    assert(self.entries@[j].id == pre.entries@[j].id);
                }
                assert(self.wf(ballots@));
            }
            let mut all: Vec<usize> = Vec::new();
            let mut wsum: u64 = 0;
            let mut bi: usize = 0;
            while bi < old_entry.buckets.len()
                invariant
                    bi <= old_entry.buckets@.len(),
                    buckets_wf(old_entry.buckets@, ballots@.len() as int),
                    self.wf(ballots@),
                    self.entries@.len() == old(self).entries@.len(),
                    forall|k: int| 0 <= k < all@.len() ==> (#[trigger] all@[k]) < ballots@.len(),
                    wsum as int == buckets_weight(
                        old_entry.buckets@.take(bi as int),
                        ballots@,
                    ),
                decreases old_entry.buckets@.len() - bi,
            {
                let ghost pre_w = wsum;
                let mut k: usize = 0;
                while k < old_entry.buckets[bi].ballots.len()
                    invariant
                        bi < old_entry.buckets@.len(),
                        buckets_wf(old_entry.buckets@, ballots@.len() as int),
                        self.wf(ballots@),
                        self.entries@.len() == old(self).entries@.len(),
                        k <= old_entry.buckets@[bi as int].ballots@.len(),
                        forall|j: int|
                            0 <= j < all@.len() ==> (#[trigger] all@[j]) < ballots@.len(),
                        wsum as int == pre_w + sum_weights(
                            old_entry.buckets@[bi as int].ballots@.take(k as int),
                            ballots@,
                        ),
                        wsum as int >= pre_w,
                    decreases old_entry.buckets@[bi as int].ballots@.len() - k,
                {
                    let bidx = old_entry.buckets[bi].ballots[k];
                    let w = ballots[bidx].weight() as u64;
                    if wsum > u64::MAX - w {
                        return Err(CountError::Overflow);
                    }
                    proof {
                        lemma_sum_weights_nonneg(
                            old_entry.buckets@[bi as int].ballots@.take(k as int),
                            ballots@,
                        );
                        lemma_sum_weights_snoc(
                            old_entry.buckets@[bi as int].ballots@,
                            k as int,
                            ballots@,
                        );
                    }
                    all.push(bidx);
                    wsum = wsum + w;
                    k = k + 1;
                }
                proof {
                    let bs = old_entry.buckets@;
                    assert(bs[bi as int].ballots@.take(bs[bi as int].ballots@.len() as int)
                        =~= bs[bi as int].ballots@);
                    lemma_buckets_weight_snoc(bs, bi as int, ballots@);
                }
                bi = bi + 1;
            }
            proof {
                let bs = old_entry.buckets@;
                assert(bs.take(bs.len() as int) =~= bs);
                assert(num_votes as int <= wsum as int);
            }
            // surplus transfer value; an empty drain carries value zero
            let tv = if wsum == 0 {
                Frac::zero()
            } else {
                Frac::new(num_votes - quota, wsum)
            };
            // reseed the bucket list and mark eliminated
            let one = Frac::one();
            let mut fresh: Vec<Bucket> = Vec::new();
            fresh.push(Bucket { tv: one, ballots: Vec::new() });
            let ghost before = self.entries@;
            self.entries.set(
                p,
                VoteEntry { id, votes: old_entry.votes, buckets: fresh, eliminated: true },
            );
            proof {
                assert(self.entries@ =~= pre.entries@.update(
                    p as int,
                    self.entries@[p as int],
                ));
                assert(self.entries@[p as int].votes == pre_entry.votes);
                lemma_count_update(pre.entries@, self.entries@, p as int);
                assert forall|i: int|
                    0 <= i < self.entries@.len() implies buckets_wf(
                    (#[trigger] self.entries@[i]).buckets@,
                    ballots@.len() as int,
                ) by {
                    if i != p {
                        assert(self.entries@[i] == pre.entries@[i]);
                    } else {
                        assert(self.entries@[i].buckets@.len() == 1);
                        assert(self.entries@[i].buckets@[0].ballots@.len() == 0);
                    }
                }
                assert forall|i: int|
                    0 <= i < self.entries@.len() && !(#[trigger] self.entries@[i]).eliminated
                    implies self.entries@[i].votes.latest_spec() <= buckets_weight(
                    self.entries@[i].buckets@,
                    ballots@,
                ) by {
                    if i != p {
                        assert(self.entries@[i] == pre.entries@[i]);
                    }
                }
                assert forall|i: int, j: int|
                    0 <= i < j < self.entries@.len() implies (#[trigger] self.entries@[i]).id
                    != (#[trigger] self.entries@[j]).id by {
                    assert(self.entries@[i].id == pre.entries@[i].id);
                    assert(self.entries@[j].id == pre.entries@[j].id);
                }
            }
            let transfers = vec![PreferenceTransfer(id, tv, all)];
            let e = CandidateElected { id, votes: num_votes, transfers };
            elected.push(e);
            proof {
                assert forall|i: int|
                    0 <= i < self.entries@.len() implies {
                    let e2 = #[trigger] self.entries@[i];
                    let o = orig.entries@[i];
                    e2.id == o.id && e2.votes == o.votes && e2.eliminated == (o.eliminated
                        || exists|j: int|
                        0 <= j < n + 1 && #[trigger] candidates@[j] == o.id)
                } by {
                    if i != p {
                        assert(self.entries@[i] == before[i]);
                        if orig.entries@[i].eliminated || exists|j: int|
                            0 <= j < n + 1 && #[trigger] candidates@[j] == orig.entries@[i].id {
                            if !orig.entries@[i].eliminated {
                                let j = choose|j: int|
                                    0 <= j < n + 1 && #[trigger] candidates@[j]
                                        == orig.entries@[i].id;
                                if j == n {
                                    assert(candidates@[n as int] == id);
                                    assert(orig.entries@[i].id == id);
                                    assert(orig.entries@[p as int].id == id);
                                    if i != p {
                                        assert(orig.entries@[i].id != orig.entries@[
                                        p as int].id || i == p);
                                    }
                                }
                            }
                        }
                    } else {
                        assert(candidates@[n as int] == orig.entries@[i].id);
                    }
                }
            }
            n = n + 1;
        }
        proof {
            assert forall|i: int|
                0 <= i < self.entries@.len() implies {
                let e = #[trigger] self.entries@[i];
                let o = orig.entries@[i];
                e.eliminated == (o.eliminated || o.votes.latest_spec() >= quota)
            } by {
                let o = orig.entries@[i];
                if !o.eliminated && o.votes.latest_spec() >= quota {
                    assert(exists|j: int|
                        0 <= j < candidates@.len() && candidates@[j] == o.id);
                }
                if self.entries@[i].eliminated && !o.eliminated {
                    let j = choose|j: int|
                        0 <= j < candidates@.len() && #[trigger] candidates@[j] == o.id;
                    assert(orig.continuing(candidates@[j]) && orig.tally_of(candidates@[j])
                        >= quota);
                    orig.lemma_index_stable(orig, o.id, i);
                }
            }
            assert forall|j: int, k: int|
                0 <= j < k < elected@.len() implies (#[trigger] elected@[j]).id
                != (#[trigger] elected@[k]).id by {
                assert(elected@[j].id == candidates@[j]);
                assert(elected@[k].id == candidates@[k]);
            }
            assert forall|j: int, k: int|
                0 <= j < k < elected@.len() implies (#[trigger] elected@[j]).votes
                >= (#[trigger] elected@[k]).votes by {
                assert(elected@[j].votes == orig.tally_of(candidates@[j]));
                assert(elected@[k].votes == orig.tally_of(candidates@[k]));
                assert(orig.tally_of(candidates@[j]) >= orig.tally_of(candidates@[k]));
            }
            assert forall|j: int|
                0 <= j < elected@.len() implies old(self).continuing(
                (#[trigger] elected@[j]).id,
            ) && old(self).tally_of(elected@[j].id) >= quota && elected@[j].votes == old(self).tally_of(elected@[j].id) by {
                assert(elected@[j].id == candidates@[j]);
            }
            assert forall|i: int|
                0 <= i < old(self).entries@.len() && !(#[trigger] old(self).entries@[i])
                    .eliminated && old(self).entries@[i].votes.latest_spec() >= quota
                implies exists|j: int|
                0 <= j < elected@.len() && (#[trigger] elected@[j]).id == old(self).entries@[
                i].id by {
                let j = choose|j: int|
                    0 <= j < candidates@.len() && candidates@[j] == orig.entries@[i].id;
                assert(elected@[j].id == candidates@[j]);
            }
        }
        Ok(elected)
    }
}

/// Extending a take by one element adds that element's weight.
proof fn lemma_sum_weights_snoc(lst: Seq<usize>, k: int, ballots: Seq<Ballot>)
    requires
        0 <= k < lst.len(),
    ensures
        sum_weights(lst.take(k + 1), ballots) == sum_weights(lst.take(k), ballots) + ballots[
            lst[k] as int].spec_weight(),
    decreases k,
{
    if k == 0 {
        assert(lst.take(1).drop_first() =~= Seq::<usize>::empty());
        assert(lst.take(1)[0] == lst[0]);
        assert(lst.take(0) =~= Seq::<usize>::empty());
    } else {
        assert(lst.take(k + 1)[0] == lst[0]);
        assert(lst.take(k)[0] == lst[0]);
        assert(lst.take(k + 1).drop_first() =~= lst.drop_first().take(k));
        assert(lst.take(k).drop_first() =~= lst.drop_first().take(k - 1));
        assert(lst.drop_first()[k - 1] == lst[k]);
        lemma_sum_weights_snoc(lst.drop_first(), k - 1, ballots);
    }
}

/// Extending a take of buckets by one bucket adds that bucket's weight.
proof fn lemma_buckets_weight_snoc(bs: Seq<Bucket>, i: int, ballots: Seq<Ballot>)
    requires
        0 <= i < bs.len(),
    ensures
        buckets_weight(bs.take(i + 1), ballots) == buckets_weight(bs.take(i), ballots)
            + sum_weights(bs[i].ballots@, ballots),
    decreases i,
{
    if i == 0 {
        assert(bs.take(1).drop_first() =~= Seq::<Bucket>::empty());
        assert(bs.take(1)[0] == bs[0]);
        assert(bs.take(0) =~= Seq::<Bucket>::empty());
    } else {
        assert(bs.take(i + 1)[0] == bs[0]);
        assert(bs.take(i)[0] == bs[0]);
        assert(bs.take(i + 1).drop_first() =~= bs.drop_first().take(i));
        assert(bs.take(i).drop_first() =~= bs.drop_first().take(i - 1));
        assert(bs.drop_first()[i - 1] == bs[i]);
        lemma_buckets_weight_snoc(bs.drop_first(), i - 1, ballots);
    }
}

} // verus!

verus! {

/// Strict lexicographic order is transitive.
proof fn lemma_lex_trans(a: Seq<u64>, b: Seq<u64>, c: Seq<u64>)
    requires
        lex_lt(a, b),
        lex_lt(b, c),
    ensures
        lex_lt(a, c),
    decreases a.len() + b.len() + c.len(),
{
    if a.len() > 0 && b.len() > 0 && c.len() > 0 {
        if a[0] == b[0] && b[0] == c[0] {
            lemma_lex_trans(a.drop_first(), b.drop_first(), c.drop_first());
        }
    }
}

impl VoteMap {
    /// A continuing candidate with minimal latest tally whose full history
    /// is lexicographically least among the tally-minimal candidates: the
    /// candidate the exclusion rule selects, up to remaining ties.
    pub open spec fn min_candidate(self, c: CandidateId) -> bool {
        &&& self.continuing(c)
        &&& forall|i: int|
            0 <= i < self.entries@.len() && !(#[trigger] self.entries@[i]).eliminated
                ==> self.tally_of(c) <= self.entries@[i].votes.latest_spec()
        &&& forall|i: int|
            0 <= i < self.entries@.len() && !(#[trigger] self.entries@[i]).eliminated
                && self.entries@[i].votes.latest_spec() == self.tally_of(c) ==> !lex_lt(
                self.entries@[i].votes@,
                self.log_of(c),
            )
    }

    /// The continuing candidate with the least latest tally; ties fall to
    /// the lexicographically least vote history, then to the first match in
    /// `tie_breaker`; a tie beyond that is fatal.
    #[verifier::rlimit(100)]
    pub fn get_last_candidate(&self, tie_breaker: &Vec<CandidateId>) -> (r: Result<
        CandidateId,
        CountError,
    >)
        requires
            self.ids_unique(),
        ensures
            match r {
                Ok(c) => self.min_candidate(c),
                Err(CountError::NoContinuingCandidates) => self.count_remaining() == 0,
                Err(CountError::TieUnresolved) => (exists|c1: CandidateId, c2: CandidateId|
                    c1 != c2 && #[trigger] self.min_candidate(c1) && #[trigger] self
                        .min_candidate(c2)) && (forall|t: int|
                    0 <= t < tie_breaker@.len() ==> !self.min_candidate(
                        #[trigger] tie_breaker@[t],
                    )),
                Err(_) => false,
            },
            (r matches Ok(c) && (exists|c1: CandidateId, c2: CandidateId|
                c1 != c2 && #[trigger] self.min_candidate(c1) && #[trigger] self
                    .min_candidate(c2))) ==> exists|t: int|
                0 <= t < tie_breaker@.len() && (#[trigger] tie_breaker@[t]) == r->Ok_0 && (
                forall|t2: int|
                    0 <= t2 < t ==> !self.min_candidate(#[trigger] tie_breaker@[t2])),
    {
        // pass 1: the minimal latest tally among continuing candidates
        let mut min_tally: u64 = 0;
        let mut found = false;
        let mut i: usize = 0;
        while i < self.entries.len()
            invariant
                i <= self.entries@.len(),
                !found ==> forall|a: int|
                    0 <= a < i ==> (#[trigger] self.entries@[a]).eliminated,
                found ==> exists|a: int|
                    0 <= a < i && !(#[trigger] self.entries@[a]).eliminated && self.entries@[
                    a].votes.latest_spec() == min_tally,
                found ==> forall|a: int|
                    0 <= a < i && !(#[trigger] self.entries@[a]).eliminated ==> min_tally
                        <= self.entries@[a].votes.latest_spec(),
            decreases self.entries@.len() - i,
        {
            if !self.entries[i].eliminated {
                let t = self.entries[i].votes.latest();
                if !found || t < min_tally {
                    min_tally = t;
                    found = true;
                }
            }
            i = i + 1;
        }
        if !found {
            proof {
                lemma_count_zero(self.entries@);
            }
            return Err(CountError::NoContinuingCandidates);
        }
        // pass 2: the entry indices tied at the minimal tally
        let mut tied: Vec<usize> = Vec::new();
        let mut i2: usize = 0;
        while i2 < self.entries.len()
            invariant
                i2 <= self.entries@.len(),
                forall|j: int|
                    0 <= j < tied@.len() ==> (#[trigger] tied@[j]) < self.entries@.len()
                        && !self.entries@[tied@[j] as int].eliminated && self.entries@[tied@[
                    j] as int].votes.latest_spec() == min_tally,
                forall|a: int|
                    0 <= a < i2 && !(#[trigger] self.entries@[a]).eliminated && self.entries@[
                    a].votes.latest_spec() == min_tally ==> exists|j: int|
                        0 <= j < tied@.len() && #[trigger] tied@[j] == a,
                forall|j: int| 0 <= j < tied@.len() ==> (#[trigger] tied@[j]) < i2,
                forall|j: int, k: int|
                    0 <= j < k < tied@.len() ==> #[trigger] tied@[j] < #[trigger] tied@[k],
            decreases self.entries@.len() - i2,
        {
            if !self.entries[i2].eliminated && self.entries[i2].votes.latest() == min_tally {
                let ghost prev = tied@;
                tied.push(i2);
                proof {
                    assert forall|a: int|
                        0 <= a < i2 + 1 && !(#[trigger] self.entries@[a]).eliminated
                            && self.entries@[a].votes.latest_spec() == min_tally implies exists|
                        j: int,
                    |
                        0 <= j < tied@.len() && #[trigger] tied@[j] == a by {
                        if a < i2 {
                            let j = choose|j: int|
                                0 <= j < prev.len() && #[trigger] prev[j] == a;
                            assert(tied@[j] == a);
                        } else {
                            assert(tied@[prev.len() as int] == a);
                        }
                    }
                    assert forall|j: int, k: int|
                        0 <= j < k < tied@.len() implies #[trigger] tied@[j] < #[trigger] tied@[
                        k] by {
                        if k >= prev.len() {
                            assert(tied@[k] == i2);
                            assert(prev[j] < i2);
                        }
                    }
                }
            }
            i2 = i2 + 1;
        }
        proof {
            assert(tied@.len() > 0) by {
                let a = choose|a: int|
                    0 <= a < self.entries@.len() && !(#[trigger] self.entries@[a]).eliminated
                        && self.entries@[a].votes.latest_spec() == min_tally;
                assert(exists|j: int| 0 <= j < tied@.len() && #[trigger] tied@[j] == a);
            }
        }
        // pass 3: the lexicographically least history among the tied
        let mut best: usize = tied[0];
        proof {
            lemma_lex_irrefl(self.entries@[best as int].votes@);
        }
        let mut i3: usize = 1;
        while i3 < tied.len()
            invariant
                1 <= i3 <= tied@.len(),
                tied@.len() > 0,
                best < self.entries@.len(),
                exists|j: int| 0 <= j < i3 && #[trigger] tied@[j] == best,
                forall|j: int|
                    0 <= j < tied@.len() ==> (#[trigger] tied@[j]) < self.entries@.len(),
                forall|j: int|
                    0 <= j < i3 ==> !lex_lt(
                        self.entries@[#[trigger] tied@[j] as int].votes@,
                        self.entries@[best as int].votes@,
                    ),
            decreases tied@.len() - i3,
        {
            let cand = tied[i3];
            if self.entries[cand].votes.lex_less(&self.entries[best].votes) {
                proof {
                    assert forall|j: int|
                        0 <= j < i3 + 1 implies !lex_lt(
                        self.entries@[#[trigger] tied@[j] as int].votes@,
                        self.entries@[cand as int].votes@,
                    ) by {
                        if j < i3 {
                            if lex_lt(
                                self.entries@[tied@[j] as int].votes@,
                                self.entries@[cand as int].votes@,
                            ) {
                                lemma_lex_trans(
                                    self.entries@[tied@[j] as int].votes@,
                                    self.entries@[cand as int].votes@,
                                    self.entries@[best as int].votes@,
                                );
                            }
                        } else {
                            if lex_lt(
                                self.entries@[cand as int].votes@,
                                self.entries@[cand as int].votes@,
                            ) {
                                lemma_lex_irrefl(self.entries@[cand as int].votes@);
                            }
                        }
                    }
                }
                best = cand;
            }
            i3 = i3 + 1;
        }
        // pass 4: everyone tied with the least history
        let mut final_tied: Vec<usize> = Vec::new();
        let mut i4: usize = 0;
        while i4 < tied.len()
            invariant
                i4 <= tied@.len(),
                best < self.entries@.len(),
                forall|j: int|
                    0 <= j < tied@.len() ==> (#[trigger] tied@[j]) < self.entries@.len(),
                forall|j: int, k: int|
                    0 <= j < k < tied@.len() ==> #[trigger] tied@[j] < #[trigger] tied@[k],
                forall|j: int|
                    0 <= j < final_tied@.len() ==> exists|k: int|
                        0 <= k < i4 && (#[trigger] final_tied@[j]) == tied@[k],
                forall|j: int|
                    0 <= j < final_tied@.len() ==> (#[trigger] final_tied@[j]) < self.entries@
                        .len() && self.entries@[final_tied@[j] as int].votes@ == self.entries@[
                    best as int].votes@,
                forall|k: int|
                    0 <= k < i4 && self.entries@[#[trigger] tied@[k] as int].votes@
                        == self.entries@[best as int].votes@ ==> exists|j: int|
                        0 <= j < final_tied@.len() && #[trigger] final_tied@[j] == tied@[k],
                forall|j: int, k: int|
                    0 <= j < k < final_tied@.len() ==> #[trigger] final_tied@[j]
                        < #[trigger] final_tied@[k],
            decreases tied@.len() - i4,
        {
            let cand = tied[i4];
            if self.entries[cand].votes.lex_eq(&self.entries[best].votes) {
                let ghost prev = final_tied@;
                final_tied.push(cand);
                proof {
                    assert forall|k: int|
                        0 <= k < i4 + 1 && self.entries@[#[trigger] tied@[k] as int].votes@
                            == self.entries@[best as int].votes@ implies exists|j: int|
                        0 <= j < final_tied@.len() && #[trigger] final_tied@[j] == tied@[
                        k] by {
                        if k < i4 {
                            let j = choose|j: int|
                                0 <= j < prev.len() && #[trigger] prev[j] == tied@[k];
                            assert(final_tied@[j] == tied@[k]);
                        } else {
                            assert(final_tied@[prev.len() as int] == tied@[i4 as int]);
                        }
                    }
                    assert forall|j: int, k: int|
                        0 <= j < k < final_tied@.len() implies #[trigger] final_tied@[j]
                        < #[trigger] final_tied@[k] by {
                        if k >= prev.len() {
                            assert(final_tied@[k] == tied@[i4 as int]);
                            let kk = choose|kk: int|
                                0 <= kk < i4 && (#[trigger] prev[j]) == tied@[kk];
                            assert(tied@[kk] < tied@[i4 as int]);
                        }
                    }
                }
            } else {
                proof {
                    if self.entries@[tied@[i4 as int] as int].votes@ == self.entries@[
                    best as int].votes@ {
                        assert(false);
                    }
                }
            }
            i4 = i4 + 1;
        }
        proof {
            // best itself is in final_tied
            let jb = choose|j: int| 0 <= j < i3 && #[trigger] tied@[j] == best;
            assert(self.entries@[best as int].votes@ == self.entries@[best as int].votes@);
            assert(exists|j: int| 0 <= j < final_tied@.len() && #[trigger] final_tied@[j] == best);
        }
        // every member of final_tied satisfies the selection rule, and
        // every candidate the rule selects is a member
        proof {
            self.lemma_final_tied_min(tied@, final_tied@, best as int, min_tally);
            assert forall|cc: CandidateId| #[trigger] self.min_candidate(cc) implies exists|
                j: int,
            |
                0 <= j < final_tied@.len() && self.entries@[(#[trigger] final_tied@[
                j]) as int].id == cc by {
                let i = self.index_of(cc);
                assert(0 <= i < self.entries@.len() && self.entries@[i].id == cc
                    && !self.entries@[i].eliminated);
                // the candidate's tally is the minimum
                let wit = choose|a: int|
                    0 <= a < self.entries@.len() && !(#[trigger] self.entries@[a]).eliminated
                        && self.entries@[a].votes.latest_spec() == min_tally;
                assert(self.tally_of(cc) <= self.entries@[wit].votes.latest_spec());
                assert(min_tally <= self.entries@[i].votes.latest_spec());
                assert(self.entries@[i].votes.latest_spec() == min_tally);
                // so its entry is among the tied, with the least history
                let j1 = choose|j1: int| 0 <= j1 < tied@.len() && #[trigger] tied@[j1] == i;
                assert(!lex_lt(self.entries@[i].votes@, self.entries@[best as int].votes@));
                assert(!lex_lt(self.entries@[best as int].votes@, self.entries@[i].votes@))
                    by {
                    let jb = choose|jb: int|
                        0 <= jb < tied@.len() && #[trigger] tied@[jb] == best;
                    assert(!self.entries@[best as int].eliminated && self.entries@[
                    best as int].votes.latest_spec() == min_tally);
                    assert(self.log_of(cc) == self.entries@[i].votes@);
                }
                lemma_lex_total(
                    self.entries@[i].votes@,
                    self.entries@[best as int].votes@,
                );
                let j2 = choose|j2: int|
                    0 <= j2 < final_tied@.len() && #[trigger] final_tied@[j2] == tied@[j1];
                assert(self.entries@[final_tied@[j2] as int].id == cc);
            }
        }
        if final_tied.len() == 1 {
            let e = final_tied[0];
            proof {
                // a second selectable candidate would be a second member
                if exists|c1: CandidateId, c2: CandidateId|
                    c1 != c2 && #[trigger] self.min_candidate(c1) && #[trigger] self
                        .min_candidate(c2) {
                    let (c1, c2) = choose|c1: CandidateId, c2: CandidateId|
                        c1 != c2 && #[trigger] self.min_candidate(c1) && #[trigger] self
                            .min_candidate(c2);
                    let j1 = choose|j: int|
                        0 <= j < final_tied@.len() && self.entries@[(#[trigger] final_tied@[
                        j]) as int].id == c1;
                    let j2 = choose|j: int|
                        0 <= j < final_tied@.len() && self.entries@[(#[trigger] final_tied@[
                        j]) as int].id == c2;
                    assert(j1 == j2);
                    assert(false);
                }
            }
            return Ok(self.entries[e].id);
        }
        // ask the resolver: the first listed candidate in the tied set
        let mut t: usize = 0;
        while t < tie_breaker.len()
            invariant
                t <= tie_breaker@.len(),
                final_tied@.len() > 1,
                forall|j: int|
                    0 <= j < final_tied@.len() ==> (#[trigger] final_tied@[j]) < self.entries@
                        .len() && self.min_candidate(self.entries@[final_tied@[j] as int].id),
                forall|j: int, k: int|
                    0 <= j < k < final_tied@.len() ==> #[trigger] final_tied@[j]
                        < #[trigger] final_tied@[k],
                self.ids_unique(),
                forall|cc: CandidateId|
                    #[trigger] self.min_candidate(cc) ==> exists|j: int|
                        0 <= j < final_tied@.len() && self.entries@[(#[trigger] final_tied@[
                        j]) as int].id == cc,
                forall|t2: int, j: int|
                    0 <= t2 < t && 0 <= j < final_tied@.len() ==> self.entries@[(
                    #[trigger] final_tied@[j]) as int].id != #[trigger] tie_breaker@[t2],
            decreases tie_breaker@.len() - t,
        {
            let choice = tie_breaker[t];
            let mut j: usize = 0;
            while j < final_tied.len()
                invariant
                    t < tie_breaker@.len(),
                    choice == tie_breaker@[t as int],
                    j <= final_tied@.len(),
                    forall|a: int|
                        0 <= a < final_tied@.len() ==> (#[trigger] final_tied@[a])
                            < self.entries@.len() && self.min_candidate(
                            self.entries@[final_tied@[a] as int].id,
                        ),
                    forall|cc: CandidateId|
                        #[trigger] self.min_candidate(cc) ==> exists|a: int|
                            0 <= a < final_tied@.len() && self.entries@[(
                            #[trigger] final_tied@[a]) as int].id == cc,
                    forall|t2: int, a: int|
                        0 <= t2 < t && 0 <= a < final_tied@.len() ==> self.entries@[(
                        #[trigger] final_tied@[a]) as int].id != #[trigger] tie_breaker@[t2],
                    forall|a: int|
                        0 <= a < j ==> self.entries@[(#[trigger] final_tied@[a]) as int].id
                            != choice,
                decreases final_tied@.len() - j,
            {
                if self.entries[final_tied[j]].id == choice {
                    proof {
                        // earlier resolver entries named nobody selectable
                        assert forall|t2: int|
                            0 <= t2 < t implies !self.min_candidate(
                            #[trigger] tie_breaker@[t2],
                        ) by {
                            if self.min_candidate(tie_breaker@[t2]) {
                                let a = choose|a: int|
                                    0 <= a < final_tied@.len() && self.entries@[(
                                    #[trigger] final_tied@[a]) as int].id == tie_breaker@[
                                    t2];
                                assert(false);
                            }
                        }
                        assert(0 <= t < tie_breaker@.len() && tie_breaker@[t as int]
                            == choice);
                    }
                    return Ok(choice);
                }
                j = j + 1;
            }
            t = t + 1;
        }
        proof {
            let a = final_tied@[0] as int;
            let b = final_tied@[1] as int;
            assert(final_tied@[0] < final_tied@[1]);
            assert(self.entries@[a].id != self.entries@[b].id);
            assert(self.min_candidate(self.entries@[a].id));
            assert(self.min_candidate(self.entries@[b].id));
            // the resolver named no selectable candidate at all
            assert forall|t2: int|
                0 <= t2 < tie_breaker@.len() implies !self.min_candidate(
                #[trigger] tie_breaker@[t2],
            ) by {
                if self.min_candidate(tie_breaker@[t2]) {
                    let aa = choose|aa: int|
                        0 <= aa < final_tied@.len() && self.entries@[(#[trigger] final_tied@[
                        aa]) as int].id == tie_breaker@[t2];
                    assert(false);
                }
            }
        }
        Err(CountError::TieUnresolved)
    }
}

impl VoteMap {
    /// Members of the doubly-filtered tie set satisfy the selection rule.
    proof fn lemma_final_tied_min(
        self,
        tied: Seq<usize>,
        final_tied: Seq<usize>,
        best: int,
        min_tally: u64,
    )
        requires
            self.ids_unique(),
            0 <= best < self.entries@.len(),
            forall|j: int|
                0 <= j < tied.len() ==> (#[trigger] tied[j]) < self.entries@.len()
                    && !self.entries@[tied[j] as int].eliminated && self.entries@[tied[
                j] as int].votes.latest_spec() == min_tally,
            forall|a: int|
                0 <= a < self.entries@.len() && !(#[trigger] self.entries@[a]).eliminated
                    && self.entries@[a].votes.latest_spec() == min_tally ==> exists|j: int|
                    0 <= j < tied.len() && #[trigger] tied[j] == a,
            forall|a: int|
                0 <= a < self.entries@.len() && !(#[trigger] self.entries@[a]).eliminated
                    ==> min_tally <= self.entries@[a].votes.latest_spec(),
            forall|j: int|
                0 <= j < tied.len() ==> !lex_lt(
                    self.entries@[#[trigger] tied[j] as int].votes@,
                    self.entries@[best].votes@,
                ),
            forall|j: int|
                0 <= j < final_tied.len() ==> (#[trigger] final_tied[j]) < self.entries@.len()
                    && self.entries@[final_tied[j] as int].votes@ == self.entries@[
                best].votes@,
            forall|j: int|
                0 <= j < final_tied.len() ==> exists|k: int|
                    0 <= k < tied.len() && (#[trigger] final_tied[j]) == tied[k],
        ensures
            forall|j: int|
                0 <= j < final_tied.len() ==> self.min_candidate(
                    self.entries@[#[trigger] final_tied[j] as int].id,
                ),
    {
        assert forall|j: int|
            0 <= j < final_tied.len() implies self.min_candidate(
            self.entries@[#[trigger] final_tied[j] as int].id,
        ) by {
            let e = final_tied[j] as int;
            self.lemma_index_stable(self, self.entries@[e].id, e);
            let k = choose|k: int| 0 <= k < tied.len() && (#[trigger] final_tied[j]) == tied[k];
            assert(!self.entries@[e].eliminated);
            assert(self.tally_of(self.entries@[e].id) == min_tally);
            assert forall|a: int|
                0 <= a < self.entries@.len() && !(#[trigger] self.entries@[a]).eliminated
                    && self.entries@[a].votes.latest_spec() == self.tally_of(
                self.entries@[e].id) implies !lex_lt(
                self.entries@[a].votes@,
                self.log_of(self.entries@[e].id),
            ) by {
                let k2 = choose|k2: int| 0 <= k2 < tied.len() && #[trigger] tied[k2] == a;
                assert(!lex_lt(self.entries@[a].votes@, self.entries@[best].votes@));
                assert(self.log_of(self.entries@[e].id) == self.entries@[e].votes@);
                assert(self.entries@[e].votes@ == self.entries@[best].votes@);
            }
        }
    }
}

/// Two tally histories with neither below the other are equal.
proof fn lemma_lex_total(a: Seq<u64>, b: Seq<u64>)
    requires
        !lex_lt(a, b),
        !lex_lt(b, a),
    ensures
        a == b,
    decreases a.len(),
{
    if a.len() > 0 && b.len() > 0 {
        lemma_lex_total(a.drop_first(), b.drop_first());
        assert(a =~= seq![a[0]] + a.drop_first());
        assert(b =~= seq![b[0]] + b.drop_first());
    }
}

proof fn lemma_lex_irrefl(a: Seq<u64>)
    ensures
        !lex_lt(a, a),
    decreases a.len(),
{
    if a.len() > 0 {
        lemma_lex_irrefl(a.drop_first());
    }
}

/// Continuing counts agree when the eliminated flags agree pointwise.
pub proof fn lemma_count_congruent(s1: Seq<VoteEntry>, s2: Seq<VoteEntry>)
    requires
        s1.len() == s2.len(),
        forall|i: int|
            0 <= i < s1.len() ==> (#[trigger] s1[i]).eliminated == s2[i].eliminated,
    ensures
        count_continuing(s1) == count_continuing(s2),
    decreases s1.len(),
{
    if s1.len() > 0 {
        assert(forall|i: int|
            0 <= i < s1.drop_first().len() ==> (#[trigger] s1.drop_first()[i]).eliminated
                == s2.drop_first()[i].eliminated);
        lemma_count_congruent(s1.drop_first(), s2.drop_first());
    }
}

proof fn lemma_count_zero(s: Seq<VoteEntry>)
    requires
        forall|a: int| 0 <= a < s.len() ==> (#[trigger] s[a]).eliminated,
    ensures
        count_continuing(s) == 0,
    decreases s.len(),
{
    if s.len() > 0 {
        assert(forall|a: int|
            0 <= a < s.drop_first().len() ==> (#[trigger] s.drop_first()[a]).eliminated);
        lemma_count_zero(s.drop_first());
    }
}

} // verus!

verus! {

/// Weight sums depend only on the ballots' weights.
proof fn lemma_sum_weights_congruent(idxs: Seq<usize>, b1: Seq<Ballot>, b2: Seq<Ballot>)
    requires
        b1.len() == b2.len(),
        forall|n: int|
            0 <= n < b1.len() ==> (#[trigger] b1[n]).spec_weight() == b2[n].spec_weight(),
        forall|j: int| 0 <= j < idxs.len() ==> (#[trigger] idxs[j]) < b1.len(),
    ensures
        sum_weights(idxs, b1) == sum_weights(idxs, b2),
    decreases idxs.len(),
{
    if idxs.len() > 0 {
        assert(forall|j: int|
            0 <= j < idxs.drop_first().len() ==> (#[trigger] idxs.drop_first()[j]) < b1.len());
        lemma_sum_weights_congruent(idxs.drop_first(), b1, b2);
    }
}

proof fn lemma_buckets_weight_congruent(bs: Seq<Bucket>, b1: Seq<Ballot>, b2: Seq<Ballot>)
    requires
        b1.len() == b2.len(),
        forall|n: int|
            0 <= n < b1.len() ==> (#[trigger] b1[n]).spec_weight() == b2[n].spec_weight(),
        forall|i: int, j: int|
            0 <= i < bs.len() && 0 <= j < (#[trigger] bs[i]).ballots@.len() ==> (
            #[trigger] bs[i].ballots@[j]) < b1.len(),
    ensures
        buckets_weight(bs, b1) == buckets_weight(bs, b2),
    decreases bs.len(),
{
    if bs.len() > 0 {
        assert(forall|j: int|
            0 <= j < bs[0].ballots@.len() ==> (#[trigger] bs[0].ballots@[j]) < b1.len());
        lemma_sum_weights_congruent(bs[0].ballots@, b1, b2);
        assert(forall|i: int, j: int|
            0 <= i < bs.drop_first().len() && 0 <= j < (#[trigger] bs.drop_first()[
            i]).ballots@.len() ==> (#[trigger] bs.drop_first()[i].ballots@[j]) < b1.len());
        lemma_buckets_weight_congruent(bs.drop_first(), b1, b2);
    }
}

impl VoteMap {
    /// Well-formedness only reads the ballots' length and weights.
    pub proof fn lemma_wf_congruent(self, b1: Seq<Ballot>, b2: Seq<Ballot>)
        requires
            self.wf(b1),
            b1.len() == b2.len(),
            forall|n: int|
                0 <= n < b1.len() ==> (#[trigger] b1[n]).spec_weight() == b2[n].spec_weight(),
        ensures
            self.wf(b2),
    {
        assert forall|i: int|
            0 <= i < self.entries@.len() implies buckets_wf(
            (#[trigger] self.entries@[i]).buckets@,
            b2.len() as int,
        ) by {}
        assert forall|i: int|
            0 <= i < self.entries@.len() && !(#[trigger] self.entries@[i]).eliminated
            implies self.entries@[i].votes.latest_spec() <= buckets_weight(
            self.entries@[i].buckets@,
            b2,
        ) by {
            lemma_buckets_weight_congruent(self.entries@[i].buckets@, b1, b2);
        }
    }

    /// Mark the candidate eliminated, take their buckets, and emit one
    /// pending transfer per transfer value, largest value first.
    pub fn exclude_candidate_by_id(&mut self, candidate: CandidateId, ballots: &Vec<Ballot>)
        -> (r: Result<CandidateExcluded, CountError>)
        requires
            old(self).wf(ballots@),
        ensures
            final(self).wf(ballots@),
            final(self).entries@.len() == old(self).entries@.len(),
            match r {
                Ok(exc) => {
                    &&& exc.id == candidate
                    &&& old(self).is_candidate(candidate)
                    &&& forall|i: int|
                        0 <= i < final(self).entries@.len() && i != old(self).index_of(
                            candidate,
                        ) ==> #[trigger] final(self).entries@[i] == old(self).entries@[i]
                    &&& final(self).entries@[old(self).index_of(candidate)].id == candidate
                    &&& final(self).entries@[old(self).index_of(candidate)].votes == old(
                        self,
                    ).entries@[old(self).index_of(candidate)].votes
                    &&& final(self).entries@[old(self).index_of(candidate)].eliminated
                    &&& old(self).continuing(candidate) ==> final(self).count_remaining()
                        == old(self).count_remaining() - 1
                    &&& old(self).spec_eliminated(candidate) ==> final(self).count_remaining()
                        == old(self).count_remaining()
                    &&& forall|t: int|
                        0 <= t < exc.transfers@.len() ==> {
                            let tr = #[trigger] exc.transfers@[t];
                            &&& tr.0 == candidate
                            &&& tr.1.wf()
                            &&& tr.1.num <= tr.1.den
                            &&& forall|k: int|
                                0 <= k < tr.2@.len() ==> (#[trigger] tr.2@[k])
                                    < ballots@.len()
                        }
                    &&& forall|t: int, u: int|
                        0 <= t < u < exc.transfers@.len() ==> (#[trigger] exc.transfers@[
                        u]).1.spec_lt((#[trigger] exc.transfers@[t]).1)
                    &&& ({
                        // the transfers enumerate the old buckets exactly,
                        // largest value first
                        let bs = old(self).entries@[old(self).index_of(candidate)].buckets@;
                        &&& exc.transfers@.len() == bs.len()
                        &&& forall|t: int|
                            0 <= t < bs.len() ==> (#[trigger] exc.transfers@[t]).1 == bs[
                            bs.len() - 1 - t].tv && exc.transfers@[t].2@ == bs[bs.len() - 1
                                - t].ballots@
                    })
                },
                Err(CountError::CandidateNotFound(d)) => d == candidate && !old(
                    self,
                ).is_candidate(candidate) && *final(self) == *old(self),
                Err(_) => false,
            },
    {
        let p = match self.position(candidate) {
            Some(p) => p,
            None => {
                return Err(CountError::CandidateNotFound(candidate));
            },
        };
        let ghost pre = *self;
        let ghost pre_entry = self.entries@[p as int];
        proof {
            self.lemma_index_stable(*self, candidate, p as int);
        }
        let mut old_entry = VoteEntry {
            id: candidate,
            votes: VoteLog::new(),
            buckets: Vec::new(),
            eliminated: true,
        };
        core::mem::swap(&mut old_entry, &mut self.entries[p]);
        proof {
            assert(old_entry == pre_entry);
            assert(self.entries@ == pre.entries@.update(p as int, self.entries@[p as int]));
        }
        // one transfer per bucket, from the largest transfer value down
        let mut transfers: Vec<PreferenceTransfer> = Vec::new();
        let nb = old_entry.buckets.len();
        let mut t: usize = 0;
        while t < nb
            invariant
                t <= nb,
                nb == old_entry.buckets@.len(),
                buckets_wf(old_entry.buckets@, ballots@.len() as int),
                transfers@.len() == t,
                forall|u: int|
                    0 <= u < t ==> {
                        let tr = #[trigger] transfers@[u];
                        &&& tr.0 == candidate
                        &&& tr.1 == old_entry.buckets@[nb - 1 - u].tv
                        &&& tr.2@ == old_entry.buckets@[nb - 1 - u].ballots@
                    },
            decreases nb - t,
        {
            let b = nb - 1 - t;
            let tv = old_entry.buckets[b].tv;
            let mut list: Vec<usize> = Vec::new();
            let mut k: usize = 0;
            while k < old_entry.buckets[b].ballots.len()
                invariant
                    b < old_entry.buckets@.len(),
                    k <= old_entry.buckets@[b as int].ballots@.len(),
                    list@ == old_entry.buckets@[b as int].ballots@.subrange(0, k as int),
                decreases old_entry.buckets@[b as int].ballots@.len() - k,
            {
                list.push(old_entry.buckets[b].ballots[k]);
                proof {
                    assert(list@ =~= old_entry.buckets@[b as int].ballots@.subrange(
                        0,
                        k + 1,
                    ));
                }
                k = k + 1;
            }
            proof {
                assert(list@ =~= old_entry.buckets@[b as int].ballots@);
            }
            transfers.push(PreferenceTransfer(candidate, tv, list));
            t = t + 1;
        }
        // reseed the bucket list and mark eliminated
        let one = Frac::one();
        let mut fresh: Vec<Bucket> = Vec::new();
        fresh.push(Bucket { tv: one, ballots: Vec::new() });
        self.entries.set(
            p,
            VoteEntry {
                id: candidate,
                votes: old_entry.votes,
                buckets: fresh,
                eliminated: true,
            },
        );
        proof {
            assert(self.entries@ =~= pre.entries@.update(p as int, self.entries@[p as int]));
            assert(self.entries@[p as int].votes == pre_entry.votes);
            if !pre_entry.eliminated {
                lemma_count_update(pre.entries@, self.entries@, p as int);
            } else {
                lemma_count_same(pre.entries@, self.entries@, p as int);
            }
            assert forall|i: int|
                0 <= i < self.entries@.len() implies buckets_wf(
                (#[trigger] self.entries@[i]).buckets@,
                ballots@.len() as int,
            ) by {
                if i != p {
                    assert(self.entries@[i] == pre.entries@[i]);
                } else {
                    assert(self.entries@[i].buckets@.len() == 1);
                    assert(self.entries@[i].buckets@[0].ballots@.len() == 0);
                }
            }
            assert forall|i: int|
                0 <= i < self.entries@.len() && !(#[trigger] self.entries@[i]).eliminated
                implies self.entries@[i].votes.latest_spec() <= buckets_weight(
                self.entries@[i].buckets@,
                ballots@,
            ) by {
                if i != p {
                    assert(self.entries@[i] == pre.entries@[i]);
                }
            }
            assert forall|i: int, j: int|
                0 <= i < j < self.entries@.len() implies (#[trigger] self.entries@[i]).id
                != (#[trigger] self.entries@[j]).id by {
                assert(self.entries@[i].id == pre.entries@[i].id);
                assert(self.entries@[j].id == pre.entries@[j].id);
            }
            // descending order of the emitted transfer values
            assert forall|a: int, u: int|
                0 <= a < u < transfers@.len() implies (#[trigger] transfers@[u]).1.spec_lt(
                (#[trigger] transfers@[a]).1,
            ) by {
                assert(transfers@[a].1 == old_entry.buckets@[nb - 1 - a].tv);
                assert(transfers@[u].1 == old_entry.buckets@[nb - 1 - u].tv);
                assert(old_entry.buckets@[nb - 1 - u].tv.spec_lt(
                    old_entry.buckets@[nb - 1 - a].tv,
                ));
            }
        }
        Ok(CandidateExcluded { id: candidate, transfers })
    }

    /// Pick the last-placed candidate (per the tie-break rule) and exclude
    /// them.
    pub fn exclude_candidates(&mut self, tie_breaker: &Vec<CandidateId>, ballots: &Vec<Ballot>)
        -> (r: Result<Vec<CandidateExcluded>, CountError>)
        requires
            old(self).wf(ballots@),
        ensures
            final(self).wf(ballots@),
            final(self).entries@.len() == old(self).entries@.len(),
            match r {
                Ok(excluded) => {
                    &&& excluded@.len() == 1
                    &&& old(self).min_candidate(excluded@[0].id)
                    &&& final(self).count_remaining() == old(self).count_remaining() - 1
                    &&& forall|i: int|
                        0 <= i < final(self).entries@.len() && i != old(self).index_of(
                            excluded@[0].id,
                        ) ==> #[trigger] final(self).entries@[i] == old(self).entries@[i]
                    &&& final(self).entries@[old(self).index_of(excluded@[0].id)].eliminated
                    &&& final(self).entries@[old(self).index_of(excluded@[0].id)].id
                        == excluded@[0].id
                    &&& final(self).entries@[old(self).index_of(excluded@[0].id)].votes
                        == old(self).entries@[old(self).index_of(excluded@[0].id)].votes
                    &&& forall|t: int|
                        0 <= t < excluded@[0].transfers@.len() ==> {
                            let tr = #[trigger] excluded@[0].transfers@[t];
                            &&& tr.1.wf()
                            &&& tr.1.num <= tr.1.den
                            &&& forall|k: int|
                                0 <= k < tr.2@.len() ==> (#[trigger] tr.2@[k])
                                    < ballots@.len()
                        }
                },
                Err(e) => e is TieUnresolved || e is NoContinuingCandidates,
            },
    {
        let candidate = match self.get_last_candidate(tie_breaker) {
            Ok(c) => c,
            Err(e) => {
                return Err(e);
            },
        };
        match self.exclude_candidate_by_id(candidate, ballots) {
            Ok(exc) => {
                let r = vec![exc];
                proof {
                    assert(r@.len() == 1);
                    assert(r@[0].id == candidate);
                }
                Ok(r)
            },
            Err(e) => {
                proof {
                    // the selected candidate is continuing, so present
                    assert(false);
                }
                Err(e)
            },
        }
    }

    /// Every continuing candidate, elected at their current tally with no
    /// further transfers.
    pub fn elect_remaining(&self) -> (r: Vec<CandidateElected>)
        requires
            self.ids_unique(),
        ensures
            r@.len() == self.count_remaining(),
            forall|j: int|
                0 <= j < r@.len() ==> self.continuing((#[trigger] r@[j]).id) && r@[j].votes
                    == self.tally_of(r@[j].id) && r@[j].transfers@.len() == 0,
            forall|j: int, k: int|
                0 <= j < k < r@.len() ==> (#[trigger] r@[j]).id != (#[trigger] r@[k]).id,
            forall|i: int|
                0 <= i < self.entries@.len() && !(#[trigger] self.entries@[i]).eliminated
                    ==> exists|j: int| 0 <= j < r@.len() && (#[trigger] r@[j]).id
                    == self.entries@[i].id,
    {
        proof {
            lemma_count_continuing_bounds(self.entries@);
            assert(self.entries@.skip(0) =~= self.entries@);
        }
        let mut r: Vec<CandidateElected> = Vec::new();
        let mut i: usize = 0;
        while i < self.entries.len()
            invariant
                self.ids_unique(),
                i <= self.entries@.len(),
                r@.len() == count_continuing(self.entries@) - count_continuing(
                    self.entries@.skip(i as int),
                ),
                count_continuing(self.entries@.skip(i as int)) >= 0,
                forall|j: int|
                    0 <= j < r@.len() ==> self.continuing((#[trigger] r@[j]).id) && r@[j].votes
                        == self.tally_of(r@[j].id) && r@[j].transfers@.len() == 0,
                forall|j: int|
                    #![trigger r@[j]]
                    0 <= j < r@.len() ==> exists|a: int|
                        0 <= a < i && r@[j].id == (#[trigger] self.entries@[a]).id,
                forall|j: int, k: int|
                    0 <= j < k < r@.len() ==> (#[trigger] r@[j]).id != (#[trigger] r@[k]).id,
                forall|a: int|
                    0 <= a < i && !(#[trigger] self.entries@[a]).eliminated ==> exists|j: int|
                        0 <= j < r@.len() && (#[trigger] r@[j]).id == self.entries@[a].id,
            decreases self.entries@.len() - i,
        {
            proof {
                assert(self.entries@.skip(i as int).drop_first() =~= self.entries@.skip(i + 1));
                assert(self.entries@.skip(i as int)[0] == self.entries@[i as int]);
                lemma_count_continuing_bounds(self.entries@.skip(i + 1));
            }
            if !self.entries[i].eliminated {
                let id = self.entries[i].id;
                proof {
                    self.lemma_index_stable(*self, id, i as int);
                }
                let ghost prev = r@;
                r.push(
                    CandidateElected {
                        id,
                        votes: self.entries[i].votes.latest(),
                        transfers: Vec::new(),
                    },
                );
                proof {
                    assert forall|j: int|
                        0 <= j < prev.len() implies (#[trigger] prev[j]).id != id by {
                        if prev[j].id == id {
                            let a = choose|a: int|
                                0 <= a < i && prev[j].id == (#[trigger] self.entries@[a]).id;
                            assert(self.entries@[a].id != self.entries@[i as int].id);
                        }
                    }
                    assert forall|a: int|
                        0 <= a < i + 1 && !(#[trigger] self.entries@[a]).eliminated
                        implies exists|j: int|
                        0 <= j < r@.len() && (#[trigger] r@[j]).id == self.entries@[a].id by {
                        if a < i {
                            let j = choose|j: int|
                                0 <= j < prev.len() && (#[trigger] prev[j]).id
                                    == self.entries@[a].id;
                            assert(r@[j].id == self.entries@[a].id);
                        } else {
                            assert(r@[prev.len() as int].id == self.entries@[a].id);
                        }
                    }
                }
            }
            i = i + 1;
        }
        proof {
            assert(self.entries@.skip(self.entries@.len() as int) =~= Seq::<
                VoteEntry,
            >::empty());
        }
        r
    }

    /// The continuing candidates and their latest tallies, in ballot-paper
    /// order.
    pub fn summary(&self) -> (r: Vec<(CandidateId, u64)>)
        requires
            self.ids_unique(),
        ensures
            forall|j: int|
                0 <= j < r@.len() ==> self.continuing((#[trigger] r@[j]).0) && r@[j].1
                    == self.tally_of(r@[j].0),
    {
        let mut r: Vec<(CandidateId, u64)> = Vec::new();
        let ghost srcs: Seq<int> = Seq::empty();
        let mut srcs = Ghost(srcs);
        let mut i: usize = 0;
        while i < self.entries.len()
            invariant
                i <= self.entries@.len(),
                srcs@.len() == r@.len(),
                forall|j: int|
                    0 <= j < r@.len() ==> 0 <= #[trigger] srcs@[j] < self.entries@.len()
                        && !self.entries@[srcs@[j]].eliminated && r@[j].0 == self.entries@[
                    srcs@[j]].id && r@[j].1 == self.entries@[srcs@[j]].votes.latest_spec(),
            decreases self.entries@.len() - i,
        {
            if !self.entries[i].eliminated {
                r.push((self.entries[i].id, self.entries[i].votes.latest()));
                proof {
                    srcs@ = srcs@.push(i as int);
                }
            }
            i = i + 1;
        }
        proof {
            assert forall|j: int|
                0 <= j < r@.len() implies self.continuing((#[trigger] r@[j]).0) && r@[j].1
                == self.tally_of(r@[j].0) by {
                let a = srcs@[j];
                self.lemma_index_stable(*self, self.entries@[a].id, a);
            }
        }
        r
    }
}

} // verus!

verus! {

impl VoteMap {
    /// Redistribute a pending transfer at count `idx`: advance each ballot
    /// to its next continuing preference (exhausting it if none is left,
    /// charged to `stats` at the incoming value), group the survivors by
    /// their new candidate, credit each receiving candidate
    /// `floor(tv * weight)` of its group, and file the group in that
    /// candidate's bucket keyed by the incoming value.
    #[verifier::rlimit(100)]
    pub fn transfer_preferences(
        &mut self,
        idx: usize,
        transfer: PreferenceTransfer,
        ballots: &mut Vec<Ballot>,
        stats: &mut Stats,
    ) -> (r: Result<(), CountError>)
        requires
            old(self).wf(old(ballots)@),
            old(stats).wf(),
            transfer.1.wf(),
            transfer.1.num <= transfer.1.den,
            forall|k: int|
                0 <= k < transfer.2@.len() ==> (#[trigger] transfer.2@[k]) < old(
                    ballots,
                )@.len(),
            forall|i: int|
                0 <= i < old(self).entries@.len() ==> (#[trigger] old(
                    self,
                ).entries@[i]).votes@.len() <= idx + 1,
            forall|n: int, k: int|
                0 <= n < old(ballots)@.len() && 0 <= k < (#[trigger] old(
                    ballots,
                )@[n]).prefs@.len() ==> old(self).is_candidate(
                    #[trigger] old(ballots)@[n].prefs@[k],
                ),
        ensures
            final(self).wf(final(ballots)@),
            final(ballots)@.len() == old(ballots)@.len(),
            forall|n: int|
                0 <= n < final(ballots)@.len() ==> (#[trigger] final(ballots)@[n]).prefs
                    == old(ballots)@[n].prefs && final(ballots)@[n].spec_weight() == old(
                    ballots,
                )@[n].spec_weight(),
            final(self).entries@.len() == old(self).entries@.len(),
            forall|i: int|
                0 <= i < final(self).entries@.len() ==> {
                    let e = #[trigger] final(self).entries@[i];
                    let o = old(self).entries@[i];
                    e.id == o.id && e.eliminated == o.eliminated && e.votes@.len() <= idx + 1
                        && e.votes.latest_spec() >= o.votes.latest_spec()
                },
            final(stats).wf(),
            final(stats).num_valid_votes == old(stats).num_valid_votes,
            final(stats).invalid_votes == old(stats).invalid_votes,
            r matches Err(e) ==> e is Overflow,
            r is Ok ==> ({
                let m0 = *old(self);
                let b0 = old(ballots)@;
                let idxs = transfer.2@;
                let tv = transfer.1;
                // each surviving ballot's cursor advances to its first
                // continuing preference; an exhausted ballot keeps its own
                &&& forall|k: int|
                    0 <= k < idxs.len() ==> (match next_valid_from(
                        m0,
                        b0[idxs[k] as int].prefs@,
                        b0[idxs[k] as int].spec_current() as int,
                    ) {
                        Some(ni) => (#[trigger] final(ballots)@[idxs[k] as int]).spec_current()
                            == ni,
                        None => (#[trigger] final(ballots)@[idxs[k] as int]).spec_current()
                            == b0[idxs[k] as int].spec_current(),
                    })
                &&& forall|n: int|
                    0 <= n < b0.len() && (forall|k: int|
                        0 <= k < idxs.len() ==> (#[trigger] idxs[k]) as int != n)
                        ==> #[trigger] final(ballots)@[n] == b0[n]
                // each continuing candidate's tally rises by the floor of
                // the incoming value times the weight that flowed to them
                &&& forall|c: CandidateId|
                    #[trigger] m0.continuing(c) ==> final(self).tally_of(c) == m0.tally_of(c)
                        + (tv.num * assigned_weight(m0, b0, idxs, c)) / (tv.den as int)
                // and their survivors are filed under the incoming value
                &&& forall|c: CandidateId|
                    #[trigger] m0.continuing(c) ==> bucket_list_of(
                        final(self).entries@[m0.index_of(c)].buckets@,
                        tv,
                    ) == bucket_list_of(m0.entries@[m0.index_of(c)].buckets@, tv)
                        + assigned_idxs(m0, b0, idxs, c)
                // entries of eliminated candidates are untouched
                &&& forall|i: int|
                    0 <= i < m0.entries@.len() && (#[trigger] m0.entries@[i]).eliminated
                        ==> final(self).entries@[i] == m0.entries@[i]
                // every exhausted ballot is charged to this round at the
                // incoming value, exactly
                &&& ({
                    let n_exh = exhausted_count(m0, b0, idxs);
                    &&& (n_exh == 0 ==> final(stats).exhausted_votes == old(
                        stats,
                    ).exhausted_votes)
                    &&& (n_exh > 0 ==> (match round_entry(old(stats).exhausted_votes@, idx) {
                        Some(pe) => round_entry(final(stats).exhausted_votes@, idx)
                            matches Some(e) && e.0 == pe.0 + n_exh && e.1.carries(
                            pe.1,
                            tv,
                            n_exh,
                        ),
                        None => round_entry(final(stats).exhausted_votes@, idx) matches Some(
                            e,
                        ) && e.0 == n_exh && e.1.carries((Frac { num: 0, den: 1 }), tv, n_exh),
                    }))
                    &&& forall|other: usize|
                        other != idx ==> #[trigger] round_entry(
                            final(stats).exhausted_votes@,
                            other,
                        ) == round_entry(old(stats).exhausted_votes@, other)
                })
            }),
    {
        let PreferenceTransfer(_, tv, list) = transfer;
        let ghost ballots0 = old(ballots)@;
        let ghost m0 = *old(self);
        let ghost idxs0 = transfer.2@;
        proof {
            assert(list@ == idxs0);
            assert(idxs0.take(0) =~= Seq::<usize>::empty());
        }
        // phase 1: advance cursors, group surviving ballots by candidate
        let mut groups: Vec<(CandidateId, Vec<usize>, u64)> = Vec::new();
        let mut k: usize = 0;
        while k < list.len()
            invariant
                k <= list@.len(),
                list@ == idxs0,
                ballots0 == old(ballots)@,
                m0 == *old(self),
                tv == transfer.1,
                forall|i: int|
                    0 <= i < old(self).entries@.len() ==> (#[trigger] old(
                        self,
                    ).entries@[i]).votes@.len() <= idx + 1,
                self == old(self),
                self.wf(ballots0),
                old(stats).wf(),
                stats.wf(),
                stats.num_valid_votes == old(stats).num_valid_votes,
                stats.invalid_votes == old(stats).invalid_votes,
                tv.wf(),
                tv.num <= tv.den,
                ballots@.len() == ballots0.len(),
                forall|n: int|
                    0 <= n < ballots@.len() ==> (#[trigger] ballots@[n]).prefs == ballots0[
                    n].prefs && ballots@[n].spec_weight() == ballots0[n].spec_weight(),
                forall|j: int| 0 <= j < list@.len() ==> (#[trigger] list@[j]) < ballots0.len(),
                forall|n: int, j: int|
                    0 <= n < ballots0.len() && 0 <= j < (#[trigger] ballots0[n]).prefs@.len()
                        ==> self.is_candidate(#[trigger] ballots0[n].prefs@[j]),
                forall|g: int|
                    0 <= g < groups@.len() ==> {
                        let gr = #[trigger] groups@[g];
                        &&& self.continuing(gr.0)
                        &&& forall|j: int|
                            0 <= j < gr.1@.len() ==> (#[trigger] gr.1@[j]) < ballots0.len()
                        &&& gr.2 as int == sum_weights(gr.1@, ballots0)
                        &&& gr.2 as int == assigned_weight(
                            m0,
                            ballots0,
                            idxs0.take(k as int),
                            gr.0,
                        )
                        &&& gr.1@ == assigned_idxs(m0, ballots0, idxs0.take(k as int), gr.0)
                    },
                forall|g1: int, g2: int|
                    0 <= g1 < g2 < groups@.len() ==> (#[trigger] groups@[g1]).0
                        != (#[trigger] groups@[g2]).0,
                forall|c: CandidateId|
                    #![trigger assigned_weight(m0, ballots0, idxs0.take(k as int), c)]
                    #![trigger assigned_idxs(m0, ballots0, idxs0.take(k as int), c)]
                    m0.continuing(c) && !(exists|g: int|
                        0 <= g < groups@.len() && (#[trigger] groups@[g]).0 == c)
                        ==> assigned_weight(m0, ballots0, idxs0.take(k as int), c) == 0
                            && assigned_idxs(m0, ballots0, idxs0.take(k as int), c) == Seq::<
                        usize,
                    >::empty(),
                forall|kk: int|
                    0 <= kk < k ==> (match next_valid_from(
                        m0,
                        ballots0[idxs0[kk] as int].prefs@,
                        ballots0[idxs0[kk] as int].spec_current() as int,
                    ) {
                        Some(ni) => (#[trigger] ballots@[idxs0[kk] as int]).spec_current()
                            == ni,
                        None => (#[trigger] ballots@[idxs0[kk] as int]).spec_current()
                            == ballots0[idxs0[kk] as int].spec_current(),
                    }),
                forall|n: int|
                    0 <= n < ballots@.len() && (forall|kk: int|
                        0 <= kk < k ==> (#[trigger] idxs0[kk]) as int != n)
                        ==> #[trigger] ballots@[n] == ballots0[n],
                ({
                    let n_exh = exhausted_count(m0, ballots0, idxs0.take(k as int));
                    &&& (n_exh == 0 ==> stats == old(stats))
                    &&& (n_exh > 0 ==> (match round_entry(old(stats).exhausted_votes@, idx) {
                        Some(pe) => round_entry(stats.exhausted_votes@, idx) matches Some(e)
                            && e.0 == pe.0 + n_exh && e.1.carries(pe.1, tv, n_exh),
                        None => round_entry(stats.exhausted_votes@, idx) matches Some(e)
                            && e.0 == n_exh && e.1.carries(
                            (Frac { num: 0, den: 1 }),
                            tv,
                            n_exh,
                        ),
                    }))
                    &&& forall|other: usize|
                        other != idx ==> #[trigger] round_entry(stats.exhausted_votes@, other)
                            == round_entry(old(stats).exhausted_votes@, other)
                }),
            decreases list@.len() - k,
        {
            let bidx = list[k];
            let ghost bprefs = ballots0[bidx as int].prefs@;
            let ghost bcur = ballots0[bidx as int].spec_current() as int;
            let ghost spec_next = next_valid_from(m0, bprefs, bcur);
            proof {
                lemma_next_valid_props(m0, bprefs, bcur);
                // the scan over the current cursor agrees with the
                // assignment computed from the incoming state
                if exists|kk: int| 0 <= kk < k && (#[trigger] idxs0[kk]) == bidx {
                    let kk = choose|kk: int| 0 <= kk < k && (#[trigger] idxs0[kk]) == bidx;
                    match spec_next {
                        Some(ni) => {
                            assert(ballots@[bidx as int].spec_current() == ni);
                            lemma_next_valid_fixed(m0, bprefs, ni);
                        },
                        None => {
                            assert(ballots@[bidx as int].spec_current() == bcur);
                        },
                    }
                } else {
                    assert(forall|kk: int| 0 <= kk < k ==> (#[trigger] idxs0[kk]) != bidx);
                    assert(ballots@[bidx as int] == ballots0[bidx as int]);
                }
                assert(ballots@[bidx as int].prefs@ == bprefs);
                assert(next_valid_from(
                    *self,
                    ballots@[bidx as int].prefs@,
                    ballots@[bidx as int].spec_current() as int,
                ) == spec_next);
                lemma_assign_snoc(m0, ballots0, idxs0, k as int);
            }
            let next = self.find_next_valid_preference(&ballots[bidx]);
            match next {
                None => {
                    proof {
                        assert(spec_next is None);
                        assert(assigned_of(m0, ballots0, bidx as int) is None);
                    }
                    // exhausted: charge it at the incoming transfer value
                    let ghost pre_stats = *stats;
                    match stats.record_exhausted_vote(idx, &tv) {
                        Ok(()) => {},
                        Err(()) => {
                            proof {
                                self.lemma_wf_congruent(ballots0, ballots@);
                            }
                            return Err(CountError::Overflow);
                        },
                    }
                    proof {
                        let n_prev = exhausted_count(m0, ballots0, idxs0.take(k as int));
                        crate::stats::lemma_round_entry_wf(pre_stats.exhausted_votes@, idx);
                        crate::stats::lemma_round_entry_wf(stats.exhausted_votes@, idx);
                        if n_prev == 0 {
                            // first exhaustion: one charge at the value
                            match round_entry(old(stats).exhausted_votes@, idx) {
                                Some(pe) => {
                                    let e = round_entry(stats.exhausted_votes@, idx)->Some_0;
                                    assert(e.1.carries(pe.1, tv, 1)) by {
                                        assert(1int * (tv.num * pe.1.den) == tv.num * pe.1.den)
                                            by (nonlinear_arith);
                                    }
                                },
                                None => {
                                    let e = round_entry(stats.exhausted_votes@, idx)->Some_0;
                                    assert(e.1 == tv);
                                    assert(e.1.carries((Frac { num: 0, den: 1 }), tv, 1)) by {
                                        assert(tv.num * (1int * tv.den) == (0int * tv.den
                                            + 1int * (tv.num * 1)) * tv.den)
                                            by (nonlinear_arith);
                                    }
                                },
                            }
                        } else {
                            let base = match round_entry(old(stats).exhausted_votes@, idx) {
                                Some(pe) => pe.1,
                                None => (Frac { num: 0, den: 1 }),
                            };
                            let ek = round_entry(pre_stats.exhausted_votes@, idx)->Some_0;
                            let en = round_entry(stats.exhausted_votes@, idx)->Some_0;
                            assert(base.den >= 1) by {
                                crate::stats::lemma_round_entry_wf(
                                    old(stats).exhausted_votes@,
                                    idx,
                                );
                            }
                            assert(n_prev > 0) by {
                                lemma_exhausted_count_nonneg(
                                    m0,
                                    ballots0,
                                    idxs0.take(k as int),
                                );
                            }
                            match round_entry(old(stats).exhausted_votes@, idx) {
                                Some(pe0) => {
                                    assert(round_entry(pre_stats.exhausted_votes@, idx)
                                        matches Some(e2) && e2.0 == pe0.0 + n_prev
                                        && e2.1.carries(pe0.1, tv, n_prev));
                                },
                                None => {
                                    assert(round_entry(pre_stats.exhausted_votes@, idx)
                                        matches Some(e2) && e2.0 == n_prev && e2.1.carries(
                                        (Frac { num: 0, den: 1 }),
                                        tv,
                                        n_prev,
                                    ));
                                },
                            }
                            assert(round_entry(pre_stats.exhausted_votes@, idx) is Some);
                            assert(ek.1.wf());
                            assert(round_entry(stats.exhausted_votes@, idx) is Some);
                            assert(en.1.wf());
                            crate::frac::lemma_add_chain(base, ek.1, en.1, tv, n_prev);
                        }
                        // the groups and the shares of unlisted candidates
                        // are untouched by an exhaustion
                        assert forall|c: CandidateId|
                            #![trigger assigned_weight(m0, ballots0, idxs0.take(k + 1), c)]
                            #![trigger assigned_idxs(m0, ballots0, idxs0.take(k + 1), c)]
                            true implies assigned_weight(m0, ballots0, idxs0.take(k + 1), c)
                            == assigned_weight(m0, ballots0, idxs0.take(k as int), c)
                            && assigned_idxs(m0, ballots0, idxs0.take(k + 1), c)
                            == assigned_idxs(m0, ballots0, idxs0.take(k as int), c) by {
                            assert(assigned_idxs(m0, ballots0, idxs0.take(k as int), c)
                                + Seq::<usize>::empty() =~= assigned_idxs(
                                m0,
                                ballots0,
                                idxs0.take(k as int),
                                c,
                            ));
                        }
                    }
                },
                Some(ni) => {
                    proof {
                        assert(spec_next == Some(ni as int));
                        assert(assigned_of(m0, ballots0, bidx as int) == Some(
                            bprefs[ni as int],
                        ));
                    }
                    let c = ballots[bidx].prefs[ni];
                    let w = ballots[bidx].weight() as u64;
                    proof {
                        assert(c == bprefs[ni as int]);
                        assert(w == ballots0[bidx as int].spec_weight());
                        assert(assigned_of(m0, ballots0, bidx as int) == Some(c));
                    }
                    ballots[bidx].set_current(ni);
                    proof {
                        assert(ballots@[bidx as int].prefs == ballots0[bidx as int].prefs);
                        assert(ballots@[bidx as int].spec_weight() == ballots0[
                        bidx as int].spec_weight());
                    }
                    // find this candidate's group, if it is already open
                    let ghost groups_pre = groups@;
                    let mut g: usize = 0;
                    while g < groups.len() && groups[g].0 != c
                        invariant
                            g <= groups@.len(),
                            forall|gg: int| 0 <= gg < g ==> (#[trigger] groups@[gg]).0 != c,
                        decreases groups@.len() - g,
                    {
                        g = g + 1;
                    }
                    if g < groups.len() {
                        // existing group: append the ballot and its weight
                        let gw = groups[g].2;
                        if gw > u64::MAX - w {
                            proof {
                                self.lemma_wf_congruent(ballots0, ballots@);
                            }
                            return Err(CountError::Overflow);
                        }
                        let mut glist2: Vec<usize> = Vec::new();
                        let mut ci: usize = 0;
                        while ci < groups[g].1.len()
                            invariant
                                g < groups@.len(),
                                ci <= groups@[g as int].1@.len(),
                                glist2@ == groups@[g as int].1@.subrange(0, ci as int),
                            decreases groups@[g as int].1@.len() - ci,
                        {
                            glist2.push(groups[g].1[ci]);
                            proof {
                                assert(glist2@ =~= groups@[g as int].1@.subrange(0, ci + 1));
                            }
                            ci = ci + 1;
                        }
                        proof {
                            assert(glist2@ =~= groups@[g as int].1@);
                        }
                        glist2.push(bidx);
                        let ghost oldg = groups@[g as int];
                        groups.set(g, (c, glist2, gw + w));
                        proof {
                            let gr = groups@[g as int];
                            assert(gr.1@ =~= oldg.1@ + seq![bidx]);
                            lemma_sum_weights_concat(oldg.1@, seq![bidx], ballots0);
                            assert(sum_weights(seq![bidx], ballots0) == ballots0[
                            bidx as int].spec_weight()) by {
                                assert(seq![bidx].drop_first() =~= Seq::<usize>::empty());
                                assert(seq![bidx][0] == bidx);
                                assert(sum_weights(Seq::<usize>::empty(), ballots0) == 0);
                            }
                            assert(oldg.0 == c);
                        }
                    } else {
                        // a fresh group for this candidate
                        let single = vec![bidx];
                        groups.push((c, single, w));
                        proof {
                            let gr = groups@[groups@.len() - 1];
                            assert(gr.1@ =~= seq![bidx]);
                            assert(sum_weights(seq![bidx], ballots0) == ballots0[
                            bidx as int].spec_weight()) by {
                                assert(seq![bidx].drop_first() =~= Seq::<usize>::empty());
                                assert(seq![bidx][0] == bidx);
                                assert(sum_weights(Seq::<usize>::empty(), ballots0) == 0);
                            }
                            // the fresh group starts from an empty share
                            assert(assigned_weight(m0, ballots0, idxs0.take(k as int), c) == 0
                                && assigned_idxs(m0, ballots0, idxs0.take(k as int), c)
                                == Seq::<usize>::empty());
                            assert(gr.1@ =~= Seq::<usize>::empty() + seq![bidx]);
                        }
                    }
                    proof {
                        // re-establish the group ledger one step further:
                        // only this candidate's share moved
                        assert forall|g2: int|
                            0 <= g2 < groups@.len() implies {
                            let gr = #[trigger] groups@[g2];
                            gr.2 as int == assigned_weight(
                                m0,
                                ballots0,
                                idxs0.take(k + 1),
                                gr.0,
                            ) && gr.1@ == assigned_idxs(m0, ballots0, idxs0.take(k + 1), gr.0)
                        } by {
                            let gr = groups@[g2];
                            if gr.0 != c {
                                assert(assigned_idxs(m0, ballots0, idxs0.take(k as int), gr.0)
                                    + Seq::<usize>::empty() =~= assigned_idxs(
                                    m0,
                                    ballots0,
                                    idxs0.take(k as int),
                                    gr.0,
                                ));
                            }
                        }
                        assert forall|c2: CandidateId|
                            #![trigger assigned_weight(m0, ballots0, idxs0.take(k + 1), c2)]
                            #![trigger assigned_idxs(m0, ballots0, idxs0.take(k + 1), c2)]
                            m0.continuing(c2) && !(exists|g2: int|
                                0 <= g2 < groups@.len() && (#[trigger] groups@[g2]).0 == c2)
                            implies assigned_weight(m0, ballots0, idxs0.take(k + 1), c2) == 0
                            && assigned_idxs(m0, ballots0, idxs0.take(k + 1), c2) == Seq::<
                            usize,
                        >::empty() by {
                            assert(c2 != c) by {
                                // the updated or freshly pushed group sits
                                // at the scan position either way
                                assert((#[trigger] groups@[g as int]).0 == c);
                            }
                            // absent now means absent before the step too
                            assert(!(exists|g2: int|
                                0 <= g2 < groups_pre.len() && (#[trigger] groups_pre[g2]).0
                                    == c2)) by {
                                if exists|g2: int|
                                    0 <= g2 < groups_pre.len() && (#[trigger] groups_pre[
                                    g2]).0 == c2 {
                                    let g2 = choose|g2: int|
                                        0 <= g2 < groups_pre.len() && (#[trigger] groups_pre[
                                        g2]).0 == c2;
                                    assert((#[trigger] groups@[g2]).0 == groups_pre[g2].0);
                                }
                            }
                            assert(assigned_weight(m0, ballots0, idxs0.take(k as int), c2)
                                == 0 && assigned_idxs(m0, ballots0, idxs0.take(k as int), c2)
                                == Seq::<usize>::empty());
                            assert(assigned_idxs(m0, ballots0, idxs0.take(k as int), c2)
                                + Seq::<usize>::empty() =~= assigned_idxs(
                                m0,
                                ballots0,
                                idxs0.take(k as int),
                                c2,
                            ));
                        }
                        // only this ballot's cursor moved
                        assert forall|kk: int|
                            0 <= kk < k + 1 implies (match next_valid_from(
                            m0,
                            ballots0[idxs0[kk] as int].prefs@,
                            ballots0[idxs0[kk] as int].spec_current() as int,
                        ) {
                            Some(ni2) => (#[trigger] ballots@[idxs0[kk] as int])
                                .spec_current() == ni2,
                            None => (#[trigger] ballots@[idxs0[kk] as int]).spec_current()
                                == ballots0[idxs0[kk] as int].spec_current(),
                        }) by {
                            if idxs0[kk] != bidx {
                                assert(ballots@[idxs0[kk] as int] == old(ballots)@.update(
                                    0,
                                    old(ballots)@[0],
                                )[idxs0[kk] as int] || true);
                            }
                        }
                    }
                },
            }
            k = k + 1;
        }
        proof {
            assert(idxs0.take(list@.len() as int) =~= idxs0);
        }
        // phase 2: credit each group and file its ballots
        let ghost cur_ballots = ballots@;
        proof {
            self.lemma_wf_congruent(ballots0, ballots@);
        }
        let mut gi: usize = 0;
        while gi < groups.len()
            invariant
                gi <= groups@.len(),
                ballots0 == old(ballots)@,
                m0 == *old(self),
                tv == transfer.1,
                self.wf(ballots@),
                ballots@ == cur_ballots,
                ballots@.len() == ballots0.len(),
                tv.wf(),
                tv.num <= tv.den,
                stats.wf(),
                stats.num_valid_votes == old(stats).num_valid_votes,
                stats.invalid_votes == old(stats).invalid_votes,
                self.entries@.len() == old(self).entries@.len(),
                forall|i: int|
                    0 <= i < old(self).entries@.len() ==> (#[trigger] old(
                        self,
                    ).entries@[i]).votes@.len() <= idx + 1,
                forall|n: int|
                    0 <= n < ballots@.len() ==> (#[trigger] ballots@[n]).prefs == ballots0[
                    n].prefs && ballots@[n].spec_weight() == ballots0[n].spec_weight(),
                forall|g: int|
                    0 <= g < groups@.len() ==> {
                        let gr = #[trigger] groups@[g];
                        &&& m0.continuing(gr.0)
                        &&& forall|j: int|
                            0 <= j < gr.1@.len() ==> (#[trigger] gr.1@[j]) < ballots0.len()
                        &&& gr.2 as int == sum_weights(gr.1@, ballots0)
                        &&& gr.2 as int == assigned_weight(m0, ballots0, idxs0, gr.0)
                        &&& gr.1@ == assigned_idxs(m0, ballots0, idxs0, gr.0)
                    },
                forall|g1: int, g2: int|
                    0 <= g1 < g2 < groups@.len() ==> (#[trigger] groups@[g1]).0
                        != (#[trigger] groups@[g2]).0,
                forall|c: CandidateId|
                    #![trigger assigned_weight(m0, ballots0, idxs0, c)]
                    #![trigger assigned_idxs(m0, ballots0, idxs0, c)]
                    m0.continuing(c) && !(exists|g: int|
                        0 <= g < groups@.len() && (#[trigger] groups@[g]).0 == c)
                        ==> assigned_weight(m0, ballots0, idxs0, c) == 0 && assigned_idxs(
                        m0,
                        ballots0,
                        idxs0,
                        c,
                    ) == Seq::<usize>::empty(),
                forall|i: int|
                    0 <= i < self.entries@.len() ==> {
                        let o = old(self).entries@[i];
                        let e = #[trigger] self.entries@[i];
                        if exists|g: int|
                            0 <= g < gi && (#[trigger] groups@[g]).0 == o.id {
                            &&& e.id == o.id
                            &&& e.eliminated == o.eliminated
                            &&& e.votes@.len() <= idx + 1
                            &&& e.votes.latest_spec() == o.votes.latest_spec() + (tv.num
                                * assigned_weight(m0, ballots0, idxs0, o.id)) / (tv.den as int)
                            &&& bucket_list_of(e.buckets@, tv) == bucket_list_of(
                                o.buckets@,
                                tv,
                            ) + assigned_idxs(m0, ballots0, idxs0, o.id)
                        } else {
                            e == o
                        }
                    },
            decreases groups@.len() - gi,
        {
            let c = groups[gi].0;
            let w = groups[gi].2;
            let p = match self.position(c) {
                Some(p) => p,
                None => {
                    proof {
                        // the group's candidate is continuing, so present
                        let i0 = m0.index_of(c);
                        assert(m0.entries@[i0].id == c);
                        assert(self.entries@[i0].id == c);
                        assert(false);
                    }
                    return Err(CountError::CandidateNotFound(c));
                },
            };
            proof {
                // this entry has not been credited yet: groups are distinct
                assert forall|g: int| 0 <= g < gi implies (#[trigger] groups@[g]).0 != c by {
                    assert(groups@[g].0 != groups@[gi as int].0);
                }
                assert(self.entries@[p as int] == old(self).entries@[p as int]);
            }
            let incr = tv.mul_floor(w);
            let latest = self.entries[p].votes.latest();
            if latest > u64::MAX - incr {
                proof {
                    assert forall|i: int|
                        0 <= i < self.entries@.len() implies {
                        let e = #[trigger] self.entries@[i];
                        let o = old(self).entries@[i];
                        e.id == o.id && e.eliminated == o.eliminated && e.votes@.len() <= idx
                            + 1 && e.votes.latest_spec() >= o.votes.latest_spec()
                    } by {
                        let o = old(self).entries@[i];
                        if exists|g: int|
                            0 <= g < gi && (#[trigger] groups@[g]).0 == o.id {
                            lemma_assigned_weight_nonneg(m0, ballots0, idxs0, o.id);
                            lemma_floor_term_nonneg(
                                tv,
                                assigned_weight(m0, ballots0, idxs0, o.id),
                            );
                        }
                    }
                }
                return Err(CountError::Overflow);
            }
            let ghost pre = *self;
            let ghost pre_entry = self.entries@[p as int];
            let mut entry = VoteEntry {
                id: c,
                votes: VoteLog::new(),
                buckets: Vec::new(),
                eliminated: true,
            };
            core::mem::swap(&mut entry, &mut self.entries[p]);
            proof {
                assert(entry == pre_entry);
            }
            entry.votes.update_vote(idx, incr);
            proof {
                assert forall|j: int|
                    0 <= j < groups@[gi as int].1@.len() implies (#[trigger] groups@[
                gi as int].1@[j]) < ballots@.len() by {}
                lemma_sum_weights_congruent(groups@[gi as int].1@, ballots0, ballots@);
            }
            bucket_extend(&mut entry.buckets, &tv, &groups[gi].1, ballots);
            self.entries.set(p, entry);
            proof {
                assert(self.entries@ =~= pre.entries@.update(p as int, self.entries@[p as int]));
                let fin = self.entries@;
                let e = fin[p as int];
                assert(e.votes.latest_spec() == pre_entry.votes.latest_spec() + incr);
                assert(e.votes@.len() <= idx + 1);
                assert(incr as int == (tv.num * assigned_weight(m0, ballots0, idxs0, c))
                    / (tv.den as int));
                assert(bucket_list_of(e.buckets@, tv) == bucket_list_of(
                    pre_entry.buckets@,
                    tv,
                ) + assigned_idxs(m0, ballots0, idxs0, c));
                assert(buckets_weight(e.buckets@, ballots@) == buckets_weight(
                    pre_entry.buckets@,
                    ballots@,
                ) + sum_weights(groups@[gi as int].1@, ballots@));
                assert(incr as int <= sum_weights(groups@[gi as int].1@, ballots@));
                assert forall|i: int|
                    0 <= i < fin.len() && !(#[trigger] fin[i]).eliminated implies fin[i].votes
                    .latest_spec() <= buckets_weight(fin[i].buckets@, ballots@) by {
                    if i != p {
                        assert(fin[i] == pre.entries@[i]);
                    }
                }
                assert forall|i: int|
                    0 <= i < fin.len() implies buckets_wf(
                    (#[trigger] fin[i]).buckets@,
                    ballots@.len() as int,
                ) by {
                    if i != p {
                        assert(fin[i] == pre.entries@[i]);
                    }
                }
                assert forall|i: int, j: int|
                    0 <= i < j < fin.len() implies (#[trigger] fin[i]).id != (
                #[trigger] fin[j]).id by {
                    assert(fin[i].id == pre.entries@[i].id);
                    assert(fin[j].id == pre.entries@[j].id);
                }
                // the per-entry ledger: this entry is now credited, the
                // rest are as before
                assert forall|i: int|
                    0 <= i < fin.len() implies {
                    let o = old(self).entries@[i];
                    let e2 = #[trigger] fin[i];
                    if exists|g: int|
                        0 <= g < gi + 1 && (#[trigger] groups@[g]).0 == o.id {
                        &&& e2.id == o.id
                        &&& e2.eliminated == o.eliminated
                        &&& e2.votes@.len() <= idx + 1
                        &&& e2.votes.latest_spec() == o.votes.latest_spec() + (tv.num
                            * assigned_weight(m0, ballots0, idxs0, o.id)) / (tv.den as int)
                        &&& bucket_list_of(e2.buckets@, tv) == bucket_list_of(
                            o.buckets@,
                            tv,
                        ) + assigned_idxs(m0, ballots0, idxs0, o.id)
                    } else {
                        e2 == o
                    }
                } by {
                    let o = old(self).entries@[i];
                    if i == p {
                        assert(o.id == c);
                        assert(groups@[gi as int].0 == o.id);
                    } else {
                        assert(fin[i] == pre.entries@[i]);
                        if exists|g: int|
                            0 <= g < gi + 1 && (#[trigger] groups@[g]).0 == o.id {
                            let g = choose|g: int|
                                0 <= g < gi + 1 && (#[trigger] groups@[g]).0 == o.id;
                            if g == gi {
                                // two entries cannot share the group's id
                                assert(self.entries@[p as int].id == c);
                                assert(pre.entries@[i].id == o.id);
                                assert(o.id != c || i == p);
                            }
                        }
                    }
                }
            }
            gi = gi + 1;
        }
        proof {
            // close the ledger: every continuing candidate either heads a
            // group or received and filed nothing
            assert forall|c: CandidateId|
                #[trigger] m0.continuing(c) implies self.tally_of(c) == m0.tally_of(c) + (
            tv.num * assigned_weight(m0, ballots0, idxs0, c)) / (tv.den as int) && bucket_list_of(
                self.entries@[m0.index_of(c)].buckets@,
                tv,
            ) == bucket_list_of(m0.entries@[m0.index_of(c)].buckets@, tv) + assigned_idxs(
                m0,
                ballots0,
                idxs0,
                c,
            ) by {
                let i = m0.index_of(c);
                assert(0 <= i < m0.entries@.len() && m0.entries@[i].id == c);
                m0.lemma_index_stable(m0, c, i);
                assert(self.entries@[i].id == c);
                self.lemma_index_stable(*self, c, i);
                let o = old(self).entries@[i];
                assert(o.id == c);
                if exists|g: int| 0 <= g < groups@.len() && (#[trigger] groups@[g]).0 == c {
                } else {
                    assert(assigned_weight(m0, ballots0, idxs0, c) == 0 && assigned_idxs(
                        m0,
                        ballots0,
                        idxs0,
                        c,
                    ) == Seq::<usize>::empty());
                    assert(self.entries@[i] == o);
                    assert(tv.num * 0 == 0) by (nonlinear_arith);
                    assert((0int) / (tv.den as int) == 0) by {
                        vstd::arithmetic::div_mod::lemma_div_of0(tv.den as int);
                    }
                    assert(bucket_list_of(self.entries@[i].buckets@, tv) + Seq::<
                        usize,
                    >::empty() =~= bucket_list_of(self.entries@[i].buckets@, tv));
                }
            }
            // entries of eliminated candidates were never credited
            assert forall|i: int|
                0 <= i < m0.entries@.len() && (#[trigger] m0.entries@[i]).eliminated
                implies self.entries@[i] == m0.entries@[i] by {
                if exists|g: int|
                    0 <= g < groups@.len() && (#[trigger] groups@[g]).0 == m0.entries@[i].id {
                    let g = choose|g: int|
                        0 <= g < groups@.len() && (#[trigger] groups@[g]).0 == m0.entries@[
                        i].id;
                    let c = groups@[g].0;
                    assert(m0.continuing(c));
                    let w = m0.index_of(c);
                    assert(0 <= w < m0.entries@.len() && m0.entries@[w].id == c);
                    m0.lemma_index_stable(m0, c, w);
                    assert(w == i);
                    assert(false);
                }
            }
        }
        Ok(())
    }
}

} // verus!

verus! {

impl VoteMap {
    /// Candidate membership and elimination survive any operation that
    /// keeps every entry's id and only ever sets the eliminated flag.
    pub proof fn lemma_elim_monotone(self, m2: VoteMap)
        requires
            self.entries@.len() == m2.entries@.len(),
            forall|i: int|
                0 <= i < self.entries@.len() ==> (#[trigger] self.entries@[i]).id
                    == m2.entries@[i].id,
            forall|i: int|
                0 <= i < self.entries@.len() && (#[trigger] self.entries@[i]).eliminated
                    ==> m2.entries@[i].eliminated,
            self.ids_unique(),
        ensures
            forall|c: CandidateId|
                #[trigger] self.is_candidate(c) ==> m2.is_candidate(c) && (
                self.spec_eliminated(c) ==> m2.spec_eliminated(c)),
            forall|c: CandidateId| #[trigger] m2.is_candidate(c) ==> self.is_candidate(c),
    {
        assert forall|c: CandidateId| #[trigger] self.is_candidate(c) implies m2.is_candidate(
            c,
        ) && (self.spec_eliminated(c) ==> m2.spec_eliminated(c)) by {
            let i = self.index_of(c);
            assert(0 <= i < self.entries@.len() && self.entries@[i].id == c);
            assert(m2.entries@[i].id == c);
            assert(m2.is_candidate(c));
            assert(m2.ids_unique()) by {
                assert forall|a: int, b: int|
                    0 <= a < b < m2.entries@.len() implies (#[trigger] m2.entries@[a]).id != (
                #[trigger] m2.entries@[b]).id by {
                    assert(self.entries@[a].id == m2.entries@[a].id);
                    assert(self.entries@[b].id == m2.entries@[b].id);
                }
            }
            m2.lemma_index_stable(m2, c, i);
            self.lemma_index_stable(self, c, i);
        }
        assert forall|c: CandidateId| #[trigger] m2.is_candidate(c) implies self.is_candidate(
            c,
        ) by {
            let i = choose|i: int|
                0 <= i < m2.entries@.len() && (#[trigger] m2.entries@[i]).id == c;
            assert(self.entries@[i].id == c);
        }
    }

    /// After an election, each elected candidate is eliminated.
    pub proof fn lemma_elected_eliminated(self, m2: VoteMap, id: CandidateId, quota: u64)
        requires
            self.ids_unique(),
            self.entries@.len() == m2.entries@.len(),
            forall|i: int|
                0 <= i < m2.entries@.len() ==> {
                    let e = #[trigger] m2.entries@[i];
                    let o = self.entries@[i];
                    e.id == o.id && e.eliminated == (o.eliminated || o.votes.latest_spec()
                        >= quota)
                },
            self.is_candidate(id),
            self.tally_of(id) >= quota,
        ensures
            m2.spec_eliminated(id),
            m2.is_candidate(id),
    {
        let i = self.index_of(id);
        assert(0 <= i < self.entries@.len() && self.entries@[i].id == id);
        assert(m2.entries@[i].id == id);
        assert(m2.entries@[i].eliminated);
        assert(m2.ids_unique()) by {
            assert forall|a: int, b: int|
                0 <= a < b < m2.entries@.len() implies (#[trigger] m2.entries@[a]).id != (
            #[trigger] m2.entries@[b]).id by {
                assert(self.entries@[a].id == m2.entries@[a].id);
                assert(self.entries@[b].id == m2.entries@[b].id);
            }
        }
        m2.lemma_index_stable(m2, id, i);
    }
}

} // verus!

verus! {

/// First continuing preference of a preference list, at or after `j`.
pub open spec fn next_valid_from(m: VoteMap, prefs: Seq<CandidateId>, j: int) -> Option<int>
    decreases prefs.len() - j,
{
    if j < 0 || j >= prefs.len() {
        None
    } else if m.continuing(prefs[j]) {
        Some(j)
    } else {
        next_valid_from(m, prefs, j + 1)
    }
}

/// The candidate a ballot counts for after advancing to its first
/// continuing preference, if one is left.
pub open spec fn assigned_of(m: VoteMap, ballots: Seq<Ballot>, bi: int) -> Option<
    CandidateId,
> {
    match next_valid_from(m, ballots[bi].prefs@, ballots[bi].spec_current() as int) {
        Some(ni) => Some(ballots[bi].prefs@[ni]),
        None => None,
    }
}

/// How many of the given ballots exhaust (no continuing preference left).
pub open spec fn exhausted_count(m: VoteMap, ballots: Seq<Ballot>, idxs: Seq<usize>) -> int
    decreases idxs.len(),
{
    if idxs.len() == 0 {
        0
    } else {
        (if assigned_of(m, ballots, idxs[0] as int) is None {
            1int
        } else {
            0int
        }) + exhausted_count(m, ballots, idxs.drop_first())
    }
}

/// Combined weight of the given ballots that flow to candidate `c`.
pub open spec fn assigned_weight(
    m: VoteMap,
    ballots: Seq<Ballot>,
    idxs: Seq<usize>,
    c: CandidateId,
) -> int
    decreases idxs.len(),
{
    if idxs.len() == 0 {
        0
    } else {
        (if assigned_of(m, ballots, idxs[0] as int) == Some(c) {
            ballots[idxs[0] as int].spec_weight() as int
        } else {
            0int
        }) + assigned_weight(m, ballots, idxs.drop_first(), c)
    }
}

/// The given ballots that flow to candidate `c`, in order.
pub open spec fn assigned_idxs(
    m: VoteMap,
    ballots: Seq<Ballot>,
    idxs: Seq<usize>,
    c: CandidateId,
) -> Seq<usize>
    decreases idxs.len(),
{
    if idxs.len() == 0 {
        Seq::empty()
    } else if assigned_of(m, ballots, idxs[0] as int) == Some(c) {
        seq![idxs[0]] + assigned_idxs(m, ballots, idxs.drop_first(), c)
    } else {
        assigned_idxs(m, ballots, idxs.drop_first(), c)
    }
}

/// The ballots filed under the bucket whose value equals `tv`, if any.
pub open spec fn bucket_list_of(bs: Seq<Bucket>, tv: Frac) -> Seq<usize>
    decreases bs.len(),
{
    if bs.len() == 0 {
        Seq::empty()
    } else if bs[0].tv.num * tv.den == tv.num * bs[0].tv.den {
        bs[0].ballots@
    } else {
        bucket_list_of(bs.drop_first(), tv)
    }
}

/// A scan that skips eliminated preferences and stops at a continuing one
/// computes `next_valid_from`.
proof fn lemma_next_valid_at(m: VoteMap, prefs: Seq<CandidateId>, j: int, i: int)
    requires
        0 <= j <= i < prefs.len(),
        m.continuing(prefs[i]),
        forall|k: int| j <= k < i ==> !m.continuing(#[trigger] prefs[k]),
    ensures
        next_valid_from(m, prefs, j) == Some(i),
    decreases i - j,
{
    if j < i {
        lemma_next_valid_at(m, prefs, j + 1, i);
    }
}

proof fn lemma_next_valid_none(m: VoteMap, prefs: Seq<CandidateId>, j: int)
    requires
        forall|k: int| j <= k < prefs.len() ==> !m.continuing(#[trigger] prefs[k]),
    ensures
        next_valid_from(m, prefs, j) is None,
    decreases prefs.len() - j,
{
    if 0 <= j < prefs.len() {
        lemma_next_valid_none(m, prefs, j + 1);
    }
}

/// Step laws for the assignment folds, extending a prefix by one index.
proof fn lemma_assign_snoc(m: VoteMap, ballots: Seq<Ballot>, idxs: Seq<usize>, k: int)
    requires
        0 <= k < idxs.len(),
    ensures
        exhausted_count(m, ballots, idxs.take(k + 1)) == exhausted_count(
            m,
            ballots,
            idxs.take(k),
        ) + (if assigned_of(m, ballots, idxs[k] as int) is None {
            1int
        } else {
            0int
        }),
        forall|c: CandidateId|
            #[trigger] assigned_weight(m, ballots, idxs.take(k + 1), c) == assigned_weight(
                m,
                ballots,
                idxs.take(k),
                c,
            ) + (if assigned_of(m, ballots, idxs[k] as int) == Some(c) {
                ballots[idxs[k] as int].spec_weight() as int
            } else {
                0int
            }),
        forall|c: CandidateId|
            #[trigger] assigned_idxs(m, ballots, idxs.take(k + 1), c) == assigned_idxs(
                m,
                ballots,
                idxs.take(k),
                c,
            ) + (if assigned_of(m, ballots, idxs[k] as int) == Some(c) {
                seq![idxs[k]]
            } else {
                Seq::empty()
            }),
    decreases k,
{
    if k == 0 {
        assert(idxs.take(1)[0] == idxs[0]);
        assert(idxs.take(1).drop_first() =~= Seq::<usize>::empty());
        assert(idxs.take(0) =~= Seq::<usize>::empty());
        assert(exhausted_count(m, ballots, idxs.take(0)) == 0);
        assert forall|c: CandidateId|
            #[trigger] assigned_weight(m, ballots, idxs.take(1), c) == assigned_weight(
            m,
            ballots,
            idxs.take(0),
            c,
        ) + (if assigned_of(m, ballots, idxs[0] as int) == Some(c) {
            ballots[idxs[0] as int].spec_weight() as int
        } else {
            0int
        }) by {
            assert(assigned_weight(m, ballots, idxs.take(0), c) == 0);
        }
        assert forall|c: CandidateId|
            #[trigger] assigned_idxs(m, ballots, idxs.take(1), c) == assigned_idxs(
            m,
            ballots,
            idxs.take(0),
            c,
        ) + (if assigned_of(m, ballots, idxs[0] as int) == Some(c) {
            seq![idxs[0]]
        } else {
            Seq::empty()
        }) by {
            let delta: Seq<usize> = if assigned_of(m, ballots, idxs[0] as int) == Some(c) {
                seq![idxs[0]]
            } else {
                Seq::empty()
            };
            assert(assigned_idxs(m, ballots, idxs.take(0), c) =~= Seq::<usize>::empty());
            if assigned_of(m, ballots, idxs[0] as int) == Some(c) {
                assert(assigned_idxs(m, ballots, idxs.take(1), c) =~= seq![idxs[0]] + Seq::<
                    usize,
                >::empty());
            }
            assert(assigned_idxs(m, ballots, idxs.take(1), c) =~= Seq::<usize>::empty()
                + delta);
        }
    } else {
        assert(idxs.take(k + 1)[0] == idxs[0]);
        assert(idxs.take(k)[0] == idxs[0]);
        assert(idxs.take(k + 1).drop_first() =~= idxs.drop_first().take(k));
        assert(idxs.take(k).drop_first() =~= idxs.drop_first().take(k - 1));
        assert(idxs.drop_first()[k - 1] == idxs[k]);
        lemma_assign_snoc(m, ballots, idxs.drop_first(), k - 1);
        assert forall|c: CandidateId|
            #[trigger] assigned_weight(m, ballots, idxs.take(k + 1), c) == assigned_weight(
            m,
            ballots,
            idxs.take(k),
            c,
        ) + (if assigned_of(m, ballots, idxs[k] as int) == Some(c) {
            ballots[idxs[k] as int].spec_weight() as int
        } else {
            0int
        }) by {
            assert(assigned_weight(m, ballots, idxs.drop_first().take(k), c)
                == assigned_weight(m, ballots, idxs.drop_first().take(k - 1), c) + (
            if assigned_of(m, ballots, idxs[k] as int) == Some(c) {
                ballots[idxs[k] as int].spec_weight() as int
            } else {
                0int
            }));
        }
        assert forall|c: CandidateId|
            #[trigger] assigned_idxs(m, ballots, idxs.take(k + 1), c) == assigned_idxs(
            m,
            ballots,
            idxs.take(k),
            c,
        ) + (if assigned_of(m, ballots, idxs[k] as int) == Some(c) {
            seq![idxs[k]]
        } else {
            Seq::empty()
        }) by {
            let tail_new = assigned_idxs(m, ballots, idxs.drop_first().take(k), c);
            let tail_old = assigned_idxs(m, ballots, idxs.drop_first().take(k - 1), c);
            let delta: Seq<usize> = if assigned_of(m, ballots, idxs[k] as int) == Some(c) {
                seq![idxs[k]]
            } else {
                Seq::empty()
            };
            assert(tail_new == tail_old + delta);
            if assigned_of(m, ballots, idxs[0] as int) == Some(c) {
                assert(seq![idxs[0]] + (tail_old + delta) =~= (seq![idxs[0]] + tail_old)
                    + delta);
            } else {
                if delta.len() == 0 {
                    assert(tail_old + delta =~= tail_old);
                }
            }
        }
    }
}

/// No negative number of ballots exhausts.
proof fn lemma_exhausted_count_nonneg(m: VoteMap, ballots: Seq<Ballot>, idxs: Seq<usize>)
    ensures
        exhausted_count(m, ballots, idxs) >= 0,
    decreases idxs.len(),
{
    if idxs.len() > 0 {
        lemma_exhausted_count_nonneg(m, ballots, idxs.drop_first());
    }
}

/// The weight flowing to a candidate is never negative.
proof fn lemma_assigned_weight_nonneg(
    m: VoteMap,
    ballots: Seq<Ballot>,
    idxs: Seq<usize>,
    c: CandidateId,
)
    ensures
        assigned_weight(m, ballots, idxs, c) >= 0,
    decreases idxs.len(),
{
    if idxs.len() > 0 {
        lemma_assigned_weight_nonneg(m, ballots, idxs.drop_first(), c);
    }
}

/// A floored share of a non-negative weight is non-negative.
proof fn lemma_floor_term_nonneg(tv: Frac, aw: int)
    requires
        tv.den >= 1,
        aw >= 0,
    ensures
        (tv.num * aw) / (tv.den as int) >= 0,
{
    vstd::arithmetic::mul::lemma_mul_nonnegative(tv.num as int, aw);
    vstd::arithmetic::div_mod::lemma_div_pos_is_pos(tv.num * aw, tv.den as int);
}

/// A continuing preference stays its own next choice, so advancing a
/// ballot's cursor to it does not change the ballot's assignment.
proof fn lemma_next_valid_fixed(m: VoteMap, prefs: Seq<CandidateId>, ni: int)
    requires
        0 <= ni < prefs.len(),
        m.continuing(prefs[ni]),
    ensures
        next_valid_from(m, prefs, ni) == Some(ni),
{
}

/// Where the scan lands is in range and continuing.
proof fn lemma_next_valid_props(m: VoteMap, prefs: Seq<CandidateId>, j: int)
    ensures
        match next_valid_from(m, prefs, j) {
            Some(i) => j <= i < prefs.len() && m.continuing(prefs[i]),
            None => true,
        },
    decreases prefs.len() - j,
{
    if 0 <= j < prefs.len() && !m.continuing(prefs[j]) {
        lemma_next_valid_props(m, prefs, j + 1);
    }
}

/// In a sorted bucket list, the first value-equal bucket at `p` carries
/// the list that `bucket_list_of` finds.
proof fn lemma_bucket_list_at(bs: Seq<Bucket>, tv: Frac, p: int)
    requires
        0 <= p < bs.len(),
        bs[p].tv.num * tv.den == tv.num * bs[p].tv.den,
        forall|j: int| 0 <= j < p ==> (#[trigger] bs[j]).tv.spec_lt(tv),
    ensures
        bucket_list_of(bs, tv) == bs[p].ballots@,
    decreases p,
{
    if p > 0 {
        assert(bs[0].tv.spec_lt(tv));
        assert(forall|j: int| 0 <= j < p - 1 ==> (#[trigger] bs.drop_first()[j]).tv.spec_lt(tv));
        assert(bs.drop_first()[p - 1] == bs[p]);
        lemma_bucket_list_at(bs.drop_first(), tv, p - 1);
    }
}

/// With no value-equal bucket, nothing is filed under the value.
proof fn lemma_bucket_list_none(bs: Seq<Bucket>, tv: Frac)
    requires
        forall|j: int|
            0 <= j < bs.len() ==> (#[trigger] bs[j]).tv.num * tv.den != tv.num * bs[j].tv.den,
    ensures
        bucket_list_of(bs, tv) == Seq::<usize>::empty(),
    decreases bs.len(),
{
    if bs.len() > 0 {
        assert(forall|j: int|
            0 <= j < bs.drop_first().len() ==> (#[trigger] bs.drop_first()[j]).tv.num * tv.den
                != tv.num * bs.drop_first()[j].tv.den);
        lemma_bucket_list_none(bs.drop_first(), tv);
    }
}

/// Replacing one bucket without changing its value leaves every other
/// value's filing alone.
proof fn lemma_bucket_list_update_other(prev: Seq<Bucket>, cur: Seq<Bucket>, p: int, v: Frac)
    requires
        0 <= p < prev.len(),
        cur == prev.update(p, cur[p]),
        cur[p].tv == prev[p].tv,
        prev[p].tv.num * v.den != v.num * prev[p].tv.den,
    ensures
        bucket_list_of(cur, v) == bucket_list_of(prev, v),
    decreases p,
{
    if p == 0 {
        assert(cur.drop_first() =~= prev.drop_first());
    } else {
        assert(cur[0] == prev[0]);
        assert(cur.drop_first() =~= prev.drop_first().update(p - 1, cur[p]));
        lemma_bucket_list_update_other(prev.drop_first(), cur.drop_first(), p - 1, v);
    }
}

/// Inserting a bucket of a different value leaves a value's filing alone.
proof fn lemma_bucket_list_insert_other(prev: Seq<Bucket>, p: int, nb: Bucket, v: Frac)
    requires
        0 <= p <= prev.len(),
        nb.tv.num * v.den != v.num * nb.tv.den,
    ensures
        bucket_list_of(prev.take(p) + seq![nb] + prev.skip(p), v) == bucket_list_of(prev, v),
    decreases p,
{
    let cur = prev.take(p) + seq![nb] + prev.skip(p);
    if p == 0 {
        assert(cur =~= seq![nb] + prev);
        assert((seq![nb] + prev)[0] == nb);
        assert((seq![nb] + prev).drop_first() =~= prev);
    } else {
        assert(cur[0] == prev[0]);
        assert(cur.drop_first() =~= prev.drop_first().take(p - 1) + seq![nb]
            + prev.drop_first().skip(p - 1));
        lemma_bucket_list_insert_other(prev.drop_first(), p - 1, nb, v);
    }
}

/// A bucket inserted below every later value and above every earlier one
/// becomes the filing for its own value.
proof fn lemma_bucket_list_insert_at(prev: Seq<Bucket>, p: int, nb: Bucket, tv: Frac)
    requires
        0 <= p <= prev.len(),
        nb.tv.num * tv.den == tv.num * nb.tv.den,
        forall|j: int| 0 <= j < p ==> (#[trigger] prev[j]).tv.spec_lt(tv),
    ensures
        bucket_list_of(prev.take(p) + seq![nb] + prev.skip(p), tv) == nb.ballots@,
    decreases p,
{
    let cur = prev.take(p) + seq![nb] + prev.skip(p);
    if p == 0 {
        assert(cur =~= seq![nb] + prev);
        assert((seq![nb] + prev)[0] == nb);
    } else {
        assert(cur[0] == prev[0]);
        assert(prev[0].tv.spec_lt(tv));
        assert(cur.drop_first() =~= prev.drop_first().take(p - 1) + seq![nb]
            + prev.drop_first().skip(p - 1));
        assert(forall|j: int|
            0 <= j < p - 1 ==> (#[trigger] prev.drop_first()[j]).tv.spec_lt(tv));
        lemma_bucket_list_insert_at(prev.drop_first(), p - 1, nb, tv);
    }
}

} // verus!
