//! Record of a candidate's vote tally at each iteration of the algorithm.
//!
//! Used primarily to break ties: comparison is lexicographic on the whole
//! series of tallies.

use vstd::prelude::*;

verus! {

/// Lexicographic order on tally sequences; a strict prefix sorts first.
pub open spec fn lex_lt(a: Seq<u64>, b: Seq<u64>) -> bool
    decreases a.len(),
{
    if b.len() == 0 {
        false
    } else if a.len() == 0 {
        true
    } else if a[0] != b[0] {
        a[0] < b[0]
    } else {
        lex_lt(a.drop_first(), b.drop_first())
    }
}

/// Record of a candidate's vote tally at each completed count.
#[derive(Debug, PartialEq, Eq, PartialOrd, Ord)]
pub struct VoteLog {
    pub log: Vec<u64>,
}

impl VoteLog {
    pub open spec fn view(self) -> Seq<u64> {
        self.log@
    }

    /// The latest tally, zero when no count has been recorded yet.
    pub open spec fn latest_spec(self) -> u64 {
        if self.log@.len() == 0 {
            0
        } else {
            self.log@.last()
        }
    }

    pub fn new() -> (v: VoteLog)
        ensures
            v@ == Seq::<u64>::empty(),
    {
        VoteLog { log: Vec::new() }
    }

    /// Add `vote` to the tally at count `idx`.
    ///
    /// When `idx` lies beyond the recorded counts the log is first extended
    /// by duplicating the latest value, so that a candidate's tally at a
    /// count equals their tally at the previous count plus any increment.
    pub fn update_vote(&mut self, idx: usize, vote: u64)
        requires
            idx < old(self)@.len() ==> old(self)@[idx as int] + vote <= u64::MAX,
            idx >= old(self)@.len() ==> old(self).latest_spec() + vote <= u64::MAX,
        ensures
            idx < old(self)@.len() ==> final(self)@ == old(self)@.update(
                idx as int,
                (old(self)@[idx as int] + vote) as u64,
            ),
            idx >= old(self)@.len() ==> {
                &&& final(self)@.len() == idx + 1
                &&& final(self)@.subrange(0, old(self)@.len() as int) == old(self)@
                &&& forall|i: int|
                    old(self)@.len() <= i < idx ==> final(self)@[i] == old(self).latest_spec()
                &&& final(self)@[idx as int] == old(self).latest_spec() + vote
            },
            final(self).latest_spec() >= final(self)@[idx as int] || idx < old(self)@.len(),
    {
        let ghost prev = self.log@;
        if idx < self.log.len() {
            let cur = self.log[idx];
            self.log.set(idx, cur + vote);
        } else {
            let dupe = self.latest();
            while self.log.len() < idx
                invariant
                    prev.len() <= self.log@.len() <= idx,
                    self.log@.subrange(0, prev.len() as int) == prev,
                    forall|i: int| prev.len() <= i < self.log@.len() ==> self.log@[i] == dupe,
                    dupe + vote <= u64::MAX,
                decreases idx - self.log@.len(),
            {
                self.log.push(dupe);
                assert(self.log@.subrange(0, prev.len() as int) == prev);
            }
            self.log.push(dupe + vote);
            assert(self.log@.subrange(0, prev.len() as int) == prev);
        }
    }

    /// The latest tally, `None` when no count has been recorded.
    pub fn maybe_latest(&self) -> (r: Option<u64>)
        ensures
            match r {
                Some(v) => self@.len() > 0 && v == self.latest_spec(),
                None => self@.len() == 0,
            },
    {
        if self.log.len() == 0 {
            None
        } else {
            Some(self.log[self.log.len() - 1])
        }
    }

    /// The latest tally, zero when no count has been recorded.
    pub fn latest(&self) -> (r: u64)
        ensures
            r == self.latest_spec(),
    {
        if self.log.len() == 0 {
            0
        } else {
            self.log[self.log.len() - 1]
        }
    }

    /// Strict lexicographic comparison of the full tally histories.
    pub fn lex_less(&self, other: &VoteLog) -> (r: bool)
        ensures
            r == lex_lt(self@, other@),
    {
        let mut i: usize = 0;
        proof {
            assert(self.log@.skip(0) =~= self.log@);
            assert(other.log@.skip(0) =~= other.log@);
        }
        loop
            invariant
                i <= self.log.len(),
                i <= other.log.len(),
                self.log@.subrange(0, i as int) == other.log@.subrange(0, i as int),
                lex_lt(self@, other@) == lex_lt(
                    self.log@.skip(i as int),
                    other.log@.skip(i as int),
                ),
            decreases self.log@.len() - i,
        {
            if i == other.log.len() {
                proof {
                    reveal_lex(self.log@.skip(i as int), other.log@.skip(i as int));
                }
                return false;
            }
            if i == self.log.len() {
                proof {
                    reveal_lex(self.log@.skip(i as int), other.log@.skip(i as int));
                }
                return true;
            }
            if self.log[i] != other.log[i] {
                let r = self.log[i] < other.log[i];
                proof {
                    reveal_lex(self.log@.skip(i as int), other.log@.skip(i as int));
                }
                return r;
            }
            proof {
                reveal_lex(self.log@.skip(i as int), other.log@.skip(i as int));
                assert(self.log@.skip(i as int).drop_first() == self.log@.skip(i + 1));
                assert(other.log@.skip(i as int).drop_first() == other.log@.skip(i + 1));
                assert forall|j: int| 0 <= j < i + 1 implies self.log@[j] == other.log@[j] by {
                    if j < i {
                        assert(self.log@.subrange(0, i as int)[j] == other.log@.subrange(
                            0,
                            i as int,
                        )[j]);
                    }
                }
                assert(self.log@.subrange(0, i + 1) =~= other.log@.subrange(0, i + 1));
            }
            i = i + 1;
        }
    }

    /// Exact equality of the full tally histories.
    pub fn lex_eq(&self, other: &VoteLog) -> (r: bool)
        ensures
            r == (self@ == other@),
    {
        if self.log.len() != other.log.len() {
            return false;
        }
        let mut i: usize = 0;
        while i < self.log.len()
            invariant
                i <= self.log.len(),
                self.log@.len() == other.log@.len(),
                forall|j: int| 0 <= j < i ==> self.log@[j] == other.log@[j],
            decreases self.log@.len() - i,
        {
            if self.log[i] != other.log[i] {
                return false;
            }
            i = i + 1;
        }
        proof {
            assert(self.log@ =~= other.log@);
        }
        true
    }
}

/// Unfold one step of `lex_lt`.
proof fn reveal_lex(a: Seq<u64>, b: Seq<u64>)
    ensures
        lex_lt(a, b) == if b.len() == 0 {
            false
        } else if a.len() == 0 {
            true
        } else if a[0] != b[0] {
            a[0] < b[0]
        } else {
            lex_lt(a.drop_first(), b.drop_first())
        },
{
}

} // verus!
