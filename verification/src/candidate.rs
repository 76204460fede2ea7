//! Candidates and the id-keyed candidate map.

use vstd::prelude::*;

verus! {

/// Integer representing a candidate.
pub type CandidateId = u16;

/// Description of a candidate including name and party affiliation.
#[derive(Debug)]
pub struct Candidate {
    pub id: CandidateId,
    pub surname: String,
    pub other_names: String,
    pub group_name: String,
    pub party: String,
    pub state: String,
}

/// User-input description of a candidate with first name and surname.
#[derive(Debug)]
pub struct CandidateName {
    pub first: String,
    pub last: String,
}

impl Candidate {
    /// A field-by-field copy, equal to the original.
    pub fn duplicate(&self) -> (c: Candidate)
        ensures
            c == *self,
    {
        Candidate {
            id: self.id,
            surname: self.surname.clone(),
            other_names: self.other_names.clone(),
            group_name: self.group_name.clone(),
            party: self.party.clone(),
            state: self.state.clone(),
        }
    }
}

/// Look a candidate id up in an association list.
pub open spec fn assoc_find(s: Seq<(CandidateId, Candidate)>, id: CandidateId) -> Option<
    Candidate,
>
    decreases s.len(),
{
    if s.len() == 0 {
        None
    } else if s[0].0 == id {
        Some(s[0].1)
    } else {
        assoc_find(s.drop_first(), id)
    }
}

/// Map from candidate IDs to candidate information.
pub struct CandidateMap {
    pub entries: Vec<(CandidateId, Candidate)>,
}

impl CandidateMap {
    /// Keys are unique, and each entry holds the candidate with that id.
    pub open spec fn wf(self) -> bool {
        &&& forall|i: int, j: int|
            0 <= i < j < self.entries@.len() ==> (#[trigger] self.entries@[i]).0
                != (#[trigger] self.entries@[j]).0
        &&& forall|i: int|
            0 <= i < self.entries@.len() ==> (#[trigger] self.entries@[i]).1.id
                == self.entries@[i].0
    }

    pub open spec fn spec_get(self, id: CandidateId) -> Option<Candidate> {
        assoc_find(self.entries@, id)
    }

    pub open spec fn spec_contains(self, id: CandidateId) -> bool {
        exists|i: int| 0 <= i < self.entries@.len() && (#[trigger] self.entries@[i]).0 == id
    }

    pub fn new() -> (m: CandidateMap)
        ensures
            m.wf(),
            m.entries@.len() == 0,
    {
        CandidateMap { entries: Vec::new() }
    }

    pub fn len(&self) -> (n: usize)
        ensures
            n == self.entries@.len(),
    {
        self.entries.len()
    }

    /// Index of the entry holding `id`, if any.
    fn position(&self, id: CandidateId) -> (r: Option<usize>)
        ensures
            match r {
                Some(i) => i < self.entries@.len() && self.entries@[i as int].0 == id,
                None => !self.spec_contains(id),
            },
    {
        let mut i: usize = 0;
        while i < self.entries.len()
            invariant
                i <= self.entries@.len(),
                forall|j: int| 0 <= j < i ==> (#[trigger] self.entries@[j]).0 != id,
            decreases self.entries@.len() - i,
        {
            if self.entries[i].0 == id {
                return Some(i);
            }
            i = i + 1;
        }
        None
    }

    pub fn contains(&self, id: CandidateId) -> (r: bool)
        ensures
            r == self.spec_contains(id),
    {
        self.position(id).is_some()
    }

    pub fn get(&self, id: CandidateId) -> (r: Option<&Candidate>)
        requires
            self.wf(),
        ensures
            match r {
                Some(c) => self.spec_get(id) == Some(*c),
                None => self.spec_get(id) is None,
            },
    {
        proof {
            lemma_assoc_find_position(self.entries@, id);
        }
        match self.position(id) {
            Some(i) => Some(&self.entries[i].1),
            None => None,
        }
    }

    /// Insert a candidate, replacing any previous entry for the same id.
    pub fn insert(&mut self, id: CandidateId, candidate: Candidate)
        requires
            old(self).wf(),
            candidate.id == id,
        ensures
            final(self).wf(),
            final(self).spec_get(id) == Some(candidate),
            forall|other: CandidateId|
                other != id ==> #[trigger] final(self).spec_get(other) == old(self).spec_get(
                    other,
                ),
            final(self).spec_contains(id),
            forall|other: CandidateId|
                old(self).spec_contains(other) ==> #[trigger] final(self).spec_contains(other),
            old(self).spec_contains(id) ==> final(self).entries@.len() == old(
                self,
            ).entries@.len(),
            !old(self).spec_contains(id) ==> final(self).entries@.len() == old(
                self,
            ).entries@.len() + 1,
    {
        proof {
            lemma_assoc_find_position(self.entries@, id);
        }
        match self.position(id) {
            Some(i) => {
                self.entries.set(i, (id, candidate));
                proof {
                    lemma_assoc_find_update(old(self).entries@, self.entries@, i as int, id);
                    assert(self.entries@[i as int].0 == id);
                    assert forall|a: int|
                        0 <= a < self.entries@.len() implies (#[trigger] self
                        .entries@[a]).1.id == self.entries@[a].0 by {
                        if a != i {
                            assert(self.entries@[a] == old(self).entries@[a]);
                        }
                    }
                    assert forall|other: CandidateId|
                        old(self).spec_contains(other) implies #[trigger] self.spec_contains(
                        other,
                    ) by {
                        let j = choose|j: int|
                            0 <= j < old(self).entries@.len() && (#[trigger] old(
                                self,
                            ).entries@[j]).0 == other;
                        if j != i {
                            assert(self.entries@[j].0 == other);
                        }
                    }
                }
            },
            None => {
                self.entries.push((id, candidate));
                proof {
                    lemma_assoc_find_push(old(self).entries@, id, candidate);
                    assert(self.entries@[old(self).entries@.len() as int].0 == id);
                    assert forall|a: int|
                        0 <= a < self.entries@.len() implies (#[trigger] self
                        .entries@[a]).1.id == self.entries@[a].0 by {
                        if a < old(self).entries@.len() {
                            assert(self.entries@[a] == old(self).entries@[a]);
                        }
                    }
                    assert forall|other: CandidateId|
                        old(self).spec_contains(other) implies #[trigger] self.spec_contains(
                        other,
                    ) by {
                        let j = choose|j: int|
                            0 <= j < old(self).entries@.len() && (#[trigger] old(
                                self,
                            ).entries@[j]).0 == other;
                        assert(self.entries@[j].0 == other);
                    }
                }
            },
        }
    }

    /// All candidate ids, in insertion order.
    pub fn ids(&self) -> (r: Vec<CandidateId>)
        ensures
            r@.len() == self.entries@.len(),
            forall|i: int| 0 <= i < r@.len() ==> r@[i] == (#[trigger] self.entries@[i]).0,
    {
        let mut r: Vec<CandidateId> = Vec::new();
        let mut i: usize = 0;
        while i < self.entries.len()
            invariant
                i <= self.entries@.len(),
                r@.len() == i,
                forall|j: int| 0 <= j < i ==> r@[j] == (#[trigger] self.entries@[j]).0,
            decreases self.entries@.len() - i,
        {
            r.push(self.entries[i].0);
            i = i + 1;
        }
        r
    }
}

/// Relates `assoc_find` to positional search when keys are unique.
proof fn lemma_assoc_find_position(s: Seq<(CandidateId, Candidate)>, id: CandidateId)
    ensures
        (exists|i: int| 0 <= i < s.len() && (#[trigger] s[i]).0 == id) <==> assoc_find(s, id)
            is Some,
        forall|i: int|
            0 <= i < s.len() && (#[trigger] s[i]).0 == id && (forall|j: int|
                0 <= j < i ==> (#[trigger] s[j]).0 != id) ==> assoc_find(s, id) == Some(s[i].1),
    decreases s.len(),
{
    if s.len() > 0 {
        lemma_assoc_find_position(s.drop_first(), id);
        assert forall|i: int|
            0 <= i < s.len() && (#[trigger] s[i]).0 == id && (forall|j: int|
                0 <= j < i ==> (#[trigger] s[j]).0 != id) implies assoc_find(s, id) == Some(
            s[i].1,
        ) by {
            if i > 0 {
                assert(s[0].0 != id);
                assert(s.drop_first()[i - 1].0 == id);
                assert(forall|j: int| 0 <= j < i - 1 ==> (#[trigger] s.drop_first()[j]).0 != id);
            }
        }
        if assoc_find(s, id) is Some && s[0].0 != id {
            let i = choose|i: int|
                0 <= i < s.drop_first().len() && (#[trigger] s.drop_first()[i]).0 == id;
            assert(s[i + 1].0 == id);
        }
        if exists|i: int| 0 <= i < s.len() && (#[trigger] s[i]).0 == id {
            let i = choose|i: int| 0 <= i < s.len() && (#[trigger] s[i]).0 == id;
            if i > 0 && s[0].0 != id {
                assert(s.drop_first()[i - 1].0 == id);
            }
        }
    }
}

proof fn lemma_assoc_find_update(
    prev: Seq<(CandidateId, Candidate)>,
    cur: Seq<(CandidateId, Candidate)>,
    i: int,
    id: CandidateId,
)
    requires
        0 <= i < prev.len(),
        cur == prev.update(i, (id, cur[i].1)),
        prev[i].0 == id,
        forall|a: int, b: int|
            0 <= a < b < prev.len() ==> (#[trigger] prev[a]).0 != (#[trigger] prev[b]).0,
    ensures
        assoc_find(cur, id) == Some(cur[i].1),
        forall|other: CandidateId|
            other != id ==> #[trigger] assoc_find(cur, other) == assoc_find(prev, other),
    decreases prev.len(),
{
    if i == 0 {
        assert(cur.drop_first() =~= prev.drop_first());
        assert(cur[0].0 == id);
        assert forall|other: CandidateId| other != id implies #[trigger] assoc_find(cur, other)
            == assoc_find(prev, other) by {
            assert(assoc_find(cur, other) == assoc_find(cur.drop_first(), other));
            assert(assoc_find(prev, other) == assoc_find(prev.drop_first(), other));
        }
    } else {
        assert(cur[0] == prev[0]);
        assert(cur.drop_first() =~= prev.drop_first().update(i - 1, (id, cur[i].1)));
        lemma_assoc_find_update(prev.drop_first(), cur.drop_first(), i - 1, id);
        assert(cur[0].0 != id);
        assert(assoc_find(cur, id) == assoc_find(cur.drop_first(), id));
        assert forall|other: CandidateId| other != id implies #[trigger] assoc_find(cur, other)
            == assoc_find(prev, other) by {
            if cur[0].0 != other {
                assert(assoc_find(cur, other) == assoc_find(cur.drop_first(), other));
                assert(assoc_find(prev, other) == assoc_find(prev.drop_first(), other));
            }
        }
    }
}

impl CandidateMap {
    /// A contained id is found by `spec_get`.
    pub proof fn lemma_contains_get(self, id: CandidateId)
        requires
            self.spec_contains(id),
        ensures
            self.spec_get(id) is Some,
    {
        lemma_assoc_find_position(self.entries@, id);
    }

    /// Membership and a successful lookup coincide.
    pub proof fn lemma_contains_iff(self, id: CandidateId)
        ensures
            self.spec_contains(id) <==> self.spec_get(id) is Some,
    {
        lemma_assoc_find_position(self.entries@, id);
    }

    /// The candidate found under an id carries that id.
    pub proof fn lemma_get_id(self, id: CandidateId)
        requires
            self.wf(),
        ensures
            match self.spec_get(id) {
                Some(c) => c.id == id,
                None => true,
            },
    {
        lemma_assoc_find_field(self.entries@, id);
    }
}

proof fn lemma_assoc_find_field(s: Seq<(CandidateId, Candidate)>, id: CandidateId)
    requires
        forall|i: int| 0 <= i < s.len() ==> (#[trigger] s[i]).1.id == s[i].0,
    ensures
        match assoc_find(s, id) {
            Some(c) => c.id == id,
            None => true,
        },
    decreases s.len(),
{
    if s.len() > 0 && s[0].0 != id {
        assert(forall|i: int|
            0 <= i < s.drop_first().len() ==> (#[trigger] s.drop_first()[i]).1.id
                == s.drop_first()[i].0);
        lemma_assoc_find_field(s.drop_first(), id);
    }
}

proof fn lemma_assoc_find_push(
    prev: Seq<(CandidateId, Candidate)>,
    id: CandidateId,
    candidate: Candidate,
)
    requires
        forall|j: int| 0 <= j < prev.len() ==> (#[trigger] prev[j]).0 != id,
    ensures
        assoc_find(prev.push((id, candidate)), id) == Some(candidate),
        forall|other: CandidateId|
            other != id ==> #[trigger] assoc_find(prev.push((id, candidate)), other)
                == assoc_find(prev, other),
    decreases prev.len(),
{
    let cur = prev.push((id, candidate));
    if prev.len() == 0 {
        assert(cur[0].0 == id);
        assert forall|other: CandidateId| other != id implies #[trigger] assoc_find(cur, other)
            == assoc_find(prev, other) by {
            assert(cur.drop_first() =~= Seq::<(CandidateId, Candidate)>::empty());
            assert(assoc_find(cur, other) == assoc_find(cur.drop_first(), other));
        }
    } else {
        assert(cur.drop_first() =~= prev.drop_first().push((id, candidate)));
        lemma_assoc_find_push(prev.drop_first(), id, candidate);
        assert(cur[0] == prev[0]);
        assert(cur[0].0 != id);
        assert(assoc_find(cur, id) == assoc_find(cur.drop_first(), id));
        assert forall|other: CandidateId| other != id implies #[trigger] assoc_find(cur, other)
            == assoc_find(prev, other) by {
            if cur[0].0 != other {
                assert(assoc_find(cur, other) == assoc_find(cur.drop_first(), other));
                assert(assoc_find(prev, other) == assoc_find(prev.drop_first(), other));
            }
        }
    }
}

} // verus!

verus! {

/// The case-folded image of a character sequence, as `str::to_lowercase`
/// computes it; the result depends on the characters alone.
pub uninterp spec fn lower_of(s: Seq<char>) -> Seq<char>;

/// Relies on str::to_lowercase: the lowercase equivalent of the string,
/// a function of its characters alone.
#[verifier::external_body]
fn lowercase(s: &String) -> (r: String)
    ensures
        r@ == lower_of(s@),
{
    s.to_lowercase()
}

/// A sequence contains another as a contiguous run.
pub open spec fn contains_seq(s: Seq<char>, p: Seq<char>) -> bool {
    exists|i: int| 0 <= i && i + p.len() <= s.len() && #[trigger] s.subrange(i, i + p.len()) == p
}

/// Relies on str::contains with a string pattern: true exactly when the
/// pattern occurs as a contiguous substring.
#[verifier::external_body]
fn string_contains(s: &String, pattern: &String) -> (r: bool)
    ensures
        r == contains_seq(s@, pattern@),
{
    s.as_str().contains(pattern.as_str())
}

/// A candidate answers to a user-supplied name when the surnames agree
/// case-insensitively and the given first name occurs in the candidate's
/// other names.
pub open spec fn name_matches(c: Candidate, n: CandidateName) -> bool {
    lower_of(c.surname@) == lower_of(n.last@) && contains_seq(
        lower_of(c.other_names@),
        lower_of(n.first@),
    )
}

/// The first map entry matching the name, if any.
pub open spec fn first_match(s: Seq<(CandidateId, Candidate)>, n: CandidateName) -> Option<
    CandidateId,
>
    decreases s.len(),
{
    if s.len() == 0 {
        None
    } else if name_matches(s[0].1, n) {
        Some(s[0].0)
    } else {
        first_match(s.drop_first(), n)
    }
}

/// The ids found for each name, skipping names that match nobody.
pub open spec fn spec_find_names(
    names: Seq<CandidateName>,
    s: Seq<(CandidateId, Candidate)>,
) -> Seq<CandidateId>
    decreases names.len(),
{
    if names.len() == 0 {
        Seq::empty()
    } else {
        match first_match(s, names[0]) {
            Some(id) => seq![id] + spec_find_names(names.drop_first(), s),
            None => spec_find_names(names.drop_first(), s),
        }
    }
}

/// The candidates of one state, keyed by id.
pub fn get_state_candidates(all_candidates: &Vec<Candidate>, state: &String) -> (m:
    CandidateMap)
    ensures
        m.wf(),
        forall|id: CandidateId|
            #[trigger] m.spec_contains(id) <==> exists|i: int|
                0 <= i < all_candidates@.len() && (#[trigger] all_candidates@[i]).id == id
                    && all_candidates@[i].state@ == state@,
{
    let mut m = CandidateMap::new();
    let mut i: usize = 0;
    while i < all_candidates.len()
        invariant
            i <= all_candidates@.len(),
            m.wf(),
            forall|id: CandidateId|
                #[trigger] m.spec_contains(id) <==> exists|a: int|
                    0 <= a < i && (#[trigger] all_candidates@[a]).id == id
                        && all_candidates@[a].state@ == state@,
        decreases all_candidates@.len() - i,
    {
        let c = &all_candidates[i];
        let ghost prev = m;
        if c.state.eq(state) {
            let copy = c.duplicate();
            m.insert(copy.id, copy);
            proof {
                assert forall|id: CandidateId| #[trigger] m.spec_contains(id) implies exists|
                    a: int,
                |
                    0 <= a < i + 1 && (#[trigger] all_candidates@[a]).id == id
                        && all_candidates@[a].state@ == state@ by {
                    if id != all_candidates@[i as int].id {
                        assert(prev.spec_contains(id)) by {
                            m.lemma_contains_iff(id);
                            prev.lemma_contains_iff(id);
                            assert(m.spec_get(id) == prev.spec_get(id));
                        }
                        let a = choose|a: int|
                            0 <= a < i && (#[trigger] all_candidates@[a]).id == id
                                && all_candidates@[a].state@ == state@;
                        assert(0 <= a < i + 1 && all_candidates@[a].id == id
                            && all_candidates@[a].state@ == state@);
                    } else {
                        assert(all_candidates@[i as int].state@ == state@);
                    }
                }
                assert forall|id: CandidateId|
                    (exists|a: int|
                        0 <= a < i + 1 && (#[trigger] all_candidates@[a]).id == id
                            && all_candidates@[a].state@ == state@) implies #[trigger] m
                    .spec_contains(id) by {
                    let a = choose|a: int|
                        0 <= a < i + 1 && (#[trigger] all_candidates@[a]).id == id
                            && all_candidates@[a].state@ == state@;
                    if a < i {
                        assert(prev.spec_contains(id));
                    }
                }
            }
        } else {
            proof {
                assert forall|id: CandidateId|
                    (exists|a: int|
                        0 <= a < i + 1 && (#[trigger] all_candidates@[a]).id == id
                            && all_candidates@[a].state@ == state@) implies #[trigger] m
                    .spec_contains(id) by {
                    let a = choose|a: int|
                        0 <= a < i + 1 && (#[trigger] all_candidates@[a]).id == id
                            && all_candidates@[a].state@ == state@;
                    assert(a < i);
                }
            }
        }
        i = i + 1;
    }
    m
}

/// The ids of one state's candidates, in canonical (input) order.
pub open spec fn filter_ids(s: Seq<Candidate>, state: Seq<char>) -> Seq<CandidateId>
    decreases s.len(),
{
    if s.len() == 0 {
        Seq::empty()
    } else if s[0].state@ == state {
        seq![s[0].id] + filter_ids(s.drop_first(), state)
    } else {
        filter_ids(s.drop_first(), state)
    }
}

proof fn lemma_filter_ids_snoc(s: Seq<Candidate>, state: Seq<char>, i: int)
    requires
        0 <= i < s.len(),
    ensures
        filter_ids(s.take(i + 1), state) == if s[i].state@ == state {
            filter_ids(s.take(i), state).push(s[i].id)
        } else {
            filter_ids(s.take(i), state)
        },
    decreases i,
{
    if i == 0 {
        assert(s.take(1).drop_first() =~= Seq::<Candidate>::empty());
        assert(s.take(1)[0] == s[0]);
        assert(s.take(0) =~= Seq::<Candidate>::empty());
        if s[0].state@ == state {
            assert(seq![s[0].id] + Seq::<CandidateId>::empty() =~= Seq::<
                CandidateId,
            >::empty().push(s[0].id));
        }
    } else {
        assert(s.take(i + 1)[0] == s[0]);
        assert(s.take(i)[0] == s[0]);
        assert(s.take(i + 1).drop_first() =~= s.drop_first().take(i));
        assert(s.take(i).drop_first() =~= s.drop_first().take(i - 1));
        assert(s.drop_first()[i - 1] == s[i]);
        lemma_filter_ids_snoc(s.drop_first(), state, i - 1);
        if s[i].state@ == state {
            assert(seq![s[0].id] + filter_ids(s.drop_first().take(i - 1), state).push(s[i].id)
                =~= (seq![s[0].id] + filter_ids(s.drop_first().take(i - 1), state)).push(
                s[i].id,
            ));
        }
    }
}

/// Get the list of candidate IDs, in canonical order (used for parsing).
pub fn get_candidate_id_list(all_candidates: &Vec<Candidate>, state: &String) -> (r: Vec<
    CandidateId,
>)
    ensures
        r@ == filter_ids(all_candidates@, state@),
{
    let mut r: Vec<CandidateId> = Vec::new();
    let mut i: usize = 0;
    while i < all_candidates.len()
        invariant
            i <= all_candidates@.len(),
            r@ == filter_ids(all_candidates@.take(i as int), state@),
        decreases all_candidates@.len() - i,
    {
        proof {
            lemma_filter_ids_snoc(all_candidates@, state@, i as int);
        }
        if all_candidates[i].state.eq(state) {
            r.push(all_candidates[i].id);
        }
        i = i + 1;
    }
    proof {
        assert(all_candidates@.take(all_candidates@.len() as int) =~= all_candidates@);
    }
    r
}

/// Convert a list of candidate names into a list of candidate IDs: for
/// each name, the first candidate whose surname matches case-insensitively
/// and whose other names contain the given first name.
pub fn find_candidates_with_names(
    candidate_names: &Vec<CandidateName>,
    candidates: &CandidateMap,
) -> (r: Vec<CandidateId>)
    ensures
        r@ == spec_find_names(candidate_names@, candidates.entries@),
{
    let mut r: Vec<CandidateId> = Vec::new();
    let mut i: usize = 0;
    proof {
        assert(candidate_names@.skip(0) =~= candidate_names@);
        assert(r@ =~= Seq::<CandidateId>::empty());
        assert(Seq::<CandidateId>::empty() + spec_find_names(
            candidate_names@,
            candidates.entries@,
        ) =~= spec_find_names(candidate_names@, candidates.entries@));
    }
    while i < candidate_names.len()
        invariant
            i <= candidate_names@.len(),
            spec_find_names(candidate_names@, candidates.entries@) == r@ + spec_find_names(
                candidate_names@.skip(i as int),
                candidates.entries@,
            ),
        decreases candidate_names@.len() - i,
    {
        proof {
            assert(candidate_names@.skip(i as int)[0] == candidate_names@[i as int]);
            assert(candidate_names@.skip(i as int).drop_first() =~= candidate_names@.skip(
                i + 1,
            ));
        }
        let name = &candidate_names[i];
        let last_lower = lowercase(&name.last);
        let first_lower = lowercase(&name.first);
        let mut j: usize = 0;
        let mut found: Option<CandidateId> = None;
        proof {
            assert(candidates.entries@.skip(0) =~= candidates.entries@);
        }
        while j < candidates.entries.len() && found.is_none()
            invariant
                j <= candidates.entries@.len(),
                i < candidate_names@.len(),
                last_lower@ == lower_of(candidate_names@[i as int].last@),
                first_lower@ == lower_of(candidate_names@[i as int].first@),
                match found {
                    Some(id) => first_match(candidates.entries@, candidate_names@[i as int])
                        == Some(id),
                    None => first_match(candidates.entries@, candidate_names@[i as int])
                        == first_match(
                        candidates.entries@.skip(j as int),
                        candidate_names@[i as int],
                    ),
                },
            decreases candidates.entries@.len() - j + (if found is Some { 0int } else { 1int }),
        {
            proof {
                assert(candidates.entries@.skip(j as int)[0] == candidates.entries@[j as int]);
                assert(candidates.entries@.skip(j as int).drop_first() =~= candidates.entries@
                    .skip(j + 1));
            }
            let c = &candidates.entries[j].1;
            let sl = lowercase(&c.surname);
            let matches = if sl.eq(&last_lower) {
                let ol = lowercase(&c.other_names);
                string_contains(&ol, &first_lower)
            } else {
                false
            };
            if matches {
                proof {
                    assert(name_matches(
                        candidates.entries@[j as int].1,
                        candidate_names@[i as int],
                    ));
                }
                found = Some(candidates.entries[j].0);
            } else {
                proof {
                    assert(!name_matches(
                        candidates.entries@[j as int].1,
                        candidate_names@[i as int],
                    ));
                }
                j = j + 1;
            }
        }
        proof {
            if found is None {
                if j >= candidates.entries@.len() {
                    assert(candidates.entries@.skip(j as int) =~= Seq::<(
                        CandidateId,
                        Candidate,
                    )>::empty());
                }
            }
        }
        let ghost prev_r = r@;
        match found {
            Some(id) => {
                r.push(id);
                proof {
                    assert(r@ =~= prev_r + seq![id]);
                    assert(prev_r + (seq![id] + spec_find_names(
                        candidate_names@.skip(i + 1),
                        candidates.entries@,
                    )) =~= (prev_r + seq![id]) + spec_find_names(
                        candidate_names@.skip(i + 1),
                        candidates.entries@,
                    ));
                }
            },
            None => {},
        }
        i = i + 1;
    }
    proof {
        assert(candidate_names@.skip(candidate_names@.len() as int) =~= Seq::<
            CandidateName,
        >::empty());
        assert(r@ + Seq::<CandidateId>::empty() =~= r@);
    }
    r
}

} // verus!

verus! {

/// Whether a string's UTF-8 encoding equals the given bytes.
pub fn string_bytes_eq(s: &String, expected: &Vec<u8>) -> (r: bool)
    ensures
        r == (vstd::utf8::encode_utf8(s@) == expected@),
{
    let bytes = s.as_str().as_bytes();
    proof {
        assert(bytes@ == vstd::utf8::encode_utf8(s@));
    }
    if bytes.len() != expected.len() {
        proof {
            if bytes@ == expected@ {
                assert(bytes@.len() == expected@.len());
            }
        }
        return false;
    }
    let mut i: usize = 0;
    while i < bytes.len()
        invariant
            i <= bytes@.len(),
            bytes@.len() == expected@.len(),
            bytes@ == vstd::utf8::encode_utf8(s@),
            forall|j: int| 0 <= j < i ==> bytes@[j] == expected@[j],
        decreases bytes@.len() - i,
    {
        if bytes[i] != expected[i] {
            proof {
                if bytes@ == expected@ {
                    assert(bytes@[i as int] == expected@[i as int]);
                }
            }
            return false;
        }
        i = i + 1;
    }
    proof {
        assert(bytes@ =~= expected@);
    }
    true
}

} // verus!

verus! {

impl CandidateMap {
    /// Runtime check of the map invariant (for callers built without one).
    pub fn wf_check(&self) -> (r: bool)
        ensures
            r ==> self.wf(),
    {
        let mut i: usize = 0;
        while i < self.entries.len()
            invariant
                i <= self.entries@.len(),
                forall|a: int, b: int|
                    0 <= a < b < self.entries@.len() && b < i ==> (#[trigger] self
                        .entries@[a]).0 != (#[trigger] self.entries@[b]).0,
                forall|a: int|
                    0 <= a < i ==> (#[trigger] self.entries@[a]).1.id == self.entries@[a].0,
            decreases self.entries@.len() - i,
        {
            if self.entries[i].1.id != self.entries[i].0 {
                return false;
            }
            let mut j: usize = 0;
            while j < i
                invariant
                    j <= i < self.entries@.len(),
                    forall|a: int|
                        0 <= a < j ==> (#[trigger] self.entries@[a]).0 != self.entries@[
                        i as int].0,
                decreases i - j,
            {
                if self.entries[j].0 == self.entries[i].0 {
                    return false;
                }
                j = j + 1;
            }
            i = i + 1;
        }
        true
    }
}

} // verus!
