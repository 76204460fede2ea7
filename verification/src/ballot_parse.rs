//! Ballot validation and normalisation: turning a raw preference string
//! (above-the-line group preferences followed by below-the-line candidate
//! preferences) into a legal preference vector, or a classified error.

use vstd::prelude::*;
use vstd::string::StringSliceAdditionalSpecFns;
use crate::ballot::Ballot;
use crate::candidate::CandidateId;
use crate::group::Group;
use crate::pref_map::{PrefMapOf, spec_insert, has_key, sorted_keys};

verus! {

#[derive(Debug, PartialEq, Eq, Clone)]
pub enum BallotParseErr {
    InvalidBallot(InvalidBallotErr),
    /// An I/O or framing failure in the surrounding reader; unrecoverable.
    InputError(String),
}

#[derive(Debug, PartialEq, Eq, Structural, Clone, Copy, Hash)]
pub enum InvalidBallotErr {
    InvalidCharacter,
    InvalidMinAbove(usize),
    InvalidMaxAbove(usize),
    InvalidMinBelow(usize),
    InvalidMaxBelow(usize),
    InvalidStrict,
    EmptyBallot,
}

/// This type is yielded from iterators used during ballot parsing: a parsed
/// ballot, a recoverable per-ballot error, or an unrecoverable input error.
pub type IOBallot = Result<Ballot, BallotParseErr>;

#[derive(Debug, Clone, Copy, PartialEq, Eq, Structural)]
pub enum ChoiceConstraint {
    Strict,
    PreferAbove,
    PreferBelow,
}

#[derive(Debug, Clone, Copy, PartialEq, Eq, Structural)]
pub enum CountConstraint {
    MinAbove(usize),
    MaxAbove(usize),
    MinBelow(usize),
    MaxBelow(usize),
}

pub struct Constraints {
    pub choice: ChoiceConstraint,
    pub counts: Vec<CountConstraint>,
}

/// Mapping from preferences to candidate IDs (below the line voting).
pub type PrefMap = PrefMapOf<CandidateId>;

/// Mapping from preferences to indices of groups (above the line voting).
pub type GroupPrefMap = PrefMapOf<usize>;

// ------------------------------------------------------------------
// Per-field recognition
// ------------------------------------------------------------------

/// What one comma-separated field of the preference string denotes.
#[derive(Debug, PartialEq, Eq, Structural, Clone, Copy)]
pub enum PrefField {
    /// Empty field: no preference given.
    Absent,
    /// A preference number (at least one).
    Pref(u32),
    /// Anything else.
    Invalid,
}

pub open spec fn is_digit(b: u8) -> bool {
    48 <= b <= 57
}

pub open spec fn all_digits(f: Seq<u8>) -> bool {
    forall|i: int| 0 <= i < f.len() ==> is_digit(#[trigger] f[i])
}

/// The number denoted by a sequence of decimal digits.
pub open spec fn digits_val(f: Seq<u8>) -> int
    decreases f.len(),
{
    if f.len() == 0 {
        0
    } else {
        digits_val(f.drop_last()) * 10 + (f.last() - 48)
    }
}

/// Field recognition: empty means absent; `*` and `/` mean the literal
/// preference one; otherwise a decimal integer at least one.
pub open spec fn spec_field(f: Seq<u8>) -> PrefField {
    if f.len() == 0 {
        PrefField::Absent
    } else if f.len() == 1 && (f[0] == 42 || f[0] == 47) {
        PrefField::Pref(1)
    } else if all_digits(f) && 1 <= digits_val(f) <= u32::MAX {
        PrefField::Pref(digits_val(f) as u32)
    } else {
        PrefField::Invalid
    }
}

proof fn lemma_digits_val_nonneg(f: Seq<u8>)
    requires
        all_digits(f),
    ensures
        digits_val(f) >= 0,
    decreases f.len(),
{
    if f.len() > 0 {
        assert(all_digits(f.drop_last())) by {
            assert(forall|i: int| 0 <= i < f.len() - 1 ==> is_digit(#[trigger] f[i]));
        }
        lemma_digits_val_nonneg(f.drop_last());
    }
}

/// Appending digits never decreases the denoted value.
proof fn lemma_digits_val_monotone(f: Seq<u8>, i: int)
    requires
        all_digits(f),
        0 <= i <= f.len(),
    ensures
        digits_val(f.take(i)) <= digits_val(f),
    decreases f.len() - i,
{
    if i < f.len() {
        lemma_digits_val_monotone(f, i + 1);
        assert(f.take(i + 1).drop_last() =~= f.take(i));
        assert(all_digits(f.take(i))) by {
            assert(forall|j: int| 0 <= j < i ==> f.take(i)[j] == f[j]);
        }
        lemma_digits_val_nonneg(f.take(i));
        assert(digits_val(f.take(i + 1)) == digits_val(f.take(i)) * 10 + (f[i] - 48));
        assert(digits_val(f.take(i)) * 10 >= digits_val(f.take(i))) by (nonlinear_arith)
            requires digits_val(f.take(i)) >= 0;
    } else {
        assert(f.take(i) =~= f);
    }
}

/// Classify one field of the preference string.
pub fn parse_field(f: &Vec<u8>) -> (r: PrefField)
    ensures
        r == spec_field(f@),
{
    if f.len() == 0 {
        return PrefField::Absent;
    }
    if f.len() == 1 && (f[0] == 42 || f[0] == 47) {
        return PrefField::Pref(1);
    }
    let mut val: u64 = 0;
    let mut i: usize = 0;
    while i < f.len()
        invariant
            0 < i <= f.len() || i == 0,
            forall|j: int| 0 <= j < i ==> is_digit(#[trigger] f@[j]),
            val == digits_val(f@.take(i as int)),
            val <= u32::MAX,
            f@.len() > 0,
            !(f@.len() == 1 && (f@[0] == 42 || f@[0] == 47)),
        decreases f@.len() - i,
    {
        let b = f[i];
        if b < 48 || b > 57 {
            assert(!all_digits(f@));
            return PrefField::Invalid;
        }
        proof {
            assert(f@.take(i + 1).drop_last() =~= f@.take(i as int));
        }
        let next = val * 10 + ((b - 48) as u64);
        if next > u32::MAX as u64 {
            proof {
                if all_digits(f@) {
                    lemma_digits_val_monotone(f@, i + 1);
                }
            }
            return PrefField::Invalid;
        }
        val = next;
        i = i + 1;
    }
    proof {
        assert(f@.take(f@.len() as int) =~= f@);
    }
    if val >= 1 {
        PrefField::Pref(val as u32)
    } else {
        PrefField::Invalid
    }
}

// ------------------------------------------------------------------
// Splitting the preference string into fields
// ------------------------------------------------------------------

/// Position of the first comma at or after `i`, or the length.
pub open spec fn find_comma_from(s: Seq<u8>, i: int) -> int
    decreases s.len() - i,
{
    if i < 0 || i >= s.len() {
        s.len() as int
    } else if s[i] == 44 {
        i
    } else {
        find_comma_from(s, i + 1)
    }
}

/// The comma-separated fields of `s`, starting at `p`.
pub open spec fn split_from(s: Seq<u8>, p: int) -> Seq<Seq<u8>>
    decreases s.len() - p,
    via split_from_decreases
{
    let c = find_comma_from(s, p);
    if p < 0 || c >= s.len() {
        seq![s.subrange(if 0 <= p <= s.len() { p } else { s.len() as int }, s.len() as int)]
    } else {
        seq![s.subrange(p, c)] + split_from(s, c + 1)
    }
}

#[via_fn]
proof fn split_from_decreases(s: Seq<u8>, p: int) {
    if 0 <= p <= s.len() {
        lemma_find_comma_bounds(s, p);
    }
}

/// All comma-separated fields of `s`.
pub open spec fn spec_split(s: Seq<u8>) -> Seq<Seq<u8>> {
    split_from(s, 0)
}

proof fn lemma_find_comma_bounds(s: Seq<u8>, i: int)
    requires
        0 <= i <= s.len(),
    ensures
        i <= find_comma_from(s, i) <= s.len(),
        forall|j: int| i <= j < find_comma_from(s, i) ==> s[j] != 44,
        find_comma_from(s, i) < s.len() ==> s[find_comma_from(s, i)] == 44,
    decreases s.len() - i,
{
    if i < s.len() && s[i] != 44 {
        lemma_find_comma_bounds(s, i + 1);
    }
}

/// Split the preference string on commas.
pub fn split_fields(s: &str) -> (fields: Vec<Vec<u8>>)
    ensures
        fields@.map_values(|f: Vec<u8>| f@) == spec_split(s.spec_bytes()),
        fields@.len() >= 1,
{
    let bytes = s.as_bytes();
    let ghost full = s.spec_bytes();
    let mut fields: Vec<Vec<u8>> = Vec::new();
    let mut start: usize = 0;
    loop
        invariant
            start <= bytes@.len(),
            bytes@ == full,
            full == s.spec_bytes(),
            spec_split(full) == fields@.map_values(|f: Vec<u8>| f@) + split_from(
                full,
                start as int,
            ),
        decreases bytes@.len() - start + 1,
    {
        let mut field: Vec<u8> = Vec::new();
        let mut j: usize = start;
        while j < bytes.len() && bytes[j] != 44
            invariant
                start <= j <= bytes@.len(),
                bytes@ == full,
                field@ == full.subrange(start as int, j as int),
                forall|k: int| start <= k < j ==> full[k] != 44,
            decreases bytes@.len() - j,
        {
            field.push(bytes[j]);
            proof {
                assert(field@ =~= full.subrange(start as int, j + 1));
            }
            j = j + 1;
        }
        proof {
            lemma_find_comma_unique(full, start as int, j as int);
        }
        let ghost prev_views = fields@.map_values(|f: Vec<u8>| f@);
        if j < bytes.len() {
            // a comma: this field is done, the next starts after it
            fields.push(field);
            proof {
                assert(fields@.map_values(|f: Vec<u8>| f@) =~~= prev_views.push(field@));
                assert(split_from(full, start as int) == seq![field@] + split_from(
                    full,
                    j + 1,
                ));
                assert(prev_views.push(field@) + split_from(full, j + 1) =~~= prev_views + (
                seq![field@] + split_from(full, j + 1)));
            }
            start = j + 1;
        } else {
            // end of input: the final field
            fields.push(field);
            proof {
                assert(field@ == full.subrange(start as int, full.len() as int));
                assert(split_from(full, start as int) == seq![field@]);
                assert(fields@.map_values(|f: Vec<u8>| f@) =~~= prev_views.push(field@));
                assert(prev_views.push(field@) =~~= prev_views + seq![field@]);
            }
            return fields;
        }
    }
}

/// If no comma lies in `[start, j)` and `j` is a comma or the end, then `j`
/// is the first comma position from `start`.
proof fn lemma_find_comma_unique(s: Seq<u8>, start: int, j: int)
    requires
        0 <= start <= j <= s.len(),
        forall|k: int| start <= k < j ==> s[k] != 44,
        j < s.len() ==> s[j] == 44,
    ensures
        find_comma_from(s, start) == if j < s.len() { j } else { s.len() as int },
    decreases j - start,
{
    if start < j {
        lemma_find_comma_unique(s, start + 1, j);
    }
}

// ------------------------------------------------------------------
// Building the preference maps
// ------------------------------------------------------------------

/// Combine a previous cutoff with a newly repeated preference.
pub open spec fn combine_cutoff(cut: Option<u32>, p: u32) -> Option<u32> {
    match cut {
        Some(c) => Some(if p < c { p } else { c }),
        None => Some(p),
    }
}

/// The ordered preference map and repeat cutoff denoted by a run of fields,
/// where field `i` carries `vals[i]`; the first unrecognised field fails.
pub open spec fn spec_build<T>(
    fields: Seq<Seq<u8>>,
    vals: Seq<T>,
    i: int,
    acc: Seq<(u32, T)>,
    cut: Option<u32>,
) -> Result<(Seq<(u32, T)>, Option<u32>), InvalidBallotErr>
    decreases fields.len() - i,
{
    if i < 0 || i >= fields.len() {
        Ok((acc, cut))
    } else {
        match spec_field(fields[i]) {
            PrefField::Absent => spec_build(fields, vals, i + 1, acc, cut),
            PrefField::Invalid => Err(InvalidBallotErr::InvalidCharacter),
            PrefField::Pref(p) => spec_build(
                fields,
                vals,
                i + 1,
                spec_insert(acc, p, vals[i]),
                if has_key(acc, p) {
                    combine_cutoff(cut, p)
                } else {
                    cut
                },
            ),
        }
    }
}

/// Build the below-the-line preference map from fields `start..end`, where
/// relative field `i` stands for `candidates[i]`.
pub fn create_pref_map(
    fields: &Vec<Vec<u8>>,
    start: usize,
    end: usize,
    candidates: &Vec<CandidateId>,
) -> (r: Result<(PrefMap, Option<u32>), BallotParseErr>)
    requires
        start <= end <= fields@.len(),
        end - start <= candidates@.len(),
    ensures
        ({
            let spec_r = spec_build(
                fields@.map_values(|f: Vec<u8>| f@).subrange(start as int, end as int),
                candidates@,
                0,
                Seq::empty(),
                None,
            );
            match r {
                Ok((m, cut)) => {
                    &&& m.wf()
                    &&& m.entries@.len() <= end - start
                    &&& spec_r == Ok::<_, InvalidBallotErr>((m.entries@, cut))
                },
                Err(BallotParseErr::InvalidBallot(e)) => spec_r == Err::<
                    (Seq<(u32, CandidateId)>, Option<u32>),
                    _,
                >(e),
                Err(BallotParseErr::InputError(_)) => false,
            }
        }),
{
    let ghost sub = fields@.map_values(|f: Vec<u8>| f@).subrange(start as int, end as int);
    let ghost vals = candidates@;
    let mut map = PrefMapOf::<CandidateId>::new();
    let mut cutoff: Option<u32> = None;
    let mut k: usize = 0;
    proof {
        assert(map.entries@ =~= Seq::<(u32, CandidateId)>::empty());
    }
    while k < end - start
        invariant
            start <= end <= fields@.len(),
            end - start <= candidates@.len(),
            k <= end - start,
            map.wf(),
            map.entries@.len() <= k,
            sub == fields@.map_values(|f: Vec<u8>| f@).subrange(start as int, end as int),
            vals == candidates@,
            spec_build(sub, vals, 0, Seq::empty(), None) == spec_build(
                sub,
                vals,
                k as int,
                map.entries@,
                cutoff,
            ),
        decreases end - start - k,
    {
        proof {
            assert(sub[k as int] == fields@[start + k]@);
        }
        match parse_field(&fields[start + k]) {
            PrefField::Absent => {},
            PrefField::Invalid => {
                return Err(BallotParseErr::InvalidBallot(InvalidBallotErr::InvalidCharacter));
            },
            PrefField::Pref(p) => {
                let ghost prev = map.entries@;
                let had = map.insert(p, candidates[k]);
                if had {
                    cutoff = match cutoff {
                        Some(c) => Some(if p < c { p } else { c }),
                        None => Some(p),
                    };
                }
                proof {
                    crate::pref_map::lemma_spec_insert_facts(prev, p, candidates@[k as int]);
                }
            },
        }
        k = k + 1;
    }
    Ok((map, cutoff))
}

/// Build the above-the-line preference map from fields `start..end`, where
/// relative field `i` stands for the group at index `i`.
pub fn create_group_pref_map(
    fields: &Vec<Vec<u8>>,
    start: usize,
    end: usize,
    groups: &Vec<Group>,
) -> (r: Result<(GroupPrefMap, Option<u32>), BallotParseErr>)
    requires
        start <= end <= fields@.len(),
        end - start <= groups@.len(),
    ensures
        ({
            let spec_r = spec_build(
                fields@.map_values(|f: Vec<u8>| f@).subrange(start as int, end as int),
                Seq::new(groups@.len(), |i: int| i as usize),
                0,
                Seq::empty(),
                None,
            );
            match r {
                Ok((m, cut)) => {
                    &&& m.wf()
                    &&& m.entries@.len() <= end - start
                    &&& spec_r == Ok::<_, InvalidBallotErr>((m.entries@, cut))
                    &&& forall|i: int|
                        0 <= i < m.entries@.len() ==> (#[trigger] m.entries@[i]).1
                            < groups@.len()
                },
                Err(BallotParseErr::InvalidBallot(e)) => spec_r == Err::<
                    (Seq<(u32, usize)>, Option<u32>),
                    _,
                >(e),
                Err(BallotParseErr::InputError(_)) => false,
            }
        }),
{
    let ghost sub = fields@.map_values(|f: Vec<u8>| f@).subrange(start as int, end as int);
    let ghost vals = Seq::new(groups@.len(), |i: int| i as usize);
    let mut map = PrefMapOf::<usize>::new();
    let mut cutoff: Option<u32> = None;
    let mut k: usize = 0;
    proof {
        assert(map.entries@ =~= Seq::<(u32, usize)>::empty());
    }
    while k < end - start
        invariant
            start <= end <= fields@.len(),
            end - start <= groups@.len(),
            k <= end - start,
            map.wf(),
            map.entries@.len() <= k,
            sub == fields@.map_values(|f: Vec<u8>| f@).subrange(start as int, end as int),
            vals == Seq::new(groups@.len(), |i: int| i as usize),
            forall|i: int|
                0 <= i < map.entries@.len() ==> (#[trigger] map.entries@[i]).1 < groups@.len(),
            spec_build(sub, vals, 0, Seq::empty(), None) == spec_build(
                sub,
                vals,
                k as int,
                map.entries@,
                cutoff,
            ),
        decreases end - start - k,
    {
        proof {
            assert(sub[k as int] == fields@[start + k]@);
            assert(vals[k as int] == k as usize);
        }
        match parse_field(&fields[start + k]) {
            PrefField::Absent => {},
            PrefField::Invalid => {
                return Err(BallotParseErr::InvalidBallot(InvalidBallotErr::InvalidCharacter));
            },
            PrefField::Pref(p) => {
                let ghost prev = map.entries@;
                let had = map.insert(p, k);
                if had {
                    cutoff = match cutoff {
                        Some(c) => Some(if p < c { p } else { c }),
                        None => Some(p),
                    };
                }
                proof {
                    crate::pref_map::lemma_spec_insert_facts(prev, p, k as usize);
                    crate::pref_map::lemma_insert_values_bound(
                        prev,
                        p,
                        k as usize,
                        groups@.len() as int,
                    );
                }
            },
        }
        k = k + 1;
    }
    Ok((map, cutoff))
}

// ------------------------------------------------------------------
// Repeats and gaps
// ------------------------------------------------------------------

/// Length of the longest prefix whose keys are exactly `1, 2, 3, ...`.
pub open spec fn gap_from<T>(s: Seq<(u32, T)>, i: int) -> int
    decreases s.len() - i,
{
    if i < 0 || i >= s.len() {
        s.len() as int
    } else if s[i].0 != i + 1 {
        i
    } else {
        gap_from(s, i + 1)
    }
}

/// Number of entries with keys below `c`.
pub open spec fn lower_bound<T>(s: Seq<(u32, T)>, c: u32) -> int
    decreases s.len(),
{
    if s.len() == 0 {
        0
    } else if s[0].0 < c {
        1 + lower_bound(s.drop_first(), c)
    } else {
        0
    }
}

/// The pruned map: entries kept after applying the repeat cutoff and the
/// first gap in the ascending preference numbers.
pub open spec fn spec_prune<T>(s: Seq<(u32, T)>, cut: Option<u32>) -> Seq<(u32, T)> {
    let g = gap_from(s, 0);
    let missing: Option<u32> = if g == s.len() {
        None
    } else {
        Some((g + 1) as u32)
    };
    let new_cut: Option<u32> = match (cut, missing) {
        (Some(a), Some(b)) => Some(if a < b { a } else { b }),
        (Some(a), None) => Some(a),
        (None, x) => x,
    };
    match new_cut {
        Some(c) => s.take(lower_bound(s, c)),
        None => s,
    }
}

/// Apply the repeat cutoff and gap rule; an empty result is an invalid
/// (empty) ballot.
pub fn remove_repeats_and_gaps<T>(map: PrefMapOf<T>, cutoff: Option<u32>) -> (r: Result<
    PrefMapOf<T>,
    BallotParseErr,
>)
    requires
        map.wf(),
        map.entries@.len() <= u32::MAX,
    ensures
        ({
            let pruned = spec_prune(map.entries@, cutoff);
            match r {
                Ok(m) => m.wf() && m.entries@ == pruned && pruned.len() > 0,
                Err(e) => e == BallotParseErr::InvalidBallot(InvalidBallotErr::EmptyBallot)
                    && pruned.len() == 0,
            }
        }),
{
    let mut map = map;
    let ghost orig = map.entries@;
    // find the first gap in the ascending preference numbers
    let mut g: usize = 0;
    while g < map.entries.len() && map.entries[g].0 == (g as u32) + 1
        invariant
            g <= map.entries@.len(),
            map.entries@.len() <= u32::MAX,
            map.entries@ == orig,
            forall|j: int| 0 <= j < g ==> (#[trigger] map.entries@[j]).0 == j + 1,
        decreases map.entries@.len() - g,
    {
        g = g + 1;
    }
    proof {
        lemma_gap_from_unique(map.entries@, 0, g as int);
    }
    let missing: Option<u32> = if g == map.entries.len() {
        None
    } else {
        Some((g as u32) + 1)
    };
    let new_cut: Option<u32> = match (cutoff, missing) {
        (Some(a), Some(b)) => Some(if a < b { a } else { b }),
        (Some(a), None) => Some(a),
        (None, x) => x,
    };
    if let Some(c) = new_cut {
        // keep only the entries with preference below the cutoff
        let mut p: usize = 0;
        while p < map.entries.len() && map.entries[p].0 < c
            invariant
                p <= map.entries@.len(),
                map.wf(),
                map.entries@ == orig,
                forall|j: int| 0 <= j < p ==> (#[trigger] map.entries@[j]).0 < c,
            decreases map.entries@.len() - p,
        {
            p = p + 1;
        }
        proof {
            lemma_lower_bound_unique(map.entries@, c, p as int);
        }
        map.entries.truncate(p);
        proof {
            assert(map.entries@ =~= orig.take(p as int));
            assert(map.entries@ == spec_prune(orig, cutoff));
            assert(sorted_keys(map.entries@)) by {
                assert(forall|a: int| 0 <= a < p ==> map.entries@[a] == orig[a]);
            }
        }
    }
    proof {
        assert(map.entries@ == spec_prune(orig, cutoff));
    }
    if map.entries.len() > 0 {
        Ok(map)
    } else {
        Err(BallotParseErr::InvalidBallot(InvalidBallotErr::EmptyBallot))
    }
}

proof fn lemma_gap_from_unique<T>(s: Seq<(u32, T)>, i: int, g: int)
    requires
        0 <= i <= g <= s.len(),
        forall|j: int| i <= j < g ==> (#[trigger] s[j]).0 == j + 1,
        g < s.len() ==> s[g].0 != g + 1,
    ensures
        gap_from(s, i) == g,
    decreases g - i,
{
    if i < g {
        lemma_gap_from_unique(s, i + 1, g);
    }
}

/// The count of below-cutoff entries is within range.
pub proof fn lemma_lower_bound_range<T>(s: Seq<(u32, T)>, c: u32)
    ensures
        0 <= lower_bound(s, c) <= s.len(),
    decreases s.len(),
{
    if s.len() > 0 && s[0].0 < c {
        lemma_lower_bound_range(s.drop_first(), c);
    }
}

proof fn lemma_lower_bound_unique<T>(s: Seq<(u32, T)>, c: u32, p: int)
    requires
        sorted_keys(s),
        0 <= p <= s.len(),
        forall|j: int| 0 <= j < p ==> (#[trigger] s[j]).0 < c,
        p < s.len() ==> s[p].0 >= c,
    ensures
        lower_bound(s, c) == p,
    decreases s.len(),
{
    if s.len() > 0 {
        if p == 0 {
            assert(s[0].0 >= c);
        } else {
            assert(s[0].0 < c);
            assert forall|j: int| 0 <= j < p - 1 implies (#[trigger] s.drop_first()[j]).0
                < c by {
                assert(s[j + 1].0 < c);
            }
            if p - 1 < s.drop_first().len() {
                assert(s.drop_first()[p - 1].0 == s[p as int].0);
            }
            lemma_lower_bound_unique(s.drop_first(), c, p - 1);
        }
    }
}

} // verus!

verus! {

// ------------------------------------------------------------------
// Count constraints
// ------------------------------------------------------------------

/// First above-the-line count bound that `len` violates, if any.
pub open spec fn spec_check_above(counts: Seq<CountConstraint>, len: int) -> Option<
    InvalidBallotErr,
>
    decreases counts.len(),
{
    if counts.len() == 0 {
        None
    } else {
        match counts[0] {
            CountConstraint::MinAbove(m) => if len < m {
                Some(InvalidBallotErr::InvalidMinAbove(len as usize))
            } else {
                spec_check_above(counts.drop_first(), len)
            },
            CountConstraint::MaxAbove(m) => if len > m {
                Some(InvalidBallotErr::InvalidMaxAbove(len as usize))
            } else {
                spec_check_above(counts.drop_first(), len)
            },
            _ => spec_check_above(counts.drop_first(), len),
        }
    }
}

/// First below-the-line count bound that `len` violates, if any.
pub open spec fn spec_check_below(counts: Seq<CountConstraint>, len: int) -> Option<
    InvalidBallotErr,
>
    decreases counts.len(),
{
    if counts.len() == 0 {
        None
    } else {
        match counts[0] {
            CountConstraint::MinBelow(m) => if len < m {
                Some(InvalidBallotErr::InvalidMinBelow(len as usize))
            } else {
                spec_check_below(counts.drop_first(), len)
            },
            CountConstraint::MaxBelow(m) => if len > m {
                Some(InvalidBallotErr::InvalidMaxBelow(len as usize))
            } else {
                spec_check_below(counts.drop_first(), len)
            },
            _ => spec_check_below(counts.drop_first(), len),
        }
    }
}

impl Constraints {
    /// The official 2016 rules: prefer below-the-line votes (Section 269(2)
    /// of the Electoral Act), at least one group preference or at least six
    /// candidate preferences.
    pub fn official() -> (c: Constraints)
        ensures
            c.choice == ChoiceConstraint::PreferBelow,
            c.counts@ == seq![
                CountConstraint::MinAbove(1),
                CountConstraint::MinBelow(6),
            ],
    {
        let counts = vec![CountConstraint::MinAbove(1), CountConstraint::MinBelow(6)];
        proof {
            assert(counts@ =~= seq![
                CountConstraint::MinAbove(1),
                CountConstraint::MinBelow(6),
            ]);
        }
        Constraints { choice: ChoiceConstraint::PreferBelow, counts }
    }

    /// A vote of `vote_length` preferences meets a lower bound.
    pub fn check_min(vote_length: usize, min: usize) -> (ok: bool)
        ensures
            ok == (vote_length >= min),
    {
        vote_length >= min
    }

    /// A vote of `vote_length` preferences meets an upper bound.
    pub fn check_max(vote_length: usize, max: usize) -> (ok: bool)
        ensures
            ok == (vote_length <= max),
    {
        vote_length <= max
    }

    /// Validate an above the line vote of `vote_length` preferences.
    pub fn check_above(&self, vote_length: usize) -> (r: Result<(), BallotParseErr>)
        ensures
            match r {
                Ok(()) => spec_check_above(self.counts@, vote_length as int) is None,
                Err(BallotParseErr::InvalidBallot(e)) => spec_check_above(
                    self.counts@,
                    vote_length as int,
                ) == Some(e),
                Err(BallotParseErr::InputError(_)) => false,
            },
    {
        let mut i: usize = 0;
        proof {
            assert(self.counts@.skip(0) =~= self.counts@);
        }
        while i < self.counts.len()
            invariant
                i <= self.counts@.len(),
                spec_check_above(self.counts@, vote_length as int) == spec_check_above(
                    self.counts@.skip(i as int),
                    vote_length as int,
                ),
            decreases self.counts@.len() - i,
        {
            proof {
                assert(self.counts@.skip(i as int).drop_first() =~= self.counts@.skip(i + 1));
                assert(self.counts@.skip(i as int)[0] == self.counts@[i as int]);
            }
            match self.counts[i] {
                CountConstraint::MinAbove(m) => {
                    if !Constraints::check_min(vote_length, m) {
                        return Err(BallotParseErr::InvalidBallot(
                            InvalidBallotErr::InvalidMinAbove(vote_length),
                        ));
                    }
                },
                CountConstraint::MaxAbove(m) => {
                    if !Constraints::check_max(vote_length, m) {
                        return Err(BallotParseErr::InvalidBallot(
                            InvalidBallotErr::InvalidMaxAbove(vote_length),
                        ));
                    }
                },
                _ => {},
            }
            i = i + 1;
        }
        proof {
            assert(self.counts@.skip(self.counts@.len() as int) =~= Seq::<
                CountConstraint,
            >::empty());
        }
        Ok(())
    }

    /// Validate a below the line vote of `vote_length` preferences.
    pub fn check_below(&self, vote_length: usize) -> (r: Result<(), BallotParseErr>)
        ensures
            match r {
                Ok(()) => spec_check_below(self.counts@, vote_length as int) is None,
                Err(BallotParseErr::InvalidBallot(e)) => spec_check_below(
                    self.counts@,
                    vote_length as int,
                ) == Some(e),
                Err(BallotParseErr::InputError(_)) => false,
            },
    {
        let mut i: usize = 0;
        proof {
            assert(self.counts@.skip(0) =~= self.counts@);
        }
        while i < self.counts.len()
            invariant
                i <= self.counts@.len(),
                spec_check_below(self.counts@, vote_length as int) == spec_check_below(
                    self.counts@.skip(i as int),
                    vote_length as int,
                ),
            decreases self.counts@.len() - i,
        {
            proof {
                assert(self.counts@.skip(i as int).drop_first() =~= self.counts@.skip(i + 1));
                assert(self.counts@.skip(i as int)[0] == self.counts@[i as int]);
            }
            match self.counts[i] {
                CountConstraint::MinBelow(m) => {
                    if !Constraints::check_min(vote_length, m) {
                        return Err(BallotParseErr::InvalidBallot(
                            InvalidBallotErr::InvalidMinBelow(vote_length),
                        ));
                    }
                },
                CountConstraint::MaxBelow(m) => {
                    if !Constraints::check_max(vote_length, m) {
                        return Err(BallotParseErr::InvalidBallot(
                            InvalidBallotErr::InvalidMaxBelow(vote_length),
                        ));
                    }
                },
                _ => {},
            }
            i = i + 1;
        }
        proof {
            assert(self.counts@.skip(self.counts@.len() as int) =~= Seq::<
                CountConstraint,
            >::empty());
        }
        Ok(())
    }
}

// ------------------------------------------------------------------
// Flattening
// ------------------------------------------------------------------

/// A below-the-line vote flattens to the candidate ids in preference order.
pub fn flatten_pref_map(pref_map: &PrefMap) -> (r: Vec<CandidateId>)
    ensures
        r@ == pref_map.entries@.map_values(|e: (u32, CandidateId)| e.1),
{
    let mut r: Vec<CandidateId> = Vec::new();
    let mut i: usize = 0;
    while i < pref_map.entries.len()
        invariant
            i <= pref_map.entries@.len(),
            r@ == pref_map.entries@.subrange(0, i as int).map_values(
                |e: (u32, CandidateId)| e.1,
            ),
        decreases pref_map.entries@.len() - i,
    {
        r.push(pref_map.entries[i].1);
        proof {
            assert(r@ =~= pref_map.entries@.subrange(0, i + 1).map_values(
                |e: (u32, CandidateId)| e.1,
            ));
        }
        i = i + 1;
    }
    proof {
        assert(pref_map.entries@.subrange(0, pref_map.entries@.len() as int) =~= pref_map
            .entries@);
    }
    r
}

/// The candidate ids of the groups in `s`, concatenated in preference order.
pub open spec fn spec_flatten_groups(s: Seq<(u32, usize)>, groups: Seq<Group>) -> Seq<
    CandidateId,
>
    decreases s.len(),
{
    if s.len() == 0 {
        Seq::empty()
    } else {
        groups[s[0].1 as int].candidate_ids@ + spec_flatten_groups(s.drop_first(), groups)
    }
}

proof fn lemma_flatten_groups_snoc(s: Seq<(u32, usize)>, groups: Seq<Group>, i: int)
    requires
        0 <= i < s.len(),
    ensures
        spec_flatten_groups(s.take(i + 1), groups) == spec_flatten_groups(s.take(i), groups)
            + groups[s[i].1 as int].candidate_ids@,
    decreases i,
{
    if i == 0 {
        assert(s.take(1).drop_first() =~= Seq::<(u32, usize)>::empty());
        assert(s.take(0) =~= Seq::<(u32, usize)>::empty());
        assert(s.take(1)[0] == s[0]);
        let ids = groups[s[0].1 as int].candidate_ids@;
        assert(spec_flatten_groups(s.take(1), groups) == ids + spec_flatten_groups(
            Seq::<(u32, usize)>::empty(),
            groups,
        ));
        assert(ids + Seq::<CandidateId>::empty() =~= ids);
        assert(spec_flatten_groups(s.take(0), groups) + ids =~= ids);
    } else {
        assert(s.take(i + 1).drop_first() =~= s.drop_first().take(i));
        assert(s.take(i).drop_first() =~= s.drop_first().take(i - 1));
        lemma_flatten_groups_snoc(s.drop_first(), groups, i - 1);
        assert(s.drop_first()[i - 1] == s[i]);
        let head = groups[s.take(i + 1)[0].1 as int].candidate_ids@;
        assert(s.take(i + 1)[0] == s[0]);
        assert(s.take(i)[0] == s[0]);
        assert(head + (spec_flatten_groups(s.drop_first().take(i - 1), groups)
            + groups[s[i].1 as int].candidate_ids@) =~= (head + spec_flatten_groups(
            s.drop_first().take(i - 1),
            groups,
        )) + groups[s[i].1 as int].candidate_ids@);
    }
}

/// An above-the-line vote flattens to the concatenation of the preferenced
/// groups' candidate lists, in preference order.
pub fn flatten_group_pref_map(group_pref_map: &GroupPrefMap, groups: &Vec<Group>) -> (r: Vec<
    CandidateId,
>)
    requires
        forall|i: int|
            0 <= i < group_pref_map.entries@.len() ==> (#[trigger] group_pref_map.entries@[i]).1
                < groups@.len(),
    ensures
        r@ == spec_flatten_groups(group_pref_map.entries@, groups@),
{
    let mut r: Vec<CandidateId> = Vec::new();
    let mut i: usize = 0;
    while i < group_pref_map.entries.len()
        invariant
            i <= group_pref_map.entries@.len(),
            forall|j: int|
                0 <= j < group_pref_map.entries@.len() ==> (#[trigger] group_pref_map
                    .entries@[j]).1 < groups@.len(),
            r@ == spec_flatten_groups(group_pref_map.entries@.take(i as int), groups@),
        decreases group_pref_map.entries@.len() - i,
    {
        let gi = group_pref_map.entries[i].1;
        let ids = &groups[gi].candidate_ids;
        let mut k: usize = 0;
        let ghost mid = r@;
        while k < ids.len()
            invariant
                k <= ids@.len(),
                r@ == mid + ids@.subrange(0, k as int),
            decreases ids@.len() - k,
        {
            r.push(ids[k]);
            proof {
                assert(r@ =~= mid + ids@.subrange(0, k + 1));
            }
            k = k + 1;
        }
        proof {
            assert(ids@.subrange(0, ids@.len() as int) =~= ids@);
            lemma_flatten_groups_snoc(group_pref_map.entries@, groups@, i as int);
        }
        i = i + 1;
    }
    proof {
        assert(group_pref_map.entries@.take(group_pref_map.entries@.len() as int)
            =~= group_pref_map.entries@);
    }
    r
}

} // verus!

verus! {

// ------------------------------------------------------------------
// Whole-string parsing
// ------------------------------------------------------------------

/// The above-the-line outcome for a preference string: the flattened
/// candidate list, or the first classified error.
pub open spec fn spec_above_prefs(
    bytes: Seq<u8>,
    groups: Seq<Group>,
    counts: Seq<CountConstraint>,
) -> Result<Seq<CandidateId>, InvalidBallotErr> {
    let fields = spec_split(bytes);
    let g_end = if groups.len() < fields.len() {
        groups.len() as int
    } else {
        fields.len() as int
    };
    match spec_build(
        fields.subrange(0, g_end),
        Seq::new(groups.len(), |i: int| i as usize),
        0,
        Seq::empty(),
        None,
    ) {
        Err(e) => Err(e),
        Ok((m, cut)) => {
            let pruned = spec_prune(m, cut);
            if pruned.len() == 0 {
                Err(InvalidBallotErr::EmptyBallot)
            } else {
                match spec_check_above(counts, pruned.len() as int) {
                    Some(e) => Err(e),
                    None => Ok(spec_flatten_groups(pruned, groups)),
                }
            }
        },
    }
}

/// The below-the-line outcome for a preference string.
pub open spec fn spec_below_prefs(
    bytes: Seq<u8>,
    groups_len: int,
    candidates: Seq<CandidateId>,
    counts: Seq<CountConstraint>,
) -> Result<Seq<CandidateId>, InvalidBallotErr> {
    let fields = spec_split(bytes);
    let g_end = if groups_len < fields.len() {
        groups_len
    } else {
        fields.len() as int
    };
    let c_end = if groups_len + candidates.len() < fields.len() {
        groups_len + candidates.len()
    } else {
        fields.len() as int
    };
    match spec_build(fields.subrange(g_end, c_end), candidates, 0, Seq::empty(), None) {
        Err(e) => Err(e),
        Ok((m, cut)) => {
            let pruned = spec_prune(m, cut);
            if pruned.len() == 0 {
                Err(InvalidBallotErr::EmptyBallot)
            } else {
                match spec_check_below(counts, pruned.len() as int) {
                    Some(e) => Err(e),
                    None => Ok(pruned.map_values(|e: (u32, CandidateId)| e.1)),
                }
            }
        },
    }
}

/// Resolution of the two halves of a ballot, per Section 269(2): a half that
/// fails yields to the other; when both succeed the choice policy decides,
/// and the strict policy rejects a doubly-filled ballot.
pub open spec fn spec_resolve(
    choice: ChoiceConstraint,
    above: Result<Seq<CandidateId>, InvalidBallotErr>,
    below: Result<Seq<CandidateId>, InvalidBallotErr>,
) -> Result<Seq<CandidateId>, InvalidBallotErr> {
    match (above, below) {
        (Ok(prefs), Err(_)) => Ok(prefs),
        (Err(_), Ok(prefs)) => Ok(prefs),
        (Ok(pa), Ok(pb)) => match choice {
            ChoiceConstraint::PreferAbove => Ok(pa),
            ChoiceConstraint::PreferBelow => Ok(pb),
            ChoiceConstraint::Strict => Err(InvalidBallotErr::InvalidStrict),
        },
        (Err(e1), Err(_)) => Err(e1),
    }
}

/// Parse a raw preference string: `groups.len()` above-the-line fields
/// followed by `candidates.len()` below-the-line fields, in the
/// state-canonical order.  Returns a single-vote ballot or the classified
/// error that the resolution table assigns.
pub fn parse_ballot_str(
    pref_string: &str,
    groups: &Vec<Group>,
    candidates: &Vec<CandidateId>,
    constraints: &Constraints,
) -> (r: IOBallot)
    requires
        groups@.len() + candidates@.len() <= u32::MAX,
    ensures
        ({
            let above = spec_above_prefs(pref_string.spec_bytes(), groups@, constraints.counts@);
            let below = spec_below_prefs(
                pref_string.spec_bytes(),
                groups@.len() as int,
                candidates@,
                constraints.counts@,
            );
            match spec_resolve(constraints.choice, above, below) {
                Ok(prefs) => match r {
                    Ok(b) => b.prefs@ == prefs && b.spec_current() == 0 && b.spec_weight()
                        == 1,
                    Err(_) => false,
                },
                Err(e) => r == Err::<Ballot, _>(BallotParseErr::InvalidBallot(e)),
            }
        }),
{
    let fields = split_fields(pref_string);
    let g_end = if groups.len() < fields.len() {
        groups.len()
    } else {
        fields.len()
    };
    let c_end = if groups.len() + candidates.len() < fields.len() {
        groups.len() + candidates.len()
    } else {
        fields.len()
    };

    // Above the line
    let above_the_line: Result<Vec<CandidateId>, BallotParseErr> = match create_group_pref_map(
        &fields,
        0,
        g_end,
        groups,
    ) {
        Err(e) => Err(e),
        Ok((m, cut)) => {
            let ghost ments = m.entries@;
            match remove_repeats_and_gaps(m, cut) {
                Err(e) => Err(e),
                Ok(m2) => match constraints.check_above(m2.len()) {
                    Err(e) => Err(e),
                    Ok(()) => {
                        proof {
                            assert(m2.entries@ == spec_prune(ments, cut));
                            assert forall|c: u32|
                                0 <= #[trigger] lower_bound(ments, c) <= ments.len() by {
                                lemma_lower_bound_range(ments, c);
                            }
                            assert forall|i: int|
                                0 <= i < m2.entries@.len() implies (#[trigger] m2
                                .entries@[i]).1 < groups@.len() by {
                                assert(m2.entries@[i] == ments[i]);
                            }
                        }
                        Ok(flatten_group_pref_map(&m2, groups))
                    },
                },
            }
        },
    };

    // Below the line
    let below_the_line: Result<Vec<CandidateId>, BallotParseErr> = match create_pref_map(
        &fields,
        g_end,
        c_end,
        candidates,
    ) {
        Err(e) => Err(e),
        Ok((m, cut)) => match remove_repeats_and_gaps(m, cut) {
            Err(e) => Err(e),
            Ok(m2) => match constraints.check_below(m2.len()) {
                Err(e) => Err(e),
                Ok(()) => Ok(flatten_pref_map(&m2)),
            },
        },
    };

    match (above_the_line, below_the_line) {
        (Ok(prefs), Err(_)) => Ok(Ballot::single(prefs)),
        (Err(_), Ok(prefs)) => Ok(Ballot::single(prefs)),
        (Ok(pa), Ok(pb)) => match constraints.choice {
            ChoiceConstraint::PreferAbove => Ok(Ballot::single(pa)),
            ChoiceConstraint::PreferBelow => Ok(Ballot::single(pb)),
            ChoiceConstraint::Strict => Err(BallotParseErr::InvalidBallot(
                InvalidBallotErr::InvalidStrict,
            )),
        },
        (Err(e1), Err(_)) => Err(e1),
    }
}

// ------------------------------------------------------------------
// Laws of the repeat and gap rules
// ------------------------------------------------------------------

/// Round trip: a preference map with no repeats (no cutoff) and no gaps
/// (keys exactly `1..=n`) is passed through the repeat/gap rule unchanged,
/// so the parser accepts exactly the hand-derived preference list.
pub proof fn lemma_parser_round_trip<T>(s: Seq<(u32, T)>)
    requires
        sorted_keys(s),
        forall|i: int| 0 <= i < s.len() ==> (#[trigger] s[i]).0 == i + 1,
    ensures
        spec_prune(s, None) == s,
{
    lemma_gap_from_full(s, 0);
}

proof fn lemma_gap_from_full<T>(s: Seq<(u32, T)>, i: int)
    requires
        0 <= i <= s.len(),
        forall|j: int| 0 <= j < s.len() ==> (#[trigger] s[j]).0 == j + 1,
    ensures
        gap_from(s, i) == s.len(),
    decreases s.len() - i,
{
    if i < s.len() {
        lemma_gap_from_full(s, i + 1);
    }
}

/// Inserting a duplicate preference number `k` into an otherwise gapless
/// ballot truncates the accepted preference list to length `k - 1`: the
/// cutoff recorded for the repeat removes `k` and everything above it.
pub proof fn lemma_repeat_truncates<T>(s: Seq<(u32, T)>, k: u32)
    requires
        sorted_keys(s),
        forall|i: int| 0 <= i < s.len() ==> (#[trigger] s[i]).0 == i + 1,
        1 <= k <= s.len(),
    ensures
        spec_prune(s, Some(k)) == s.take(k - 1),
        spec_prune(s, Some(k)).len() == k - 1,
{
    lemma_gap_from_full(s, 0);
    lemma_lower_bound_of_dense(s, k);
}

/// Removing preference number `k` from a gapless ballot (leaving keys
/// `1..k-1` and then keys above `k`) truncates the accepted preference list
/// to length `k - 1`: the gap rule cuts at the first missing number.
pub proof fn lemma_gap_truncates<T>(s: Seq<(u32, T)>, k: u32)
    requires
        sorted_keys(s),
        k >= 1,
        forall|i: int| 0 <= i < s.len() ==> (#[trigger] s[i]).0 >= 1,
        forall|i: int| 0 <= i < s.len() && i < k - 1 ==> (#[trigger] s[i]).0 == i + 1,
        k - 1 < s.len() ==> s[k - 1].0 != k,
    ensures
        spec_prune(s, None) == s.take(if k - 1 <= s.len() { (k - 1) as int } else { s.len() as int }),
{
    if k - 1 < s.len() {
        lemma_gap_from_prefix(s, 0, (k - 1) as int);
        lemma_lower_bound_of_prefix(s, k);
    } else {
        lemma_gap_from_prefix_full(s, 0);
        assert(s.take(s.len() as int) =~= s);
    }
}

proof fn lemma_gap_from_prefix<T>(s: Seq<(u32, T)>, i: int, g: int)
    requires
        0 <= i <= g < s.len(),
        forall|j: int| 0 <= j < g ==> (#[trigger] s[j]).0 == j + 1,
        s[g].0 != g + 1,
    ensures
        gap_from(s, i) == g,
    decreases g - i,
{
    if i < g {
        lemma_gap_from_prefix(s, i + 1, g);
    }
}

proof fn lemma_gap_from_prefix_full<T>(s: Seq<(u32, T)>, i: int)
    requires
        0 <= i <= s.len(),
        forall|j: int| 0 <= j < s.len() ==> (#[trigger] s[j]).0 == j + 1,
    ensures
        gap_from(s, i) == s.len(),
    decreases s.len() - i,
{
    if i < s.len() {
        lemma_gap_from_prefix_full(s, i + 1);
    }
}

/// In a map whose keys are exactly `1..=n`, the entries with keys below `k`
/// are the first `k - 1`.
proof fn lemma_lower_bound_of_dense<T>(s: Seq<(u32, T)>, k: u32)
    requires
        forall|i: int| 0 <= i < s.len() ==> (#[trigger] s[i]).0 == i + 1,
        1 <= k <= s.len(),
    ensures
        lower_bound(s, k) == k - 1,
    decreases s.len(),
{
    if s.len() > 0 && k > 1 {
        assert(s[0].0 == 1);
        assert forall|i: int|
            0 <= i < s.drop_first().len() implies (#[trigger] s.drop_first()[i]).0 == i + 2 by {
            assert(s[i + 1].0 == i + 2);
        }
        lemma_lower_bound_shifted(s.drop_first(), k, 2);
    } else {
        assert(s[0].0 == 1);
    }
}

/// In a map whose keys are exactly `off, off+1, ...`, the entries with keys
/// below `k` number `k - off` (clamped to the ends).
proof fn lemma_lower_bound_shifted<T>(s: Seq<(u32, T)>, k: u32, off: int)
    requires
        forall|i: int| 0 <= i < s.len() ==> (#[trigger] s[i]).0 == i + off,
        off >= 1,
    ensures
        lower_bound(s, k) == if k - off < 0 {
            0
        } else if k - off > s.len() {
            s.len() as int
        } else {
            k - off
        },
    decreases s.len(),
{
    if s.len() > 0 {
        assert(s[0].0 == off);
        assert forall|i: int|
            0 <= i < s.drop_first().len() implies (#[trigger] s.drop_first()[i]).0 == i + off
            + 1 by {
            assert(s[i + 1].0 == i + 1 + off);
        }
        lemma_lower_bound_shifted(s.drop_first(), k, off + 1);
    }
}

/// With keys `1..k-1` and the rest above `k`, the entries below `k` are the
/// first `k - 1`.
proof fn lemma_lower_bound_of_prefix<T>(s: Seq<(u32, T)>, k: u32)
    requires
        sorted_keys(s),
        k >= 1,
        forall|i: int| 0 <= i < s.len() ==> (#[trigger] s[i]).0 >= 1,
        k - 1 < s.len(),
        forall|i: int| 0 <= i < s.len() && i < k - 1 ==> (#[trigger] s[i]).0 == i + 1,
        s[k - 1].0 != k,
    ensures
        lower_bound(s, k) == k - 1,
{
    assert(s[k - 1].0 >= k) by {
        if k >= 2 {
            assert(s[k - 2].0 == k - 1);
            assert(s[k - 2].0 < s[k - 1].0);
        }
    }
    assert(s[k - 1].0 > k);
    assert forall|j: int| 0 <= j < k - 1 implies (#[trigger] s[j]).0 < k by {
        assert(s[j].0 == j + 1);
    }
    lemma_lower_bound_unique_pub(s, k, (k - 1) as int);
}

proof fn lemma_lower_bound_unique_pub<T>(s: Seq<(u32, T)>, c: u32, p: int)
    requires
        sorted_keys(s),
        0 <= p <= s.len(),
        forall|j: int| 0 <= j < p ==> (#[trigger] s[j]).0 < c,
        p < s.len() ==> s[p].0 >= c,
    ensures
        lower_bound(s, c) == p,
    decreases s.len(),
{
    if s.len() > 0 {
        if p == 0 {
            assert(s[0].0 >= c);
        } else {
            assert(s[0].0 < c);
            assert forall|j: int| 0 <= j < p - 1 implies (#[trigger] s.drop_first()[j]).0
                < c by {
                assert(s[j + 1].0 < c);
            }
            if p - 1 < s.drop_first().len() {
                assert(s.drop_first()[p - 1].0 == s[p as int].0);
            }
            lemma_lower_bound_unique_pub(s.drop_first(), c, p - 1);
        }
    }
}

} // verus!
