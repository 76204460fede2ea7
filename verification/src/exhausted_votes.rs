//! Report rows for the per-round exhausted-ballot series, with the exact
//! fraction emitted as numerator and denominator strings.

use vstd::prelude::*;
use crate::stats::Stats;

verus! {

/// The decimal digits of a number, most significant first.
pub open spec fn dec_bytes(n: nat) -> Seq<u8>
    decreases n,
{
    if n < 10 {
        seq![(48 + n) as u8]
    } else {
        dec_bytes(n / 10).push((48 + n % 10) as u8)
    }
}

/// Relies on u64's Display through ToString: the decimal digits of the
/// number.
#[verifier::external_body]
fn u64_string(x: u64) -> (r: String)
    ensures
        vstd::utf8::encode_utf8(r@) == dec_bytes(x as nat),
{
    format!("{}", x)
}

/// One output row: a round, its exhausted-ballot count, and the exhausted
/// value as an exact fraction in decimal strings.
pub struct ExhaustedVoteRow {
    pub round: usize,
    pub ballots_exhausted: u64,
    /// Numerator of the value of votes exhausted at this round.
    pub value_exhausted_num: String,
    /// Denominator of the value of votes exhausted at this round.
    pub value_exhausted_den: String,
}

/// The report rows for the gathered statistics, in stored order.
pub fn exhausted_rows(stats: &Stats) -> (r: Vec<ExhaustedVoteRow>)
    ensures
        r@.len() == stats.exhausted_votes@.len(),
        forall|j: int|
            0 <= j < r@.len() ==> {
                let row = #[trigger] r@[j];
                let e = stats.exhausted_votes@[j];
                row.round == e.0 && row.ballots_exhausted == e.1.0 && vstd::utf8::encode_utf8(
                    row.value_exhausted_num@,
                ) == dec_bytes(e.1.1.num as nat) && vstd::utf8::encode_utf8(
                    row.value_exhausted_den@,
                ) == dec_bytes(e.1.1.den as nat)
            },
{
    let mut r: Vec<ExhaustedVoteRow> = Vec::new();
    let mut i: usize = 0;
    while i < stats.exhausted_votes.len()
        invariant
            i <= stats.exhausted_votes@.len(),
            r@.len() == i,
            forall|j: int|
                0 <= j < i ==> {
                    let row = #[trigger] r@[j];
                    let e = stats.exhausted_votes@[j];
                    row.round == e.0 && row.ballots_exhausted == e.1.0
                        && vstd::utf8::encode_utf8(row.value_exhausted_num@) == dec_bytes(
                        e.1.1.num as nat,
                    ) && vstd::utf8::encode_utf8(row.value_exhausted_den@) == dec_bytes(
                        e.1.1.den as nat,
                    )
                },
        decreases stats.exhausted_votes@.len() - i,
    {
        let round = stats.exhausted_votes[i].0;
        let count = stats.exhausted_votes[i].1.0;
        let num = u64_string(stats.exhausted_votes[i].1.1.num);
        let den = u64_string(stats.exhausted_votes[i].1.1.den);
        r.push(
            ExhaustedVoteRow {
                round,
                ballots_exhausted: count,
                value_exhausted_num: num,
                value_exhausted_den: den,
            },
        );
        i = i + 1;
    }
    r
}

} // verus!
