//! A small fixed-precision transfer value, applied to integer vote counts.

use vstd::prelude::*;

verus! {

#[derive(Debug)]
pub struct TransferValue {
    pub numerator: u32,
    pub denominator: u32,
}

impl TransferValue {
    pub fn new(n: u32, d: u32) -> (t: TransferValue)
        ensures
            t.numerator == n,
            t.denominator == d,
    {
        TransferValue { numerator: n, denominator: d }
    }

    /// `floor(val * self)`, in 32-bit arithmetic as recorded.
    pub fn apply(&self, val: u32) -> (r: u32)
        requires
            self.denominator > 0,
            val * self.numerator <= u32::MAX,
        ensures
            r == (val * self.numerator) as int / self.denominator as int,
    {
        (val * self.numerator) / self.denominator
    }
}

} // verus!
