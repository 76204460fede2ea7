//! Command-line option parsing helpers that the front end shares.

use vstd::prelude::*;
use vstd::utf8::encode_utf8;
use crate::candidate::string_bytes_eq;
use crate::munge::red_vs_blue::RedVsBlue;

verus! {

/// The bytes of the long munger name "red-vs-blue".
pub open spec fn rvb_long_bytes() -> Seq<u8> {
    seq![114u8, 101, 100, 45, 118, 115, 45, 98, 108, 117, 101]
}

/// The bytes of the short munger name "rvb".
pub open spec fn rvb_short_bytes() -> Seq<u8> {
    seq![114u8, 118, 98]
}

#[derive(Clone, Copy, Debug, PartialEq, Eq, Structural)]
pub enum MungerType {
    RedVsBlue,
}

/// Recognise a munger by name.
pub fn parse_munger(name: &String) -> (r: Result<MungerType, ()>)
    ensures
        r matches Ok(m) ==> m is RedVsBlue,
        (r is Ok) == (encode_utf8(name@) == rvb_long_bytes() || encode_utf8(name@)
            == rvb_short_bytes()),
{
    let long = vec![114u8, 101, 100, 45, 118, 115, 45, 98, 108, 117, 101];
    let short = vec![114u8, 118, 98];
    proof {
        assert(long@ =~= rvb_long_bytes());
        assert(short@ =~= rvb_short_bytes());
    }
    if string_bytes_eq(name, &long) || string_bytes_eq(name, &short) {
        Ok(MungerType::RedVsBlue)
    } else {
        Err(())
    }
}

impl MungerType {
    /// Build the munger this option names, for the given state.
    pub fn instantiate(self, state: &String) -> (r: RedVsBlue)
        requires
            encode_utf8(state@) == crate::munge::red_vs_blue::nsw_bytes() || encode_utf8(
                state@,
            ) == crate::munge::red_vs_blue::qld_bytes() || encode_utf8(state@)
                == crate::munge::red_vs_blue::sa_bytes(),
    {
        match self {
            MungerType::RedVsBlue => RedVsBlue::new(state),
        }
    }
}

} // verus!
