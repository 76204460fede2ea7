//! Core counting engine for an Australian Senate single-transferable-vote
//! election: ballot validation and parsing, preference-flow bookkeeping with
//! exact rational transfer values, and the count-round state machine that
//! produces the ordered list of elected senators.

pub mod ballot;
pub mod candidate;
pub mod exhausted_votes;
pub mod frac;
pub mod ballot_parse;
pub mod cli;
pub mod group;
pub mod munge;
pub mod parse;
pub mod pref_map;
pub mod quota;
pub mod senate_result;
pub mod stats;
pub mod transfer_value;
pub mod vote_log;
pub mod vote_map;
pub mod voting;


