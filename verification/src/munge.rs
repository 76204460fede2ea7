//! Ballot transforms applied between parsing and ingestion.

pub mod ballot_munge;
pub mod red_vs_blue;
