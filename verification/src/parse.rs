//! Converters from AEC file rows to the domain model.  Reading the CSV
//! files themselves is the front end's business; these functions take the
//! already-framed rows.

pub mod candidate_ids2016;
pub mod candidates;
pub mod candidates2016;
pub mod prefs2016;
