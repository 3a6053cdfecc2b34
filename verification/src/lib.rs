//! A queryable in-memory model of a tabular survey dataset: an ordered
//! question registry plus a table of respondent answers, with keyword
//! search, per-question answer distributions and respondent subsets.

#![verifier::loop_isolation(false)]

pub mod analysis;
pub mod error;
pub mod survey;
pub mod text;
