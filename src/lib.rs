//! Term-frequency indexing of document text, a cached index snapshot with a
//! one-week staleness policy, and single-term ranking.
pub mod lexing;
pub mod index;
pub mod document;
pub mod cache;
pub mod query;
