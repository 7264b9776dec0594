//! Ranked bucket-sort core of a full-text search engine.
//!
//! Given a universe of candidate document ids and an ordered chain of
//! ranking rules, `bucket_sort` produces a paginated list of document ids
//! in relevance order, together with an exact rational score for each and
//! the full set of documents that participated in ranking.

pub mod docset;
pub mod score;
pub mod query;
pub mod distinct;
pub mod ranking_rules;
pub mod words;
pub mod geo_sort;
pub mod bucket_sort;
