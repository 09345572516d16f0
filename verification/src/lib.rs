//! Analysis of PTT discussion-forum articles.
//!
//! The library covers the pure core of the pipeline: extracting commenters
//! from an article document, parsing per-user profile documents, driving a
//! bounded-concurrency enrichment schedule, and building the sorted,
//! optionally partitioned report. Network fetching and the HTML-to-DOM
//! selector engine live outside the library; callers hand in the selected
//! node texts as plain values.

pub mod article;
pub mod config;
pub mod enrich;
pub mod error;
pub mod highlight;
pub mod profile;
pub mod report;
pub mod text;
