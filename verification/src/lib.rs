//! Awesome-list ingestion and enrichment for a developer dashboard.
//!
//! The library parses a curated markdown list into an ordered, deduplicated,
//! categorized set of repository references, infers per-repository addition
//! dates from the list's own commit history, merges the results with
//! externally fetched metadata, and renders the final record set for export.
//! All network fetches live outside the library; every function here is pure
//! computation over plain values.

pub mod config;
pub mod enrich;
pub mod export;
pub mod extract;
pub mod gitlab;
pub mod index;
pub mod infer;
pub mod models;
pub mod text;
