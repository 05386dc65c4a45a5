//! Extraction-and-merge core of a full-text search indexing pipeline.
//!
//! A stream of document changes is turned into sorted postings: each
//! posting key (a normalized token, or an ordered token pair with its
//! proximity) maps to an add/remove delta over document ids.  Per-worker
//! bounded caches spill sorted runs, and a streaming merge combines all
//! runs into one strictly sorted, delta-resolved posting stream.

pub mod order;
pub mod docids;
pub mod delta;
pub mod cache;
pub mod merge;
pub mod tokenize;
pub mod fields;
pub mod collection;
pub mod extract;
pub mod driver;
