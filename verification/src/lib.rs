//! Locate and filter plaintext files by inline hierarchical tags
//! (tokens like `@work/projectA`) embedded in free text.
//!
//! The library scans raw text into a canonical, sorted set of hierarchical
//! tags, decides whether a tagset matches a good/bad keyword query
//! (AND/OR, fuzzy/exact, veto keywords), detects near-duplicate tag pairs,
//! aggregates tag-usage counts, and renders a tag vocabulary as an
//! indented outline.

use vstd::prelude::*;

pub mod counts;
pub mod filter;
pub mod order;
pub mod similar;
pub mod strset;
pub mod tagset;
pub mod text;
pub mod tree;
pub mod utility;

verus! {

/// A hierarchical tag: an ordered sequence of string segments,
/// produced by splitting a scanned token such as `work/projectA` on `/`.
pub type Tag = Vec<String>;

} // verus!
