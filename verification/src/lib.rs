//! Changelog extraction from a commit graph.
//!
//! The crate turns a snapshot of a version-control commit graph, together
//! with its named references, into a deduplicated, chronologically ordered
//! list of categorized change records, and renders those records as
//! markdown release notes or as a forge update manifest.

pub mod extract;
pub mod forge;
pub mod graph;
pub mod laws;
pub mod notes;
pub mod parse;
pub mod render;
pub mod strutil;
