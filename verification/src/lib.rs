//! Plain-text requirements management: human-readable identifiers,
//! configuration, the requirement graph and the markdown file format.

pub mod text;
pub mod hrid;
pub mod sorting;
pub mod config;
pub mod graph;
pub mod fingerprint;
pub mod requirement;
pub mod tree;
pub mod markdown;
pub mod paths;
pub mod summary;
pub mod listing;
pub mod rows;
pub mod render;
pub mod review;
pub mod validation;
pub mod directory;
pub mod mcp;
pub mod list;
