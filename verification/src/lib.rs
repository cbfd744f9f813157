//! Scans source text for comment markers such as `FIXME` and `HACK`,
//! normalizes and deduplicates the comment text, extracts embedded issue
//! numbers, URLs and author/topic tags, and assembles sorted report rows.

pub mod bytes;
pub mod dedup;
pub mod issues;
pub mod links;
pub mod locate;
pub mod normalize;
pub mod order;
pub mod pipeline;
pub mod render;
pub mod rows;
