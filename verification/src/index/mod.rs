//! Search over the indexed text.
pub mod fulltext;
pub mod embedder;
pub mod vectors;
