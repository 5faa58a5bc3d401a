//! Resolution of named Unicode subsets into codepoint selections, and the
//! per-file decisions of a font-subsetting batch.

pub mod ranges;
pub mod catalog;
pub mod backend;
pub mod batch;
