//! Single-file bundling of C and C++ sources: include classification, path
//! candidates, depth-first inlining with at-most-once visits, and line compaction.

pub mod text;
pub mod directive;
pub mod format;
pub mod resolve;
pub mod graph;
pub mod assemble;
