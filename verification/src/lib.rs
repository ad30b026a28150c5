//! Finds byte-identical files and plans their consolidation into hard links.
//!
//! The library holds the decisions: how sizes are rendered, how file contents
//! are compared and digested, how records are grouped into buckets and runs,
//! and which runs are merged into which. Reading files and changing the file
//! system is left to the caller, who answers the requests the resolver makes.

pub mod compare;
pub mod format;
pub mod group;
pub mod laws;
pub mod link;
pub mod merge;
pub mod order;
pub mod paths;
pub mod rank;
pub mod record;
pub mod resolver;
pub mod scan;
pub mod stats;
