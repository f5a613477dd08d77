//! Process-tree memory analysis: name matching, tree reconstruction over a
//! process snapshot, per-tree memory ranking and aggregate statistics.

pub mod matcher;
pub mod tree;
pub mod summary;
pub mod colors;
