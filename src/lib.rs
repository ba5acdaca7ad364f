//! The traversal and ordering core of a backup tool: archive paths and
//! their order, an ordered walk of a live directory tree, and the
//! bookkeeping of copying one tree onto another.
pub mod apath;
pub mod copy_tree;
pub mod live_tree;

pub use apath::{Apath, CheckOrder};
pub use copy_tree::{copy_entry, finish_copy, CopyOptions, CopyOutcome, CopyStats, WriteTree};
pub use live_tree::{Child, FileInfo, Iter, Kind, Listed, LiveEntry, Selected, Step, WalkCounts};
