//! Finds, for each directory directly under a root, the most recent
//! modification time anywhere in its subtree, and orders the directories
//! newest first.
//!
//! The library works on a snapshot of the directory tree (`Entry`): reading
//! the file system is left to the caller.

pub mod time;
pub mod tree;
pub mod report;
pub mod render;
