//! Recursive `tail -f` with glob pattern matching: the verified core.
//!
//! The modules hold the decisions of the tool: which bytes count as binary,
//! how a file's bytes split into lines and which of them form its tail, how
//! a follower reacts to growth and truncation, which directory entries a
//! discovery scan keeps, how the set of followed files changes from one scan
//! to the next, and how output lines are framed.

pub mod binary;
pub mod config;
pub mod discovery;
pub mod duration;
pub mod file_ref;
pub mod output;
pub mod reader;
pub mod signal;
pub mod supervisor;
pub mod text;
pub mod watcher;
