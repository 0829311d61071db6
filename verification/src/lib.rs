//! Gitignore-aware, size-bounded concatenation of directory trees.
//!
//! The library holds the decisions of a traversal: wildcard matching, ignore
//! rules, file classification, output assembly under a size cap and the
//! traversal statistics. It performs no input or output of its own; a driver
//! feeds it what it read from the file system.

pub mod config;
pub mod file_processor;
pub mod format;
pub mod gitignore;
pub mod glob;
pub mod order;
pub mod path;
pub mod stats;
pub mod text;
pub mod thread_pool;
pub mod walk_model;
pub mod walker;
