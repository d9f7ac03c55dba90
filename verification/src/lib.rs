//! Verified core of a parallel directory-copy engine.
//!
//! The crate models the part of a recursive copy that is worth proving:
//! a completion tree that tracks which destination directories are fully
//! copied (`dir_tree`), an in-memory model of a source directory tree
//! (`fs_model`), and the walk logic that turns a source tree into the
//! exact set of create/copy actions while driving the completion tree
//! (`copy`). Real file-system access, worker threads and the command
//! line live outside the verified core and only feed plain values in.

pub mod copy;
pub mod dir_tree;
pub mod fs_model;
