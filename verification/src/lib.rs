//! `it`: a small version-control tool. The library holds its formats and decisions:
//! the staging index file, stored objects and trees, the reference logs, HEAD, and the
//! `branch` and `switch` commands as state machines; the program around it does the
//! file-system work.

pub mod text;
pub mod bytes;
pub mod digest;
pub mod index;
pub mod error;
pub mod object;
pub mod write_tree;
pub mod tree_laws;
pub mod restore_laws;
pub mod color_utils;
pub mod head;
pub mod log;
pub mod branch;
pub mod switch;
pub mod cli;
