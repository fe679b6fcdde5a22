//! Rebuilds a directory tree from a transcript of `cd` / `ls` commands and
//! answers size queries over it.

pub mod command;
pub mod error;
pub mod replay;
pub mod text;
pub mod tree;
