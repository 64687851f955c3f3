//! Extraction of equation nodes from a multi-file typst project.
//!
//! The crate holds the logic between the file system and the typst
//! front end: resolving file references inside a project, caching file
//! contents for one run, walking every file reachable from the entry file
//! without looping on mutual includes, and recovering the exact source text
//! of each equation from its span.

pub mod bytes;
pub mod path;
pub mod cache;
pub mod syntax;
pub mod explore;
pub mod extract;
