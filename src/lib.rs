//! A small content-addressed version-control store: objects identified by
//! SHA-1 digests, trees of named entries, commits, branches and an index,
//! with the algorithms that compare, merge and check out trees.

pub mod digest;
pub mod object;
pub mod store;
pub mod codec;
pub mod diff;
pub mod tree;
pub mod builder;
pub mod lines;
pub mod merge;
pub mod refs;
pub mod repo;
