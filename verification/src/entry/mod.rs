//! Registered benchmark entries: their metadata and the tree that groups
//! them by module path.

pub mod meta;
pub mod tree;
