//! Flattening of a tree of items into the list of rows that a tree view shows.
//!
//! A node is addressed by its path: the sibling index of each ancestor, from the
//! root level down to the node itself. The caller keeps a set of opened paths;
//! `flatten` lists every node that is visible under that set, in display order.

pub mod flatten;
pub mod laws;
pub mod tree;

pub use flatten::{flatten, Flattened};
pub use tree::TreeItem;
