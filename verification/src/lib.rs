//! A verified radix-tree (compressed prefix tree) router for URL-style paths.
//!
//! Patterns mix literal text, named parameters (`:name`, bound to one
//! delimiter-separated token) and catch-alls (`*rest`, bound to the whole
//! remaining path). [`PathTree::insert`] registers a pattern with a payload;
//! [`PathTree::find`] resolves a concrete path to the payload and the ordered
//! parameter bindings.

pub mod find;
pub mod insert;
pub mod laws;
pub mod node;
pub mod tree;

pub use node::{Node, NodeKind};
pub use tree::PathTree;
