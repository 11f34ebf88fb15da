//! Traversal and mutation-safety primitives over an insertion-ordered map.
//!
//! The base structure is an arena of nodes threaded by order links; on top of
//! it sit a double-ended node cursor, an exclusion view that hides exactly one
//! entry, a traversal driver that visits every entry with such a view, and a
//! single-entry accessor that resolves one key to its value plus a view over
//! the rest.

pub mod iter_nodes;
pub mod map;
pub mod view;
