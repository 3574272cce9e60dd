//! A relation-deduplication and relation-merging engine for a code-structure
//! graph.
//!
//! Upstream analysis discovers classes, functions and directed relationships
//! between them; this crate accumulates those facts into a consistent graph
//! and resolves redundant or conflicting relation edges into a minimal set
//! suitable for rendering as a diagram.

pub mod entity;
pub mod graph;
pub mod laws;
pub mod query;
pub mod relation;
