//! Dependency-graph engine for multi-module repositories: declared nodes,
//! graph construction with validation, and change-impact queries.

pub mod commands;
pub mod graph;
pub mod laws;
pub mod node;
pub mod walk;
