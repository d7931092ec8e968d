//! Verified core of a dependency-aware knowledge graph.
pub mod config;
pub mod error;
pub mod events;
pub mod graph;
pub mod model;
pub mod node_parser;
pub mod order;
pub mod project;
pub mod relation;
pub mod text;
pub mod util;

pub use project::{edge, node, staleness, validation, watcher};
