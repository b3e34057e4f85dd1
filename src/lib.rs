//! Flattening of documents that pull in other documents through include
//! directives, with rejection of circular inclusion.
//!
//! `DependencyGraph` records which document includes which and finds a cycle
//! as soon as one exists. `Resolution` drives the substitution of directives
//! one at a time, asking its caller to read documents and to turn include
//! paths into identifiers.

pub mod dependency_graph;
pub mod directive;
pub mod resolver;

pub use dependency_graph::DependencyGraph;
pub use directive::{find_directive, literal_value, DIRECTIVE};
pub use resolver::{arrow_chain, single_path_argument, Action, ResolveError, Resolution};
