//! A declarative graph-description engine: an in-memory labeled graph store,
//! parametric topology generators, and a pattern-based rewrite engine that
//! matches subgraph templates and mutates the graph in place.
#![verifier::loop_isolation(false)]

pub mod engine;
pub mod generators;
pub mod pattern;
pub mod rules;
pub mod types;
