//! Resolution of configuration spread over a package graph, and the decisions
//! that provision prebuilt native artifacts from it.
pub mod artifact;
pub mod cache;
pub mod config;
pub mod error;
pub mod extract;
pub mod graph;
pub mod provision;
pub mod resolve;
pub mod text;
