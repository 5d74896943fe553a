//! Resolution of named configuration variables into concrete values for one
//! deployment environment.
pub mod config;
pub mod error;
pub mod graph;
pub mod order;
pub mod plan;
pub mod render;
pub mod resolve;
pub mod select;
pub mod template;
