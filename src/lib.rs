//! A runtime for Wasm Components: dependency graphs with interceptor chains,
//! registries of resolved components, and JSON marshalling of call values.

pub mod cli;
pub mod function;
pub mod graph;
pub mod invoke;
pub mod json;
pub mod loader;
pub mod marshal;
pub mod registry;
pub mod text;
pub mod types;
