//! JSON tools: flattening of nested JSON values into path-keyed scalars and
//! their reconstruction, projection of flat records onto CSV rows, and
//! dereferencing of strings that name JSON files.
pub mod json;
pub mod path;
pub mod flatten;
pub mod tree;
pub mod laws;
pub mod csv;
pub mod resolve;
