//! Flattening of JSON objects into single-level objects keyed by dotted paths.

pub mod value;
pub mod rules;
pub mod flatten;
pub mod laws;
