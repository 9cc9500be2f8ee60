//! Code generation back-ends for schema-derived types.

pub mod rust;
