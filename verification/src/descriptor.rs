//! The typed descriptor layer: reader and writer abstractions in terms of
//! ASN.1 constructs, routing schema-derived types to the codec.

pub mod common;
pub mod complex;
pub mod enumerated;
pub mod sequence;
