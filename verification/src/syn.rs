//! Descriptors for constructed types.

pub mod sequenceof;
