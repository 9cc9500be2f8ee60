//! Textual output back-ends for schema models.

pub mod protobuf;
