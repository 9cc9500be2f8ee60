//! A serialization library for ASN.1 schemas, centred on a bit-exact codec
//! for the Packed Encoding Rules (PER), UNALIGNED variant, of
//! ITU-T X.691 | ISO/IEC 8825-2:2015.
//!
//! The layers, from the bottom up:
//!
//! - [`bits`] models bit sequences and their numeric readings;
//! - [`wire`] states the wire format: a spec-level encoder and decoder for
//!   every PER primitive, and proofs that decoding inverts encoding;
//! - [`buffer`] holds the bit-addressable transport with independent read
//!   and write positions, and the [`buffer::BitRead`],
//!   [`buffer::ScopedBitRead`] and [`buffer::BitWrite`] contracts it
//!   satisfies;
//! - [`codec`] implements the chapter-by-chapter PER operations on the
//!   buffer, each proved to emit and consume exactly the bits of [`wire`];
//! - [`descriptor`] and [`syn`] route schema-derived types to the codec
//!   through static descriptors; [`schema`] holds a small worked schema;
//! - [`gen`] and [`generate`] carry the naming rules and the protobuf text
//!   back-end of the code generator, over the [`model`] of a schema.

pub mod bits;
pub mod buffer;
pub mod codec;
pub mod descriptor;
pub mod error;
pub mod gen;
pub mod generate;
pub mod model;
pub mod schema;
pub mod syn;
pub mod text;
pub mod wire;
