//! Imprint: a compact, self-describing binary record format.
//!
//! A record carries a fixed header, a directory of field entries sorted by
//! field id, and a packed payload holding the encoded field values. The
//! library provides the codec for this wire format, a builder that assembles
//! valid records, by-id field lookup, and the two structural operators,
//! projection and merge, which work on payload byte spans without decoding.

use vstd::prelude::*;

pub mod bytesio;
pub mod codec;
pub mod error;
pub mod laws;
pub mod laws_build;
pub mod laws_ops;
pub mod ops;
pub mod record;
pub mod serde;
pub mod types;
pub mod varint;
pub mod writer;

verus! {

/// First byte of every serialized record.
pub const MAGIC: u8 = 0x49;

/// Second byte of every serialized record; the wire-format revision.
pub const VERSION: u8 = 0x01;

} // verus!
