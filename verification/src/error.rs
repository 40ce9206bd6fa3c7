//! The closed set of failures the codec reports.

use vstd::prelude::*;

verus! {

/// Everything that can go wrong while decoding bytes or building a record.
///
/// Malformed wire data surfaces while reading (`InvalidMagic`,
/// `UnsupportedVersion`, `BufferUnderflow`, `InvalidTypeCode`,
/// `InvalidUtf8String`, `InvalidBool`, `VarintError`); structural misuse
/// surfaces while building or encoding (`SchemaError`, `SizeOverflow`).
#[derive(Debug)]
pub enum ImprintError {
    /// The first byte of a record was not `MAGIC`; carries the byte seen.
    InvalidMagic(u8),
    /// The second byte of a record was not `VERSION`; carries the byte seen.
    UnsupportedVersion(u8),
    /// The input ended before a complete encoding was available.
    BufferUnderflow { needed: usize, available: usize },
    /// A type-tag byte named no known value kind; carries the byte seen.
    InvalidTypeCode(u8),
    /// The bytes of a string value were not valid UTF-8.
    InvalidUtf8String,
    /// A boolean byte was neither 0 nor 1; carries the byte seen.
    InvalidBool(u8),
    /// A structural rule was broken: a heterogeneous array or map, or a
    /// nested record whose header disagrees with its payload.
    SchemaError(String),
    /// An encoded count or payload would not fit in the wire format's `u32`.
    SizeOverflow,
    /// A length or count varint was malformed.
    VarintError,
}

impl ImprintError {
    /// A short description of the error, suitable for display.
    pub fn message(&self) -> String {
        match self {
            ImprintError::InvalidMagic(_) => "invalid magic byte".to_owned(),
            ImprintError::UnsupportedVersion(_) => "unsupported version byte".to_owned(),
            ImprintError::BufferUnderflow { .. } => "buffer underflow".to_owned(),
            ImprintError::InvalidTypeCode(_) => "invalid type code".to_owned(),
            ImprintError::InvalidUtf8String => "string bytes are not valid UTF-8".to_owned(),
            ImprintError::InvalidBool(_) => "invalid boolean byte".to_owned(),
            ImprintError::SchemaError(m) => m.as_str().to_owned(),
            ImprintError::SizeOverflow => "record exceeds the wire format's size bound".to_owned(),
            ImprintError::VarintError => "malformed varint".to_owned(),
        }
    }
}

} // verus!
