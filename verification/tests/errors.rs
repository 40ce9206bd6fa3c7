use bytes::{BufMut, Bytes, BytesMut};
use imprint::error::ImprintError;
use imprint::types::{ImprintRecord, MapKey, SchemaId, TypeCode, Value};
use imprint::writer::ImprintWriter;
use imprint::{MAGIC, VERSION};

#[test]
fn should_handle_error_cases() {
    // Given an invalid magic byte
    let mut buf = BytesMut::new();
    buf.put_u8(0x00); // Wrong magic
    buf.put_u8(VERSION);
    buf.put_u8(0x00);
    buf.put_u64_le(0);
    buf.put_u32_le(0);

    // When trying to read
    // Then it should return an invalid magic error
    assert!(matches!(
        ImprintRecord::read(buf.freeze()),
        Err(ImprintError::InvalidMagic(0x00))
    ));

    // Given an invalid version
    let mut buf = BytesMut::new();
    buf.put_u8(MAGIC);
    buf.put_u8(0xFF); // Wrong version
    buf.put_u8(0x00);
    buf.put_u64_le(0);
    buf.put_u32_le(0);

    // When trying to read
    // Then it should return an unsupported version error
    assert!(matches!(
        ImprintRecord::read(buf.freeze()),
        Err(ImprintError::UnsupportedVersion(0xFF))
    ));

    // Given a truncated buffer
    let mut buf = BytesMut::new();
    buf.put_u8(MAGIC);
    buf.put_u8(VERSION);

    // When trying to read
    // Then it should return a buffer underflow error
    assert!(matches!(
        ImprintRecord::read(buf.freeze()),
        Err(ImprintError::BufferUnderflow { .. })
    ));
}

#[test]
fn heterogeneous_array_is_a_schema_error() {
    let mut writer = ImprintWriter::new(SchemaId { fieldspace_id: 1, schema_hash: 1 }).unwrap();
    let mixed = Value::Array(vec![Value::Int32(1), Value::Bool(true)]);
    assert!(matches!(
        writer.add_field(1, mixed),
        Err(ImprintError::SchemaError(_))
    ));
    // The writer is untouched and still builds an empty record.
    assert_eq!(writer.build().unwrap().directory.len(), 0);
}

#[test]
fn heterogeneous_map_is_a_schema_error() {
    let mut writer = ImprintWriter::new(SchemaId { fieldspace_id: 1, schema_hash: 1 }).unwrap();
    let mixed_keys = Value::Mapping(vec![
        (MapKey::Int32(1), Value::Null),
        (MapKey::Int64(2), Value::Null),
    ]);
    assert!(matches!(
        writer.add_field(1, mixed_keys),
        Err(ImprintError::SchemaError(_))
    ));
    let mixed_values = Value::Mapping(vec![
        (MapKey::Int32(1), Value::Bool(true)),
        (MapKey::Int32(2), Value::Int32(9)),
    ]);
    assert!(matches!(
        writer.add_field(1, mixed_values),
        Err(ImprintError::SchemaError(_))
    ));
}

#[test]
fn invalid_bool_byte_is_rejected() {
    let bytes = Bytes::from(vec![2u8]);
    assert!(matches!(
        Value::read(TypeCode::Bool, bytes),
        Err(ImprintError::InvalidBool(2))
    ));
    assert!(matches!(
        Value::read(TypeCode::Bool, Bytes::from(vec![1u8])),
        Ok((Value::Bool(true), 1))
    ));
}

#[test]
fn invalid_type_code_byte_is_rejected() {
    // A two-element array whose element tag byte is unassigned.
    let bytes = Bytes::from(vec![2u8, 0x77, 0, 0]);
    assert!(matches!(
        Value::read(TypeCode::Array, bytes),
        Err(ImprintError::InvalidTypeCode(0x77))
    ));
}

#[test]
fn invalid_utf8_string_is_rejected() {
    // varint length 2, then an invalid UTF-8 sequence.
    let bytes = Bytes::from(vec![2u8, 0xC3, 0x28]);
    assert!(matches!(
        Value::read(TypeCode::String, bytes),
        Err(ImprintError::InvalidUtf8String)
    ));
}

#[test]
fn malformed_varint_is_rejected() {
    // Six continuation bytes cannot canonically encode a u32.
    let bytes = Bytes::from(vec![0x80u8, 0x80, 0x80, 0x80, 0x80, 0x01]);
    assert!(matches!(
        Value::read(TypeCode::Bytes, bytes),
        Err(ImprintError::VarintError)
    ));
    // A continuation into a zero group is non-canonical.
    let bytes = Bytes::from(vec![0x80u8, 0x00]);
    assert!(matches!(
        Value::read(TypeCode::Bytes, bytes),
        Err(ImprintError::VarintError)
    ));
}

#[test]
fn truncated_value_is_a_buffer_underflow() {
    let bytes = Bytes::from(vec![1u8, 2, 3]);
    assert!(matches!(
        Value::read(TypeCode::Int32, bytes),
        Err(ImprintError::BufferUnderflow { .. })
    ));
    // A blob announcing more bytes than remain.
    let bytes = Bytes::from(vec![5u8, 1, 2]);
    assert!(matches!(
        Value::read(TypeCode::Bytes, bytes),
        Err(ImprintError::BufferUnderflow { .. })
    ));
}

#[test]
fn truncated_payload_is_a_buffer_underflow() {
    // A valid header announcing a one-byte payload that is missing.
    let mut buf = BytesMut::new();
    buf.put_u8(MAGIC);
    buf.put_u8(VERSION);
    buf.put_u8(0x00);
    buf.put_u64_le(0);
    buf.put_u32_le(1); // payload_size = 1
    buf.put_u8(0x00); // directory count = 0, and no payload byte follows
    assert!(matches!(
        ImprintRecord::read(buf.freeze()),
        Err(ImprintError::BufferUnderflow { .. })
    ));
}
