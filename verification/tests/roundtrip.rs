use bytes::BytesMut;
use imprint::types::{Flags, ImprintRecord, MapKey, SchemaId, Value};
use imprint::writer::ImprintWriter;

fn schema(fieldspace_id: u32, schema_hash: u32) -> SchemaId {
    SchemaId { fieldspace_id, schema_hash }
}

fn roundtrip(record: &ImprintRecord) -> ImprintRecord {
    let mut buf = BytesMut::new();
    record.write(&mut buf).unwrap();
    let (back, _) = ImprintRecord::read(buf.freeze()).unwrap();
    back
}

#[test]
fn test_roundtrip_nested_record() {
    // Create an inner record with an int32 and string field
    let mut inner_writer = ImprintWriter::new(schema(2, 0xcafebabe)).unwrap();
    inner_writer.add_field(1, Value::Int32(42)).unwrap();
    inner_writer.add_field(2, Value::String("nested".to_string())).unwrap();
    let inner_record = inner_writer.build().unwrap();

    // Create an outer record containing the inner record and an int64
    let mut outer_writer = ImprintWriter::new(schema(1, 0xdeadbeef)).unwrap();
    outer_writer.add_field(1, Value::Row(Box::new(inner_record))).unwrap();
    outer_writer.add_field(2, Value::Int64(123)).unwrap();
    let outer_record = outer_writer.build().unwrap();

    // When we serialize and deserialize the outer record
    let deserialized_record = roundtrip(&outer_record);

    // Then the outer record metadata should be preserved
    assert_eq!(deserialized_record.header.schema_id.fieldspace_id, 1);
    assert_eq!(deserialized_record.header.schema_id.schema_hash, 0xdeadbeef);
    assert_eq!(deserialized_record.header.flags, Flags::new(0));
    assert_eq!(deserialized_record.directory.len(), 2);

    // And the outer record values should match
    let got_row = deserialized_record.get_value(1).unwrap().unwrap();
    let got_int64 = deserialized_record.get_value(2).unwrap().unwrap();
    assert_eq!(got_int64, Value::Int64(123));

    // And the inner record should be preserved
    if let Value::Row(inner) = got_row {
        assert_eq!(inner.header.schema_id.fieldspace_id, 2);
        assert_eq!(inner.header.schema_id.schema_hash, 0xcafebabe);
        assert_eq!(inner.header.flags, Flags::new(0));
        assert_eq!(inner.directory.len(), 2);

        let got_inner_int = inner.get_value(1).unwrap().unwrap();
        let got_inner_str = inner.get_value(2).unwrap().unwrap();

        assert_eq!(got_inner_int, Value::Int32(42));
        assert_eq!(got_inner_str, Value::String("nested".to_string()));
    } else {
        panic!("Expected Row value");
    }
}

#[test]
fn test_duplicate_field_id() {
    let mut writer = ImprintWriter::new(schema(1, 0xdeadbeef)).unwrap();

    // Add duplicate field IDs
    writer.add_field(1, Value::Int32(42)).unwrap();
    writer.add_field(1, Value::Int32(43)).unwrap();

    // Build should succeed, last value wins
    let record = writer.build().unwrap();
    assert_eq!(record.directory.len(), 1);
    assert_eq!(record.get_value(1).unwrap(), Some(Value::Int32(43)));
}

#[test]
fn primitive_fields_roundtrip_and_missing_id_is_absent() {
    let mut writer = ImprintWriter::new(schema(1, 0xdeadbeef)).unwrap();
    writer.add_field(1, Value::Null).unwrap();
    writer.add_field(2, Value::Bool(true)).unwrap();
    writer.add_field(3, Value::Int32(-7)).unwrap();
    writer.add_field(4, Value::Int64(10_000_000_000)).unwrap();
    writer.add_field(5, Value::String("hi".to_string())).unwrap();
    let record = writer.build().unwrap();

    let mut buf = BytesMut::new();
    record.write(&mut buf).unwrap();
    // 15 header bytes, 1 count byte, 5 entries of 7 bytes, 16 payload bytes.
    assert_eq!(buf.len(), 67);

    let (back, consumed) = ImprintRecord::read(buf.freeze()).unwrap();
    assert_eq!(consumed, 67);
    assert_eq!(back.get_value(1).unwrap(), Some(Value::Null));
    assert_eq!(back.get_value(2).unwrap(), Some(Value::Bool(true)));
    assert_eq!(back.get_value(3).unwrap(), Some(Value::Int32(-7)));
    assert_eq!(back.get_value(4).unwrap(), Some(Value::Int64(10_000_000_000)));
    assert_eq!(back.get_value(5).unwrap(), Some(Value::String("hi".to_string())));
    assert_eq!(back.get_value(9).unwrap(), None);
}

#[test]
fn float_fields_roundtrip_bitwise() {
    let mut writer = ImprintWriter::new(schema(1, 1)).unwrap();
    writer.add_field(1, Value::Float32(3.5f32.to_bits())).unwrap();
    writer.add_field(2, Value::Float64((-0.125f64).to_bits())).unwrap();
    writer.add_field(3, Value::Float32(f32::NAN.to_bits())).unwrap();
    let back = roundtrip(&writer.build().unwrap());

    assert_eq!(back.get_value(1).unwrap(), Some(Value::Float32(3.5f32.to_bits())));
    assert_eq!(back.get_value(2).unwrap(), Some(Value::Float64((-0.125f64).to_bits())));
    // NaN payloads compare bitwise.
    assert_eq!(back.get_value(3).unwrap(), Some(Value::Float32(f32::NAN.to_bits())));
}

#[test]
fn bytes_and_long_string_roundtrip() {
    // 300 elements force a two-byte length varint.
    let blob: Vec<u8> = (0..300u16).map(|i| (i % 251) as u8).collect();
    let text = "déjà vu ✓".to_string();
    let mut writer = ImprintWriter::new(schema(7, 7)).unwrap();
    writer.add_field(1, Value::Bytes(blob.clone())).unwrap();
    writer.add_field(2, Value::String(text.clone())).unwrap();

    let record = writer.build().unwrap();
    let mut buf = BytesMut::new();
    record.write(&mut buf).unwrap();
    // 15 header + 1 count + 14 directory + (2 + 300) blob + (1 + n) string.
    assert_eq!(buf.len(), 15 + 1 + 14 + 302 + 1 + text.len());

    let (back, _) = ImprintRecord::read(buf.freeze()).unwrap();
    assert_eq!(back.get_value(1).unwrap(), Some(Value::Bytes(blob)));
    assert_eq!(back.get_value(2).unwrap(), Some(Value::String(text)));
}

#[test]
fn homogeneous_array_roundtrip() {
    let array = || Value::Array(vec![Value::Int32(1), Value::Int32(-2), Value::Int32(300)]);
    let empty = || Value::Array(vec![]);
    let nested = || {
        Value::Array(vec![
            Value::Array(vec![Value::Bool(true), Value::Bool(false)]),
            Value::Array(vec![]),
        ])
    };
    let mut writer = ImprintWriter::new(schema(3, 3)).unwrap();
    writer.add_field(1, array()).unwrap();
    writer.add_field(2, empty()).unwrap();
    writer.add_field(3, nested()).unwrap();
    let back = roundtrip(&writer.build().unwrap());

    assert_eq!(back.get_value(1).unwrap(), Some(array()));
    assert_eq!(back.get_value(2).unwrap(), Some(empty()));
    assert_eq!(back.get_value(3).unwrap(), Some(nested()));
}

#[test]
fn homogeneous_map_roundtrip() {
    let map = || {
        Value::Mapping(vec![
            (MapKey::Int32(1), Value::String("one".to_string())),
            (MapKey::Int32(2), Value::String("two".to_string())),
        ])
    };
    let by_name = || {
        Value::Mapping(vec![
            (MapKey::String("k".to_string()), Value::Int64(9)),
            (MapKey::String("l".to_string()), Value::Int64(-9)),
        ])
    };
    let by_bytes = || Value::Mapping(vec![(MapKey::Bytes(vec![0, 255]), Value::Null)]);
    let empty = || Value::Mapping(vec![]);
    let mut writer = ImprintWriter::new(schema(4, 4)).unwrap();
    writer.add_field(1, map()).unwrap();
    writer.add_field(2, by_name()).unwrap();
    writer.add_field(3, by_bytes()).unwrap();
    writer.add_field(4, empty()).unwrap();
    let back = roundtrip(&writer.build().unwrap());

    assert_eq!(back.get_value(1).unwrap(), Some(map()));
    assert_eq!(back.get_value(2).unwrap(), Some(by_name()));
    assert_eq!(back.get_value(3).unwrap(), Some(by_bytes()));
    assert_eq!(back.get_value(4).unwrap(), Some(empty()));
}

#[test]
fn directory_ids_ascend_after_build() {
    let mut writer = ImprintWriter::new(schema(1, 1)).unwrap();
    writer.add_field(30, Value::Int32(3)).unwrap();
    writer.add_field(10, Value::Int32(1)).unwrap();
    writer.add_field(20, Value::Null).unwrap();
    let record = writer.build().unwrap();
    assert_eq!(record.ids(), vec![10, 20, 30]);
    let back = roundtrip(&record);
    assert_eq!(back.ids(), vec![10, 20, 30]);
}

#[test]
fn empty_record_roundtrip() {
    let writer = ImprintWriter::new(schema(9, 9)).unwrap();
    let record = writer.build().unwrap();
    assert_eq!(record.directory.len(), 0);
    let back = roundtrip(&record);
    assert_eq!(back.ids(), Vec::<u16>::new());
    assert_eq!(back.get_value(1).unwrap(), None);
    assert_eq!(back.schema_id(), schema(9, 9));
}
