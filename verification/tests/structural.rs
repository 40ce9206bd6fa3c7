use bytes::{BufMut, BytesMut};
use imprint::types::{ImprintRecord, SchemaId, Value};
use imprint::writer::ImprintWriter;
use imprint::{MAGIC, VERSION};

fn schema(fieldspace_id: u32, schema_hash: u32) -> SchemaId {
    SchemaId { fieldspace_id, schema_hash }
}

#[test]
fn projection_keeps_requested_fields_in_order() {
    let mut writer = ImprintWriter::new(schema(1, 0xfeed)).unwrap();
    writer.add_field(1, Value::Int32(11)).unwrap();
    writer.add_field(3, Value::String("bee".to_string())).unwrap();
    writer.add_field(6, Value::Int64(66)).unwrap();
    let record = writer.build().unwrap();

    // Unsorted request with a duplicate and an absent id.
    let projected = record.project(&[3, 6, 9, 3]).unwrap();
    assert_eq!(projected.ids(), vec![3, 6]);
    assert_eq!(projected.get_value(3).unwrap(), Some(Value::String("bee".to_string())));
    assert_eq!(projected.get_value(6).unwrap(), Some(Value::Int64(66)));
    assert_eq!(projected.get_value(1).unwrap(), None);
    // Schema id and flags carry over from the source.
    assert_eq!(projected.schema_id(), record.schema_id());
    assert_eq!(projected.header.flags, record.header.flags);
}

#[test]
fn projection_survives_a_serialization_roundtrip() {
    let mut writer = ImprintWriter::new(schema(2, 2)).unwrap();
    writer.add_field(1, Value::Null).unwrap();
    writer.add_field(2, Value::Bytes(vec![9, 8, 7])).unwrap();
    writer.add_field(3, Value::Bool(false)).unwrap();
    let record = writer.build().unwrap();

    let projected = record.project(&[1, 2]).unwrap();
    let mut buf = BytesMut::new();
    projected.write(&mut buf).unwrap();
    let (back, _) = ImprintRecord::read(buf.freeze()).unwrap();
    assert_eq!(back.ids(), vec![1, 2]);
    assert_eq!(back.get_value(1).unwrap(), Some(Value::Null));
    assert_eq!(back.get_value(2).unwrap(), Some(Value::Bytes(vec![9, 8, 7])));
    assert_eq!(back.get_value(3).unwrap(), None);
}

#[test]
fn merge_takes_the_union_and_the_receiver_wins() {
    let mut base_writer = ImprintWriter::new(schema(1, 0xaaaa)).unwrap();
    base_writer.add_field(1, Value::String("a".to_string())).unwrap();
    base_writer.add_field(3, Value::Int32(30)).unwrap();
    let base = base_writer.build().unwrap();

    let mut overlay_writer = ImprintWriter::new(schema(1, 0xbbbb)).unwrap();
    overlay_writer.add_field(2, Value::Int64(200)).unwrap();
    overlay_writer.add_field(3, Value::Int32(999)).unwrap();
    let overlay = overlay_writer.build().unwrap();

    let merged = base.merge(&overlay).unwrap();
    assert_eq!(merged.ids(), vec![1, 2, 3]);
    assert_eq!(merged.get_value(1).unwrap(), Some(Value::String("a".to_string())));
    assert_eq!(merged.get_value(2).unwrap(), Some(Value::Int64(200)));
    assert_eq!(merged.get_value(3).unwrap(), Some(Value::Int32(30)));
    // The receiver's schema id and flags stand.
    assert_eq!(merged.schema_id(), schema(1, 0xaaaa));
}

#[test]
fn merged_record_survives_a_serialization_roundtrip() {
    let mut a = ImprintWriter::new(schema(5, 5)).unwrap();
    a.add_field(10, Value::Bool(true)).unwrap();
    let mut b = ImprintWriter::new(schema(5, 6)).unwrap();
    b.add_field(20, Value::Bytes(vec![1, 2])).unwrap();
    let merged = a.build().unwrap().merge(&b.build().unwrap()).unwrap();

    let mut buf = BytesMut::new();
    merged.write(&mut buf).unwrap();
    let (back, _) = ImprintRecord::read(buf.freeze()).unwrap();
    assert_eq!(back.get_value(10).unwrap(), Some(Value::Bool(true)));
    assert_eq!(back.get_value(20).unwrap(), Some(Value::Bytes(vec![1, 2])));
}

#[test]
fn unknown_flag_bits_survive_a_passthrough() {
    // A record with a nonzero flags byte, as an older or newer writer
    // might emit it.
    let mut buf = BytesMut::new();
    buf.put_u8(MAGIC);
    buf.put_u8(VERSION);
    buf.put_u8(0x5A); // flags
    buf.put_u32_le(1);
    buf.put_u32_le(2);
    buf.put_u32_le(0); // payload_size
    buf.put_u8(0x00); // directory count
    let wire: Vec<u8> = buf.to_vec();

    let (record, consumed) = ImprintRecord::read(buf.freeze()).unwrap();
    assert_eq!(consumed, 16);
    assert_eq!(record.header.flags.0, 0x5A);

    let mut out = BytesMut::new();
    record.write(&mut out).unwrap();
    assert_eq!(out.to_vec(), wire);
}

#[test]
fn trailing_bytes_are_left_unconsumed() {
    let mut writer = ImprintWriter::new(schema(1, 1)).unwrap();
    writer.add_field(1, Value::Int32(5)).unwrap();
    let record = writer.build().unwrap();

    let mut buf = BytesMut::new();
    record.write(&mut buf).unwrap();
    let record_len = buf.len();
    buf.put_u8(0xEE); // framing noise after the record
    buf.put_u8(0xFF);

    let (back, consumed) = ImprintRecord::read(buf.freeze()).unwrap();
    assert_eq!(consumed, record_len);
    assert_eq!(back.get_value(1).unwrap(), Some(Value::Int32(5)));
}
