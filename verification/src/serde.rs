//! The executable codec: writing values and records to bytes and reading
//! them back, verified against the spec codec in `codec`.

use vstd::prelude::*;
use vstd::string::StrSliceExecFns;
use bytes::Bytes;
use bytes::BytesMut;
use crate::bytesio::bytes_at;
use crate::bytesio::bytes_len;
use crate::bytesio::bytes_mut_put_u8;
use crate::bytesio::bytes_mut_seq;
use crate::bytesio::bytes_seq;
use crate::bytesio::bytes_slice;
use crate::codec::MAX_U32;
use crate::codec::elems_all_tc;
use crate::codec::elems_dec;
use crate::codec::elems_enc;
use crate::codec::elems_size_ok;
use crate::codec::elems_struct_ok;
use crate::codec::entry_enc;
use crate::codec::header_enc;
use crate::codec::i32_of_u32;
use crate::codec::i64_of_u64;
use crate::codec::key_dec;
use crate::codec::key_enc;
use crate::codec::key_size_ok;
use crate::codec::lemma_elems_size_ok_iff;
use crate::codec::lemma_elems_struct_ok_iff;
use crate::codec::lemma_pairs_size_ok_iff;
use crate::codec::lemma_pairs_struct_ok_iff;
use crate::codec::pairs_all_tc;
use crate::codec::pairs_dec;
use crate::codec::pairs_enc;
use crate::codec::pairs_size_ok;
use crate::codec::pairs_struct_ok;
use crate::codec::rec_dec;
use crate::codec::rec_enc;
use crate::codec::u32_of_i32;
use crate::codec::u64_of_i64;
use crate::codec::val_dec;
use crate::codec::val_enc;
use crate::codec::val_size_ok;
use crate::codec::val_struct_ok;
use crate::codec::val_wf;
use crate::error::ImprintError;
use crate::types::DirectoryEntry;
use crate::types::Flags;
use crate::types::Header;
use crate::types::ImprintRecord;
use crate::types::MapKey;
use crate::types::SchemaId;
use crate::types::TypeCode;
use crate::types::Value;
use crate::types::key_model;
use crate::types::lemma_pairs_model;
use crate::types::lemma_vals_model;
use crate::types::pairs_model;
use crate::types::val_model;
use crate::types::vals_model;
use crate::varint::varint_dec;
use crate::varint::varint_read;
use crate::varint::varint_write;
use crate::MAGIC;
use crate::VERSION;

verus! {

broadcast use vstd::std_specs::vec::group_vec_axioms;

/// Types that can be written to a byte buffer in the Imprint format.
pub trait Write {
    /// Append this value's encoding to `buf`.
    fn write(&self, buf: &mut BytesMut) -> Result<(), ImprintError>;
}

/// Types that can be read from the front of a byte buffer.
pub trait Read: Sized {
    /// Read a value, returning it with the number of bytes consumed.
    fn read(bytes: Bytes) -> Result<(Self, usize), ImprintError>;
}

/// Types that are read under an externally supplied type code.
pub trait ValueRead: Sized {
    /// Read a value of kind `type_code`, returning it with the number of
    /// bytes consumed.
    fn read(type_code: TypeCode, bytes: Bytes) -> Result<(Self, usize), ImprintError>;
}

// ---------------------------------------------------------------------
// Small helpers
// ---------------------------------------------------------------------
/// The unsigned word with the two's-complement bytes of `x`.
pub fn u32_from_i32(x: i32) -> (u: u32)
    ensures
        u == u32_of_i32(x),
{
    if x >= 0 {
        x as u32
    } else {
        ((x as i64) + 0x1_0000_0000i64) as u32
    }
}

/// Inverse of [`u32_from_i32`].
pub fn i32_from_u32(u: u32) -> (x: i32)
    ensures
        x == i32_of_u32(u),
{
    if u < 0x8000_0000 {
        u as i32
    } else {
        ((u as i64) - 0x1_0000_0000i64) as i32
    }
}

/// The unsigned word with the two's-complement bytes of `x`.
pub fn u64_from_i64(x: i64) -> (u: u64)
    ensures
        u == u64_of_i64(x),
{
    if x >= 0 {
        x as u64
    } else {
        let shifted: i64 = (x + 0x4000_0000_0000_0000i64) + 0x4000_0000_0000_0000i64;
        (shifted as u64) + 0x8000_0000_0000_0000u64
    }
}

/// Inverse of [`u64_from_i64`].
pub fn i64_from_u64(u: u64) -> (x: i64)
    ensures
        x == i64_of_u64(u),
{
    if u < 0x8000_0000_0000_0000 {
        u as i64
    } else {
        let shifted: i64 = (u - 0x8000_0000_0000_0000u64) as i64;
        (shifted - 0x4000_0000_0000_0000i64) - 0x4000_0000_0000_0000i64
    }
}

fn push_u16_le(out: &mut Vec<u8>, x: u16)
    ensures
        final(out)@ == old(out)@ + vstd::bytes::spec_u16_to_le_bytes(x),
{
    let b = vstd::bytes::u16_to_le_bytes(x);
    out.push(b[0]);
    out.push(b[1]);
    assert(final(out)@ =~= old(out)@ + vstd::bytes::spec_u16_to_le_bytes(x));
}

fn push_u32_le(out: &mut Vec<u8>, x: u32)
    ensures
        final(out)@ == old(out)@ + vstd::bytes::spec_u32_to_le_bytes(x),
{
    let b = vstd::bytes::u32_to_le_bytes(x);
    out.push(b[0]);
    out.push(b[1]);
    out.push(b[2]);
    out.push(b[3]);
    assert(final(out)@ =~= old(out)@ + vstd::bytes::spec_u32_to_le_bytes(x));
}

fn push_u64_le(out: &mut Vec<u8>, x: u64)
    ensures
        final(out)@ == old(out)@ + vstd::bytes::spec_u64_to_le_bytes(x),
{
    let b = vstd::bytes::u64_to_le_bytes(x);
    out.push(b[0]);
    out.push(b[1]);
    out.push(b[2]);
    out.push(b[3]);
    out.push(b[4]);
    out.push(b[5]);
    out.push(b[6]);
    out.push(b[7]);
    assert(final(out)@ =~= old(out)@ + vstd::bytes::spec_u64_to_le_bytes(x));
}

pub(crate) fn push_all(out: &mut Vec<u8>, b: &Vec<u8>)
    ensures
        final(out)@ == old(out)@ + b@,
{
    let mut i: usize = 0;
    while i < b.len()
        invariant
            i <= b.len(),
            out@ == old(out)@ + b@.subrange(0, i as int),
        decreases b.len() - i,
    {
        out.push(b[i]);
        assert(out@ =~= old(out)@ + b@.subrange(0, i + 1));
        i = i + 1;
    }
    assert(final(out)@ =~= old(out)@ + b@);
}

// ---------------------------------------------------------------------
// Well-formedness checks
// ---------------------------------------------------------------------
/// Check that a map key's lengths fit the wire format.
fn check_key(k: &MapKey) -> (r: Result<(), ImprintError>)
    ensures
        r is Ok <==> key_size_ok(k@),
        r matches Err(e) ==> e matches ImprintError::SizeOverflow,
{
    match k {
        MapKey::Int32(_) => Ok(()),
        MapKey::Int64(_) => Ok(()),
        MapKey::Bytes(b) => {
            if b.len() as u64 > MAX_U32 as u64 {
                Err(ImprintError::SizeOverflow)
            } else {
                Ok(())
            }
        },
        MapKey::String(s) => {
            let bv = s.as_str().as_bytes_vec();
            if bv.len() as u64 > MAX_U32 as u64 {
                Err(ImprintError::SizeOverflow)
            } else {
                Ok(())
            }
        },
    }
}

/// Check that a value is well formed: homogeneous arrays and maps, nested
/// headers that agree with their payloads (`SchemaError` otherwise), and
/// lengths that fit the wire format (`SizeOverflow` otherwise).
#[verifier::loop_isolation(false)]
pub fn check_value(v: &Value) -> (r: Result<(), ImprintError>)
    ensures
        r is Ok <==> val_wf(v@),
        r matches Err(e) ==> {
            &&& (e matches ImprintError::SchemaError(m) ==> !val_struct_ok(v@))
            &&& (e matches ImprintError::SizeOverflow ==> !val_size_ok(v@))
            &&& (e matches ImprintError::SchemaError(m) || e matches ImprintError::SizeOverflow)
        },
    decreases v,
{
    match v {
        Value::Null => Ok(()),
        Value::Bool(_) => Ok(()),
        Value::Int32(_) => Ok(()),
        Value::Int64(_) => Ok(()),
        Value::Float32(_) => Ok(()),
        Value::Float64(_) => Ok(()),
        Value::Bytes(b) => {
            if b.len() as u64 > MAX_U32 as u64 {
                Err(ImprintError::SizeOverflow)
            } else {
                Ok(())
            }
        },
        Value::String(s) => {
            let bv = s.as_str().as_bytes_vec();
            if bv.len() as u64 > MAX_U32 as u64 {
                Err(ImprintError::SizeOverflow)
            } else {
                Ok(())
            }
        },
        Value::Array(es) => {
            proof {
                lemma_vals_model(es@);
                lemma_elems_struct_ok_iff(vals_model(es@));
                lemma_elems_size_ok_iff(vals_model(es@));
            }
            let ghost ms = vals_model(es@);
            if es.len() as u64 > MAX_U32 as u64 {
                return Err(ImprintError::SizeOverflow);
            }
            if es.len() == 0 {
                return Ok(());
            }
            let tc0 = es[0].type_code();
            let mut i: usize = 0;
            while i < es.len()
                invariant
                    0 < es.len(),
                    i <= es.len(),
                    ms == vals_model(es@),
                    ms.len() == es@.len(),
                    forall|j: int| 0 <= j < es@.len() ==> ms[j] == val_model(es@[j]),
                    tc0 == ms[0].type_code(),
                    forall|j: int|
                        0 <= j < i ==> {
                            &&& (#[trigger] ms[j]).type_code() == tc0
                            &&& val_struct_ok(ms[j])
                            &&& val_size_ok(ms[j])
                        },
                decreases es.len() - i,
            {
                proof {
                    assert(decreases_to!(*v => v->Array_0));
                    assert(v->Array_0 == *es);
                    assert(decreases_to!(*es => es@));
                    assert(decreases_to!(es@ => es@[i as int]));
                    assert(decreases_to!(*v => es@[i as int]));
                }
                if !type_code_eq(es[i].type_code(), tc0) {
                    proof {
                        assert(ms[i as int].type_code() != ms[0].type_code());
                        assert(!val_struct_ok(v@));
                    }
                    return Err(
                        ImprintError::SchemaError(
                            "array elements must share one type code".to_owned(),
                        ),
                    );
                }
                match check_value(&es[i]) {
                    Err(e) => {
                        proof {
                            if !val_struct_ok(ms[i as int]) {
                                assert(!elems_struct_ok(ms));
                                assert(!val_struct_ok(v@));
                            }
                            if !val_size_ok(ms[i as int]) {
                                assert(!elems_size_ok(ms));
                                assert(!val_size_ok(v@));
                            }
                            assert(!val_wf(v@));
                        }
                        return Err(e);
                    },
                    Ok(()) => {},
                }
                i = i + 1;
            }
            proof {
                assert(elems_all_tc(ms, ms[0].type_code()));
                assert(elems_struct_ok(ms));
                assert(elems_size_ok(ms));
            }
            Ok(())
        },
        Value::Mapping(ps) => {
            proof {
                lemma_pairs_model(ps@);
                lemma_pairs_struct_ok_iff(pairs_model(ps@));
                lemma_pairs_size_ok_iff(pairs_model(ps@));
            }
            let ghost ms = pairs_model(ps@);
            if ps.len() as u64 > MAX_U32 as u64 {
                return Err(ImprintError::SizeOverflow);
            }
            if ps.len() == 0 {
                return Ok(());
            }
            let kt0 = ps[0].0.type_code();
            let vt0 = ps[0].1.type_code();
            let mut i: usize = 0;
            while i < ps.len()
                invariant
                    0 < ps.len(),
                    i <= ps.len(),
                    ms == pairs_model(ps@),
                    ms.len() == ps@.len(),
                    forall|j: int|
                        0 <= j < ps@.len() ==> ms[j] == (key_model(ps@[j].0), val_model(ps@[j].1)),
                    kt0 == ms[0].0.type_code(),
                    vt0 == ms[0].1.type_code(),
                    forall|j: int|
                        0 <= j < i ==> {
                            &&& (#[trigger] ms[j]).0.type_code() == kt0
                            &&& ms[j].1.type_code() == vt0
                            &&& key_size_ok(ms[j].0)
                            &&& val_struct_ok(ms[j].1)
                            &&& val_size_ok(ms[j].1)
                        },
                decreases ps.len() - i,
            {
                proof {
                    assert(decreases_to!(*v => v->Mapping_0));
                    assert(v->Mapping_0 == *ps);
                    assert(decreases_to!(*ps => ps@));
                    assert(decreases_to!(ps@ => ps@[i as int]));
                    assert(decreases_to!(*v => ps@[i as int].1));
                }
                if !type_code_eq(ps[i].0.type_code(), kt0) {
                    proof {
                        assert(ms[i as int].0.type_code() != ms[0].0.type_code());
                        assert(!val_struct_ok(v@));
                    }
                    return Err(
                        ImprintError::SchemaError("map keys must share one type code".to_owned()),
                    );
                }
                if !type_code_eq(ps[i].1.type_code(), vt0) {
                    proof {
                        assert(ms[i as int].1.type_code() != ms[0].1.type_code());
                        assert(!val_struct_ok(v@));
                    }
                    return Err(
                        ImprintError::SchemaError(
                            "map values must share one type code".to_owned(),
                        ),
                    );
                }
                match check_key(&ps[i].0) {
                    Err(e) => {
                        proof {
                            assert(!key_size_ok(ms[i as int].0));
                            assert(!pairs_size_ok(ms));
                            assert(!val_size_ok(v@));
                        }
                        return Err(e);
                    },
                    Ok(()) => {},
                }
                match check_value(&ps[i].1) {
                    Err(e) => {
                        proof {
                            if !val_struct_ok(ms[i as int].1) {
                                assert(!pairs_struct_ok(ms));
                                assert(!val_struct_ok(v@));
                            }
                            if !val_size_ok(ms[i as int].1) {
                                assert(!pairs_size_ok(ms));
                                assert(!val_size_ok(v@));
                            }
                            assert(!val_wf(v@));
                        }
                        return Err(e);
                    },
                    Ok(()) => {},
                }
                i = i + 1;
            }
            proof {
                assert(pairs_all_tc(ms, ms[0].0.type_code(), ms[0].1.type_code()));
                assert(pairs_struct_ok(ms));
                assert(pairs_size_ok(ms));
            }
            Ok(())
        },
        Value::Row(r) => {
            if r.directory.len() as u64 > MAX_U32 as u64 {
                Err(ImprintError::SizeOverflow)
            } else if r.header.payload_size as usize != bytes_len(&r.payload) {
                Err(
                    ImprintError::SchemaError(
                        "nested record header disagrees with its payload".to_owned(),
                    ),
                )
            } else {
                Ok(())
            }
        },
    }
}

/// Structural equality of two type codes.
fn type_code_eq(a: TypeCode, b: TypeCode) -> (r: bool)
    ensures
        r <==> a == b,
{
    a == b
}

// ---------------------------------------------------------------------
// Encoding
// ---------------------------------------------------------------------
/// Append the encoding of a well-formed map key.
fn encode_key(k: &MapKey, out: &mut Vec<u8>)
    requires
        key_size_ok(k@),
    ensures
        final(out)@ == old(out)@ + key_enc(k@),
{
    match k {
        MapKey::Int32(i) => {
            push_u32_le(out, u32_from_i32(*i));
        },
        MapKey::Int64(i) => {
            push_u64_le(out, u64_from_i64(*i));
        },
        MapKey::Bytes(b) => {
            varint_write(out, b.len() as u32);
            push_all(out, b);
            assert(final(out)@ =~= old(out)@ + key_enc(k@));
        },
        MapKey::String(s) => {
            let bv = s.as_str().as_bytes_vec();
            varint_write(out, bv.len() as u32);
            push_all(out, &bv);
            assert(final(out)@ =~= old(out)@ + key_enc(k@));
        },
    }
}

/// Append the encoding of a well-formed value.
pub fn encode_value(v: &Value, out: &mut Vec<u8>)
    requires
        val_wf(v@),
    ensures
        final(out)@ == old(out)@ + val_enc(v@),
    decreases v, 1int,
{
    match v {
        Value::Null => {
            assert(final(out)@ =~= old(out)@ + val_enc(v@));
        },
        Value::Bool(b) => {
            out.push(if *b {
                1u8
            } else {
                0u8
            });
            assert(final(out)@ =~= old(out)@ + val_enc(v@));
        },
        Value::Int32(i) => {
            push_u32_le(out, u32_from_i32(*i));
        },
        Value::Int64(i) => {
            push_u64_le(out, u64_from_i64(*i));
        },
        Value::Float32(b) => {
            push_u32_le(out, *b);
        },
        Value::Float64(b) => {
            push_u64_le(out, *b);
        },
        Value::Bytes(b) => {
            varint_write(out, b.len() as u32);
            push_all(out, b);
            assert(final(out)@ =~= old(out)@ + val_enc(v@));
        },
        Value::String(s) => {
            let bv = s.as_str().as_bytes_vec();
            varint_write(out, bv.len() as u32);
            push_all(out, &bv);
            assert(final(out)@ =~= old(out)@ + val_enc(v@));
        },
        Value::Array(es) => {
            proof {
                lemma_vals_model(es@);
                lemma_elems_struct_ok_iff(vals_model(es@));
                lemma_elems_size_ok_iff(vals_model(es@));
            }
            varint_write(out, es.len() as u32);
            if es.len() > 0 {
                out.push(es[0].type_code().byte());
                encode_elems(es, out);
            }
            assert(final(out)@ =~= old(out)@ + val_enc(v@));
        },
        Value::Mapping(ps) => {
            proof {
                lemma_pairs_model(ps@);
                lemma_pairs_struct_ok_iff(pairs_model(ps@));
                lemma_pairs_size_ok_iff(pairs_model(ps@));
            }
            varint_write(out, ps.len() as u32);
            if ps.len() > 0 {
                out.push(ps[0].0.type_code().byte());
                out.push(ps[0].1.type_code().byte());
                encode_pairs(ps, out);
            }
            assert(final(out)@ =~= old(out)@ + val_enc(v@));
        },
        Value::Row(r) => {
            encode_record(r, out);
        },
    }
}

/// Append the encodings of all array elements, in order.
#[verifier::loop_isolation(false)]
fn encode_elems(es: &Vec<Value>, out: &mut Vec<u8>)
    requires
        elems_struct_ok(vals_model(es@)),
        elems_size_ok(vals_model(es@)),
    ensures
        final(out)@ == old(out)@ + elems_enc(vals_model(es@)),
    decreases es, 0int,
{
    proof {
        lemma_vals_model(es@);
        lemma_elems_struct_ok_iff(vals_model(es@));
        lemma_elems_size_ok_iff(vals_model(es@));
    }
    let ghost ms = vals_model(es@);
    let mut i: usize = 0;
    while i < es.len()
        invariant
            i <= es.len(),
            ms == vals_model(es@),
            ms.len() == es@.len(),
            forall|j: int| 0 <= j < es@.len() ==> ms[j] == val_model(es@[j]),
            forall|j: int| 0 <= j < ms.len() ==> val_wf(#[trigger] ms[j]),
            out@ == old(out)@ + elems_enc(ms.subrange(0, i as int)),
        decreases es.len() - i,
    {
        proof {
            assert(decreases_to!(es => es[i as int]));
            assert(val_wf(ms[i as int]));
            assert(ms[i as int] == val_model(es@[i as int]));
        }
        encode_value(&es[i], out);
        proof {
            crate::codec::lemma_elems_enc_concat(ms.subrange(0, i as int), seq![ms[i as int]]);
            assert(ms.subrange(0, i as int) + seq![ms[i as int]] =~= ms.subrange(0, i + 1));
            assert(elems_enc(seq![ms[i as int]]) =~= val_enc(ms[i as int]) + elems_enc(
                Seq::empty(),
            )) by {
                assert(seq![ms[i as int]].subrange(1, 1) =~= Seq::<crate::types::ValModel>::empty());
            }
            assert(out@ =~= old(out)@ + elems_enc(ms.subrange(0, i + 1)));
        }
        i = i + 1;
    }
    assert(ms.subrange(0, ms.len() as int) =~= ms);
}

/// Append the encodings of all map entries, key then value, in order.
#[verifier::loop_isolation(false)]
fn encode_pairs(ps: &Vec<(MapKey, Value)>, out: &mut Vec<u8>)
    requires
        pairs_struct_ok(pairs_model(ps@)),
        pairs_size_ok(pairs_model(ps@)),
    ensures
        final(out)@ == old(out)@ + pairs_enc(pairs_model(ps@)),
    decreases ps, 0int,
{
    proof {
        lemma_pairs_model(ps@);
        lemma_pairs_struct_ok_iff(pairs_model(ps@));
        lemma_pairs_size_ok_iff(pairs_model(ps@));
    }
    let ghost ms = pairs_model(ps@);
    let mut i: usize = 0;
    while i < ps.len()
        invariant
            i <= ps.len(),
            ms == pairs_model(ps@),
            ms.len() == ps@.len(),
            forall|j: int|
                0 <= j < ps@.len() ==> ms[j] == (key_model(ps@[j].0), val_model(ps@[j].1)),
            forall|j: int|
                0 <= j < ms.len() ==> key_size_ok(#[trigger] ms[j].0) && val_wf(ms[j].1),
            out@ == old(out)@ + pairs_enc(ms.subrange(0, i as int)),
        decreases ps.len() - i,
    {
        proof {
            assert(decreases_to!(ps => ps[i as int]));
            assert(key_size_ok(ms[i as int].0) && val_wf(ms[i as int].1));
            assert(ms[i as int] == (key_model(ps@[i as int].0), val_model(ps@[i as int].1)));
        }
        encode_key(&ps[i].0, out);
        encode_value(&ps[i].1, out);
        proof {
            crate::codec::lemma_pairs_enc_concat(ms.subrange(0, i as int), seq![ms[i as int]]);
            assert(ms.subrange(0, i as int) + seq![ms[i as int]] =~= ms.subrange(0, i + 1));
            assert(pairs_enc(seq![ms[i as int]]) =~= key_enc(ms[i as int].0) + val_enc(
                ms[i as int].1,
            ) + pairs_enc(Seq::empty())) by {
                assert(seq![ms[i as int]].subrange(1, 1) =~= Seq::<
                    (crate::types::KeyModel, crate::types::ValModel),
                >::empty());
            }
            assert(out@ =~= old(out)@ + pairs_enc(ms.subrange(0, i + 1)));
        }
        i = i + 1;
    }
    assert(ms.subrange(0, ms.len() as int) =~= ms);
}

/// Append the full serialized form of a record whose directory count fits
/// the wire format: header, directory count, directory, payload.
#[verifier::loop_isolation(false)]
pub fn encode_record(r: &ImprintRecord, out: &mut Vec<u8>)
    requires
        r.directory@.len() <= MAX_U32,
    ensures
        final(out)@ == old(out)@ + rec_enc(r@),
{
    out.push(MAGIC);
    out.push(VERSION);
    out.push(r.header.flags.0);
    push_u32_le(out, r.header.schema_id.fieldspace_id);
    push_u32_le(out, r.header.schema_id.schema_hash);
    push_u32_le(out, r.header.payload_size);
    varint_write(out, r.directory.len() as u32);
    let ghost dir = r.directory@;
    let mut i: usize = 0;
    while i < r.directory.len()
        invariant
            i <= r.directory.len(),
            dir == r.directory@,
            out@ == old(out)@ + seq![MAGIC, VERSION, r.header.flags.0]
                + vstd::bytes::spec_u32_to_le_bytes(r.header.schema_id.fieldspace_id)
                + vstd::bytes::spec_u32_to_le_bytes(r.header.schema_id.schema_hash)
                + vstd::bytes::spec_u32_to_le_bytes(r.header.payload_size)
                + crate::varint::varint_enc(dir.len()) + crate::codec::dir_enc(
                dir.subrange(0, i as int),
            ),
        decreases r.directory.len() - i,
    {
        let e = r.directory[i];
        push_u16_le(out, e.id);
        out.push(e.type_code.byte());
        push_u32_le(out, e.offset);
        proof {
            crate::codec::lemma_dir_enc_concat(dir.subrange(0, i as int), seq![dir[i as int]]);
            assert(dir.subrange(0, i as int) + seq![dir[i as int]] =~= dir.subrange(0, i + 1));
            assert(crate::codec::dir_enc(seq![dir[i as int]]) =~= entry_enc(dir[i as int])
                + crate::codec::dir_enc(Seq::empty())) by {
                assert(seq![dir[i as int]].subrange(1, 1) =~= Seq::<DirectoryEntry>::empty());
            }
            assert(out@ =~= old(out)@ + seq![MAGIC, VERSION, r.header.flags.0]
                + vstd::bytes::spec_u32_to_le_bytes(r.header.schema_id.fieldspace_id)
                + vstd::bytes::spec_u32_to_le_bytes(r.header.schema_id.schema_hash)
                + vstd::bytes::spec_u32_to_le_bytes(r.header.payload_size)
                + crate::varint::varint_enc(dir.len()) + crate::codec::dir_enc(
                dir.subrange(0, i + 1),
            ));
        }
        i = i + 1;
    }
    assert(dir.subrange(0, dir.len() as int) =~= dir);
    let plen = bytes_len(&r.payload);
    let mut j: usize = 0;
    while j < plen
        invariant
            j <= plen,
            plen == bytes_seq(r.payload).len(),
            out@ == old(out)@ + seq![MAGIC, VERSION, r.header.flags.0]
                + vstd::bytes::spec_u32_to_le_bytes(r.header.schema_id.fieldspace_id)
                + vstd::bytes::spec_u32_to_le_bytes(r.header.schema_id.schema_hash)
                + vstd::bytes::spec_u32_to_le_bytes(r.header.payload_size)
                + crate::varint::varint_enc(dir.len()) + crate::codec::dir_enc(dir)
                + bytes_seq(r.payload).subrange(0, j as int),
        decreases plen - j,
    {
        out.push(bytes_at(&r.payload, j));
        assert(out@ =~= old(out)@ + seq![MAGIC, VERSION, r.header.flags.0]
            + vstd::bytes::spec_u32_to_le_bytes(r.header.schema_id.fieldspace_id)
            + vstd::bytes::spec_u32_to_le_bytes(r.header.schema_id.schema_hash)
            + vstd::bytes::spec_u32_to_le_bytes(r.header.payload_size)
            + crate::varint::varint_enc(dir.len()) + crate::codec::dir_enc(dir) + bytes_seq(
            r.payload,
        ).subrange(0, j + 1));
        j = j + 1;
    }
    assert(bytes_seq(r.payload).subrange(0, plen as int) =~= bytes_seq(r.payload));
    assert(final(out)@ =~= old(out)@ + rec_enc(r@));
}

/// Copy an encoded byte vector into a `BytesMut`.
fn append_to_buf(buf: &mut BytesMut, b: &Vec<u8>)
    ensures
        bytes_mut_seq(*final(buf)) == bytes_mut_seq(*old(buf)) + b@,
{
    let mut i: usize = 0;
    while i < b.len()
        invariant
            i <= b.len(),
            bytes_mut_seq(*buf) == bytes_mut_seq(*old(buf)) + b@.subrange(0, i as int),
        decreases b.len() - i,
    {
        bytes_mut_put_u8(buf, b[i]);
        assert(bytes_mut_seq(*buf) =~= bytes_mut_seq(*old(buf)) + b@.subrange(0, i + 1));
        i = i + 1;
    }
    assert(bytes_mut_seq(*buf) =~= bytes_mut_seq(*old(buf)) + b@);
}

impl Value {
    /// Append this value's encoding to `buf`. Succeeds exactly on well-formed
    /// values and leaves `buf` untouched on failure.
    pub fn write(&self, buf: &mut BytesMut) -> (r: Result<(), ImprintError>)
        ensures
            r is Ok <==> val_wf(self@),
            r is Ok ==> bytes_mut_seq(*final(buf)) == bytes_mut_seq(*old(buf)) + val_enc(self@),
            r is Err ==> bytes_mut_seq(*final(buf)) == bytes_mut_seq(*old(buf)),
            r matches Err(e) ==> {
                &&& (e matches ImprintError::SchemaError(m) ==> !val_struct_ok(self@))
                &&& (e matches ImprintError::SizeOverflow ==> !val_size_ok(self@))
                &&& (e matches ImprintError::SchemaError(m) || e
                    matches ImprintError::SizeOverflow)
            },
    {
        match check_value(self) {
            Err(e) => Err(e),
            Ok(()) => {
                let mut tmp: Vec<u8> = Vec::new();
                encode_value(self, &mut tmp);
                append_to_buf(buf, &tmp);
                Ok(())
            },
        }
    }
}

impl MapKey {
    /// Append this key's encoding to `buf`. Succeeds exactly when the key's
    /// lengths fit the wire format and leaves `buf` untouched on failure.
    pub fn write(&self, buf: &mut BytesMut) -> (r: Result<(), ImprintError>)
        ensures
            r is Ok <==> key_size_ok(self@),
            r is Ok ==> bytes_mut_seq(*final(buf)) == bytes_mut_seq(*old(buf)) + key_enc(self@),
            r is Err ==> bytes_mut_seq(*final(buf)) == bytes_mut_seq(*old(buf)),
            r matches Err(e) ==> e matches ImprintError::SizeOverflow,
    {
        match check_key(self) {
            Err(e) => Err(e),
            Ok(()) => {
                let mut tmp: Vec<u8> = Vec::new();
                encode_key(self, &mut tmp);
                append_to_buf(buf, &tmp);
                Ok(())
            },
        }
    }
}

impl SchemaId {
    /// Append the eight little-endian bytes of this schema id to `buf`.
    pub fn write(&self, buf: &mut BytesMut) -> (r: Result<(), ImprintError>)
        ensures
            r is Ok,
            bytes_mut_seq(*final(buf)) == bytes_mut_seq(*old(buf))
                + vstd::bytes::spec_u32_to_le_bytes(self.fieldspace_id)
                + vstd::bytes::spec_u32_to_le_bytes(self.schema_hash),
    {
        let mut tmp: Vec<u8> = Vec::new();
        push_u32_le(&mut tmp, self.fieldspace_id);
        push_u32_le(&mut tmp, self.schema_hash);
        append_to_buf(buf, &tmp);
        assert(bytes_mut_seq(*buf) =~= bytes_mut_seq(*old(buf))
            + vstd::bytes::spec_u32_to_le_bytes(self.fieldspace_id)
            + vstd::bytes::spec_u32_to_le_bytes(self.schema_hash));
        Ok(())
    }
}

impl Header {
    /// Append the fifteen header bytes to `buf`.
    pub fn write(&self, buf: &mut BytesMut) -> (r: Result<(), ImprintError>)
        ensures
            r is Ok,
            bytes_mut_seq(*final(buf)) == bytes_mut_seq(*old(buf)) + header_enc(*self),
    {
        let mut tmp: Vec<u8> = Vec::new();
        tmp.push(MAGIC);
        tmp.push(VERSION);
        tmp.push(self.flags.0);
        push_u32_le(&mut tmp, self.schema_id.fieldspace_id);
        push_u32_le(&mut tmp, self.schema_id.schema_hash);
        push_u32_le(&mut tmp, self.payload_size);
        assert(tmp@ =~= header_enc(*self));
        append_to_buf(buf, &tmp);
        Ok(())
    }
}

impl DirectoryEntry {
    /// Append the seven bytes of this directory entry to `buf`.
    pub fn write(&self, buf: &mut BytesMut) -> (r: Result<(), ImprintError>)
        ensures
            r is Ok,
            bytes_mut_seq(*final(buf)) == bytes_mut_seq(*old(buf)) + entry_enc(*self),
    {
        let mut tmp: Vec<u8> = Vec::new();
        push_u16_le(&mut tmp, self.id);
        tmp.push(self.type_code.byte());
        push_u32_le(&mut tmp, self.offset);
        assert(tmp@ =~= entry_enc(*self));
        append_to_buf(buf, &tmp);
        Ok(())
    }
}

impl ImprintRecord {
    /// Append the full serialized record to `buf`: header, directory count,
    /// directory, payload verbatim. Fails only when the directory count
    /// cannot be written as a `u32`.
    pub fn write(&self, buf: &mut BytesMut) -> (r: Result<(), ImprintError>)
        ensures
            r is Ok <==> self.directory@.len() <= MAX_U32,
            r is Ok ==> bytes_mut_seq(*final(buf)) == bytes_mut_seq(*old(buf)) + rec_enc(self@),
            r is Err ==> bytes_mut_seq(*final(buf)) == bytes_mut_seq(*old(buf)),
            r matches Err(e) ==> e matches ImprintError::SizeOverflow,
    {
        if self.directory.len() as u64 > MAX_U32 as u64 {
            return Err(ImprintError::SizeOverflow);
        }
        let mut tmp: Vec<u8> = Vec::new();
        encode_record(self, &mut tmp);
        append_to_buf(buf, &tmp);
        Ok(())
    }
}

// ---------------------------------------------------------------------
// Decoding
// ---------------------------------------------------------------------
/// Relies on `String::from_utf8`: it accepts exactly the valid UTF-8 byte
/// sequences and decodes them, as `vstd`'s UTF-8 spec describes.
#[verifier::external_body]
fn string_from_utf8(v: Vec<u8>) -> (r: Option<String>)
    ensures
        match r {
            Some(s) => vstd::utf8::valid_utf8(v@) && s@ == vstd::utf8::decode_utf8(v@),
            None => !vstd::utf8::valid_utf8(v@),
        },
{
    String::from_utf8(v).ok()
}

/// Copy the byte range `[start, end)` out of the buffer.
fn read_bytes_range(bytes: &Bytes, start: usize, end: usize) -> (r: Vec<u8>)
    requires
        start <= end <= bytes_seq(*bytes).len(),
    ensures
        r@ == bytes_seq(*bytes).subrange(start as int, end as int),
{
    let mut out: Vec<u8> = Vec::new();
    let mut i: usize = start;
    while i < end
        invariant
            start <= i <= end <= bytes_seq(*bytes).len(),
            out@ == bytes_seq(*bytes).subrange(start as int, i as int),
        decreases end - i,
    {
        out.push(bytes_at(bytes, i));
        assert(out@ =~= bytes_seq(*bytes).subrange(start as int, i + 1));
        i = i + 1;
    }
    out
}

fn read_u16_at(bytes: &Bytes, pos: usize) -> (x: u16)
    requires
        pos + 2 <= bytes_seq(*bytes).len(),
    ensures
        x == vstd::bytes::spec_u16_from_le_bytes(
            bytes_seq(*bytes).subrange(pos as int, pos + 2),
        ),
{
    let blen = bytes_len(bytes);
    assert(pos + 2 <= blen);
    let v = read_bytes_range(bytes, pos, pos + 2);
    vstd::bytes::u16_from_le_bytes(v.as_slice())
}

fn read_u32_at(bytes: &Bytes, pos: usize) -> (x: u32)
    requires
        pos + 4 <= bytes_seq(*bytes).len(),
    ensures
        x == vstd::bytes::spec_u32_from_le_bytes(
            bytes_seq(*bytes).subrange(pos as int, pos + 4),
        ),
{
    let blen = bytes_len(bytes);
    assert(pos + 4 <= blen);
    let v = read_bytes_range(bytes, pos, pos + 4);
    vstd::bytes::u32_from_le_bytes(v.as_slice())
}

fn read_u64_at(bytes: &Bytes, pos: usize) -> (x: u64)
    requires
        pos + 8 <= bytes_seq(*bytes).len(),
    ensures
        x == vstd::bytes::spec_u64_from_le_bytes(
            bytes_seq(*bytes).subrange(pos as int, pos + 8),
        ),
{
    let blen = bytes_len(bytes);
    assert(pos + 8 <= blen);
    let v = read_bytes_range(bytes, pos, pos + 8);
    vstd::bytes::u64_from_le_bytes(v.as_slice())
}

/// Read one length-prefixed byte region (the body of a `Bytes` or `String`
/// value) starting at `pos`: a varint length, then that many bytes.
fn read_blob_at(bytes: &Bytes, pos: usize) -> (r: Result<(Vec<u8>, usize), ImprintError>)
    requires
        pos <= bytes_seq(*bytes).len(),
    ensures
        ({
            let s = bytes_seq(*bytes).skip(pos as int);
            match r {
                Ok(bn) => {
                    &&& varint_dec(s) is Some
                    &&& ({
                        let ln = varint_dec(s)->Some_0;
                        &&& ln.1 + ln.0 <= s.len()
                        &&& bn.0@ == s.subrange(ln.1, ln.1 + ln.0)
                        &&& bn.1 == ln.1 + ln.0
                        &&& pos + bn.1 <= bytes_seq(*bytes).len()
                    })
                },
                Err(e) => match varint_dec(s) {
                    Some(ln) => ln.1 + ln.0 > s.len(),
                    None => true,
                },
            }
        }),
{
    let ghost s = bytes_seq(*bytes).skip(pos as int);
    let len = bytes_len(bytes);
    match varint_read(bytes, pos) {
        Err(e) => Err(e),
        Ok((n, cn)) => {
            if (n as usize) > len - (pos + cn) {
                return Err(
                    ImprintError::BufferUnderflow { needed: n as usize, available: len - (pos + cn) },
                );
            }
            let start = pos + cn;
            let end = start + (n as usize);
            let v = read_bytes_range(bytes, start, end);
            assert(v@ =~= s.subrange(cn as int, cn + n));
            Ok((v, cn + n as usize))
        },
    }
}

/// Read one map key of kind `kt` starting at `pos`.
fn read_key_at(bytes: &Bytes, pos: usize, kt: TypeCode) -> (r: Result<
    (MapKey, usize),
    ImprintError,
>)
    requires
        pos <= bytes_seq(*bytes).len(),
    ensures
        ({
            let s = bytes_seq(*bytes).skip(pos as int);
            match r {
                Ok(kn) => {
                    &&& key_dec(kt, s) == Some((kn.0@, kn.1 as int))
                    &&& pos + kn.1 <= bytes_seq(*bytes).len()
                },
                Err(e) => key_dec(kt, s) is None,
            }
        }),
{
    let ghost s = bytes_seq(*bytes).skip(pos as int);
    let len = bytes_len(bytes);
    match kt {
        TypeCode::Int32 => {
            if len - pos < 4 {
                return Err(ImprintError::BufferUnderflow { needed: 4, available: len - pos });
            }
            let u = read_u32_at(bytes, pos);
            assert(bytes_seq(*bytes).subrange(pos as int, pos + 4) =~= s.subrange(0, 4));
            Ok((MapKey::Int32(i32_from_u32(u)), 4))
        },
        TypeCode::Int64 => {
            if len - pos < 8 {
                return Err(ImprintError::BufferUnderflow { needed: 8, available: len - pos });
            }
            let u = read_u64_at(bytes, pos);
            assert(bytes_seq(*bytes).subrange(pos as int, pos + 8) =~= s.subrange(0, 8));
            Ok((MapKey::Int64(i64_from_u64(u)), 8))
        },
        TypeCode::Bytes => {
            match read_blob_at(bytes, pos) {
                Err(e) => Err(e),
                Ok((v, n)) => Ok((MapKey::Bytes(v), n)),
            }
        },
        TypeCode::String => {
            match read_blob_at(bytes, pos) {
                Err(e) => Err(e),
                Ok((v, n)) => match string_from_utf8(v) {
                    None => Err(ImprintError::InvalidUtf8String),
                    Some(st) => Ok((MapKey::String(st), n)),
                },
            }
        },
        _ => Err(ImprintError::SchemaError("map keys must have a key kind".to_owned())),
    }
}

/// Read one value of kind `tc` starting at `pos`, mirroring the spec
/// decoder exactly: it succeeds if and only if [`val_dec`] accepts the
/// bytes, and returns the value [`val_dec`] names.
pub fn read_value_at(bytes: &Bytes, pos: usize, tc: TypeCode) -> (r: Result<
    (Value, usize),
    ImprintError,
>)
    requires
        pos <= bytes_seq(*bytes).len(),
    ensures
        ({
            let s = bytes_seq(*bytes).skip(pos as int);
            match r {
                Ok(vn) => {
                    &&& val_dec(tc, s) == Some((vn.0@, vn.1 as int))
                    &&& pos + vn.1 <= bytes_seq(*bytes).len()
                },
                Err(e) => val_dec(tc, s) is None,
            }
        }),
    decreases bytes_seq(*bytes).len() - pos, 1int, 1int,
{
    let ghost s = bytes_seq(*bytes).skip(pos as int);
    let len = bytes_len(bytes);
    match tc {
        TypeCode::Null => Ok((Value::Null, 0)),
        TypeCode::Bool => {
            if len == pos {
                return Err(ImprintError::BufferUnderflow { needed: 1, available: 0 });
            }
            let b = bytes_at(bytes, pos);
            assert(b == s[0]);
            if b == 0 {
                Ok((Value::Bool(false), 1))
            } else if b == 1 {
                Ok((Value::Bool(true), 1))
            } else {
                Err(ImprintError::InvalidBool(b))
            }
        },
        TypeCode::Int32 => {
            if len - pos < 4 {
                return Err(ImprintError::BufferUnderflow { needed: 4, available: len - pos });
            }
            let u = read_u32_at(bytes, pos);
            assert(bytes_seq(*bytes).subrange(pos as int, pos + 4) =~= s.subrange(0, 4));
            Ok((Value::Int32(i32_from_u32(u)), 4))
        },
        TypeCode::Int64 => {
            if len - pos < 8 {
                return Err(ImprintError::BufferUnderflow { needed: 8, available: len - pos });
            }
            let u = read_u64_at(bytes, pos);
            assert(bytes_seq(*bytes).subrange(pos as int, pos + 8) =~= s.subrange(0, 8));
            Ok((Value::Int64(i64_from_u64(u)), 8))
        },
        TypeCode::Float32 => {
            if len - pos < 4 {
                return Err(ImprintError::BufferUnderflow { needed: 4, available: len - pos });
            }
            let u = read_u32_at(bytes, pos);
            assert(bytes_seq(*bytes).subrange(pos as int, pos + 4) =~= s.subrange(0, 4));
            Ok((Value::Float32(u), 4))
        },
        TypeCode::Float64 => {
            if len - pos < 8 {
                return Err(ImprintError::BufferUnderflow { needed: 8, available: len - pos });
            }
            let u = read_u64_at(bytes, pos);
            assert(bytes_seq(*bytes).subrange(pos as int, pos + 8) =~= s.subrange(0, 8));
            Ok((Value::Float64(u), 8))
        },
        TypeCode::Bytes => {
            match read_blob_at(bytes, pos) {
                Err(e) => Err(e),
                Ok((v, n)) => Ok((Value::Bytes(v), n)),
            }
        },
        TypeCode::String => {
            match read_blob_at(bytes, pos) {
                Err(e) => Err(e),
                Ok((v, n)) => match string_from_utf8(v) {
                    None => Err(ImprintError::InvalidUtf8String),
                    Some(st) => Ok((Value::String(st), n)),
                },
            }
        },
        TypeCode::Array => {
            match varint_read(bytes, pos) {
                Err(e) => Err(e),
                Ok((k, cn)) => {
                    if k == 0 {
                        let vs: Vec<Value> = Vec::new();
                        assert(vals_model(vs@) =~= Seq::<crate::types::ValModel>::empty());
                        return Ok((Value::Array(vs), cn));
                    }
                    if len - pos == cn {
                        return Err(
                            ImprintError::BufferUnderflow { needed: 1, available: 0 },
                        );
                    }
                    let etb = bytes_at(bytes, pos + cn);
                    assert(etb == s[cn as int]);
                    match TypeCode::from_byte(etb) {
                        Err(e) => Err(e),
                        Ok(et) => {
                            match read_elems(bytes, pos + cn + 1, et, k) {
                                Err(e) => {
                                    proof {
                                        assert(bytes_seq(*bytes).skip(pos + cn + 1) =~= s.skip(
                                            cn + 1,
                                        ));
                                    }
                                    Err(e)
                                },
                                Ok((vs, l)) => {
                                    proof {
                                        assert(bytes_seq(*bytes).skip(pos + cn + 1) =~= s.skip(
                                            cn + 1,
                                        ));
                                    }
                                    Ok((Value::Array(vs), cn + 1 + l))
                                },
                            }
                        },
                    }
                },
            }
        },
        TypeCode::Mapping => {
            match varint_read(bytes, pos) {
                Err(e) => Err(e),
                Ok((k, cn)) => {
                    if k == 0 {
                        let ps: Vec<(MapKey, Value)> = Vec::new();
                        assert(pairs_model(ps@) =~= Seq::<
                            (crate::types::KeyModel, crate::types::ValModel),
                        >::empty());
                        return Ok((Value::Mapping(ps), cn));
                    }
                    if len - (pos + cn) < 2 {
                        return Err(
                            ImprintError::BufferUnderflow { needed: 2, available: len - (pos + cn) },
                        );
                    }
                    let ktb = bytes_at(bytes, pos + cn);
                    let vtb = bytes_at(bytes, pos + cn + 1);
                    assert(ktb == s[cn as int] && vtb == s[cn + 1]);
                    match TypeCode::from_byte(ktb) {
                        Err(e) => Err(e),
                        Ok(kt) => match TypeCode::from_byte(vtb) {
                            Err(e) => Err(e),
                            Ok(vt) => {
                                match read_pairs(bytes, pos + cn + 2, kt, vt, k) {
                                    Err(e) => {
                                        proof {
                                            assert(bytes_seq(*bytes).skip(pos + cn + 2) =~= s.skip(
                                                cn + 2,
                                            ));
                                        }
                                        Err(e)
                                    },
                                    Ok((ps, l)) => {
                                        proof {
                                            assert(bytes_seq(*bytes).skip(pos + cn + 2) =~= s.skip(
                                                cn + 2,
                                            ));
                                        }
                                        Ok((Value::Mapping(ps), cn + 2 + l))
                                    },
                                }
                            },
                        },
                    }
                },
            }
        },
        TypeCode::Row => {
            match read_record_at(bytes, pos) {
                Err(e) => Err(e),
                Ok((rec, n)) => Ok((Value::Row(Box::new(rec)), n)),
            }
        },
    }
}

/// Read `k` array elements of kind `et` back to back, starting at `pos`.
#[verifier::loop_isolation(false)]
fn read_elems(bytes: &Bytes, pos: usize, et: TypeCode, k: u32) -> (r: Result<
    (Vec<Value>, usize),
    ImprintError,
>)
    requires
        pos <= bytes_seq(*bytes).len(),
    ensures
        ({
            let s = bytes_seq(*bytes).skip(pos as int);
            match r {
                Ok(vn) => {
                    &&& elems_dec(et, k as nat, s) == Some((vals_model(vn.0@), vn.1 as int))
                    &&& vn.0@.len() == k
                    &&& pos + vn.1 <= bytes_seq(*bytes).len()
                },
                Err(e) => elems_dec(et, k as nat, s) is None,
            }
        }),
    decreases bytes_seq(*bytes).len() - pos, 2int, k,
{
    let ghost s = bytes_seq(*bytes).skip(pos as int);
    let blen = bytes_len(bytes);
    let mut acc: Vec<Value> = Vec::new();
    let mut c: usize = 0;
    let mut i: u32 = 0;
    proof {
        assert(s.skip(0) =~= s);
    }
    while i < k
        invariant
            i <= k,
            acc@.len() == i,
            pos + c <= bytes_seq(*bytes).len(),
            ({
                let rest = elems_dec(et, (k - i) as nat, s.skip(c as int));
                elems_dec(et, k as nat, s) == (match rest {
                    Some(p) => Some::<(Seq<crate::types::ValModel>, int)>(
                        (vals_model(acc@) + p.0, c + p.1),
                    ),
                    None => None::<(Seq<crate::types::ValModel>, int)>,
                })
            }),
        decreases k - i,
    {
        proof {
            assert(bytes_seq(*bytes).skip(pos + c) =~= s.skip(c as int));
        }
        match read_value_at(bytes, pos + c, et) {
            Err(e) => {
                return Err(e);
            },
            Ok((v, n)) => {
                proof {
                    lemma_vals_model(acc@);
                    lemma_vals_model(acc@ + seq![v]);
                    assert(vals_model(acc@ + seq![v]) =~= vals_model(acc@) + seq![v@]);
                    assert(s.skip(c as int).skip(n as int) =~= s.skip(c + n));
                    assert(acc@.push(v) =~= acc@ + seq![v]);
                }
                acc.push(v);
                c = c + n;
                i = i + 1;
                proof {
                    assert(elems_dec(et, k as nat, s) == (match elems_dec(
                        et,
                        (k - i) as nat,
                        s.skip(c as int),
                    ) {
                        Some(p) => Some::<(Seq<crate::types::ValModel>, int)>(
                            (vals_model(acc@) + p.0, c + p.1),
                        ),
                        None => None::<(Seq<crate::types::ValModel>, int)>,
                    }));
                }
            },
        }
    }
    proof {
        assert(vals_model(acc@) + Seq::<crate::types::ValModel>::empty() =~= vals_model(acc@));
        lemma_vals_model(acc@);
    }
    Ok((acc, c))
}

/// Read `k` map entries, each a key of kind `kt` then a value of kind `vt`,
/// back to back, starting at `pos`.
#[verifier::loop_isolation(false)]
#[verifier::rlimit(60)]
#[verifier::spinoff_prover]
fn read_pairs(bytes: &Bytes, pos: usize, kt: TypeCode, vt: TypeCode, k: u32) -> (r: Result<
    (Vec<(MapKey, Value)>, usize),
    ImprintError,
>)
    requires
        pos <= bytes_seq(*bytes).len(),
    ensures
        ({
            let s = bytes_seq(*bytes).skip(pos as int);
            match r {
                Ok(vn) => {
                    &&& pairs_dec(kt, vt, k as nat, s) == Some(
                        (pairs_model(vn.0@), vn.1 as int),
                    )
                    &&& vn.0@.len() == k
                    &&& pos + vn.1 <= bytes_seq(*bytes).len()
                },
                Err(e) => pairs_dec(kt, vt, k as nat, s) is None,
            }
        }),
    decreases bytes_seq(*bytes).len() - pos, 2int, k,
{
    let ghost s = bytes_seq(*bytes).skip(pos as int);
    let blen = bytes_len(bytes);
    let mut acc: Vec<(MapKey, Value)> = Vec::new();
    let mut c: usize = 0;
    let mut i: u32 = 0;
    proof {
        assert(s.skip(0) =~= s);
    }
    while i < k
        invariant
            i <= k,
            acc@.len() == i,
            pos + c <= bytes_seq(*bytes).len(),
            ({
                let rest = pairs_dec(kt, vt, (k - i) as nat, s.skip(c as int));
                pairs_dec(kt, vt, k as nat, s) == (match rest {
                    Some(p) => Some::<(Seq<(crate::types::KeyModel, crate::types::ValModel)>, int)>(
                        (pairs_model(acc@) + p.0, c + p.1),
                    ),
                    None => None::<(Seq<(crate::types::KeyModel, crate::types::ValModel)>, int)>,
                })
            }),
        decreases k - i,
    {
        proof {
            assert(bytes_seq(*bytes).skip(pos + c) =~= s.skip(c as int));
        }
        match read_key_at(bytes, pos + c, kt) {
            Err(e) => {
                return Err(e);
            },
            Ok((key, ck)) => {
                proof {
                    assert(bytes_seq(*bytes).skip(pos + c + ck) =~= s.skip(c as int).skip(
                        ck as int,
                    ));
                }
                match read_value_at(bytes, pos + c + ck, vt) {
                    Err(e) => {
                        return Err(e);
                    },
                    Ok((v, cv)) => {
                        proof {
                            lemma_pairs_model(acc@);
                            lemma_pairs_model(acc@ + seq![(key, v)]);
                            assert(pairs_model(acc@ + seq![(key, v)]) =~= pairs_model(acc@)
                                + seq![(key@, v@)]);
                            assert(s.skip(c as int).skip(ck + cv) =~= s.skip(c + ck + cv));
                            assert(s.skip(c as int).skip(ck as int).skip(cv as int) =~= s.skip(
                                c as int,
                            ).skip(ck + cv));
                            assert(acc@.push((key, v)) =~= acc@ + seq![(key, v)]);
                        }
                        acc.push((key, v));
                        c = c + ck + cv;
                        i = i + 1;
                        proof {
                            assert(pairs_dec(kt, vt, k as nat, s) == (match pairs_dec(
                                kt,
                                vt,
                                (k - i) as nat,
                                s.skip(c as int),
                            ) {
                                Some(p) => Some::<
                                    (Seq<(crate::types::KeyModel, crate::types::ValModel)>, int),
                                >((pairs_model(acc@) + p.0, c + p.1)),
                                None => None::<
                                    (Seq<(crate::types::KeyModel, crate::types::ValModel)>, int),
                                >,
                            }));
                        }
                    },
                }
            },
        }
    }
    proof {
        assert(pairs_model(acc@) + Seq::<(crate::types::KeyModel, crate::types::ValModel)>::empty()
            =~= pairs_model(acc@));
        lemma_pairs_model(acc@);
    }
    Ok((acc, c))
}

/// Read a whole record starting at `pos`: header, directory count,
/// directory, payload. The payload is referenced zero-copy as a slice of
/// the input; bytes past it are left unconsumed. The first rejection wins:
/// a short header is a `BufferUnderflow`, a wrong first byte an
/// `InvalidMagic`, a wrong second byte an `UnsupportedVersion`.
#[verifier::loop_isolation(false)]
#[verifier::rlimit(60)]
#[verifier::spinoff_prover]
pub fn read_record_at(bytes: &Bytes, pos: usize) -> (r: Result<
    (ImprintRecord, usize),
    ImprintError,
>)
    requires
        pos <= bytes_seq(*bytes).len(),
    ensures
        ({
            let s = bytes_seq(*bytes).skip(pos as int);
            match r {
                Ok(rn) => {
                    &&& rec_dec(s) == Some((rn.0@, rn.1 as int))
                    &&& pos + rn.1 <= bytes_seq(*bytes).len()
                },
                Err(e) => {
                    &&& rec_dec(s) is None
                    &&& (s.len() < 15 ==> e == (ImprintError::BufferUnderflow {
                        needed: 15,
                        available: (s.len() as usize),
                    }))
                    &&& (s.len() >= 15 && s[0] != MAGIC ==> e == ImprintError::InvalidMagic(s[0]))
                    &&& (s.len() >= 15 && s[0] == MAGIC && s[1] != VERSION ==> e
                        == ImprintError::UnsupportedVersion(s[1]))
                },
            }
        }),
{
    let ghost s = bytes_seq(*bytes).skip(pos as int);
    let len = bytes_len(bytes);
    if len - pos < 15 {
        return Err(ImprintError::BufferUnderflow { needed: 15, available: len - pos });
    }
    let b0 = bytes_at(bytes, pos);
    assert(b0 == s[0]);
    if b0 != MAGIC {
        return Err(ImprintError::InvalidMagic(b0));
    }
    let b1 = bytes_at(bytes, pos + 1);
    assert(b1 == s[1]);
    if b1 != VERSION {
        return Err(ImprintError::UnsupportedVersion(b1));
    }
    let flags = Flags::new(bytes_at(bytes, pos + 2));
    let fs = read_u32_at(bytes, pos + 3);
    let sh = read_u32_at(bytes, pos + 7);
    let psize = read_u32_at(bytes, pos + 11);
    proof {
        assert(bytes_seq(*bytes).subrange(pos + 3, pos + 7) =~= s.subrange(3, 7));
        assert(bytes_seq(*bytes).subrange(pos + 7, pos + 11) =~= s.subrange(7, 11));
        assert(bytes_seq(*bytes).subrange(pos + 11, pos + 15) =~= s.subrange(11, 15));
    }
    let header = Header {
        flags,
        schema_id: SchemaId { fieldspace_id: fs, schema_hash: sh },
        payload_size: psize,
    };
    proof {
        assert(bytes_seq(*bytes).skip(pos + 15) =~= s.skip(15));
    }
    let (cnt, cn) = match varint_read(bytes, pos + 15) {
        Err(e) => {
            return Err(e);
        },
        Ok(v) => v,
    };
    let dir_base = pos + 15 + cn;
    let ghost ds = s.skip(15 + cn);
    proof {
        assert(bytes_seq(*bytes).skip(dir_base as int) =~= ds);
        assert(ds.skip(0) =~= ds);
    }
    let mut dir: Vec<DirectoryEntry> = Vec::new();
    let mut i: u32 = 0;
    while i < cnt
        invariant
            i <= cnt,
            dir@.len() == i,
            dir_base + 7 * (i as int) <= bytes_seq(*bytes).len(),
            ({
                let rest = crate::codec::dir_dec((cnt - i) as nat, ds.skip(7 * (i as int)));
                crate::codec::dir_dec(cnt as nat, ds) == (match rest {
                    Some(d2) => Some::<Seq<DirectoryEntry>>(dir@ + d2),
                    None => None::<Seq<DirectoryEntry>>,
                })
            }),
        decreases cnt - i,
    {
        let p = dir_base + 7 * (i as usize);
        let ghost es = ds.skip(7 * (i as int));
        proof {
            assert(bytes_seq(*bytes).skip(p as int) =~= es);
        }
        if len - p < 7 {
            return Err(ImprintError::BufferUnderflow { needed: 7, available: len - p });
        }
        let id = read_u16_at(bytes, p);
        let tcb = bytes_at(bytes, p + 2);
        let off = read_u32_at(bytes, p + 3);
        proof {
            assert(bytes_seq(*bytes).subrange(p as int, p + 2) =~= es.subrange(0, 2));
            assert(tcb == es[2]);
            assert(bytes_seq(*bytes).subrange(p + 3, p + 7) =~= es.subrange(3, 7));
        }
        let tc = match TypeCode::from_byte(tcb) {
            Err(e) => {
                return Err(e);
            },
            Ok(t) => t,
        };
        let entry = DirectoryEntry { id, type_code: tc, offset: off };
        proof {
            assert(es.skip(7) =~= ds.skip(7 * (i + 1)));
            assert(dir@.push(entry) =~= dir@ + seq![entry]);
            assert((dir@ + seq![entry]) + crate::codec::dir_dec(
                (cnt - i - 1) as nat,
                ds.skip(7 * (i + 1)),
            )->Some_0 =~= dir@ + (seq![entry] + crate::codec::dir_dec(
                (cnt - i - 1) as nat,
                ds.skip(7 * (i + 1)),
            )->Some_0)) by {
                if crate::codec::dir_dec((cnt - i - 1) as nat, ds.skip(7 * (i + 1))) is Some {
                }
            }
        }
        dir.push(entry);
        i = i + 1;
    }
    proof {
        assert(dir@ + Seq::<DirectoryEntry>::empty() =~= dir@);
    }
    let payload_base = dir_base + 7 * (cnt as usize);
    if (psize as usize) > len - payload_base {
        return Err(
            ImprintError::BufferUnderflow { needed: psize as usize, available: len - payload_base },
        );
    }
    let payload = bytes_slice(bytes, payload_base, payload_base + psize as usize);
    proof {
        assert(bytes_seq(payload) =~= s.subrange(
            15 + cn + 7 * (cnt as int),
            15 + cn + 7 * (cnt as int) + psize,
        ));
    }
    let consumed = 15 + cn + 7 * (cnt as usize) + psize as usize;
    Ok((ImprintRecord { header, directory: dir, payload }, consumed))
}

impl Value {
    /// Read one value of kind `type_code` from the front of `bytes`.
    pub fn read(type_code: TypeCode, bytes: Bytes) -> (r: Result<(Value, usize), ImprintError>)
        ensures
            match r {
                Ok(vn) => val_dec(type_code, bytes_seq(bytes)) == Some((vn.0@, vn.1 as int)),
                Err(e) => val_dec(type_code, bytes_seq(bytes)) is None,
            },
    {
        proof {
            assert(bytes_seq(bytes).skip(0) =~= bytes_seq(bytes));
        }
        read_value_at(&bytes, 0, type_code)
    }
}

impl MapKey {
    /// Read one map key of kind `type_code` from the front of `bytes`.
    pub fn read(type_code: TypeCode, bytes: Bytes) -> (r: Result<(MapKey, usize), ImprintError>)
        ensures
            match r {
                Ok(kn) => key_dec(type_code, bytes_seq(bytes)) == Some((kn.0@, kn.1 as int)),
                Err(e) => key_dec(type_code, bytes_seq(bytes)) is None,
            },
    {
        proof {
            assert(bytes_seq(bytes).skip(0) =~= bytes_seq(bytes));
        }
        read_key_at(&bytes, 0, type_code)
    }
}

impl SchemaId {
    /// Read a schema id: eight little-endian bytes.
    pub fn read(bytes: Bytes) -> (r: Result<(SchemaId, usize), ImprintError>)
        ensures
            ({
                let s = bytes_seq(bytes);
                match r {
                    Ok(sn) => {
                        &&& s.len() >= 8
                        &&& sn.0.fieldspace_id == vstd::bytes::spec_u32_from_le_bytes(
                            s.subrange(0, 4),
                        )
                        &&& sn.0.schema_hash == vstd::bytes::spec_u32_from_le_bytes(
                            s.subrange(4, 8),
                        )
                        &&& sn.1 == 8
                    },
                    Err(e) => {
                        &&& s.len() < 8
                        &&& e == (ImprintError::BufferUnderflow {
                            needed: 8,
                            available: (s.len() as usize),
                        })
                    },
                }
            }),
    {
        let len = bytes_len(&bytes);
        if len < 8 {
            return Err(ImprintError::BufferUnderflow { needed: 8, available: len });
        }
        let fs = read_u32_at(&bytes, 0);
        let sh = read_u32_at(&bytes, 4);
        Ok((SchemaId { fieldspace_id: fs, schema_hash: sh }, 8))
    }
}

impl Header {
    /// Read a header: magic, version, flags, schema id, payload size. The
    /// first rejection wins, as on `read_record_at`.
    pub fn read(bytes: Bytes) -> (r: Result<(Header, usize), ImprintError>)
        ensures
            ({
                let s = bytes_seq(bytes);
                match r {
                    Ok(hn) => {
                        &&& s.len() >= 15
                        &&& s[0] == MAGIC
                        &&& s[1] == VERSION
                        &&& hn.0.flags.0 == s[2]
                        &&& hn.0.schema_id.fieldspace_id == vstd::bytes::spec_u32_from_le_bytes(
                            s.subrange(3, 7),
                        )
                        &&& hn.0.schema_id.schema_hash == vstd::bytes::spec_u32_from_le_bytes(
                            s.subrange(7, 11),
                        )
                        &&& hn.0.payload_size == vstd::bytes::spec_u32_from_le_bytes(
                            s.subrange(11, 15),
                        )
                        &&& hn.1 == 15
                    },
                    Err(e) => {
                        &&& (s.len() < 15 ==> e == (ImprintError::BufferUnderflow {
                            needed: 15,
                            available: (s.len() as usize),
                        }))
                        &&& (s.len() >= 15 && s[0] != MAGIC ==> e == ImprintError::InvalidMagic(
                            s[0],
                        ))
                        &&& (s.len() >= 15 && s[0] == MAGIC && s[1] != VERSION ==> e
                            == ImprintError::UnsupportedVersion(s[1]))
                        &&& (s.len() < 15 || s[0] != MAGIC || s[1] != VERSION)
                    },
                }
            }),
    {
        let len = bytes_len(&bytes);
        if len < 15 {
            return Err(ImprintError::BufferUnderflow { needed: 15, available: len });
        }
        let b0 = bytes_at(&bytes, 0);
        if b0 != MAGIC {
            return Err(ImprintError::InvalidMagic(b0));
        }
        let b1 = bytes_at(&bytes, 1);
        if b1 != VERSION {
            return Err(ImprintError::UnsupportedVersion(b1));
        }
        let flags = Flags::new(bytes_at(&bytes, 2));
        let fs = read_u32_at(&bytes, 3);
        let sh = read_u32_at(&bytes, 7);
        let psize = read_u32_at(&bytes, 11);
        Ok(
            (
                Header {
                    flags,
                    schema_id: SchemaId { fieldspace_id: fs, schema_hash: sh },
                    payload_size: psize,
                },
                15,
            ),
        )
    }
}

impl DirectoryEntry {
    /// Read one seven-byte directory entry.
    pub fn read(bytes: Bytes) -> (r: Result<(DirectoryEntry, usize), ImprintError>)
        ensures
            ({
                let s = bytes_seq(bytes);
                match r {
                    Ok(en) => {
                        &&& s.len() >= 7
                        &&& en.0.id == vstd::bytes::spec_u16_from_le_bytes(s.subrange(0, 2))
                        &&& TypeCode::spec_from_byte(s[2]) == Some(en.0.type_code)
                        &&& en.0.offset == vstd::bytes::spec_u32_from_le_bytes(s.subrange(3, 7))
                        &&& en.1 == 7
                    },
                    Err(e) => s.len() < 7 || TypeCode::spec_from_byte(s[2]) is None,
                }
            }),
    {
        let len = bytes_len(&bytes);
        if len < 7 {
            return Err(ImprintError::BufferUnderflow { needed: 7, available: len });
        }
        let id = read_u16_at(&bytes, 0);
        let tcb = bytes_at(&bytes, 2);
        let tc = match TypeCode::from_byte(tcb) {
            Err(e) => {
                return Err(e);
            },
            Ok(t) => t,
        };
        let off = read_u32_at(&bytes, 3);
        Ok((DirectoryEntry { id, type_code: tc, offset: off }, 7))
    }
}

impl ImprintRecord {
    /// Read a whole record from the front of `bytes`, referencing the
    /// payload zero-copy and leaving trailing bytes unconsumed.
    pub fn read(bytes: Bytes) -> (r: Result<(ImprintRecord, usize), ImprintError>)
        ensures
            ({
                let s = bytes_seq(bytes);
                match r {
                    Ok(rn) => rec_dec(s) == Some((rn.0@, rn.1 as int)),
                    Err(e) => {
                        &&& rec_dec(s) is None
                        &&& (s.len() < 15 ==> e == (ImprintError::BufferUnderflow {
                            needed: 15,
                            available: (s.len() as usize),
                        }))
                        &&& (s.len() >= 15 && s[0] != MAGIC ==> e == ImprintError::InvalidMagic(
                            s[0],
                        ))
                        &&& (s.len() >= 15 && s[0] == MAGIC && s[1] != VERSION ==> e
                            == ImprintError::UnsupportedVersion(s[1]))
                    },
                }
            }),
    {
        proof {
            assert(bytes_seq(bytes).skip(0) =~= bytes_seq(bytes));
        }
        read_record_at(&bytes, 0)
    }
}

impl ValueRead for Value {
    fn read(type_code: TypeCode, bytes: Bytes) -> Result<(Value, usize), ImprintError> {
        Value::read(type_code, bytes)
    }
}

impl ValueRead for MapKey {
    fn read(type_code: TypeCode, bytes: Bytes) -> Result<(MapKey, usize), ImprintError> {
        MapKey::read(type_code, bytes)
    }
}

impl Read for SchemaId {
    fn read(bytes: Bytes) -> Result<(SchemaId, usize), ImprintError> {
        SchemaId::read(bytes)
    }
}

impl Read for Header {
    fn read(bytes: Bytes) -> Result<(Header, usize), ImprintError> {
        Header::read(bytes)
    }
}

impl Read for DirectoryEntry {
    fn read(bytes: Bytes) -> Result<(DirectoryEntry, usize), ImprintError> {
        DirectoryEntry::read(bytes)
    }
}

impl Read for ImprintRecord {
    fn read(bytes: Bytes) -> Result<(ImprintRecord, usize), ImprintError> {
        ImprintRecord::read(bytes)
    }
}

impl Write for Value {
    fn write(&self, buf: &mut BytesMut) -> Result<(), ImprintError> {
        Value::write(self, buf)
    }
}

impl Write for MapKey {
    fn write(&self, buf: &mut BytesMut) -> Result<(), ImprintError> {
        MapKey::write(self, buf)
    }
}

impl Write for SchemaId {
    fn write(&self, buf: &mut BytesMut) -> Result<(), ImprintError> {
        SchemaId::write(self, buf)
    }
}

impl Write for Header {
    fn write(&self, buf: &mut BytesMut) -> Result<(), ImprintError> {
        Header::write(self, buf)
    }
}

impl Write for DirectoryEntry {
    fn write(&self, buf: &mut BytesMut) -> Result<(), ImprintError> {
        DirectoryEntry::write(self, buf)
    }
}

impl Write for ImprintRecord {
    fn write(&self, buf: &mut BytesMut) -> Result<(), ImprintError> {
        ImprintRecord::write(self, buf)
    }
}

} // verus!
