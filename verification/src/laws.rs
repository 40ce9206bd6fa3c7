//! The codec's laws: decoding inverts encoding, and decoding is sound.
//!
//! [`lemma_val_round`] states the round-trip for every well-formed value —
//! primitives, homogeneous arrays, homogeneous maps, and nested records —
//! and [`lemma_rec_round`] for a serialized record.
//! [`lemma_val_dec_sound`] states the converse: whatever a decode accepts is
//! the exact encoding of the value it returns, which also gives
//! [`lemma_val_dec_prefix`]: a decode reads only the bytes it consumes.

use vstd::prelude::*;
use vstd::bytes::lemma_auto_spec_u16_to_from_le_bytes;
use vstd::bytes::lemma_auto_spec_u32_to_from_le_bytes;
use vstd::bytes::lemma_auto_spec_u64_to_from_le_bytes;
use vstd::utf8::encode_utf8;
use vstd::utf8::encode_utf8_valid_utf8;
use vstd::utf8::encode_utf8_decode_utf8;
use vstd::utf8::decode_utf8_encode_utf8;
use crate::codec::MAX_U32;
use crate::codec::dir_dec;
use crate::codec::dir_enc;
use crate::codec::elems_all_tc;
use crate::codec::elems_dec;
use crate::codec::elems_enc;
use crate::codec::elems_size_ok;
use crate::codec::elems_struct_ok;
use crate::codec::entry_enc;
use crate::codec::i32_of_u32;
use crate::codec::i64_of_u64;
use crate::codec::key_dec;
use crate::codec::key_enc;
use crate::codec::key_size_ok;
use crate::codec::lemma_signed_unsigned_inverse;
use crate::codec::pairs_all_tc;
use crate::codec::pairs_dec;
use crate::codec::pairs_enc;
use crate::codec::pairs_size_ok;
use crate::codec::pairs_struct_ok;
use crate::codec::rec_dec;
use crate::codec::rec_enc;
use crate::codec::u32_of_i32;
use crate::codec::u64_of_i64;
use crate::codec::val_dec;
use crate::codec::val_enc;
use crate::codec::val_wf;
use crate::types::DirectoryEntry;
use crate::types::KeyModel;
use crate::types::RecModel;
use crate::types::TypeCode;
use crate::types::ValModel;
use crate::varint::varint_enc;
use crate::varint::varint_dec;
use crate::varint::lemma_varint_enc_len;
use crate::varint::lemma_varint_round;
use crate::varint::lemma_varint_dec_sound;

verus! {

/// The type-code byte assignment is a bijection with its decoder.
pub proof fn lemma_tc_byte()
    ensures
        forall|t: TypeCode| #[trigger] TypeCode::spec_from_byte(t.spec_byte()) == Some(t),
        forall|b: u8|
            (#[trigger] TypeCode::spec_from_byte(b)) is Some ==> (TypeCode::spec_from_byte(
                b,
            )->Some_0).spec_byte() == b,
{
}

/// A directory entry encodes to exactly seven bytes.
pub proof fn lemma_entry_enc_len(e: DirectoryEntry)
    ensures
        entry_enc(e).len() == 7,
{
    lemma_auto_spec_u16_to_from_le_bytes();
    lemma_auto_spec_u32_to_from_le_bytes();
}

/// A directory encodes to exactly seven bytes per entry.
pub proof fn lemma_dir_enc_len(d: Seq<DirectoryEntry>)
    ensures
        dir_enc(d).len() == 7 * d.len(),
    decreases d.len(),
{
    if d.len() > 0 {
        lemma_entry_enc_len(d[0]);
        lemma_dir_enc_len(d.subrange(1, d.len() as int));
    }
}

/// Directory decoding inverts directory encoding.
pub proof fn lemma_dir_round(d: Seq<DirectoryEntry>, rest: Seq<u8>)
    ensures
        dir_dec(d.len() as nat, dir_enc(d) + rest) == Some(d),
    decreases d.len(),
{
    lemma_auto_spec_u16_to_from_le_bytes();
    lemma_auto_spec_u32_to_from_le_bytes();
    lemma_tc_byte();
    if d.len() > 0 {
        let e = d[0];
        let tail = d.subrange(1, d.len() as int);
        let s = dir_enc(d) + rest;
        lemma_entry_enc_len(e);
        lemma_dir_enc_len(d);
        assert(s.subrange(0, 2) =~= spec_u16_to_le_bytes_alias(e.id));
        assert(s[2] == e.type_code.spec_byte());
        assert(s.subrange(3, 7) =~= spec_u32_to_le_bytes_alias(e.offset));
        assert(s.skip(7) =~= dir_enc(tail) + rest);
        lemma_dir_round(tail, rest);
        assert(seq![e] + tail =~= d);
    }
}

/// `vstd`'s little-endian encodings, re-exposed under local names so that
/// extensional asserts can mention them.
pub open spec fn spec_u16_to_le_bytes_alias(x: u16) -> Seq<u8> {
    vstd::bytes::spec_u16_to_le_bytes(x)
}

pub open spec fn spec_u32_to_le_bytes_alias(x: u32) -> Seq<u8> {
    vstd::bytes::spec_u32_to_le_bytes(x)
}

/// Record decoding inverts record encoding, for a record whose header
/// agrees with its payload and whose directory count fits the wire format.
pub proof fn lemma_rec_round(rm: RecModel, rest: Seq<u8>)
    requires
        rm.header.payload_size == rm.payload.len(),
        rm.directory.len() <= MAX_U32,
    ensures
        rec_dec(rec_enc(rm) + rest) == Some((rm, rec_enc(rm).len() as int)),
{
    lemma_auto_spec_u32_to_from_le_bytes();
    let s = rec_enc(rm) + rest;
    let cnt = rm.directory.len() as u32;
    lemma_varint_enc_len(cnt as nat);
    lemma_dir_enc_len(rm.directory);
    let cn = varint_enc(cnt as nat).len() as int;
    assert(s.len() >= 15);
    assert(s[0] == crate::MAGIC && s[1] == crate::VERSION && s[2] == rm.header.flags.0);
    assert(s.subrange(3, 7) =~= spec_u32_to_le_bytes_alias(rm.header.schema_id.fieldspace_id));
    assert(s.subrange(7, 11) =~= spec_u32_to_le_bytes_alias(rm.header.schema_id.schema_hash));
    assert(s.subrange(11, 15) =~= spec_u32_to_le_bytes_alias(rm.header.payload_size));
    assert(s.skip(15) =~= varint_enc(cnt as nat) + (dir_enc(rm.directory) + rm.payload + rest));
    lemma_varint_round(cnt as nat, dir_enc(rm.directory) + rm.payload + rest);
    assert(varint_dec(s.skip(15)) == Some((cnt, cn)));
    assert(s.skip(15 + cn) =~= dir_enc(rm.directory) + (rm.payload + rest));
    lemma_dir_round(rm.directory, rm.payload + rest);
    let off = 15 + cn + 7 * (cnt as int);
    assert(off + rm.header.payload_size <= s.len());
    assert(s.subrange(off, off + rm.header.payload_size) =~= rm.payload);
    assert(rec_enc(rm).len() == off + rm.header.payload_size);
}

/// Map-key decoding inverts map-key encoding.
pub proof fn lemma_key_round(k: KeyModel, rest: Seq<u8>)
    requires
        key_size_ok(k),
    ensures
        key_dec(k.type_code(), key_enc(k) + rest) == Some((k, key_enc(k).len() as int)),
{
    lemma_auto_spec_u32_to_from_le_bytes();
    lemma_auto_spec_u64_to_from_le_bytes();
    lemma_signed_unsigned_inverse();
    let s = key_enc(k) + rest;
    match k {
        KeyModel::Int32(i) => {
            assert(s.subrange(0, 4) =~= spec_u32_to_le_bytes_alias(u32_of_i32(i)));
        },
        KeyModel::Int64(i) => {
            assert(s.subrange(0, 8) =~= vstd::bytes::spec_u64_to_le_bytes(u64_of_i64(i)));
        },
        KeyModel::Bytes(b) => {
            lemma_varint_round(b.len(), b + rest);
            let n = varint_enc(b.len()).len() as int;
            assert(s =~= varint_enc(b.len()) + (b + rest));
            assert(varint_dec(s) == Some((b.len() as u32, n)));
            assert(s.subrange(n, n + b.len()) =~= b);
        },
        KeyModel::String(cs) => {
            let b = encode_utf8(cs);
            lemma_varint_round(b.len(), b + rest);
            let n = varint_enc(b.len()).len() as int;
            assert(s =~= varint_enc(b.len()) + (b + rest));
            assert(varint_dec(s) == Some((b.len() as u32, n)));
            assert(s.subrange(n, n + b.len()) =~= b);
            encode_utf8_valid_utf8(cs);
            encode_utf8_decode_utf8(cs);
        },
    }
}

/// Value decoding inverts value encoding: a buffer that starts with the
/// encoding of a well-formed value decodes to exactly that value,
/// consuming exactly its encoding.
#[verifier::spinoff_prover]
pub proof fn lemma_val_round(m: ValModel, rest: Seq<u8>)
    requires
        val_wf(m),
    ensures
        val_dec(m.type_code(), val_enc(m) + rest) == Some((m, val_enc(m).len() as int)),
    decreases m, 3int,
{
    let s = val_enc(m) + rest;
    match m {
        ValModel::Null => {},
        ValModel::Bool(b) => {
            assert(s[0] == if b {
                1u8
            } else {
                0u8
            });
        },
        ValModel::Int32(i) => {
            lemma_auto_spec_u32_to_from_le_bytes();
            lemma_signed_unsigned_inverse();
            assert(s.subrange(0, 4) =~= spec_u32_to_le_bytes_alias(u32_of_i32(i)));
        },
        ValModel::Int64(i) => {
            lemma_auto_spec_u64_to_from_le_bytes();
            lemma_signed_unsigned_inverse();
            assert(s.subrange(0, 8) =~= vstd::bytes::spec_u64_to_le_bytes(u64_of_i64(i)));
        },
        ValModel::Float32(b) => {
            lemma_auto_spec_u32_to_from_le_bytes();
            assert(s.subrange(0, 4) =~= spec_u32_to_le_bytes_alias(b));
        },
        ValModel::Float64(b) => {
            lemma_auto_spec_u64_to_from_le_bytes();
            assert(s.subrange(0, 8) =~= vstd::bytes::spec_u64_to_le_bytes(b));
        },
        ValModel::Bytes(b) => {
            lemma_varint_round(b.len(), b + rest);
            let n = varint_enc(b.len()).len() as int;
            assert(s =~= varint_enc(b.len()) + (b + rest));
            assert(varint_dec(s) == Some((b.len() as u32, n)));
            assert(s.subrange(n, n + b.len()) =~= b);
        },
        ValModel::String(cs) => {
            let b = encode_utf8(cs);
            lemma_varint_round(b.len(), b + rest);
            let n = varint_enc(b.len()).len() as int;
            assert(s =~= varint_enc(b.len()) + (b + rest));
            assert(varint_dec(s) == Some((b.len() as u32, n)));
            assert(s.subrange(n, n + b.len()) =~= b);
            encode_utf8_valid_utf8(cs);
            encode_utf8_decode_utf8(cs);
        },
        ValModel::Array(es) => {
            lemma_val_round_array(es, rest);
        },
        ValModel::Mapping(ps) => {
            lemma_val_round_map(ps, rest);
        },
        ValModel::Row(rm) => {
            lemma_rec_round(rm, rest);
        },
    }
}

/// The array arm of [`lemma_val_round`].
#[verifier::spinoff_prover]
proof fn lemma_val_round_array(es: Seq<ValModel>, rest: Seq<u8>)
    requires
        val_wf(ValModel::Array(es)),
    ensures
        val_dec(TypeCode::Array, val_enc(ValModel::Array(es)) + rest) == Some(
            (ValModel::Array(es), val_enc(ValModel::Array(es)).len() as int),
        ),
    decreases es, 3int,
{
    let m = ValModel::Array(es);
    let s = val_enc(m) + rest;
    if es.len() == 0 {
        lemma_varint_round(0, rest);
        assert(s =~= varint_enc(0) + rest);
        assert(ValModel::Array(Seq::empty()) == m) by {
            assert(es =~= Seq::<ValModel>::empty());
        }
    } else {
        lemma_tc_byte();
        let et = es[0].type_code();
        let body = seq![et.spec_byte()] + elems_enc(es);
        lemma_varint_round(es.len(), body + rest);
        let n = varint_enc(es.len()).len() as int;
        assert(s =~= varint_enc(es.len()) + (body + rest));
        assert(varint_dec(s) == Some((es.len() as u32, n)));
        assert(s[n] == et.spec_byte());
        assert(s.skip(n + 1) =~= elems_enc(es) + rest);
        lemma_elems_round(et, es, rest);
        assert(val_enc(m).len() == n + 1 + elems_enc(es).len());
    }
}

/// The map arm of [`lemma_val_round`].
#[verifier::spinoff_prover]
proof fn lemma_val_round_map(ps: Seq<(KeyModel, ValModel)>, rest: Seq<u8>)
    requires
        val_wf(ValModel::Mapping(ps)),
    ensures
        val_dec(TypeCode::Mapping, val_enc(ValModel::Mapping(ps)) + rest) == Some(
            (ValModel::Mapping(ps), val_enc(ValModel::Mapping(ps)).len() as int),
        ),
    decreases ps, 3int,
{
    let m = ValModel::Mapping(ps);
    let s = val_enc(m) + rest;
    if ps.len() == 0 {
        lemma_varint_round(0, rest);
        assert(s =~= varint_enc(0) + rest);
        assert(ValModel::Mapping(Seq::empty()) == m) by {
            assert(ps =~= Seq::<(KeyModel, ValModel)>::empty());
        }
    } else {
        lemma_tc_byte();
        let kt = ps[0].0.type_code();
        let vt = ps[0].1.type_code();
        let body = seq![kt.spec_byte(), vt.spec_byte()] + pairs_enc(ps);
        lemma_varint_round(ps.len(), body + rest);
        let n = varint_enc(ps.len()).len() as int;
        assert(s =~= varint_enc(ps.len()) + (body + rest));
        assert(varint_dec(s) == Some((ps.len() as u32, n)));
        assert(s[n] == kt.spec_byte() && s[n + 1] == vt.spec_byte());
        assert(s.skip(n + 2) =~= pairs_enc(ps) + rest);
        lemma_pairs_round(kt, vt, ps, rest);
        assert(val_enc(m).len() == n + 2 + pairs_enc(ps).len());
    }
}

/// Element-sequence decoding inverts element-sequence encoding.
pub proof fn lemma_elems_round(et: TypeCode, es: Seq<ValModel>, rest: Seq<u8>)
    requires
        elems_all_tc(es, et),
        elems_struct_ok(es),
        elems_size_ok(es),
    ensures
        elems_dec(et, es.len() as nat, elems_enc(es) + rest) == Some(
            (es, elems_enc(es).len() as int),
        ),
    decreases es, 2int,
{
    if es.len() > 0 {
        let head = es[0];
        let tail = es.subrange(1, es.len() as int);
        let s = elems_enc(es) + rest;
        assert(s =~= val_enc(head) + (elems_enc(tail) + rest));
        lemma_val_round(head, elems_enc(tail) + rest);
        let c = val_enc(head).len() as int;
        assert(val_dec(et, s) == Some((head, c)));
        assert(s.skip(c) =~= elems_enc(tail) + rest);
        assert(elems_all_tc(tail, et));
        lemma_elems_round(et, tail, rest);
        assert(seq![head] + tail =~= es);
    }
}

/// Directory decoding is sound: it accepts exactly seven bytes per entry,
/// and what it returns re-encodes to the bytes it read.
pub proof fn lemma_dir_dec_sound(k: nat, s: Seq<u8>)
    ensures
        match dir_dec(k, s) {
            Some(d) => {
                &&& d.len() == k
                &&& 7 * k <= s.len()
                &&& dir_enc(d) =~= s.subrange(0, 7 * k as int)
            },
            None => true,
        },
    decreases k,
{
    lemma_auto_spec_u16_to_from_le_bytes();
    lemma_auto_spec_u32_to_from_le_bytes();
    lemma_tc_byte();
    if k > 0 && s.len() >= 7 {
        lemma_dir_dec_sound((k - 1) as nat, s.skip(7));
        match dir_dec(k, s) {
            Some(d) => {
                let e = d[0];
                let tail = dir_dec((k - 1) as nat, s.skip(7))->Some_0;
                lemma_entry_enc_len(e);
                assert(entry_enc(e) =~= s.subrange(0, 7));
                assert(d.subrange(1, d.len() as int) =~= tail);
                assert(dir_enc(d) =~= entry_enc(e) + dir_enc(tail));
                assert(s.skip(7).subrange(0, 7 * (k - 1)) =~= s.subrange(7, 7 * k as int));
                assert(dir_enc(d) =~= s.subrange(0, 7 * k as int));
            },
            None => {},
        }
    }
}

/// Record decoding is sound: an accepted record re-encodes to exactly the
/// bytes read, its header agrees with its payload, and its directory count
/// fits the wire format.
#[verifier::spinoff_prover]
pub proof fn lemma_rec_dec_sound(s: Seq<u8>)
    ensures
        match rec_dec(s) {
            Some(rm_c) => {
                &&& 15 <= rm_c.1 <= s.len()
                &&& rm_c.0.header.payload_size == rm_c.0.payload.len()
                &&& rm_c.0.directory.len() <= MAX_U32
                &&& rec_enc(rm_c.0) =~= s.subrange(0, rm_c.1)
            },
            None => true,
        },
{
    lemma_auto_spec_u32_to_from_le_bytes();
    match rec_dec(s) {
        Some(rm_c) => {
            let rm = rm_c.0;
            lemma_varint_dec_sound(s.skip(15));
            let cnt_n = varint_dec(s.skip(15))->Some_0;
            let cnt = cnt_n.0;
            let cn = cnt_n.1;
            lemma_dir_dec_sound(cnt as nat, s.skip(15 + cn));
            let off = 15 + cn + 7 * (cnt as int);
            lemma_dir_enc_len(rm.directory);
            assert(varint_enc(cnt as nat) =~= s.subrange(15, 15 + cn));
            assert(dir_enc(rm.directory) =~= s.subrange(15 + cn, off)) by {
                assert(s.skip(15 + cn).subrange(0, 7 * (cnt as int)) =~= s.subrange(
                    15 + cn,
                    off,
                ));
            }
            assert(s.subrange(3, 7) =~= spec_u32_to_le_bytes_alias(
                rm.header.schema_id.fieldspace_id,
            ));
            assert(s.subrange(7, 11) =~= spec_u32_to_le_bytes_alias(
                rm.header.schema_id.schema_hash,
            ));
            assert(s.subrange(11, 15) =~= spec_u32_to_le_bytes_alias(rm.header.payload_size));
            assert(rec_enc(rm) =~= s.subrange(0, rm_c.1));
        },
        None => {},
    }
}

/// Map-key decoding is sound.
pub proof fn lemma_key_dec_sound(kt: TypeCode, s: Seq<u8>)
    ensures
        match key_dec(kt, s) {
            Some(kc) => {
                &&& key_size_ok(kc.0)
                &&& kc.0.type_code() == kt
                &&& 0 <= kc.1 <= s.len()
                &&& key_enc(kc.0) =~= s.subrange(0, kc.1)
            },
            None => true,
        },
{
    lemma_auto_spec_u32_to_from_le_bytes();
    lemma_auto_spec_u64_to_from_le_bytes();
    lemma_signed_unsigned_inverse();
    match kt {
        TypeCode::Bytes => {
            lemma_varint_dec_sound(s);
            match key_dec(kt, s) {
                Some(kc) => {
                    let ln = varint_dec(s)->Some_0;
                    assert(key_enc(kc.0) =~= s.subrange(0, kc.1));
                },
                None => {},
            }
        },
        TypeCode::String => {
            lemma_varint_dec_sound(s);
            match key_dec(kt, s) {
                Some(kc) => {
                    let ln = varint_dec(s)->Some_0;
                    let b = s.subrange(ln.1, ln.1 + ln.0);
                    decode_utf8_encode_utf8(b);
                    assert(key_enc(kc.0) =~= s.subrange(0, kc.1));
                },
                None => {},
            }
        },
        _ => {},
    }
}

/// Value decoding is sound: whatever it accepts is well formed, carries the
/// requested type code, and re-encodes to exactly the bytes it consumed.
#[verifier::spinoff_prover]
pub proof fn lemma_val_dec_sound(tc: TypeCode, s: Seq<u8>)
    ensures
        match val_dec(tc, s) {
            Some(mc) => {
                &&& val_wf(mc.0)
                &&& mc.0.type_code() == tc
                &&& 0 <= mc.1 <= s.len()
                &&& val_enc(mc.0) =~= s.subrange(0, mc.1)
            },
            None => true,
        },
    decreases s.len(), 1int, 1int,
{
    match tc {
        TypeCode::Null => {
            assert(val_enc(ValModel::Null) =~= s.subrange(0, 0));
        },
        TypeCode::Bool => {
            if s.len() >= 1 && (s[0] == 0 || s[0] == 1) {
                let b = s[0] == 1;
                assert(val_enc(ValModel::Bool(b)) =~= s.subrange(0, 1));
            }
        },
        TypeCode::Int32 => {
            lemma_auto_spec_u32_to_from_le_bytes();
            lemma_signed_unsigned_inverse();
            if s.len() >= 4 {
                assert(val_enc(
                    ValModel::Int32(i32_of_u32(spec_u32_from_le_bytes_alias(s.subrange(0, 4)))),
                ) =~= s.subrange(0, 4));
            }
        },
        TypeCode::Int64 => {
            lemma_auto_spec_u64_to_from_le_bytes();
            lemma_signed_unsigned_inverse();
            if s.len() >= 8 {
                assert(val_enc(
                    ValModel::Int64(i64_of_u64(vstd::bytes::spec_u64_from_le_bytes(s.subrange(0, 8)))),
                ) =~= s.subrange(0, 8));
            }
        },
        TypeCode::Float32 => {
            lemma_auto_spec_u32_to_from_le_bytes();
            if s.len() >= 4 {
                assert(val_enc(ValModel::Float32(spec_u32_from_le_bytes_alias(s.subrange(0, 4))))
                    =~= s.subrange(0, 4));
            }
        },
        TypeCode::Float64 => {
            lemma_auto_spec_u64_to_from_le_bytes();
            if s.len() >= 8 {
                assert(val_enc(
                    ValModel::Float64(vstd::bytes::spec_u64_from_le_bytes(s.subrange(0, 8))),
                ) =~= s.subrange(0, 8));
            }
        },
        TypeCode::Bytes => {
            lemma_varint_dec_sound(s);
            match val_dec(tc, s) {
                Some(mc) => {
                    assert(val_enc(mc.0) =~= s.subrange(0, mc.1));
                },
                None => {},
            }
        },
        TypeCode::String => {
            lemma_varint_dec_sound(s);
            match val_dec(tc, s) {
                Some(mc) => {
                    let ln = varint_dec(s)->Some_0;
                    let b = s.subrange(ln.1, ln.1 + ln.0);
                    decode_utf8_encode_utf8(b);
                    assert(val_enc(mc.0) =~= s.subrange(0, mc.1));
                },
                None => {},
            }
        },
        TypeCode::Array => {
            lemma_val_dec_sound_array(s);
        },
        TypeCode::Mapping => {
            lemma_val_dec_sound_map(s);
        },
        TypeCode::Row => {
            lemma_rec_dec_sound(s);
            match rec_dec(s) {
                Some(rm_c) => {
                    assert(val_enc(ValModel::Row(rm_c.0)) =~= s.subrange(0, rm_c.1));
                },
                None => {},
            }
        },
    }
}

/// The array arm of [`lemma_val_dec_sound`].
#[verifier::spinoff_prover]
proof fn lemma_val_dec_sound_array(s: Seq<u8>)
    ensures
        match val_dec(TypeCode::Array, s) {
            Some(mc) => {
                &&& val_wf(mc.0)
                &&& mc.0.type_code() == TypeCode::Array
                &&& 0 <= mc.1 <= s.len()
                &&& val_enc(mc.0) =~= s.subrange(0, mc.1)
            },
            None => true,
        },
    decreases s.len(), 1int, 0int,
{
    lemma_tc_byte();
    lemma_varint_dec_sound(s);
    match val_dec(TypeCode::Array, s) {
        Some(mc) => {
            let kn = varint_dec(s)->Some_0;
            let k = kn.0;
            let n = kn.1;
            if k == 0 {
                assert(val_enc(mc.0) =~= s.subrange(0, mc.1));
            } else {
                let et = TypeCode::spec_from_byte(s[n])->Some_0;
                lemma_elems_dec_sound(et, k as nat, s.skip(n + 1));
                let ms_c = elems_dec(et, k as nat, s.skip(n + 1))->Some_0;
                let ms = ms_c.0;
                let body_len = ms_c.1;
                assert(ms[0].type_code() == et);
                assert(elems_enc(ms) =~= s.subrange(n + 1, n + 1 + body_len)) by {
                    assert(s.skip(n + 1).subrange(0, body_len) =~= s.subrange(
                        n + 1,
                        n + 1 + body_len,
                    ));
                }
                assert(val_enc(mc.0) =~= s.subrange(0, mc.1));
            }
        },
        None => {},
    }
}

/// The map arm of [`lemma_val_dec_sound`].
#[verifier::spinoff_prover]
proof fn lemma_val_dec_sound_map(s: Seq<u8>)
    ensures
        match val_dec(TypeCode::Mapping, s) {
            Some(mc) => {
                &&& val_wf(mc.0)
                &&& mc.0.type_code() == TypeCode::Mapping
                &&& 0 <= mc.1 <= s.len()
                &&& val_enc(mc.0) =~= s.subrange(0, mc.1)
            },
            None => true,
        },
    decreases s.len(), 1int, 0int,
{
    lemma_tc_byte();
    lemma_varint_dec_sound(s);
    match val_dec(TypeCode::Mapping, s) {
        Some(mc) => {
            let kn = varint_dec(s)->Some_0;
            let k = kn.0;
            let n = kn.1;
            if k == 0 {
                assert(val_enc(mc.0) =~= s.subrange(0, mc.1));
            } else {
                let kt = TypeCode::spec_from_byte(s[n])->Some_0;
                let vt = TypeCode::spec_from_byte(s[n + 1])->Some_0;
                lemma_pairs_dec_sound(kt, vt, k as nat, s.skip(n + 2));
                let ps_c = pairs_dec(kt, vt, k as nat, s.skip(n + 2))->Some_0;
                let ps = ps_c.0;
                let body_len = ps_c.1;
                assert(ps[0].0.type_code() == kt && ps[0].1.type_code() == vt);
                assert(pairs_enc(ps) =~= s.subrange(n + 2, n + 2 + body_len)) by {
                    assert(s.skip(n + 2).subrange(0, body_len) =~= s.subrange(
                        n + 2,
                        n + 2 + body_len,
                    ));
                }
                assert(val_enc(mc.0) =~= s.subrange(0, mc.1));
            }
        },
        None => {},
    }
}

/// Element-sequence decoding is sound.
pub proof fn lemma_elems_dec_sound(et: TypeCode, k: nat, s: Seq<u8>)
    ensures
        match elems_dec(et, k, s) {
            Some(ms_c) => {
                &&& ms_c.0.len() == k
                &&& elems_all_tc(ms_c.0, et)
                &&& elems_struct_ok(ms_c.0)
                &&& elems_size_ok(ms_c.0)
                &&& 0 <= ms_c.1 <= s.len()
                &&& elems_enc(ms_c.0) =~= s.subrange(0, ms_c.1)
            },
            None => true,
        },
    decreases s.len(), 2int, k,
{
    if k > 0 {
        lemma_val_dec_sound(et, s);
        match val_dec(et, s) {
            Some(mc) => {
                if 0 <= mc.1 <= s.len() {
                    lemma_elems_dec_sound(et, (k - 1) as nat, s.skip(mc.1));
                    match elems_dec(et, (k - 1) as nat, s.skip(mc.1)) {
                        Some(tail_c) => {
                            let ms = seq![mc.0] + tail_c.0;
                            assert(ms.subrange(1, ms.len() as int) =~= tail_c.0);
                            assert(elems_enc(ms) =~= val_enc(mc.0) + elems_enc(tail_c.0));
                            assert(elems_enc(tail_c.0) =~= s.subrange(mc.1, mc.1 + tail_c.1))
                                by {
                                assert(s.skip(mc.1).subrange(0, tail_c.1) =~= s.subrange(
                                    mc.1,
                                    mc.1 + tail_c.1,
                                ));
                            }
                            assert(elems_enc(ms) =~= s.subrange(0, mc.1 + tail_c.1));
                        },
                        None => {},
                    }
                }
            },
            None => {},
        }
    }
}

/// Pair-sequence decoding is sound.
pub proof fn lemma_pairs_dec_sound(kt: TypeCode, vt: TypeCode, k: nat, s: Seq<u8>)
    ensures
        match pairs_dec(kt, vt, k, s) {
            Some(ps_c) => {
                &&& ps_c.0.len() == k
                &&& pairs_all_tc(ps_c.0, kt, vt)
                &&& pairs_struct_ok(ps_c.0)
                &&& pairs_size_ok(ps_c.0)
                &&& 0 <= ps_c.1 <= s.len()
                &&& pairs_enc(ps_c.0) =~= s.subrange(0, ps_c.1)
            },
            None => true,
        },
    decreases s.len(), 2int, k,
{
    if k > 0 {
        lemma_key_dec_sound(kt, s);
        match key_dec(kt, s) {
            Some(kc) => {
                if 0 <= kc.1 <= s.len() {
                    lemma_val_dec_sound(vt, s.skip(kc.1));
                    match val_dec(vt, s.skip(kc.1)) {
                        Some(vc) => {
                            if 0 <= vc.1 <= s.len() - kc.1 {
                                lemma_pairs_dec_sound(kt, vt, (k - 1) as nat, s.skip(kc.1 + vc.1));
                                match pairs_dec(kt, vt, (k - 1) as nat, s.skip(kc.1 + vc.1)) {
                                    Some(tail_c) => {
                                        let ps = seq![(kc.0, vc.0)] + tail_c.0;
                                        assert(ps.subrange(1, ps.len() as int) =~= tail_c.0);
                                        assert(pairs_enc(ps) =~= key_enc(kc.0) + val_enc(vc.0)
                                            + pairs_enc(tail_c.0));
                                        assert(val_enc(vc.0) =~= s.subrange(kc.1, kc.1 + vc.1))
                                            by {
                                            assert(s.skip(kc.1).subrange(0, vc.1) =~= s.subrange(
                                                kc.1,
                                                kc.1 + vc.1,
                                            ));
                                        }
                                        assert(pairs_enc(tail_c.0) =~= s.subrange(
                                            kc.1 + vc.1,
                                            kc.1 + vc.1 + tail_c.1,
                                        )) by {
                                            assert(s.skip(kc.1 + vc.1).subrange(0, tail_c.1)
                                                =~= s.subrange(
                                                kc.1 + vc.1,
                                                kc.1 + vc.1 + tail_c.1,
                                            ));
                                        }
                                        assert(pairs_enc(ps) =~= s.subrange(
                                            0,
                                            kc.1 + vc.1 + tail_c.1,
                                        ));
                                    },
                                    None => {},
                                }
                            }
                        },
                        None => {},
                    }
                }
            },
            None => {},
        }
    }
}

/// `vstd`'s little-endian decoding, under a local name.
pub open spec fn spec_u32_from_le_bytes_alias(s: Seq<u8>) -> u32 {
    vstd::bytes::spec_u32_from_le_bytes(s)
}

/// A decode reads only the bytes it consumes: on any buffer that carries
/// the same consumed prefix, it returns the same value and length.
pub proof fn lemma_val_dec_prefix(tc: TypeCode, s: Seq<u8>, t: Seq<u8>)
    requires
        val_dec(tc, s) is Some,
        val_dec(tc, s)->Some_0.1 <= t.len(),
        t.subrange(0, val_dec(tc, s)->Some_0.1) == s.subrange(0, val_dec(tc, s)->Some_0.1),
    ensures
        val_dec(tc, t) == val_dec(tc, s),
{
    let mc = val_dec(tc, s)->Some_0;
    lemma_val_dec_sound(tc, s);
    assert(t =~= val_enc(mc.0) + t.skip(mc.1));
    lemma_val_round(mc.0, t.skip(mc.1));
}

/// Pair-sequence decoding inverts pair-sequence encoding.
pub proof fn lemma_pairs_round(
    kt: TypeCode,
    vt: TypeCode,
    ps: Seq<(KeyModel, ValModel)>,
    rest: Seq<u8>,
)
    requires
        pairs_all_tc(ps, kt, vt),
        pairs_struct_ok(ps),
        pairs_size_ok(ps),
    ensures
        pairs_dec(kt, vt, ps.len() as nat, pairs_enc(ps) + rest) == Some(
            (ps, pairs_enc(ps).len() as int),
        ),
    decreases ps, 2int,
{
    if ps.len() > 0 {
        let key = ps[0].0;
        let val = ps[0].1;
        let tail = ps.subrange(1, ps.len() as int);
        let s = pairs_enc(ps) + rest;
        assert(s =~= key_enc(key) + (val_enc(val) + (pairs_enc(tail) + rest)));
        lemma_key_round(key, val_enc(val) + (pairs_enc(tail) + rest));
        let ck = key_enc(key).len() as int;
        assert(key_dec(kt, s) == Some((key, ck)));
        assert(s.skip(ck) =~= val_enc(val) + (pairs_enc(tail) + rest));
        lemma_val_round(val, pairs_enc(tail) + rest);
        let cv = val_enc(val).len() as int;
        assert(val_dec(vt, s.skip(ck)) == Some((val, cv)));
        assert(s.skip(ck + cv) =~= pairs_enc(tail) + rest);
        assert(pairs_all_tc(tail, kt, vt));
        lemma_pairs_round(kt, vt, tail, rest);
        assert(seq![(key, val)] + tail =~= ps);
    }
}

} // verus!
