//! The mathematical wire format: encoding and decoding as spec functions.
//!
//! [`val_enc`] gives the exact byte sequence a value encodes to, [`val_dec`]
//! the value and byte count a decode takes from the front of a buffer, and
//! [`val_wf`] the values the encoder accepts. The executable codec in
//! `serde` is verified against these functions, and `laws` proves that they
//! invert each other.

use vstd::prelude::*;
use vstd::bytes::spec_u16_to_le_bytes;
use vstd::bytes::spec_u16_from_le_bytes;
use vstd::bytes::spec_u32_to_le_bytes;
use vstd::bytes::spec_u32_from_le_bytes;
use vstd::bytes::spec_u64_to_le_bytes;
use vstd::bytes::spec_u64_from_le_bytes;
use vstd::utf8::encode_utf8;
use vstd::utf8::decode_utf8;
use vstd::utf8::valid_utf8;
use crate::types::DirectoryEntry;
use crate::types::Flags;
use crate::types::Header;
use crate::types::KeyModel;
use crate::types::RecModel;
use crate::types::SchemaId;
use crate::types::TypeCode;
use crate::types::ValModel;
use crate::varint::varint_enc;
use crate::varint::varint_dec;
use crate::MAGIC;
use crate::VERSION;

verus! {

/// Largest length or count the wire format can carry.
pub const MAX_U32: u32 = 0xffff_ffff;

/// The two's-complement reading of an `i32` as an unsigned word.
pub open spec fn u32_of_i32(i: i32) -> u32 {
    if i >= 0 {
        i as u32
    } else {
        (i + 0x1_0000_0000) as u32
    }
}

/// The signed reading of an unsigned word, inverse of [`u32_of_i32`].
pub open spec fn i32_of_u32(u: u32) -> i32 {
    if u < 0x8000_0000 {
        u as i32
    } else {
        (u - 0x1_0000_0000) as i32
    }
}

/// The two's-complement reading of an `i64` as an unsigned word.
pub open spec fn u64_of_i64(i: i64) -> u64 {
    if i >= 0 {
        i as u64
    } else {
        (i + 0x1_0000_0000_0000_0000) as u64
    }
}

/// The signed reading of an unsigned word, inverse of [`u64_of_i64`].
pub open spec fn i64_of_u64(u: u64) -> i64 {
    if u < 0x8000_0000_0000_0000 {
        u as i64
    } else {
        (u - 0x1_0000_0000_0000_0000) as i64
    }
}

/// The two signed/unsigned readings invert each other.
pub proof fn lemma_signed_unsigned_inverse()
    ensures
        forall|i: i32| #[trigger] i32_of_u32(u32_of_i32(i)) == i,
        forall|u: u32| #[trigger] u32_of_i32(i32_of_u32(u)) == u,
        forall|i: i64| #[trigger] i64_of_u64(u64_of_i64(i)) == i,
        forall|u: u64| #[trigger] u64_of_i64(i64_of_u64(u)) == u,
{
}

// ---------------------------------------------------------------------
// Encoding
// ---------------------------------------------------------------------
/// The bytes of one map key.
pub open spec fn key_enc(k: KeyModel) -> Seq<u8> {
    match k {
        KeyModel::Int32(i) => spec_u32_to_le_bytes(u32_of_i32(i)),
        KeyModel::Int64(i) => spec_u64_to_le_bytes(u64_of_i64(i)),
        KeyModel::Bytes(b) => varint_enc(b.len()) + b,
        KeyModel::String(s) => varint_enc(encode_utf8(s).len()) + encode_utf8(s),
    }
}

/// The bytes of one directory entry: id, type-code byte, offset.
pub open spec fn entry_enc(e: DirectoryEntry) -> Seq<u8> {
    spec_u16_to_le_bytes(e.id) + seq![e.type_code.spec_byte()] + spec_u32_to_le_bytes(e.offset)
}

/// The bytes of a whole directory, entries in order.
pub open spec fn dir_enc(d: Seq<DirectoryEntry>) -> Seq<u8>
    decreases d.len(),
{
    if d.len() == 0 {
        Seq::empty()
    } else {
        entry_enc(d[0]) + dir_enc(d.subrange(1, d.len() as int))
    }
}

/// The bytes of a whole record: header, directory count, directory,
/// payload verbatim. The header writes the `payload_size` field as it
/// stands, whether or not it matches the payload.
pub open spec fn rec_enc(m: RecModel) -> Seq<u8> {
    seq![MAGIC, VERSION, m.header.flags.0] + spec_u32_to_le_bytes(m.header.schema_id.fieldspace_id)
        + spec_u32_to_le_bytes(m.header.schema_id.schema_hash) + spec_u32_to_le_bytes(
        m.header.payload_size,
    ) + varint_enc(m.directory.len()) + dir_enc(m.directory) + m.payload
}

/// The bytes of one value. An empty array or map is its count varint
/// alone; a non-empty one adds the element type byte (two for a map)
/// and then the elements back to back.
pub open spec fn val_enc(m: ValModel) -> Seq<u8>
    decreases m,
{
    match m {
        ValModel::Null => Seq::empty(),
        ValModel::Bool(b) => seq![if b { 1u8 } else { 0u8 }],
        ValModel::Int32(i) => spec_u32_to_le_bytes(u32_of_i32(i)),
        ValModel::Int64(i) => spec_u64_to_le_bytes(u64_of_i64(i)),
        ValModel::Float32(b) => spec_u32_to_le_bytes(b),
        ValModel::Float64(b) => spec_u64_to_le_bytes(b),
        ValModel::Bytes(b) => varint_enc(b.len()) + b,
        ValModel::String(s) => varint_enc(encode_utf8(s).len()) + encode_utf8(s),
        ValModel::Array(es) => varint_enc(es.len()) + if es.len() == 0 {
            Seq::empty()
        } else {
            seq![es[0].type_code().spec_byte()] + elems_enc(es)
        },
        ValModel::Mapping(ps) => varint_enc(ps.len()) + if ps.len() == 0 {
            Seq::empty()
        } else {
            seq![ps[0].0.type_code().spec_byte(), ps[0].1.type_code().spec_byte()] + pairs_enc(ps)
        },
        ValModel::Row(rm) => rec_enc(rm),
    }
}

/// Array elements, encoded back to back.
pub open spec fn elems_enc(es: Seq<ValModel>) -> Seq<u8>
    decreases es,
{
    if es.len() == 0 {
        Seq::empty()
    } else {
        val_enc(es[0]) + elems_enc(es.subrange(1, es.len() as int))
    }
}

/// Map entries, key then value, back to back.
pub open spec fn pairs_enc(ps: Seq<(KeyModel, ValModel)>) -> Seq<u8>
    decreases ps,
{
    if ps.len() == 0 {
        Seq::empty()
    } else {
        key_enc(ps[0].0) + val_enc(ps[0].1) + pairs_enc(ps.subrange(1, ps.len() as int))
    }
}

// ---------------------------------------------------------------------
// Well-formedness
// ---------------------------------------------------------------------
/// Every element carries the one type code.
pub open spec fn elems_all_tc(es: Seq<ValModel>, t: TypeCode) -> bool {
    forall|i: int| 0 <= i < es.len() ==> es[i].type_code() == t
}

/// Every pair carries the one key kind and the one value kind.
pub open spec fn pairs_all_tc(ps: Seq<(KeyModel, ValModel)>, kt: TypeCode, vt: TypeCode) -> bool {
    forall|i: int|
        0 <= i < ps.len() ==> ps[i].0.type_code() == kt && ps[i].1.type_code() == vt
}

/// Structural soundness: arrays and maps are homogeneous, and a nested
/// record's header agrees with its payload. Violations are `SchemaError`s.
pub open spec fn val_struct_ok(m: ValModel) -> bool
    decreases m, 1int,
{
    match m {
        ValModel::Array(es) => (es.len() == 0 || elems_all_tc(es, es[0].type_code()))
            && elems_struct_ok(es),
        ValModel::Mapping(ps) => (ps.len() == 0 || pairs_all_tc(
            ps,
            ps[0].0.type_code(),
            ps[0].1.type_code(),
        )) && pairs_struct_ok(ps),
        ValModel::Row(rm) => rm.header.payload_size == rm.payload.len(),
        _ => true,
    }
}

pub open spec fn elems_struct_ok(es: Seq<ValModel>) -> bool
    decreases es, 2int,
{
    if es.len() == 0 {
        true
    } else {
        val_struct_ok(es[0]) && elems_struct_ok(es.subrange(1, es.len() as int))
    }
}

pub open spec fn pairs_struct_ok(ps: Seq<(KeyModel, ValModel)>) -> bool
    decreases ps, 2int,
{
    if ps.len() == 0 {
        true
    } else {
        val_struct_ok(ps[0].1) && pairs_struct_ok(ps.subrange(1, ps.len() as int))
    }
}

/// Size soundness: every length and count fits the wire format's `u32`.
/// Violations are `SizeOverflow`s.
pub open spec fn val_size_ok(m: ValModel) -> bool
    decreases m, 1int,
{
    match m {
        ValModel::Bytes(b) => b.len() <= MAX_U32,
        ValModel::String(s) => encode_utf8(s).len() <= MAX_U32,
        ValModel::Array(es) => es.len() <= MAX_U32 && elems_size_ok(es),
        ValModel::Mapping(ps) => ps.len() <= MAX_U32 && pairs_size_ok(ps),
        ValModel::Row(rm) => rm.directory.len() <= MAX_U32,
        _ => true,
    }
}

pub open spec fn elems_size_ok(es: Seq<ValModel>) -> bool
    decreases es, 2int,
{
    if es.len() == 0 {
        true
    } else {
        val_size_ok(es[0]) && elems_size_ok(es.subrange(1, es.len() as int))
    }
}

pub open spec fn pairs_size_ok(ps: Seq<(KeyModel, ValModel)>) -> bool
    decreases ps, 2int,
{
    if ps.len() == 0 {
        true
    } else {
        key_size_ok(ps[0].0) && val_size_ok(ps[0].1) && pairs_size_ok(
            ps.subrange(1, ps.len() as int),
        )
    }
}

/// A map key's lengths fit the wire format's `u32`.
pub open spec fn key_size_ok(k: KeyModel) -> bool {
    match k {
        KeyModel::Bytes(b) => b.len() <= MAX_U32,
        KeyModel::String(s) => encode_utf8(s).len() <= MAX_U32,
        _ => true,
    }
}

/// The values the encoder accepts.
pub open spec fn val_wf(m: ValModel) -> bool {
    val_struct_ok(m) && val_size_ok(m)
}

/// The 15 header bytes: magic, version, flags, schema id, payload size.
pub open spec fn header_enc(h: Header) -> Seq<u8> {
    seq![MAGIC, VERSION, h.flags.0] + spec_u32_to_le_bytes(h.schema_id.fieldspace_id)
        + spec_u32_to_le_bytes(h.schema_id.schema_hash) + spec_u32_to_le_bytes(h.payload_size)
}

/// The list-shaped structural predicate agrees with its pointwise reading.
pub proof fn lemma_elems_struct_ok_iff(es: Seq<ValModel>)
    ensures
        elems_struct_ok(es) <==> (forall|i: int| 0 <= i < es.len() ==> val_struct_ok(es[i])),
    decreases es.len(),
{
    if es.len() > 0 {
        let tail = es.subrange(1, es.len() as int);
        lemma_elems_struct_ok_iff(tail);
        assert forall|i: int| 1 <= i < es.len() implies es[i] == tail[i - 1] by {}
    }
}

/// The list-shaped size predicate agrees with its pointwise reading.
pub proof fn lemma_elems_size_ok_iff(es: Seq<ValModel>)
    ensures
        elems_size_ok(es) <==> (forall|i: int| 0 <= i < es.len() ==> val_size_ok(es[i])),
    decreases es.len(),
{
    if es.len() > 0 {
        let tail = es.subrange(1, es.len() as int);
        lemma_elems_size_ok_iff(tail);
        assert forall|i: int| 1 <= i < es.len() implies es[i] == tail[i - 1] by {}
    }
}

/// The list-shaped structural predicate for pairs agrees with its pointwise
/// reading.
pub proof fn lemma_pairs_struct_ok_iff(ps: Seq<(KeyModel, ValModel)>)
    ensures
        pairs_struct_ok(ps) <==> (forall|i: int| 0 <= i < ps.len() ==> val_struct_ok(ps[i].1)),
    decreases ps.len(),
{
    if ps.len() > 0 {
        let tail = ps.subrange(1, ps.len() as int);
        lemma_pairs_struct_ok_iff(tail);
        assert forall|i: int| 1 <= i < ps.len() implies ps[i] == tail[i - 1] by {}
    }
}

/// The list-shaped size predicate for pairs agrees with its pointwise
/// reading.
pub proof fn lemma_pairs_size_ok_iff(ps: Seq<(KeyModel, ValModel)>)
    ensures
        pairs_size_ok(ps) <==> (forall|i: int|
            0 <= i < ps.len() ==> key_size_ok(ps[i].0) && val_size_ok(ps[i].1)),
    decreases ps.len(),
{
    if ps.len() > 0 {
        let tail = ps.subrange(1, ps.len() as int);
        lemma_pairs_size_ok_iff(tail);
        assert forall|i: int| 1 <= i < ps.len() implies ps[i] == tail[i - 1] by {}
    }
}

/// Element encodings concatenate.
pub proof fn lemma_elems_enc_concat(a: Seq<ValModel>, b: Seq<ValModel>)
    ensures
        elems_enc(a + b) == elems_enc(a) + elems_enc(b),
    decreases a.len(),
{
    if a.len() == 0 {
        assert(a + b =~= b);
        assert(elems_enc(a) + elems_enc(b) =~= elems_enc(b));
    } else {
        let s = a + b;
        assert(s[0] == a[0]);
        assert(s.subrange(1, s.len() as int) =~= a.subrange(1, a.len() as int) + b);
        lemma_elems_enc_concat(a.subrange(1, a.len() as int), b);
        assert(elems_enc(a + b) =~= elems_enc(a) + elems_enc(b));
    }
}

/// Pair encodings concatenate.
pub proof fn lemma_pairs_enc_concat(a: Seq<(KeyModel, ValModel)>, b: Seq<(KeyModel, ValModel)>)
    ensures
        pairs_enc(a + b) == pairs_enc(a) + pairs_enc(b),
    decreases a.len(),
{
    if a.len() == 0 {
        assert(a + b =~= b);
        assert(pairs_enc(a) + pairs_enc(b) =~= pairs_enc(b));
    } else {
        let s = a + b;
        assert(s[0] == a[0]);
        assert(s.subrange(1, s.len() as int) =~= a.subrange(1, a.len() as int) + b);
        lemma_pairs_enc_concat(a.subrange(1, a.len() as int), b);
        assert(pairs_enc(a + b) =~= pairs_enc(a) + pairs_enc(b));
    }
}

/// Directory encodings concatenate.
pub proof fn lemma_dir_enc_concat(a: Seq<DirectoryEntry>, b: Seq<DirectoryEntry>)
    ensures
        dir_enc(a + b) == dir_enc(a) + dir_enc(b),
    decreases a.len(),
{
    if a.len() == 0 {
        assert(a + b =~= b);
        assert(dir_enc(a) + dir_enc(b) =~= dir_enc(b));
    } else {
        let s = a + b;
        assert(s[0] == a[0]);
        assert(s.subrange(1, s.len() as int) =~= a.subrange(1, a.len() as int) + b);
        lemma_dir_enc_concat(a.subrange(1, a.len() as int), b);
        assert(dir_enc(a + b) =~= dir_enc(a) + dir_enc(b));
    }
}

// ---------------------------------------------------------------------
// Decoding
// ---------------------------------------------------------------------
/// Decode one directory of `k` seven-byte entries from the front of `s`.
pub open spec fn dir_dec(k: nat, s: Seq<u8>) -> Option<Seq<DirectoryEntry>>
    decreases k,
{
    if k == 0 {
        Some(Seq::empty())
    } else if s.len() < 7 {
        None
    } else {
        match TypeCode::spec_from_byte(s[2]) {
            None => None,
            Some(tc) => {
                let e = DirectoryEntry {
                    id: spec_u16_from_le_bytes(s.subrange(0, 2)),
                    type_code: tc,
                    offset: spec_u32_from_le_bytes(s.subrange(3, 7)),
                };
                match dir_dec((k - 1) as nat, s.skip(7)) {
                    Some(rest) => Some(seq![e] + rest),
                    None => None,
                }
            },
        }
    }
}

/// Decode a whole record from the front of `s`: header (checking magic and
/// version), directory count, directory, then `payload_size` bytes of
/// payload, referenced without interpretation. Bytes past the payload are
/// left unconsumed.
pub open spec fn rec_dec(s: Seq<u8>) -> Option<(RecModel, int)> {
    if s.len() < 15 {
        None
    } else if s[0] != MAGIC || s[1] != VERSION {
        None
    } else {
        let header = Header {
            flags: Flags(s[2]),
            schema_id: SchemaId {
                fieldspace_id: spec_u32_from_le_bytes(s.subrange(3, 7)),
                schema_hash: spec_u32_from_le_bytes(s.subrange(7, 11)),
            },
            payload_size: spec_u32_from_le_bytes(s.subrange(11, 15)),
        };
        match varint_dec(s.skip(15)) {
            None => None,
            Some(cnt_n) => {
                let cnt = cnt_n.0;
                let cn = cnt_n.1;
                match dir_dec(cnt as nat, s.skip(15 + cn)) {
                    None => None,
                    Some(dir) => {
                        let off = 15 + cn + 7 * (cnt as int);
                        if off + header.payload_size <= s.len() {
                            Some(
                                (
                                    RecModel {
                                        header,
                                        directory: dir,
                                        payload: s.subrange(off, off + header.payload_size),
                                    },
                                    off + header.payload_size,
                                ),
                            )
                        } else {
                            None
                        }
                    },
                }
            },
        }
    }
}

/// Decode one map key of kind `kt` from the front of `s`. Only the four
/// key kinds are legal here.
pub open spec fn key_dec(kt: TypeCode, s: Seq<u8>) -> Option<(KeyModel, int)> {
    match kt {
        TypeCode::Int32 => if s.len() < 4 {
            None
        } else {
            Some((KeyModel::Int32(i32_of_u32(spec_u32_from_le_bytes(s.subrange(0, 4)))), 4))
        },
        TypeCode::Int64 => if s.len() < 8 {
            None
        } else {
            Some((KeyModel::Int64(i64_of_u64(spec_u64_from_le_bytes(s.subrange(0, 8)))), 8))
        },
        TypeCode::Bytes => match varint_dec(s) {
            None => None,
            Some(ln) => if ln.1 + ln.0 <= s.len() {
                Some((KeyModel::Bytes(s.subrange(ln.1, ln.1 + ln.0)), ln.1 + ln.0))
            } else {
                None
            },
        },
        TypeCode::String => match varint_dec(s) {
            None => None,
            Some(ln) => if ln.1 + ln.0 <= s.len() && valid_utf8(s.subrange(ln.1, ln.1 + ln.0)) {
                Some(
                    (KeyModel::String(decode_utf8(s.subrange(ln.1, ln.1 + ln.0))), ln.1 + ln.0),
                )
            } else {
                None
            },
        },
        _ => None,
    }
}

/// Decode one value of kind `tc` from the front of `s`, giving the value
/// and the bytes taken.
pub open spec fn val_dec(tc: TypeCode, s: Seq<u8>) -> Option<(ValModel, int)>
    decreases s.len(), 1int, 0int,
{
    match tc {
        TypeCode::Null => Some((ValModel::Null, 0)),
        TypeCode::Bool => if s.len() < 1 {
            None
        } else if s[0] == 0 {
            Some((ValModel::Bool(false), 1))
        } else if s[0] == 1 {
            Some((ValModel::Bool(true), 1))
        } else {
            None
        },
        TypeCode::Int32 => if s.len() < 4 {
            None
        } else {
            Some((ValModel::Int32(i32_of_u32(spec_u32_from_le_bytes(s.subrange(0, 4)))), 4))
        },
        TypeCode::Int64 => if s.len() < 8 {
            None
        } else {
            Some((ValModel::Int64(i64_of_u64(spec_u64_from_le_bytes(s.subrange(0, 8)))), 8))
        },
        TypeCode::Float32 => if s.len() < 4 {
            None
        } else {
            Some((ValModel::Float32(spec_u32_from_le_bytes(s.subrange(0, 4))), 4))
        },
        TypeCode::Float64 => if s.len() < 8 {
            None
        } else {
            Some((ValModel::Float64(spec_u64_from_le_bytes(s.subrange(0, 8))), 8))
        },
        TypeCode::Bytes => match varint_dec(s) {
            None => None,
            Some(ln) => if ln.1 + ln.0 <= s.len() {
                Some((ValModel::Bytes(s.subrange(ln.1, ln.1 + ln.0)), ln.1 + ln.0))
            } else {
                None
            },
        },
        TypeCode::String => match varint_dec(s) {
            None => None,
            Some(ln) => if ln.1 + ln.0 <= s.len() && valid_utf8(s.subrange(ln.1, ln.1 + ln.0)) {
                Some(
                    (ValModel::String(decode_utf8(s.subrange(ln.1, ln.1 + ln.0))), ln.1 + ln.0),
                )
            } else {
                None
            },
        },
        TypeCode::Array => match varint_dec(s) {
            None => None,
            Some(kn) => {
                let k = kn.0;
                let n = kn.1;
                if k == 0 {
                    Some((ValModel::Array(Seq::empty()), n))
                } else if 0 <= n && n < s.len() {
                    match TypeCode::spec_from_byte(s[n]) {
                        None => None,
                        Some(et) => match elems_dec(et, k as nat, s.skip(n + 1)) {
                            Some(ms_c) => Some((ValModel::Array(ms_c.0), n + 1 + ms_c.1)),
                            None => None,
                        },
                    }
                } else {
                    None
                }
            },
        },
        TypeCode::Mapping => match varint_dec(s) {
            None => None,
            Some(kn) => {
                let k = kn.0;
                let n = kn.1;
                if k == 0 {
                    Some((ValModel::Mapping(Seq::empty()), n))
                } else if 0 <= n && n + 1 < s.len() {
                    match (TypeCode::spec_from_byte(s[n]), TypeCode::spec_from_byte(s[n + 1])) {
                        (Some(kt), Some(vt)) => match pairs_dec(kt, vt, k as nat, s.skip(n + 2)) {
                            Some(ps_c) => Some((ValModel::Mapping(ps_c.0), n + 2 + ps_c.1)),
                            None => None,
                        },
                        _ => None,
                    }
                } else {
                    None
                }
            },
        },
        TypeCode::Row => match rec_dec(s) {
            Some(rm_c) => Some((ValModel::Row(rm_c.0), rm_c.1)),
            None => None,
        },
    }
}

/// Decode `k` array elements of kind `et` back to back.
pub open spec fn elems_dec(et: TypeCode, k: nat, s: Seq<u8>) -> Option<(Seq<ValModel>, int)>
    decreases s.len(), 2int, k,
{
    if k == 0 {
        Some((Seq::empty(), 0))
    } else {
        match val_dec(et, s) {
            None => None,
            Some(mc) => if 0 <= mc.1 <= s.len() {
                match elems_dec(et, (k - 1) as nat, s.skip(mc.1)) {
                    Some(ms_c) => Some((seq![mc.0] + ms_c.0, mc.1 + ms_c.1)),
                    None => None,
                }
            } else {
                None
            },
        }
    }
}

/// Decode `k` map entries, each a key of kind `kt` then a value of kind
/// `vt`, back to back.
pub open spec fn pairs_dec(kt: TypeCode, vt: TypeCode, k: nat, s: Seq<u8>) -> Option<
    (Seq<(KeyModel, ValModel)>, int),
>
    decreases s.len(), 2int, k,
{
    if k == 0 {
        Some((Seq::empty(), 0))
    } else {
        match key_dec(kt, s) {
            None => None,
            Some(kc) => if 0 <= kc.1 <= s.len() {
                match val_dec(vt, s.skip(kc.1)) {
                    None => None,
                    Some(vc) => if 0 <= vc.1 <= s.len() - kc.1 {
                        match pairs_dec(kt, vt, (k - 1) as nat, s.skip(kc.1 + vc.1)) {
                            Some(ps_c) => Some(
                                (seq![(kc.0, vc.0)] + ps_c.0, kc.1 + vc.1 + ps_c.1),
                            ),
                            None => None,
                        }
                    } else {
                        None
                    },
                }
            } else {
                None
            },
        }
    }
}

} // verus!
