//! Laws of the builder: a built record is well formed, its directory is
//! strictly ascending, later fields with the same id win, and looking a
//! field up after a build returns exactly the value that was added.

use vstd::prelude::*;
use crate::codec::MAX_U32;
use crate::codec::val_dec;
use crate::codec::val_enc;
use crate::codec::val_wf;
use crate::laws::lemma_val_round;
use crate::record::dir_find;
use crate::record::dir_sorted;
use crate::record::lemma_dir_find;
use crate::record::next_off;
use crate::record::rec_wf;
use crate::record::span_len;
use crate::types::DirectoryEntry;
use crate::types::SchemaId;
use crate::types::TypeCode;
use crate::types::ValModel;
use crate::varint::lemma_varint_enc_len;
use crate::writer::FieldModel;
use crate::writer::build_spec;
use crate::writer::dir_of;
use crate::writer::field_encodes;
use crate::writer::ids_distinct;
use crate::writer::insert_field;
use crate::writer::lemma_payload_of_concat;
use crate::writer::payload_of;
use crate::writer::sort_fields;
use crate::writer::upsert;

verus! {

/// Field ids strictly ascending.
pub open spec fn fields_sorted(fs: Seq<FieldModel>) -> bool {
    forall|i: int, j: int| 0 <= i < j < fs.len() ==> fs[i].0 < fs[j].0
}

/// The first field carrying `id`, if any.
pub open spec fn field_find(fs: Seq<FieldModel>, id: u16) -> Option<FieldModel>
    decreases fs.len(),
{
    if fs.len() == 0 {
        None
    } else if fs[0].0 == id {
        Some(fs[0])
    } else {
        field_find(fs.subrange(1, fs.len() as int), id)
    }
}

/// A non-`Null` well-formed value encodes to at least one byte.
pub proof fn lemma_val_enc_nonempty(m: ValModel)
    requires
        val_wf(m),
        m.type_code() != TypeCode::Null,
    ensures
        val_enc(m).len() >= 1,
{
    vstd::bytes::lemma_auto_spec_u16_to_from_le_bytes();
    vstd::bytes::lemma_auto_spec_u32_to_from_le_bytes();
    vstd::bytes::lemma_auto_spec_u64_to_from_le_bytes();
    match m {
        ValModel::Bytes(b) => {
            lemma_varint_enc_len(b.len());
        },
        ValModel::String(s) => {
            lemma_varint_enc_len(vstd::utf8::encode_utf8(s).len());
        },
        ValModel::Array(es) => {
            lemma_varint_enc_len(es.len());
        },
        ValModel::Mapping(ps) => {
            lemma_varint_enc_len(ps.len());
        },
        ValModel::Row(rm) => {
            lemma_varint_enc_len(rm.directory.len());
        },
        _ => {},
    }
}

/// `insert_field` keeps every field, adds the new one, and keeps strict
/// id order when the new id is fresh.
pub proof fn lemma_insert_field(s: Seq<FieldModel>, f: FieldModel)
    ensures
        insert_field(s, f).len() == s.len() + 1,
        forall|g: FieldModel| #[trigger]
            insert_field(s, f).contains(g) <==> (s.contains(g) || g == f),
        (fields_sorted(s) && (forall|i: int| 0 <= i < s.len() ==> (#[trigger] s[i]).0 != f.0))
            ==> fields_sorted(insert_field(s, f)),
    decreases s.len(),
{
    let r = insert_field(s, f);
    if s.len() == 0 {
        assert forall|g: FieldModel| #[trigger] r.contains(g) <==> (s.contains(g) || g == f) by {
            assert(r[0] == f);
            if s.contains(g) || g == f {
                assert(r.contains(g)) by {
                    assert(r[0] == f);
                }
            }
        }
    } else if f.0 < s[0].0 {
        assert forall|g: FieldModel| #[trigger] r.contains(g) <==> (s.contains(g) || g == f) by {
            if r.contains(g) {
                let i = choose|i: int| 0 <= i < r.len() && r[i] == g;
                if i == 0 {
                } else {
                    assert(s[i - 1] == g);
                }
            }
            if g == f {
                assert(r[0] == g);
            }
            if s.contains(g) {
                let i = choose|i: int| 0 <= i < s.len() && s[i] == g;
                assert(r[i + 1] == g);
            }
        }
        if fields_sorted(s) && (forall|i: int| 0 <= i < s.len() ==> (#[trigger] s[i]).0 != f.0) {
            assert forall|i: int, j: int| 0 <= i < j < r.len() implies r[i].0 < r[j].0 by {
                if i > 0 {
                    assert(r[i] == s[i - 1] && r[j] == s[j - 1]);
                } else {
                    assert(r[j] == s[j - 1]);
                    assert(f.0 < s[0].0);
                    if j > 1 {
                        assert(s[0].0 < s[j - 1].0);
                    }
                }
            }
        }
    } else {
        let tail = s.subrange(1, s.len() as int);
        lemma_insert_field(tail, f);
        let rt = insert_field(tail, f);
        assert(r == seq![s[0]] + rt);
        assert forall|g: FieldModel| #[trigger] r.contains(g) <==> (s.contains(g) || g == f) by {
            if r.contains(g) {
                let i = choose|i: int| 0 <= i < r.len() && r[i] == g;
                if i == 0 {
                    assert(s[0] == g);
                    assert(s.contains(g));
                } else {
                    assert(rt[i - 1] == g);
                    assert(rt.contains(g));
                    if tail.contains(g) {
                        let x = choose|x: int| 0 <= x < tail.len() && tail[x] == g;
                        assert(s[x + 1] == g);
                    }
                }
            }
            if g == f {
                assert(rt.contains(g));
                let x = choose|x: int| 0 <= x < rt.len() && rt[x] == g;
                assert(r[x + 1] == g);
            }
            if s.contains(g) {
                let i = choose|i: int| 0 <= i < s.len() && s[i] == g;
                if i == 0 {
                    assert(r[0] == g);
                } else {
                    assert(tail[i - 1] == g);
                    assert(rt.contains(g));
                    let x = choose|x: int| 0 <= x < rt.len() && rt[x] == g;
                    assert(r[x + 1] == g);
                }
            }
        }
        if fields_sorted(s) && (forall|i: int| 0 <= i < s.len() ==> (#[trigger] s[i]).0 != f.0) {
            assert(fields_sorted(tail));
            assert(forall|i: int| 0 <= i < tail.len() ==> (#[trigger] tail[i]).0 != f.0);
            assert(fields_sorted(rt));
            assert(s[0].0 < f.0);
            assert forall|i: int, j: int| 0 <= i < j < r.len() implies r[i].0 < r[j].0 by {
                if i > 0 {
                    assert(r[i] == rt[i - 1] && r[j] == rt[j - 1]);
                } else {
                    assert(r[j] == rt[j - 1]);
                    assert(rt.contains(rt[j - 1]));
                    assert(tail.contains(rt[j - 1]) || rt[j - 1] == f);
                    if tail.contains(rt[j - 1]) {
                        let x = choose|x: int| 0 <= x < tail.len() && tail[x] == rt[j - 1];
                        assert(s[0].0 < s[x + 1].0);
                    }
                }
            }
        }
    }
}

/// Sorting keeps exactly the fields and, under distinct ids, yields a
/// strictly ascending sequence.
pub proof fn lemma_sort_fields(fs: Seq<FieldModel>)
    ensures
        sort_fields(fs).len() == fs.len(),
        forall|g: FieldModel| #[trigger] sort_fields(fs).contains(g) <==> fs.contains(g),
        ids_distinct(fs) ==> fields_sorted(sort_fields(fs)),
    decreases fs.len(),
{
    if fs.len() > 0 {
        let head = fs.drop_last();
        let f = fs.last();
        lemma_sort_fields(head);
        lemma_insert_field(sort_fields(head), f);
        let r = sort_fields(fs);
        assert forall|g: FieldModel| #[trigger] r.contains(g) <==> fs.contains(g) by {
            if r.contains(g) {
                if sort_fields(head).contains(g) {
                    assert(head.contains(g));
                    let i = choose|i: int| 0 <= i < head.len() && head[i] == g;
                    assert(fs[i] == g);
                } else {
                    assert(fs[fs.len() - 1] == g);
                }
            }
            if fs.contains(g) {
                let i = choose|i: int| 0 <= i < fs.len() && fs[i] == g;
                if i < fs.len() - 1 {
                    assert(head[i] == g);
                    assert(head.contains(g));
                } else {
                    assert(g == f);
                }
            }
        }
        if ids_distinct(fs) {
            assert(ids_distinct(head)) by {
                assert(forall|i: int| 0 <= i < head.len() ==> head[i] == fs[i]);
            }
            assert(forall|i: int|
                0 <= i < sort_fields(head).len() ==> (#[trigger] sort_fields(head)[i]).0
                    != f.0) by {
                assert forall|i: int|
                    0 <= i < sort_fields(head).len() implies (#[trigger] sort_fields(
                    head,
                )[i]).0 != f.0 by {
                    assert(sort_fields(head).contains(sort_fields(head)[i]));
                    assert(head.contains(sort_fields(head)[i]));
                    let x = choose|x: int|
                        0 <= x < head.len() && head[x] == sort_fields(head)[i];
                    assert(fs[x] == sort_fields(head)[i]);
                    assert(fs[x].0 != fs[fs.len() - 1].0);
                }
            }
        }
    }
}

/// `payload_of` over a prefix grows with the prefix.
pub proof fn lemma_payload_prefix(s: Seq<FieldModel>, k: int)
    requires
        0 <= k <= s.len(),
    ensures
        payload_of(s.subrange(0, k)).len() + payload_of(s.subrange(k, s.len() as int)).len()
            == payload_of(s).len(),
{
    lemma_payload_of_concat(s.subrange(0, k), s.subrange(k, s.len() as int));
    assert(s.subrange(0, k) + s.subrange(k, s.len() as int) =~= s);
}

/// The shape of `dir_of`: one entry per field, ids and kinds copied,
/// offsets the running payload lengths.
pub proof fn lemma_dir_of_index(s: Seq<FieldModel>, off: int)
    ensures
        dir_of(s, off).len() == s.len(),
        forall|k: int|
            0 <= k < s.len() ==> #[trigger] dir_of(s, off)[k] == (DirectoryEntry {
                id: s[k].0,
                type_code: s[k].1,
                offset: (off + payload_of(s.subrange(0, k)).len()) as u32,
            }),
    decreases s.len(),
{
    if s.len() > 0 {
        let tail = s.subrange(1, s.len() as int);
        lemma_dir_of_index(tail, off + s[0].2.len());
        assert forall|k: int|
            0 <= k < s.len() implies #[trigger] dir_of(s, off)[k] == (DirectoryEntry {
            id: s[k].0,
            type_code: s[k].1,
            offset: (off + payload_of(s.subrange(0, k)).len()) as u32,
        }) by {
            if k == 0 {
                assert(s.subrange(0, 0) =~= Seq::<FieldModel>::empty());
                assert(payload_of(Seq::<FieldModel>::empty()) =~= Seq::<u8>::empty());
            } else {
                assert(dir_of(s, off)[k] == dir_of(tail, off + s[0].2.len())[k - 1]);
                assert(tail[k - 1] == s[k]);
                assert(tail.subrange(0, k - 1) =~= s.subrange(1, k));
                assert(s.subrange(0, k) =~= seq![s[0]] + s.subrange(1, k));
                lemma_payload_of_concat(seq![s[0]], s.subrange(1, k));
                crate::writer::lemma_payload_of_one(s[0]);
            }
        }
    }
}

/// What `next_off` returns: the payload end, or the least entry offset
/// strictly beyond `off`.
pub proof fn lemma_next_off(d: Seq<DirectoryEntry>, off: int, plen: int)
    ensures
        next_off(d, off, plen) == plen || (next_off(d, off, plen) > off && exists|x: int|
            0 <= x < d.len() && (#[trigger] d[x]).offset == next_off(d, off, plen)),
        forall|x: int|
            0 <= x < d.len() && (#[trigger] d[x]).offset > off ==> next_off(d, off, plen)
                <= d[x].offset,
    decreases d.len(),
{
    if d.len() > 0 {
        let tail = d.subrange(1, d.len() as int);
        lemma_next_off(tail, off, plen);
        let r = next_off(d, off, plen);
        let rt = next_off(tail, off, plen);
        if d[0].offset > off && d[0].offset < rt {
            assert(r == d[0].offset);
            assert(exists|x: int| 0 <= x < d.len() && (#[trigger] d[x]).offset == r) by {
                assert(d[0].offset == r);
            }
        } else {
            assert(r == rt);
            if rt != plen {
                let x = choose|x: int| 0 <= x < tail.len() && (#[trigger] tail[x]).offset == rt;
                assert(d[x + 1].offset == rt);
                assert(exists|y: int| 0 <= y < d.len() && (#[trigger] d[y]).offset == r) by {
                    assert(d[x + 1].offset == r);
                }
            }
        }
        assert forall|x: int|
            0 <= x < d.len() && (#[trigger] d[x]).offset > off implies r <= d[x].offset by {
            if x > 0 {
                assert(tail[x - 1] == d[x]);
            }
        }
    }
}

/// A built record is well formed, and its directory is exactly the sorted
/// fields with packed offsets.
#[verifier::rlimit(100)]
#[verifier::spinoff_prover]
pub proof fn lemma_build_spec_wf(schema: SchemaId, fs: Seq<FieldModel>)
    requires
        ids_distinct(fs),
        forall|i: int| 0 <= i < fs.len() ==> field_encodes(#[trigger] fs[i]),
        payload_of(sort_fields(fs)).len() <= MAX_U32,
    ensures
        rec_wf(build_spec(schema, fs)),
        build_spec(schema, fs).directory.len() == fs.len(),
{
    let sorted = sort_fields(fs);
    let m = build_spec(schema, fs);
    let plen = payload_of(sorted).len() as int;
    lemma_sort_fields(fs);
    lemma_dir_of_index(sorted, 0);
    // Every sorted field still encodes a well-formed value.
    assert forall|k: int| 0 <= k < sorted.len() implies field_encodes(#[trigger] sorted[k]) by {
        assert(sorted.contains(sorted[k]));
        assert(fs.contains(sorted[k]));
        let x = choose|x: int| 0 <= x < fs.len() && fs[x] == sorted[k];
        assert(field_encodes(fs[x]));
    }
    // Offsets are the packed prefix sums, so they stay within the payload.
    assert forall|k: int|
        0 <= k < m.directory.len() implies (#[trigger] m.directory[k]).offset
            <= m.payload.len() by {
        lemma_payload_prefix(sorted, k);
    }
    // Directory ids ascend strictly.
    assert(dir_sorted(m.directory)) by {
        assert forall|i: int, j: int|
            0 <= i < j < m.directory.len() implies m.directory[i].id < m.directory[j].id by {
            assert(m.directory[i].id == sorted[i].0 && m.directory[j].id == sorted[j].0);
        }
    }
    // At every entry, a decode of the entry's kind consumes its span.
    assert forall|k: int|
        0 <= k < m.directory.len() implies match val_dec(
        (#[trigger] m.directory[k]).type_code,
        m.payload.skip(m.directory[k].offset as int),
    ) {
        Some(mc) => mc.1 == span_len(m, k),
        None => false,
    } by {
        let offk = payload_of(sorted.subrange(0, k)).len() as int;
        let v = choose|v: ValModel|
            val_wf(v) && v.type_code() == sorted[k].1 && val_enc(v) == sorted[k].2;
        lemma_payload_prefix(sorted, k);
        lemma_payload_of_concat(sorted.subrange(0, k), sorted.subrange(k, sorted.len() as int));
        assert(sorted.subrange(0, k) + sorted.subrange(k, sorted.len() as int) =~= sorted);
        assert(sorted.subrange(k, sorted.len() as int)[0] == sorted[k]);
        assert(payload_of(sorted.subrange(k, sorted.len() as int)) =~= sorted[k].2 + payload_of(
            sorted.subrange(k + 1, sorted.len() as int),
        )) by {
            assert(sorted.subrange(k, sorted.len() as int).subrange(
                1,
                sorted.len() - k,
            ) =~= sorted.subrange(k + 1, sorted.len() as int));
        }
        assert(m.payload.skip(offk) =~= val_enc(v) + payload_of(
            sorted.subrange(k + 1, sorted.len() as int),
        ));
        lemma_val_round(v, payload_of(sorted.subrange(k + 1, sorted.len() as int)));
        assert(val_dec(sorted[k].1, m.payload.skip(offk)) == Some(
            (v, val_enc(v).len() as int),
        ));
        // The span equals the encoding's length.
        if sorted[k].1 == TypeCode::Null {
            assert(val_enc(v).len() == 0);
            assert(span_len(m, k) == 0);
        } else {
            lemma_val_enc_nonempty(v);
            lemma_next_off(m.directory, offk, plen);
            let r = next_off(m.directory, offk, plen);
            // Lower bound: every offset beyond `offk` is at least the
            // encoding's end, and so is the payload end.
            assert forall|x: int|
                0 <= x < m.directory.len() && (#[trigger] m.directory[x]).offset > offk implies
                m.directory[x].offset >= offk + sorted[k].2.len() by {
                assert(sorted.subrange(0, sorted.len() as int) =~= sorted);
                lemma_payload_prefix_mono(sorted, x, sorted.len() as int);
                if x <= k {
                    lemma_payload_prefix_mono(sorted, x, k);
                } else {
                    lemma_payload_prefix_mono(sorted, k + 1, x);
                    assert(sorted.subrange(0, k + 1) =~= sorted.subrange(0, k) + seq![sorted[k]]);
                    lemma_payload_of_concat(sorted.subrange(0, k), seq![sorted[k]]);
                    crate::writer::lemma_payload_of_one(sorted[k]);
                }
            }
            assert(plen >= offk + sorted[k].2.len()) by {
                lemma_payload_prefix_mono(sorted, k + 1, sorted.len() as int);
                assert(sorted.subrange(0, k + 1) =~= sorted.subrange(0, k) + seq![sorted[k]]);
                lemma_payload_of_concat(sorted.subrange(0, k), seq![sorted[k]]);
                crate::writer::lemma_payload_of_one(sorted[k]);
                assert(sorted.subrange(0, sorted.len() as int) =~= sorted);
            }
            // Upper bound: the next entry's offset, or the payload end,
            // sits exactly at the encoding's end.
            if k + 1 < sorted.len() {
                assert(m.directory[k + 1].offset == offk + sorted[k].2.len()) by {
                    assert(sorted.subrange(0, k + 1) =~= sorted.subrange(0, k) + seq![
                        sorted[k],
                    ]);
                    lemma_payload_of_concat(sorted.subrange(0, k), seq![sorted[k]]);
                    crate::writer::lemma_payload_of_one(sorted[k]);
                }
                assert(r <= offk + sorted[k].2.len());
            } else {
                assert(plen == offk + sorted[k].2.len()) by {
                    assert(sorted.subrange(0, sorted.len() as int) =~= sorted);
                    assert(sorted.subrange(0, k + 1) =~= sorted.subrange(0, k) + seq![
                        sorted[k],
                    ]);
                    lemma_payload_of_concat(sorted.subrange(0, k), seq![sorted[k]]);
                    crate::writer::lemma_payload_of_one(sorted[k]);
                }
                assert(r <= plen);
            }
            assert(r == offk + sorted[k].2.len());
            assert(span_len(m, k) == sorted[k].2.len());
        }
    }
}

/// Prefix payload lengths are monotone.
pub proof fn lemma_payload_prefix_mono(s: Seq<FieldModel>, a: int, b: int)
    requires
        0 <= a <= b <= s.len(),
    ensures
        payload_of(s.subrange(0, a)).len() <= payload_of(s.subrange(0, b)).len(),
{
    lemma_payload_of_concat(s.subrange(0, a), s.subrange(a, b));
    assert(s.subrange(0, a) + s.subrange(a, b) =~= s.subrange(0, b));
}

/// Directory order (law): after a build from fields with distinct ids,
/// directory ids are strictly ascending.
pub proof fn lemma_build_directory_sorted(schema: SchemaId, fs: Seq<FieldModel>)
    requires
        ids_distinct(fs),
    ensures
        dir_sorted(build_spec(schema, fs).directory),
{
    let sorted = sort_fields(fs);
    lemma_sort_fields(fs);
    lemma_dir_of_index(sorted, 0);
    let d = build_spec(schema, fs).directory;
    assert forall|i: int, j: int| 0 <= i < j < d.len() implies d[i].id < d[j].id by {
        assert(d[i].id == sorted[i].0 && d[j].id == sorted[j].0);
    }
}

/// Last write wins (law): adding a field under an id that is already
/// pending replaces it, so two adds under one id leave one field holding
/// the second value; on a fresh writer the built directory has exactly
/// one entry.
pub proof fn lemma_last_write_wins(fs: Seq<FieldModel>, f1: FieldModel, f2: FieldModel)
    requires
        f1.0 == f2.0,
        ids_distinct(fs),
    ensures
        upsert(upsert(fs, f1), f2) == upsert(fs, f2),
        field_find(upsert(fs, f2), f2.0) == Some(f2),
        fs.len() == 0 ==> upsert(upsert(fs, f1), f2) == seq![f2],
{
    let u1 = upsert(fs, f1);
    if exists|i: int| 0 <= i < fs.len() && fs[i].0 == f1.0 {
        let k = choose|i: int| 0 <= i < fs.len() && fs[i].0 == f1.0;
        assert(u1 == fs.update(k, f1));
        assert(u1[k].0 == f2.0);
        assert(exists|i: int| 0 <= i < u1.len() && u1[i].0 == f2.0) by {
            assert(u1[k].0 == f2.0);
        }
        let k2 = choose|i: int| 0 <= i < u1.len() && u1[i].0 == f2.0;
        assert(k2 == k) by {
            if k2 != k {
                assert(u1[k2] == fs[k2]);
                assert(fs[k2].0 == fs[k].0);
                if k2 < k {
                    assert(fs[k2].0 != fs[k].0);
                } else {
                    assert(fs[k].0 != fs[k2].0);
                }
            }
        }
        assert(exists|i: int| 0 <= i < fs.len() && fs[i].0 == f2.0) by {
            assert(fs[k].0 == f2.0);
        }
        let k3 = choose|i: int| 0 <= i < fs.len() && fs[i].0 == f2.0;
        assert(k3 == k) by {
            if k3 != k {
                if k3 < k {
                    assert(fs[k3].0 != fs[k].0);
                } else {
                    assert(fs[k].0 != fs[k3].0);
                }
            }
        }
        assert(upsert(u1, f2) =~= upsert(fs, f2));
    } else {
        assert(u1 == fs.push(f1));
        assert(u1[fs.len() as int].0 == f2.0);
        assert(exists|i: int| 0 <= i < u1.len() && u1[i].0 == f2.0) by {
            assert(u1[fs.len() as int].0 == f2.0);
        }
        let k2 = choose|i: int| 0 <= i < u1.len() && u1[i].0 == f2.0;
        assert(k2 == fs.len()) by {
            if k2 < fs.len() {
                assert(fs[k2].0 == f1.0);
            }
        }
        assert(upsert(u1, f2) =~= upsert(fs, f2));
    }
    // The second value is the one found under the id.
    let u2 = upsert(fs, f2);
    if exists|i: int| 0 <= i < fs.len() && fs[i].0 == f2.0 {
        let k = choose|i: int| 0 <= i < fs.len() && fs[i].0 == f2.0;
        lemma_field_find_at(u2, f2.0, k);
    } else {
        lemma_field_find_at(u2, f2.0, fs.len() as int);
    }
    if fs.len() == 0 {
        assert(upsert(upsert(fs, f1), f2) =~= seq![f2]);
    }
}

/// What `field_find` finds is a field of the sequence carrying the id.
pub proof fn lemma_field_find(fs: Seq<FieldModel>, id: u16)
    ensures
        match field_find(fs, id) {
            Some(f) => f.0 == id && fs.contains(f),
            None => forall|i: int| 0 <= i < fs.len() ==> (#[trigger] fs[i]).0 != id,
        },
    decreases fs.len(),
{
    if fs.len() > 0 {
        let tail = fs.subrange(1, fs.len() as int);
        lemma_field_find(tail, id);
        assert(forall|i: int| 0 <= i < tail.len() ==> tail[i] == fs[i + 1]);
        match field_find(fs, id) {
            Some(f) => {
                if fs[0].0 == id {
                    assert(fs.contains(f)) by {
                        assert(fs[0] == f);
                    }
                } else {
                    let x = choose|x: int| 0 <= x < tail.len() && tail[x] == f;
                    assert(fs.contains(f)) by {
                        assert(fs[x + 1] == f);
                    }
                }
            },
            None => {
                assert forall|i: int| 0 <= i < fs.len() implies (#[trigger] fs[i]).0 != id by {
                    if i > 0 {
                        assert(fs[i] == tail[i - 1]);
                    }
                }
            },
        }
    }
}

/// Round trip through a build (law): after building fields with distinct
/// ids, writing the record, and reading it back, looking up an id finds
/// exactly the value that was added under it, and a missing id is absent.
#[verifier::rlimit(60)]
#[verifier::spinoff_prover]
pub proof fn lemma_build_then_get(schema: SchemaId, fs: Seq<FieldModel>, id: u16, v: ValModel)
    requires
        ids_distinct(fs),
        forall|i: int| 0 <= i < fs.len() ==> field_encodes(#[trigger] fs[i]),
        payload_of(sort_fields(fs)).len() <= MAX_U32,
        field_find(fs, id) == Some((id, v.type_code(), val_enc(v))),
        val_wf(v),
    ensures
        ({
            let m = build_spec(schema, fs);
            match dir_find(m.directory, id) {
                Some(e) => {
                    &&& e.type_code == v.type_code()
                    &&& e.offset <= m.payload.len()
                    &&& val_dec(e.type_code, m.payload.skip(e.offset as int)) == Some(
                        (v, val_enc(v).len() as int),
                    )
                },
                None => false,
            }
        }),
{
    let sorted = sort_fields(fs);
    let m = build_spec(schema, fs);
    let f: FieldModel = (id, v.type_code(), val_enc(v));
    lemma_sort_fields(fs);
    lemma_field_find(fs, id);
    assert(sorted.contains(f));
    let k = choose|k: int| 0 <= k < sorted.len() && sorted[k] == f;
    lemma_dir_of_index(sorted, 0);
    lemma_build_spec_wf(schema, fs);
    assert(m.directory[k].id == id && m.directory[k].type_code == v.type_code());
    lemma_dir_find(m.directory, id);
    assert(dir_find(m.directory, id) == Some(m.directory[k]));
    let offk = payload_of(sorted.subrange(0, k)).len() as int;
    lemma_payload_prefix(sorted, k);
    lemma_payload_of_concat(sorted.subrange(0, k), sorted.subrange(k, sorted.len() as int));
    assert(sorted.subrange(0, k) + sorted.subrange(k, sorted.len() as int) =~= sorted);
    assert(sorted.subrange(k, sorted.len() as int)[0] == sorted[k]);
    assert(payload_of(sorted.subrange(k, sorted.len() as int)) =~= val_enc(v) + payload_of(
        sorted.subrange(k + 1, sorted.len() as int),
    )) by {
        assert(sorted.subrange(k, sorted.len() as int).subrange(
            1,
            sorted.len() - k,
        ) =~= sorted.subrange(k + 1, sorted.len() as int));
    }
    assert(m.payload.skip(offk) =~= val_enc(v) + payload_of(
        sorted.subrange(k + 1, sorted.len() as int),
    ));
    lemma_val_round(v, payload_of(sorted.subrange(k + 1, sorted.len() as int)));
}

/// A field id that was never added is absent from the built directory.
pub proof fn lemma_build_then_absent(schema: SchemaId, fs: Seq<FieldModel>, id: u16)
    requires
        field_find(fs, id) is None,
    ensures
        dir_find(build_spec(schema, fs).directory, id) is None,
{
    let sorted = sort_fields(fs);
    let m = build_spec(schema, fs);
    lemma_sort_fields(fs);
    lemma_field_find(fs, id);
    lemma_dir_of_index(sorted, 0);
    lemma_dir_find(m.directory, id);
    match dir_find(m.directory, id) {
        Some(e) => {
            let k = choose|k: int| 0 <= k < m.directory.len() && m.directory[k] == e;
            assert(sorted[k].0 == id);
            assert(sorted.contains(sorted[k]));
            assert(fs.contains(sorted[k]));
            let x = choose|x: int| 0 <= x < fs.len() && fs[x] == sorted[k];
            assert(fs[x].0 != id);
            assert(false);
        },
        None => {},
    }
}

/// Where position `k` holds the only field carrying `id`, `field_find`
/// returns it.
pub proof fn lemma_field_find_at(fs: Seq<FieldModel>, id: u16, k: int)
    requires
        0 <= k < fs.len(),
        fs[k].0 == id,
        forall|i: int| 0 <= i < k ==> (#[trigger] fs[i]).0 != id,
    ensures
        field_find(fs, id) == Some(fs[k]),
    decreases k,
{
    if k > 0 {
        let tail = fs.subrange(1, fs.len() as int);
        lemma_field_find_at(tail, id, k - 1);
    }
}

} // verus!
