//! The write-side builder: accumulate (id, value) pairs, then emit a
//! record with a sorted directory and a compacted payload.

use vstd::prelude::*;
use crate::bytesio::bytes_from_vec;
use crate::codec::MAX_U32;
use crate::codec::val_enc;
use crate::codec::val_wf;
use crate::error::ImprintError;
use crate::serde::check_value;
use crate::serde::encode_value;
use crate::types::DirectoryEntry;
use crate::types::Flags;
use crate::types::Header;
use crate::types::ImprintRecord;
use crate::types::SchemaId;
use crate::types::TypeCode;
use crate::types::Value;

verus! {

/// One pending field: id, value kind, and the value's encoded bytes.
pub type FieldModel = (u16, TypeCode, Seq<u8>);

/// The model of a writer's pending fields, in insertion order.
pub open spec fn fields_model(fs: Seq<(u16, TypeCode, Vec<u8>)>) -> Seq<FieldModel> {
    Seq::new(fs.len(), |i: int| (fs[i].0, fs[i].1, fs[i].2@))
}

/// No two pending fields share an id.
pub open spec fn ids_distinct(fs: Seq<FieldModel>) -> bool {
    forall|i: int, j: int| 0 <= i < j < fs.len() ==> fs[i].0 != fs[j].0
}

/// Each pending field holds the encoding of some well-formed value of its
/// recorded kind; a `Null` field is therefore empty.
pub open spec fn field_encodes(f: FieldModel) -> bool {
    exists|m: crate::types::ValModel|
        val_wf(m) && m.type_code() == f.1 && val_enc(m) == f.2
}

/// Replace the field with `f`'s id, or append `f` where none carries it.
pub open spec fn upsert(fs: Seq<FieldModel>, f: FieldModel) -> Seq<FieldModel> {
    if exists|i: int| 0 <= i < fs.len() && fs[i].0 == f.0 {
        fs.update(choose|i: int| 0 <= i < fs.len() && fs[i].0 == f.0, f)
    } else {
        fs.push(f)
    }
}

/// Insert `f` into an id-sorted field sequence, before the first field
/// with a greater id.
pub open spec fn insert_field(fs: Seq<FieldModel>, f: FieldModel) -> Seq<FieldModel>
    decreases fs.len(),
{
    if fs.len() == 0 {
        seq![f]
    } else if f.0 < fs[0].0 {
        seq![f] + fs
    } else {
        seq![fs[0]] + insert_field(fs.subrange(1, fs.len() as int), f)
    }
}

/// Sort fields ascending by id (insertion sort).
pub open spec fn sort_fields(fs: Seq<FieldModel>) -> Seq<FieldModel>
    decreases fs.len(),
{
    if fs.len() == 0 {
        Seq::empty()
    } else {
        insert_field(sort_fields(fs.drop_last()), fs.last())
    }
}

/// The packed payload: the fields' bytes back to back, in the given order.
pub open spec fn payload_of(fs: Seq<FieldModel>) -> Seq<u8>
    decreases fs.len(),
{
    if fs.len() == 0 {
        Seq::empty()
    } else {
        fs[0].2 + payload_of(fs.subrange(1, fs.len() as int))
    }
}

/// The directory for fields laid out back to back from offset `off`.
pub open spec fn dir_of(fs: Seq<FieldModel>, off: int) -> Seq<DirectoryEntry>
    decreases fs.len(),
{
    if fs.len() == 0 {
        Seq::empty()
    } else {
        seq![DirectoryEntry { id: fs[0].0, type_code: fs[0].1, offset: off as u32 }] + dir_of(
            fs.subrange(1, fs.len() as int),
            off + fs[0].2.len(),
        )
    }
}

/// The record a build of these fields produces: directory sorted by id,
/// payload compacted in that order, flags zero.
pub open spec fn build_spec(schema: SchemaId, fs: Seq<FieldModel>) -> crate::types::RecModel {
    let sorted = sort_fields(fs);
    crate::types::RecModel {
        header: Header {
            flags: Flags(0),
            schema_id: schema,
            payload_size: payload_of(sorted).len() as u32,
        },
        directory: dir_of(sorted, 0),
        payload: payload_of(sorted),
    }
}

/// Payload concatenation splits over field concatenation.
pub proof fn lemma_payload_of_concat(a: Seq<FieldModel>, b: Seq<FieldModel>)
    ensures
        payload_of(a + b) == payload_of(a) + payload_of(b),
    decreases a.len(),
{
    if a.len() == 0 {
        assert(a + b =~= b);
        assert(payload_of(a) + payload_of(b) =~= payload_of(b));
    } else {
        assert((a + b).subrange(1, (a + b).len() as int) =~= a.subrange(1, a.len() as int) + b);
        lemma_payload_of_concat(a.subrange(1, a.len() as int), b);
        assert(payload_of(a + b) =~= payload_of(a) + payload_of(b));
    }
}

/// Directory construction splits over field concatenation.
pub proof fn lemma_dir_of_concat(a: Seq<FieldModel>, b: Seq<FieldModel>, off: int)
    ensures
        dir_of(a + b, off) == dir_of(a, off) + dir_of(b, off + payload_of(a).len()),
    decreases a.len(),
{
    if a.len() == 0 {
        assert(a + b =~= b);
        assert(dir_of(a, off) + dir_of(b, off) =~= dir_of(b, off));
    } else {
        assert((a + b).subrange(1, (a + b).len() as int) =~= a.subrange(1, a.len() as int) + b);
        lemma_dir_of_concat(a.subrange(1, a.len() as int), b, off + a[0].2.len());
        assert(payload_of(a) =~= a[0].2 + payload_of(a.subrange(1, a.len() as int)));
        assert(dir_of(a + b, off) =~= dir_of(a, off) + dir_of(b, off + payload_of(a).len()));
    }
}

/// `insert_field` places `f` exactly at the first position whose id
/// exceeds `f`'s.
pub proof fn lemma_insert_field_at(s: Seq<FieldModel>, f: FieldModel, pos: int)
    requires
        0 <= pos <= s.len(),
        forall|j: int| 0 <= j < pos ==> (#[trigger] s[j]).0 <= f.0,
        pos < s.len() ==> f.0 < s[pos].0,
    ensures
        insert_field(s, f) == s.subrange(0, pos) + seq![f] + s.subrange(pos, s.len() as int),
    decreases s.len(),
{
    if s.len() == 0 {
        assert(insert_field(s, f) =~= s.subrange(0, pos) + seq![f] + s.subrange(
            pos,
            s.len() as int,
        ));
    } else if pos == 0 {
        assert(insert_field(s, f) =~= s.subrange(0, 0) + seq![f] + s.subrange(0, s.len() as int));
    } else {
        let tail = s.subrange(1, s.len() as int);
        assert(s[0].0 <= f.0);
        lemma_insert_field_at(tail, f, pos - 1);
        assert(tail.subrange(0, pos - 1) =~= s.subrange(1, pos));
        assert(tail.subrange(pos - 1, tail.len() as int) =~= s.subrange(pos, s.len() as int));
        assert(insert_field(s, f) =~= s.subrange(0, pos) + seq![f] + s.subrange(
            pos,
            s.len() as int,
        ));
    }
}

/// The payload of a single field is its bytes.
pub proof fn lemma_payload_of_one(f: FieldModel)
    ensures
        payload_of(seq![f]) == f.2,
{
    assert(seq![f].subrange(1, 1) =~= Seq::<FieldModel>::empty());
    assert(payload_of(Seq::<FieldModel>::empty()) =~= Seq::<u8>::empty());
    assert(payload_of(seq![f]) =~= f.2);
}

/// The directory of a single field is its one entry.
pub proof fn lemma_dir_of_one(f: FieldModel, off: int)
    ensures
        dir_of(seq![f], off) == seq![
            DirectoryEntry { id: f.0, type_code: f.1, offset: off as u32 },
        ],
{
    assert(seq![f].subrange(1, 1) =~= Seq::<FieldModel>::empty());
    assert(dir_of(Seq::<FieldModel>::empty(), off + f.2.len()) =~= Seq::<DirectoryEntry>::empty());
    assert(dir_of(seq![f], off) =~= seq![
        DirectoryEntry { id: f.0, type_code: f.1, offset: off as u32 },
    ]);
}

/// The write-side builder. Fields accumulate in insertion order; a later
/// `add_field` with an id already present replaces that field in place.
pub struct ImprintWriter {
    schema_id: SchemaId,
    fields: Vec<(u16, TypeCode, Vec<u8>)>,
}

impl ImprintWriter {
    /// The writer's pending fields, in insertion order.
    pub closed spec fn fields_view(&self) -> Seq<FieldModel> {
        fields_model(self.fields@)
    }

    /// The schema the built record will carry.
    pub closed spec fn schema_view(&self) -> SchemaId {
        self.schema_id
    }

    /// The writer's invariant: distinct ids, each holding a value encoding.
    pub open spec fn wf(&self) -> bool {
        ids_distinct(self.fields_view()) && forall|i: int|
            0 <= i < self.fields_view().len() ==> field_encodes(#[trigger] self.fields_view()[i])
    }

    /// A fresh writer for the given schema, with no fields.
    pub fn new(schema_id: SchemaId) -> (r: Result<ImprintWriter, ImprintError>)
        ensures
            r matches Ok(w) && w.wf() && w.schema_view() == schema_id && w.fields_view().len()
                == 0,
    {
        let w = ImprintWriter { schema_id, fields: Vec::new() };
        proof {
            assert(w.fields_view() =~= Seq::<FieldModel>::empty());
        }
        Ok(w)
    }

    /// The schema this writer builds records for.
    pub fn schema_id(&self) -> (r: SchemaId)
        ensures
            r == self.schema_view(),
    {
        self.schema_id
    }

    /// Add a field. A well-formed value is encoded and recorded under `id`,
    /// replacing any earlier field with the same id (last write wins); an
    /// ill-formed value is rejected and the writer is unchanged.
    #[verifier::loop_isolation(false)]
    pub fn add_field(&mut self, id: u16, value: Value) -> (r: Result<(), ImprintError>)
        requires
            old(self).wf(),
        ensures
            final(self).wf(),
            final(self).schema_view() == old(self).schema_view(),
            r is Ok <==> val_wf(value@),
            r is Ok ==> final(self).fields_view() == upsert(
                old(self).fields_view(),
                (id, value@.type_code(), val_enc(value@)),
            ),
            r is Err ==> *final(self) == *old(self),
            r matches Err(e) ==> (e matches ImprintError::SchemaError(m) || e
                matches ImprintError::SizeOverflow),
    {
        match check_value(&value) {
            Err(e) => Err(e),
            Ok(()) => {
                let tc = value.type_code();
                let mut enc: Vec<u8> = Vec::new();
                encode_value(&value, &mut enc);
                let ghost f: FieldModel = (id, value@.type_code(), val_enc(value@));
                let ghost fs0 = old(self).fields_view();
                let mut i: usize = 0;
                while i < self.fields.len()
                    invariant
                        *self == *old(self),
                        i <= self.fields@.len(),
                        forall|j: int| 0 <= j < i ==> (#[trigger] fs0[j]).0 != id,
                    decreases self.fields@.len() - i,
                {
                    if self.fields[i].0 == id {
                        let ghost iw = i as int;
                        self.fields.remove(i);
                        self.fields.insert(i, (id, tc, enc));
                        proof {
                            assert(self.fields@ =~= old(self).fields@.update(
                                iw,
                                (id, tc, enc),
                            ));
                            assert(self.fields_view() =~= fs0.update(iw, f));
                            assert(exists|j: int| 0 <= j < fs0.len() && fs0[j].0 == f.0) by {
                                assert(fs0[iw].0 == f.0);
                            }
                            let k = choose|j: int| 0 <= j < fs0.len() && fs0[j].0 == f.0;
                            assert(k == iw) by {
                                if k < iw {
                                    assert(fs0[k].0 != fs0[iw].0);
                                }
                                if iw < k {
                                    assert(fs0[iw].0 != fs0[k].0);
                                }
                            }
                            assert(self.fields_view() =~= upsert(fs0, f));
                            assert(field_encodes(f)) by {
                                assert(val_wf(value@) && value@.type_code() == f.1 && val_enc(
                                    value@,
                                ) == f.2);
                            }
                            assert(final(self).wf());
                        }
                        return Ok(());
                    }
                    i = i + 1;
                }
                self.fields.push((id, tc, enc));
                proof {
                    assert(self.fields_view() =~= fs0.push(f));
                    assert(forall|j: int| 0 <= j < fs0.len() ==> (#[trigger] fs0[j]).0 != id);
                    assert(self.fields_view() =~= upsert(fs0, f));
                    assert(field_encodes(f)) by {
                        assert(val_wf(value@) && value@.type_code() == f.1 && val_enc(value@)
                            == f.2);
                    }
                    assert(final(self).wf());
                }
                Ok(())
            },
        }
    }

    /// Consume the writer and emit the record: directory sorted ascending
    /// by id, payload compacted in that order, flags zero. Fails with
    /// `SizeOverflow` exactly when the packed payload would not fit the
    /// wire format's `u32`.
    #[verifier::loop_isolation(false)]
    #[verifier::rlimit(60)]
    pub fn build(self) -> (r: Result<ImprintRecord, ImprintError>)
        requires
            self.wf(),
        ensures
            r is Ok <==> payload_of(sort_fields(self.fields_view())).len() <= MAX_U32,
            r matches Ok(rec) ==> rec@ == build_spec(self.schema_view(), self.fields_view()),
            r matches Err(e) ==> e matches ImprintError::SizeOverflow,
    {
        let ghost fs0 = self.fields_view();
        // Sort the fields ascending by id, mirroring `sort_fields`.
        let mut sorted: Vec<(u16, TypeCode, Vec<u8>)> = Vec::new();
        let mut i: usize = 0;
        proof {
            assert(fields_model(sorted@) =~= Seq::<FieldModel>::empty());
            assert(fs0.subrange(0, 0) =~= Seq::<FieldModel>::empty());
        }
        while i < self.fields.len()
            invariant
                i <= self.fields@.len(),
                fields_model(sorted@) == sort_fields(fs0.subrange(0, i as int)),
            decreases self.fields@.len() - i,
        {
            let f = (self.fields[i].0, self.fields[i].1, clone_bytes(&self.fields[i].2));
            let ghost fm: FieldModel = fs0[i as int];
            let mut pos: usize = 0;
            while pos < sorted.len() && sorted[pos].0 <= f.0
                invariant
                    pos <= sorted@.len(),
                    forall|j: int| 0 <= j < pos ==> (#[trigger] fields_model(sorted@)[j]).0 <= f.0,
                decreases sorted@.len() - pos,
            {
                pos = pos + 1;
            }
            let ghost before = fields_model(sorted@);
            sorted.insert(pos, f);
            proof {
                assert(fm == (f.0, f.1, f.2@));
                lemma_insert_field_at(before, fm, pos as int);
                assert(fields_model(sorted@) =~= before.subrange(0, pos as int) + seq![fm]
                    + before.subrange(pos as int, before.len() as int));
                assert(fs0.subrange(0, i + 1).drop_last() =~= fs0.subrange(0, i as int));
                assert(fs0.subrange(0, i + 1).last() == fm);
                assert(fields_model(sorted@) =~= sort_fields(fs0.subrange(0, i + 1)));
            }
            i = i + 1;
        }
        proof {
            assert(fs0.subrange(0, fs0.len() as int) =~= fs0);
        }
        let ghost sm = sort_fields(fs0);
        // Emit the payload and directory in sorted order.
        let mut payload: Vec<u8> = Vec::new();
        let mut dir: Vec<DirectoryEntry> = Vec::new();
        let mut k: usize = 0;
        proof {
            assert(payload_of(sm.subrange(0, 0)) =~= Seq::<u8>::empty());
            assert(dir_of(sm.subrange(0, 0), 0) =~= Seq::<DirectoryEntry>::empty());
        }
        while k < sorted.len()
            invariant
                k <= sorted@.len(),
                fields_model(sorted@) == sm,
                payload@ == payload_of(sm.subrange(0, k as int)),
                dir@ == dir_of(sm.subrange(0, k as int), 0),
                payload@.len() <= MAX_U32,
            decreases sorted@.len() - k,
        {
            let off = payload.len();
            crate::serde::push_all(&mut payload, &sorted[k].2);
            if payload.len() as u64 > MAX_U32 as u64 {
                proof {
                    lemma_payload_of_concat(sm.subrange(0, k + 1), sm.subrange(
                        k + 1,
                        sm.len() as int,
                    ));
                    assert(sm.subrange(0, k + 1) + sm.subrange(k + 1, sm.len() as int) =~= sm);
                    lemma_payload_of_concat(sm.subrange(0, k as int), seq![sm[k as int]]);
                    assert(sm.subrange(0, k as int) + seq![sm[k as int]] =~= sm.subrange(
                        0,
                        k + 1,
                    ));
                    lemma_payload_of_one(sm[k as int]);
                    assert(payload_of(sm).len() > MAX_U32);
                }
                return Err(ImprintError::SizeOverflow);
            }
            dir.push(
                DirectoryEntry {
                    id: sorted[k].0,
                    type_code: sorted[k].1,
                    offset: off as u32,
                },
            );
            proof {
                lemma_payload_of_concat(sm.subrange(0, k as int), seq![sm[k as int]]);
                lemma_dir_of_concat(sm.subrange(0, k as int), seq![sm[k as int]], 0);
                assert(sm.subrange(0, k as int) + seq![sm[k as int]] =~= sm.subrange(0, k + 1));
                lemma_payload_of_one(sm[k as int]);
                lemma_dir_of_one(sm[k as int], off as int);
                assert(payload@ =~= payload_of(sm.subrange(0, k + 1)));
                assert(dir@ =~= dir_of(sm.subrange(0, k + 1), 0));
            }
            k = k + 1;
        }
        proof {
            assert(sm.subrange(0, sm.len() as int) =~= sm);
        }
        let psize = payload.len() as u32;
        let header = Header { flags: Flags(0), schema_id: self.schema_id, payload_size: psize };
        let rec = ImprintRecord { header, directory: dir, payload: bytes_from_vec(payload) };
        Ok(rec)
    }
}

/// Copy a byte vector.
fn clone_bytes(b: &Vec<u8>) -> (r: Vec<u8>)
    ensures
        r@ == b@,
{
    let mut out: Vec<u8> = Vec::new();
    let mut i: usize = 0;
    while i < b.len()
        invariant
            i <= b@.len(),
            out@ == b@.subrange(0, i as int),
        decreases b@.len() - i,
    {
        out.push(b[i]);
        assert(out@ =~= b@.subrange(0, i + 1));
        i = i + 1;
    }
    assert(out@ =~= b@);
    out
}

} // verus!
