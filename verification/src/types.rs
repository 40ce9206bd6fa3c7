//! The data model: type codes, values, map keys, and the record container.

use vstd::prelude::*;
use bytes::Bytes;
use crate::bytesio::bytes_seq;
use crate::error::ImprintError;

verus! {

/// Wire tag identifying a value kind. Its byte assignment is fixed by
/// [`TypeCode::spec_byte`]; decoders reject any other byte.
#[derive(Clone, Copy, Debug, PartialEq, Eq, Structural)]
pub enum TypeCode {
    Null,
    Bool,
    Int32,
    Int64,
    Float32,
    Float64,
    Bytes,
    String,
    Array,
    Mapping,
    Row,
}

impl TypeCode {
    /// The stable single-byte wire assignment of this kind.
    pub open spec fn spec_byte(self) -> u8 {
        match self {
            TypeCode::Null => 0x00,
            TypeCode::Bool => 0x01,
            TypeCode::Int32 => 0x02,
            TypeCode::Int64 => 0x03,
            TypeCode::Float32 => 0x04,
            TypeCode::Float64 => 0x05,
            TypeCode::Bytes => 0x06,
            TypeCode::String => 0x07,
            TypeCode::Array => 0x08,
            TypeCode::Mapping => 0x09,
            TypeCode::Row => 0x0a,
        }
    }

    /// The kind a byte names, if any.
    pub open spec fn spec_from_byte(b: u8) -> Option<TypeCode> {
        if b == 0x00 {
            Some(TypeCode::Null)
        } else if b == 0x01 {
            Some(TypeCode::Bool)
        } else if b == 0x02 {
            Some(TypeCode::Int32)
        } else if b == 0x03 {
            Some(TypeCode::Int64)
        } else if b == 0x04 {
            Some(TypeCode::Float32)
        } else if b == 0x05 {
            Some(TypeCode::Float64)
        } else if b == 0x06 {
            Some(TypeCode::Bytes)
        } else if b == 0x07 {
            Some(TypeCode::String)
        } else if b == 0x08 {
            Some(TypeCode::Array)
        } else if b == 0x09 {
            Some(TypeCode::Mapping)
        } else if b == 0x0a {
            Some(TypeCode::Row)
        } else {
            None
        }
    }

    /// Emit the wire byte for this kind.
    pub fn byte(self) -> (b: u8)
        ensures
            b == self.spec_byte(),
            Self::spec_from_byte(b) == Some(self),
    {
        match self {
            TypeCode::Null => 0x00,
            TypeCode::Bool => 0x01,
            TypeCode::Int32 => 0x02,
            TypeCode::Int64 => 0x03,
            TypeCode::Float32 => 0x04,
            TypeCode::Float64 => 0x05,
            TypeCode::Bytes => 0x06,
            TypeCode::String => 0x07,
            TypeCode::Array => 0x08,
            TypeCode::Mapping => 0x09,
            TypeCode::Row => 0x0a,
        }
    }

    /// Map a wire byte back to a kind; any unassigned byte is an
    /// `InvalidTypeCode` error.
    pub fn from_byte(b: u8) -> (r: Result<TypeCode, ImprintError>)
        ensures
            match Self::spec_from_byte(b) {
                Some(t) => r matches Ok(t2) && t2 == t,
                None => r matches Err(e) && e matches ImprintError::InvalidTypeCode(b2) && b2
                    == b,
            },
    {
        if b == 0x00 {
            Ok(TypeCode::Null)
        } else if b == 0x01 {
            Ok(TypeCode::Bool)
        } else if b == 0x02 {
            Ok(TypeCode::Int32)
        } else if b == 0x03 {
            Ok(TypeCode::Int64)
        } else if b == 0x04 {
            Ok(TypeCode::Float32)
        } else if b == 0x05 {
            Ok(TypeCode::Float64)
        } else if b == 0x06 {
            Ok(TypeCode::Bytes)
        } else if b == 0x07 {
            Ok(TypeCode::String)
        } else if b == 0x08 {
            Ok(TypeCode::Array)
        } else if b == 0x09 {
            Ok(TypeCode::Mapping)
        } else if b == 0x0a {
            Ok(TypeCode::Row)
        } else {
            Err(ImprintError::InvalidTypeCode(b))
        }
    }
}

/// A key of a map value. Only these four kinds may key a map.
#[derive(Debug, PartialEq)]
pub enum MapKey {
    Int32(i32),
    Int64(i64),
    Bytes(Vec<u8>),
    String(String),
}

/// A typed field value.
///
/// `Float32` and `Float64` hold the IEEE-754 bit pattern of the number; the
/// codec moves the bits verbatim and never does float arithmetic. `Mapping` is an
/// association list in a deterministic write order; the codec neither depends
/// on nor enforces key uniqueness. `Row` is a nested, fully self-contained
/// record.
#[derive(Debug, PartialEq)]
pub enum Value {
    Null,
    Bool(bool),
    Int32(i32),
    Int64(i64),
    Float32(u32),
    Float64(u64),
    Bytes(Vec<u8>),
    String(String),
    Array(Vec<Value>),
    Mapping(Vec<(MapKey, Value)>),
    Row(Box<ImprintRecord>),
}

/// A (fieldspace, hash) pair identifying the schema a record claims to
/// conform to.
#[derive(Clone, Copy, Debug, PartialEq, Eq, Structural)]
pub struct SchemaId {
    pub fieldspace_id: u32,
    pub schema_hash: u32,
}

/// One byte of per-record boolean flags; all bits are currently zero on a
/// fresh build, and a pass-through preserves unknown bits.
#[derive(Clone, Copy, Debug, PartialEq, Eq, Structural)]
pub struct Flags(pub u8);

impl Flags {
    pub fn new(b: u8) -> (f: Flags)
        ensures
            f.0 == b,
    {
        Flags(b)
    }
}

/// The fixed 15-byte record header.
#[derive(Clone, Copy, Debug, PartialEq, Eq, Structural)]
pub struct Header {
    pub flags: Flags,
    pub schema_id: SchemaId,
    pub payload_size: u32,
}

/// One directory entry: field id, value kind, and the value's offset from
/// the start of the payload region.
#[derive(Clone, Copy, Debug, PartialEq, Eq, Structural)]
pub struct DirectoryEntry {
    pub id: u16,
    pub type_code: TypeCode,
    pub offset: u32,
}

/// A decoded record: header, directory sorted ascending by id, and the
/// payload region the directory's offsets point into.
#[derive(Debug, PartialEq)]
pub struct ImprintRecord {
    pub header: Header,
    pub directory: Vec<DirectoryEntry>,
    pub payload: Bytes,
}

/// Mathematical model of a [`MapKey`].
pub enum KeyModel {
    Int32(i32),
    Int64(i64),
    Bytes(Seq<u8>),
    String(Seq<char>),
}

/// Mathematical model of a [`Value`].
pub enum ValModel {
    Null,
    Bool(bool),
    Int32(i32),
    Int64(i64),
    Float32(u32),
    Float64(u64),
    Bytes(Seq<u8>),
    String(Seq<char>),
    Array(Seq<ValModel>),
    Mapping(Seq<(KeyModel, ValModel)>),
    Row(RecModel),
}

/// Mathematical model of an [`ImprintRecord`].
pub struct RecModel {
    pub header: Header,
    pub directory: Seq<DirectoryEntry>,
    pub payload: Seq<u8>,
}

pub open spec fn key_model(k: MapKey) -> KeyModel {
    match k {
        MapKey::Int32(i) => KeyModel::Int32(i),
        MapKey::Int64(i) => KeyModel::Int64(i),
        MapKey::Bytes(b) => KeyModel::Bytes(b@),
        MapKey::String(s) => KeyModel::String(s@),
    }
}

pub open spec fn rec_model(r: ImprintRecord) -> RecModel {
    RecModel { header: r.header, directory: r.directory@, payload: bytes_seq(r.payload) }
}

pub open spec fn val_model(v: Value) -> ValModel
    decreases v,
{
    match v {
        Value::Null => ValModel::Null,
        Value::Bool(b) => ValModel::Bool(b),
        Value::Int32(i) => ValModel::Int32(i),
        Value::Int64(i) => ValModel::Int64(i),
        Value::Float32(b) => ValModel::Float32(b),
        Value::Float64(b) => ValModel::Float64(b),
        Value::Bytes(b) => ValModel::Bytes(b@),
        Value::String(s) => ValModel::String(s@),
        Value::Array(es) => ValModel::Array(vals_model(es@)),
        Value::Mapping(ps) => ValModel::Mapping(pairs_model(ps@)),
        Value::Row(r) => ValModel::Row(rec_model(*r)),
    }
}

pub open spec fn vals_model(es: Seq<Value>) -> Seq<ValModel>
    decreases es,
{
    if es.len() == 0 {
        Seq::empty()
    } else {
        seq![val_model(es[0])] + vals_model(es.subrange(1, es.len() as int))
    }
}

pub open spec fn pairs_model(ps: Seq<(MapKey, Value)>) -> Seq<(KeyModel, ValModel)>
    decreases ps,
{
    if ps.len() == 0 {
        Seq::empty()
    } else {
        seq![(key_model(ps[0].0), val_model(ps[0].1))] + pairs_model(
            ps.subrange(1, ps.len() as int),
        )
    }
}

impl View for MapKey {
    type V = KeyModel;

    open spec fn view(&self) -> KeyModel {
        key_model(*self)
    }
}

impl View for Value {
    type V = ValModel;

    open spec fn view(&self) -> ValModel {
        val_model(*self)
    }
}

impl View for ImprintRecord {
    type V = RecModel;

    open spec fn view(&self) -> RecModel {
        rec_model(*self)
    }
}

impl KeyModel {
    /// The wire kind of this key.
    pub open spec fn type_code(self) -> TypeCode {
        match self {
            KeyModel::Int32(_) => TypeCode::Int32,
            KeyModel::Int64(_) => TypeCode::Int64,
            KeyModel::Bytes(_) => TypeCode::Bytes,
            KeyModel::String(_) => TypeCode::String,
        }
    }
}

impl ValModel {
    /// The wire kind of this value.
    pub open spec fn type_code(self) -> TypeCode {
        match self {
            ValModel::Null => TypeCode::Null,
            ValModel::Bool(_) => TypeCode::Bool,
            ValModel::Int32(_) => TypeCode::Int32,
            ValModel::Int64(_) => TypeCode::Int64,
            ValModel::Float32(_) => TypeCode::Float32,
            ValModel::Float64(_) => TypeCode::Float64,
            ValModel::Bytes(_) => TypeCode::Bytes,
            ValModel::String(_) => TypeCode::String,
            ValModel::Array(_) => TypeCode::Array,
            ValModel::Mapping(_) => TypeCode::Mapping,
            ValModel::Row(_) => TypeCode::Row,
        }
    }
}

impl MapKey {
    /// The wire kind of this key.
    pub fn type_code(&self) -> (t: TypeCode)
        ensures
            t == self@.type_code(),
    {
        match self {
            MapKey::Int32(_) => TypeCode::Int32,
            MapKey::Int64(_) => TypeCode::Int64,
            MapKey::Bytes(_) => TypeCode::Bytes,
            MapKey::String(_) => TypeCode::String,
        }
    }
}

impl Value {
    /// The wire kind of this value.
    pub fn type_code(&self) -> (t: TypeCode)
        ensures
            t == self@.type_code(),
    {
        match self {
            Value::Null => TypeCode::Null,
            Value::Bool(_) => TypeCode::Bool,
            Value::Int32(_) => TypeCode::Int32,
            Value::Int64(_) => TypeCode::Int64,
            Value::Float32(_) => TypeCode::Float32,
            Value::Float64(_) => TypeCode::Float64,
            Value::Bytes(_) => TypeCode::Bytes,
            Value::String(_) => TypeCode::String,
            Value::Array(_) => TypeCode::Array,
            Value::Mapping(_) => TypeCode::Mapping,
            Value::Row(_) => TypeCode::Row,
        }
    }
}

/// `vals_model` maps the sequence pointwise.
pub proof fn lemma_vals_model(es: Seq<Value>)
    ensures
        vals_model(es).len() == es.len(),
        forall|i: int| 0 <= i < es.len() ==> vals_model(es)[i] == val_model(es[i]),
    decreases es.len(),
{
    if es.len() > 0 {
        lemma_vals_model(es.subrange(1, es.len() as int));
    }
}

/// `pairs_model` maps the sequence pointwise.
pub proof fn lemma_pairs_model(ps: Seq<(MapKey, Value)>)
    ensures
        pairs_model(ps).len() == ps.len(),
        forall|i: int|
            0 <= i < ps.len() ==> pairs_model(ps)[i] == (key_model(ps[i].0), val_model(ps[i].1)),
    decreases ps.len(),
{
    if ps.len() > 0 {
        lemma_pairs_model(ps.subrange(1, ps.len() as int));
    }
}

} // verus!
