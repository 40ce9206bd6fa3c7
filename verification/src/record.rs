//! The record container: by-id lookup over the sorted directory, and the
//! well-formedness invariant that build, projection and merge maintain.

use vstd::prelude::*;
use crate::bytesio::bytes_len;
use crate::codec::val_dec;
use crate::error::ImprintError;
use crate::serde::read_value_at;
use crate::types::DirectoryEntry;
use crate::types::ImprintRecord;
use crate::types::RecModel;
use crate::types::SchemaId;
use crate::types::TypeCode;
use crate::types::Value;

verus! {

/// Directory ids are strictly ascending.
pub open spec fn dir_sorted(d: Seq<DirectoryEntry>) -> bool {
    forall|i: int, j: int| 0 <= i < j < d.len() ==> d[i].id < d[j].id
}

/// The first directory entry carrying `id`, if any.
pub open spec fn dir_find(d: Seq<DirectoryEntry>, id: u16) -> Option<DirectoryEntry>
    decreases d.len(),
{
    if d.len() == 0 {
        None
    } else if d[0].id == id {
        Some(d[0])
    } else {
        dir_find(d.subrange(1, d.len() as int), id)
    }
}

/// `dir_find` finds an entry exactly when one carries the id; in a sorted
/// directory, any entry carrying the id is the one found.
pub proof fn lemma_dir_find(d: Seq<DirectoryEntry>, id: u16)
    ensures
        match dir_find(d, id) {
            Some(e) => e.id == id && exists|i: int| 0 <= i < d.len() && d[i] == e,
            None => forall|i: int| 0 <= i < d.len() ==> d[i].id != id,
        },
        dir_sorted(d) ==> forall|i: int|
            0 <= i < d.len() && (#[trigger] d[i]).id == id ==> dir_find(d, id) == Some(d[i]),
    decreases d.len(),
{
    if d.len() > 0 {
        let tail = d.subrange(1, d.len() as int);
        lemma_dir_find(tail, id);
        assert(forall|i: int| 0 <= i < tail.len() ==> tail[i] == d[i + 1]);
        match dir_find(d, id) {
            Some(e) => {
                if d[0].id == id {
                    assert(d[0] == e);
                    assert(exists|i: int| 0 <= i < d.len() && d[i] == e) by {
                        assert(d[0] == e);
                    }
                } else {
                    let i = choose|i: int| 0 <= i < tail.len() && tail[i] == e;
                    assert(d[i + 1] == e);
                    assert(exists|j: int| 0 <= j < d.len() && d[j] == e) by {
                        assert(d[i + 1] == e);
                    }
                }
            },
            None => {
                assert forall|i: int| 0 <= i < d.len() implies (#[trigger] d[i]).id != id by {
                    if i > 0 {
                        assert(d[i] == tail[i - 1]);
                    }
                }
            },
        }
        if dir_sorted(d) {
            assert forall|i: int|
                0 <= i < d.len() && (#[trigger] d[i]).id == id implies dir_find(d, id) == Some(
                d[i],
            ) by {
                if d[0].id == id {
                    assert(i == 0);
                } else {
                    assert(i > 0);
                    assert(dir_sorted(tail));
                    assert(tail[i - 1] == d[i]);
                    assert(tail[i - 1].id == id);
                    assert(dir_find(tail, id) == Some(tail[i - 1]));
                }
            }
        }
    }
}

/// The smallest directory offset strictly greater than `off`, or the
/// payload length where none is: the end of the byte span that starts at
/// `off`, in payload order.
pub open spec fn next_off(d: Seq<DirectoryEntry>, off: int, plen: int) -> int
    decreases d.len(),
{
    if d.len() == 0 {
        plen
    } else {
        let rest = next_off(d.subrange(1, d.len() as int), off, plen);
        if d[0].offset > off && d[0].offset < rest {
            d[0].offset as int
        } else {
            rest
        }
    }
}

/// The byte span of entry `i`: empty for `Null`, otherwise from its offset
/// to the next entry in payload order or the payload end.
pub open spec fn span_len(m: RecModel, i: int) -> int {
    if m.directory[i].type_code == TypeCode::Null {
        0
    } else {
        next_off(m.directory, m.directory[i].offset as int, m.payload.len() as int)
            - m.directory[i].offset
    }
}

/// A well-formed record: directory sorted strictly by id, header agreeing
/// with the payload, every offset inside the payload, and at every entry a
/// decode of the entry's kind that consumes exactly the entry's span.
pub open spec fn rec_wf(m: RecModel) -> bool {
    &&& dir_sorted(m.directory)
    &&& m.header.payload_size == m.payload.len()
    &&& forall|i: int|
        0 <= i < m.directory.len() ==> (#[trigger] m.directory[i]).offset <= m.payload.len()
    &&& forall|i: int|
        0 <= i < m.directory.len() ==> match val_dec(
            (#[trigger] m.directory[i]).type_code,
            m.payload.skip(m.directory[i].offset as int),
        ) {
            Some(mc) => mc.1 == span_len(m, i),
            None => false,
        }
}

/// Binary search over the directory. On a sorted directory it returns
/// exactly what [`dir_find`] names.
#[verifier::loop_isolation(false)]
fn dir_lookup(dir: &Vec<DirectoryEntry>, id: u16) -> (r: Option<DirectoryEntry>)
    ensures
        dir_sorted(dir@) ==> r == dir_find(dir@, id),
        r matches Some(e) ==> exists|i: int| 0 <= i < dir@.len() && dir@[i] == e && e.id == id,
{
    proof {
        lemma_dir_find(dir@, id);
    }
    let mut lo: usize = 0;
    let mut hi: usize = dir.len();
    while lo < hi
        invariant
            lo <= hi <= dir@.len(),
            dir_sorted(dir@) ==> forall|i: int| 0 <= i < lo ==> (#[trigger] dir@[i]).id < id,
            dir_sorted(dir@) ==> forall|i: int|
                hi <= i < dir@.len() ==> (#[trigger] dir@[i]).id > id,
        decreases hi - lo,
    {
        let mid = lo + (hi - lo) / 2;
        let e = dir[mid];
        if e.id == id {
            proof {
                assert(dir@[mid as int] == e);
                if dir_sorted(dir@) {
                    assert((dir@[mid as int]).id == id);
                    assert(dir_find(dir@, id) == Some(dir@[mid as int]));
                }
            }
            return Some(e);
        } else if e.id < id {
            lo = mid + 1;
        } else {
            hi = mid;
        }
    }
    proof {
        if dir_sorted(dir@) {
            assert(forall|i: int| 0 <= i < dir@.len() ==> (#[trigger] dir@[i]).id != id);
        }
    }
    None
}

impl ImprintRecord {
    /// The schema this record claims to conform to.
    pub fn schema_id(&self) -> (r: SchemaId)
        ensures
            r == self.header.schema_id,
    {
        self.header.schema_id
    }

    /// The field ids of this record, in directory order.
    pub fn ids(&self) -> (r: Vec<u16>)
        ensures
            r@.len() == self.directory@.len(),
            forall|i: int| 0 <= i < r@.len() ==> r@[i] == (#[trigger] self.directory@[i]).id,
    {
        let mut out: Vec<u16> = Vec::new();
        let mut i: usize = 0;
        while i < self.directory.len()
            invariant
                i <= self.directory@.len(),
                out@.len() == i,
                forall|j: int| 0 <= j < i ==> out@[j] == (#[trigger] self.directory@[j]).id,
            decreases self.directory@.len() - i,
        {
            out.push(self.directory[i].id);
            i = i + 1;
        }
        out
    }

    /// Look up a field by id: binary search over the sorted directory, then
    /// a decode of that entry's bytes. A missing id is `Ok(None)`, not an
    /// error; a directory entry whose bytes do not decode is an error.
    pub fn get_value(&self, id: u16) -> (r: Result<Option<Value>, ImprintError>)
        ensures
            dir_sorted(self@.directory) ==> match dir_find(self@.directory, id) {
                None => r matches Ok(o) && o is None,
                Some(e) => {
                    if e.offset > self@.payload.len() {
                        r is Err
                    } else {
                        match val_dec(e.type_code, self@.payload.skip(e.offset as int)) {
                            Some(mc) => r matches Ok(o) && o matches Some(v) && v@ == mc.0,
                            None => r is Err,
                        }
                    }
                },
            },
    {
        match dir_lookup(&self.directory, id) {
            None => Ok(None),
            Some(e) => {
                let plen = bytes_len(&self.payload);
                let off = e.offset as usize;
                if off > plen {
                    return Err(
                        ImprintError::BufferUnderflow { needed: off, available: plen },
                    );
                }
                match read_value_at(&self.payload, off, e.type_code) {
                    Err(err) => Err(err),
                    Ok((v, _n)) => Ok(Some(v)),
                }
            },
        }
    }
}

} // verus!
