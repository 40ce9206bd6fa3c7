//! The structural operators: projection and merge. Both copy payload byte
//! spans verbatim, using the directory and the next offset in payload
//! order to bound each span; neither decodes a value.

use vstd::prelude::*;
use crate::bytesio::bytes_at;
use crate::bytesio::bytes_from_vec;
use crate::bytesio::bytes_len;
use crate::codec::MAX_U32;
use crate::error::ImprintError;
use crate::record::next_off;
use crate::record::rec_wf;
use crate::types::DirectoryEntry;
use crate::types::Header;
use crate::types::ImprintRecord;
use crate::types::RecModel;
use crate::types::TypeCode;

verus! {

/// Whether the requested id list holds `id`.
pub open spec fn req_contains(req: Seq<u16>, id: u16) -> bool {
    exists|i: int| 0 <= i < req.len() && req[i] == id
}

/// The directory entries whose ids are requested, in directory order.
pub open spec fn sel_entries(d: Seq<DirectoryEntry>, req: Seq<u16>) -> Seq<DirectoryEntry>
    decreases d.len(),
{
    if d.len() == 0 {
        Seq::empty()
    } else {
        (if req_contains(req, d[0].id) {
            seq![d[0]]
        } else {
            Seq::empty()
        }) + sel_entries(d.subrange(1, d.len() as int), req)
    }
}

/// The payload byte span of entry `e` in record `m`: empty for `Null`,
/// otherwise from its offset to the next offset in payload order.
pub open spec fn span_of(m: RecModel, e: DirectoryEntry) -> Seq<u8> {
    if e.type_code == TypeCode::Null {
        Seq::empty()
    } else {
        m.payload.subrange(
            e.offset as int,
            next_off(m.directory, e.offset as int, m.payload.len() as int),
        )
    }
}

/// The spans of the given entries, back to back.
pub open spec fn spans_payload(m: RecModel, es: Seq<DirectoryEntry>) -> Seq<u8>
    decreases es.len(),
{
    if es.len() == 0 {
        Seq::empty()
    } else {
        span_of(m, es[0]) + spans_payload(m, es.subrange(1, es.len() as int))
    }
}

/// The directory for the given entries laid out back to back from `off`.
pub open spec fn spans_dir(m: RecModel, es: Seq<DirectoryEntry>, off: int) -> Seq<DirectoryEntry>
    decreases es.len(),
{
    if es.len() == 0 {
        Seq::empty()
    } else {
        seq![
            DirectoryEntry { id: es[0].id, type_code: es[0].type_code, offset: off as u32 },
        ] + spans_dir(m, es.subrange(1, es.len() as int), off + span_of(m, es[0]).len())
    }
}

/// The record a projection produces: the requested entries of `m` with
/// their spans packed back to back; the header keeps `m`'s schema id and
/// flags.
pub open spec fn project_spec(m: RecModel, req: Seq<u16>) -> RecModel {
    let es = sel_entries(m.directory, req);
    RecModel {
        header: Header {
            flags: m.header.flags,
            schema_id: m.header.schema_id,
            payload_size: spans_payload(m, es).len() as u32,
        },
        directory: spans_dir(m, es, 0),
        payload: spans_payload(m, es),
    }
}

/// The merged entry list: every id of either record in ascending order,
/// each tagged `true` where the receiver (`a`) supplies the value.
pub open spec fn merged_entries(a: Seq<DirectoryEntry>, b: Seq<DirectoryEntry>) -> Seq<
    (DirectoryEntry, bool),
>
    decreases a.len() + b.len(),
{
    if a.len() == 0 && b.len() == 0 {
        Seq::empty()
    } else if a.len() == 0 {
        seq![(b[0], false)] + merged_entries(a, b.subrange(1, b.len() as int))
    } else if b.len() == 0 {
        seq![(a[0], true)] + merged_entries(a.subrange(1, a.len() as int), b)
    } else if a[0].id < b[0].id {
        seq![(a[0], true)] + merged_entries(a.subrange(1, a.len() as int), b)
    } else if a[0].id > b[0].id {
        seq![(b[0], false)] + merged_entries(a, b.subrange(1, b.len() as int))
    } else {
        seq![(a[0], true)] + merged_entries(
            a.subrange(1, a.len() as int),
            b.subrange(1, b.len() as int),
        )
    }
}

/// The merged payload: each tagged entry's span, drawn from its source
/// record, back to back.
pub open spec fn merge_payload(ma: RecModel, mb: RecModel, es: Seq<(DirectoryEntry, bool)>) -> Seq<
    u8,
>
    decreases es.len(),
{
    if es.len() == 0 {
        Seq::empty()
    } else {
        span_of(
            if es[0].1 {
                ma
            } else {
                mb
            },
            es[0].0,
        ) + merge_payload(ma, mb, es.subrange(1, es.len() as int))
    }
}

/// The merged directory, offsets packed back to back from `off`.
pub open spec fn merge_dir(
    ma: RecModel,
    mb: RecModel,
    es: Seq<(DirectoryEntry, bool)>,
    off: int,
) -> Seq<DirectoryEntry>
    decreases es.len(),
{
    if es.len() == 0 {
        Seq::empty()
    } else {
        seq![
            DirectoryEntry { id: es[0].0.id, type_code: es[0].0.type_code, offset: off as u32 },
        ] + merge_dir(
            ma,
            mb,
            es.subrange(1, es.len() as int),
            off + span_of(
                if es[0].1 {
                    ma
                } else {
                    mb
                },
                es[0].0,
            ).len(),
        )
    }
}

/// The record a merge produces: the field-id union, the receiver winning
/// conflicts, under the receiver's header.
pub open spec fn merge_spec(ma: RecModel, mb: RecModel) -> RecModel {
    let es = merged_entries(ma.directory, mb.directory);
    RecModel {
        header: Header {
            flags: ma.header.flags,
            schema_id: ma.header.schema_id,
            payload_size: merge_payload(ma, mb, es).len() as u32,
        },
        directory: merge_dir(ma, mb, es, 0),
        payload: merge_payload(ma, mb, es),
    }
}

/// Selection splits over concatenation.
pub proof fn lemma_sel_concat(a: Seq<DirectoryEntry>, b: Seq<DirectoryEntry>, req: Seq<u16>)
    ensures
        sel_entries(a + b, req) == sel_entries(a, req) + sel_entries(b, req),
    decreases a.len(),
{
    if a.len() == 0 {
        assert(a + b =~= b);
        assert(sel_entries(a, req) + sel_entries(b, req) =~= sel_entries(b, req));
    } else {
        assert((a + b).subrange(1, (a + b).len() as int) =~= a.subrange(1, a.len() as int) + b);
        lemma_sel_concat(a.subrange(1, a.len() as int), b, req);
        assert(sel_entries(a + b, req) =~= sel_entries(a, req) + sel_entries(b, req));
    }
}

/// Span payloads split over concatenation.
pub proof fn lemma_spans_payload_concat(
    m: RecModel,
    a: Seq<DirectoryEntry>,
    b: Seq<DirectoryEntry>,
)
    ensures
        spans_payload(m, a + b) == spans_payload(m, a) + spans_payload(m, b),
    decreases a.len(),
{
    if a.len() == 0 {
        assert(a + b =~= b);
        assert(spans_payload(m, a) + spans_payload(m, b) =~= spans_payload(m, b));
    } else {
        assert((a + b).subrange(1, (a + b).len() as int) =~= a.subrange(1, a.len() as int) + b);
        lemma_spans_payload_concat(m, a.subrange(1, a.len() as int), b);
        assert(spans_payload(m, a + b) =~= spans_payload(m, a) + spans_payload(m, b));
    }
}

/// Span directories split over concatenation.
pub proof fn lemma_spans_dir_concat(
    m: RecModel,
    a: Seq<DirectoryEntry>,
    b: Seq<DirectoryEntry>,
    off: int,
)
    ensures
        spans_dir(m, a + b, off) == spans_dir(m, a, off) + spans_dir(
            m,
            b,
            off + spans_payload(m, a).len(),
        ),
    decreases a.len(),
{
    if a.len() == 0 {
        assert(a + b =~= b);
        assert(spans_dir(m, a, off) + spans_dir(m, b, off) =~= spans_dir(m, b, off));
    } else {
        assert((a + b).subrange(1, (a + b).len() as int) =~= a.subrange(1, a.len() as int) + b);
        lemma_spans_dir_concat(m, a.subrange(1, a.len() as int), b, off + span_of(m, a[0]).len());
        assert(spans_payload(m, a) =~= span_of(m, a[0]) + spans_payload(
            m,
            a.subrange(1, a.len() as int),
        ));
        assert(spans_dir(m, a + b, off) =~= spans_dir(m, a, off) + spans_dir(
            m,
            b,
            off + spans_payload(m, a).len(),
        ));
    }
}

/// One selected entry.
pub proof fn lemma_spans_one(m: RecModel, e: DirectoryEntry, off: int)
    ensures
        spans_payload(m, seq![e]) == span_of(m, e),
        spans_dir(m, seq![e], off) == seq![
            DirectoryEntry { id: e.id, type_code: e.type_code, offset: off as u32 },
        ],
{
    assert(seq![e].subrange(1, 1) =~= Seq::<DirectoryEntry>::empty());
    assert(spans_payload(m, Seq::<DirectoryEntry>::empty()) =~= Seq::<u8>::empty());
    assert(spans_payload(m, seq![e]) =~= span_of(m, e));
    assert(spans_dir(m, Seq::<DirectoryEntry>::empty(), off + span_of(m, e).len()) =~= Seq::<
        DirectoryEntry,
    >::empty());
    assert(spans_dir(m, seq![e], off) =~= seq![
        DirectoryEntry { id: e.id, type_code: e.type_code, offset: off as u32 },
    ]);
}

/// Whether the id slice holds `id`.
fn ids_contain(ids: &[u16], id: u16) -> (r: bool)
    ensures
        r == req_contains(ids@, id),
{
    let mut i: usize = 0;
    while i < ids.len()
        invariant
            i <= ids@.len(),
            forall|j: int| 0 <= j < i ==> ids@[j] != id,
        decreases ids@.len() - i,
    {
        if ids[i] == id {
            assert(req_contains(ids@, id)) by {
                assert(ids@[i as int] == id);
            }
            return true;
        }
        i = i + 1;
    }
    false
}

/// The smallest directory offset strictly greater than `off`, or `plen`.
#[verifier::loop_isolation(false)]
fn next_offset(dir: &Vec<DirectoryEntry>, off: usize, plen: usize) -> (r: usize)
    requires
        off <= plen,
    ensures
        r == next_off(dir@, off as int, plen as int),
        off <= r <= plen,
{
    let mut acc: usize = plen;
    let mut j: usize = dir.len();
    proof {
        assert(dir@.skip(dir@.len() as int) =~= Seq::<DirectoryEntry>::empty());
    }
    while j > 0
        invariant
            j <= dir@.len(),
            off <= acc <= plen,
            acc as int == next_off(dir@.skip(j as int), off as int, plen as int),
        decreases j,
    {
        j = j - 1;
        let e = dir[j];
        proof {
            assert(dir@.skip(j as int).subrange(1, dir@.skip(j as int).len() as int) =~= dir@.skip(
                j + 1,
            ));
            assert(dir@.skip(j as int)[0] == dir@[j as int]);
        }
        if (e.offset as usize) > off && (e.offset as usize) < acc {
            acc = e.offset as usize;
        }
    }
    proof {
        assert(dir@.skip(0) =~= dir@);
    }
    acc
}

impl ImprintRecord {
    /// Restrict the record to the requested ids. Unknown ids are dropped,
    /// duplicates collapse, and the result's directory stays ascending;
    /// schema id and flags carry over. Value bytes are copied span for
    /// span, never decoded.
    #[verifier::loop_isolation(false)]
    #[verifier::rlimit(60)]
    pub fn project(&self, ids: &[u16]) -> (r: Result<ImprintRecord, ImprintError>)
        ensures
            rec_wf(self@) ==> match r {
                Ok(p) => p@ == project_spec(self@, ids@),
                Err(e) => e matches ImprintError::SizeOverflow,
            },
            rec_wf(self@) ==> ((r is Err) <==> spans_payload(
                self@,
                sel_entries(self@.directory, ids@),
            ).len() > MAX_U32),
            r matches Err(e) ==> (e matches ImprintError::SizeOverflow || e
                matches ImprintError::BufferUnderflow { .. }),
    {
        let ghost m = self@;
        let plen = bytes_len(&self.payload);
        let mut payload: Vec<u8> = Vec::new();
        let mut dir: Vec<DirectoryEntry> = Vec::new();
        let mut i: usize = 0;
        proof {
            assert(sel_entries(m.directory.subrange(0, 0), ids@) =~= Seq::<
                DirectoryEntry,
            >::empty());
        }
        while i < self.directory.len()
            invariant
                i <= self.directory@.len(),
                plen == m.payload.len(),
                payload@ == spans_payload(m, sel_entries(m.directory.subrange(0, i as int), ids@)),
                dir@ == spans_dir(m, sel_entries(m.directory.subrange(0, i as int), ids@), 0),
                payload@.len() <= MAX_U32,
            decreases self.directory@.len() - i,
        {
            let e = self.directory[i];
            let ghost selp = sel_entries(m.directory.subrange(0, i as int), ids@);
            proof {
                lemma_sel_concat(m.directory.subrange(0, i as int), seq![e], ids@);
                assert(m.directory.subrange(0, i as int) + seq![e] =~= m.directory.subrange(
                    0,
                    i + 1,
                ));
                assert(seq![e].subrange(1, 1) =~= Seq::<DirectoryEntry>::empty());
                assert(sel_entries(Seq::<DirectoryEntry>::empty(), ids@) =~= Seq::<
                    DirectoryEntry,
                >::empty());
                assert(sel_entries(seq![e], ids@) =~= (if req_contains(ids@, e.id) {
                    seq![e]
                } else {
                    Seq::<DirectoryEntry>::empty()
                }));
            }
            if ids_contain(ids, e.id) {
                let off = payload.len();
                if e.type_code != TypeCode::Null {
                    if (e.offset as usize) > plen {
                        proof {
                            if rec_wf(m) {
                                assert(m.directory[i as int].offset <= m.payload.len());
                            }
                        }
                        return Err(
                            ImprintError::BufferUnderflow {
                                needed: e.offset as usize,
                                available: plen,
                            },
                        );
                    }
                    let stop = next_offset(&self.directory, e.offset as usize, plen);
                    let mut p: usize = e.offset as usize;
                    while p < stop
                        invariant
                            e.offset as usize <= p <= stop <= plen,
                            payload@ == spans_payload(m, selp) + m.payload.subrange(
                                e.offset as int,
                                p as int,
                            ),
                        decreases stop - p,
                    {
                        payload.push(bytes_at(&self.payload, p));
                        assert(payload@ =~= spans_payload(m, selp) + m.payload.subrange(
                            e.offset as int,
                            p + 1,
                        ));
                        p = p + 1;
                    }
                } else {
                    proof {
                        assert(span_of(m, e) =~= Seq::<u8>::empty());
                        assert(payload@ =~= spans_payload(m, selp) + span_of(m, e));
                    }
                }
                if payload.len() as u64 > MAX_U32 as u64 {
                    proof {
                        lemma_spans_payload_concat(m, selp, seq![e]);
                        crate::ops::lemma_spans_one(m, e, 0);
                        assert(payload@ =~= spans_payload(
                            m,
                            sel_entries(m.directory.subrange(0, i + 1), ids@),
                        ));
                        lemma_sel_concat(m.directory.subrange(0, i + 1), m.directory.subrange(
                            i + 1,
                            m.directory.len() as int,
                        ), ids@);
                        assert(m.directory.subrange(0, i + 1) + m.directory.subrange(
                            i + 1,
                            m.directory.len() as int,
                        ) =~= m.directory);
                        lemma_spans_payload_concat(
                            m,
                            sel_entries(m.directory.subrange(0, i + 1), ids@),
                            sel_entries(
                                m.directory.subrange(i + 1, m.directory.len() as int),
                                ids@,
                            ),
                        );
                    }
                    return Err(ImprintError::SizeOverflow);
                }
                dir.push(DirectoryEntry { id: e.id, type_code: e.type_code, offset: off as u32 });
                proof {
                    lemma_spans_payload_concat(m, selp, seq![e]);
                    lemma_spans_dir_concat(m, selp, seq![e], 0);
                    lemma_spans_one(m, e, off as int);
                    assert(payload@ =~= spans_payload(
                        m,
                        sel_entries(m.directory.subrange(0, i + 1), ids@),
                    ));
                    assert(dir@ =~= spans_dir(
                        m,
                        sel_entries(m.directory.subrange(0, i + 1), ids@),
                        0,
                    ));
                }
            } else {
                proof {
                    assert(selp + Seq::<DirectoryEntry>::empty() =~= selp);
                }
            }
            i = i + 1;
        }
        proof {
            assert(m.directory.subrange(0, m.directory.len() as int) =~= m.directory);
        }
        let header = Header {
            flags: self.header.flags,
            schema_id: self.header.schema_id,
            payload_size: payload.len() as u32,
        };
        Ok(ImprintRecord { header, directory: dir, payload: bytes_from_vec(payload) })
    }

    /// Merge with `other`: the result carries every id present in either
    /// record; where both carry an id the receiver's value wins. The
    /// result keeps the receiver's schema id and flags, and its directory
    /// stays ascending where both inputs are well formed. Value bytes are
    /// copied span for span, never decoded.
    #[verifier::loop_isolation(false)]
    #[verifier::rlimit(100)]
    pub fn merge(&self, other: &ImprintRecord) -> (r: Result<ImprintRecord, ImprintError>)
        ensures
            rec_wf(self@) && rec_wf(other@) ==> match r {
                Ok(p) => p@ == merge_spec(self@, other@),
                Err(e) => e matches ImprintError::SizeOverflow,
            },
            rec_wf(self@) && rec_wf(other@) ==> ((r is Err) <==> merge_payload(
                self@,
                other@,
                merged_entries(self@.directory, other@.directory),
            ).len() > MAX_U32),
            r matches Err(e) ==> (e matches ImprintError::SizeOverflow || e
                matches ImprintError::BufferUnderflow { .. }),
    {
        let ghost ma = self@;
        let ghost mb = other@;
        let ghost all = merged_entries(ma.directory, mb.directory);
        let aplen = bytes_len(&self.payload);
        let bplen = bytes_len(&other.payload);
        let mut payload: Vec<u8> = Vec::new();
        let mut dir: Vec<DirectoryEntry> = Vec::new();
        let mut i: usize = 0;
        let mut j: usize = 0;
        let ghost mut done: Seq<(DirectoryEntry, bool)> = Seq::empty();
        proof {
            assert(ma.directory.subrange(0, ma.directory.len() as int) =~= ma.directory);
            assert(mb.directory.subrange(0, mb.directory.len() as int) =~= mb.directory);
            assert(merge_payload(ma, mb, done) =~= Seq::<u8>::empty());
            assert(merge_dir(ma, mb, done, 0) =~= Seq::<DirectoryEntry>::empty());
            assert(done + all =~= all);
        }
        while i < self.directory.len() || j < other.directory.len()
            invariant
                i <= ma.directory.len(),
                j <= mb.directory.len(),
                aplen == ma.payload.len(),
                bplen == mb.payload.len(),
                all == done + merged_entries(
                    ma.directory.subrange(i as int, ma.directory.len() as int),
                    mb.directory.subrange(j as int, mb.directory.len() as int),
                ),
                done.len() == dir@.len(),
                payload@ == merge_payload(ma, mb, done),
                dir@ == merge_dir(ma, mb, done, 0),
                payload@.len() <= MAX_U32,
            decreases ma.directory.len() - i + mb.directory.len() - j,
        {
            let ghost ra = ma.directory.subrange(i as int, ma.directory.len() as int);
            let ghost rb = mb.directory.subrange(j as int, mb.directory.len() as int);
            let take_a: bool = if j >= other.directory.len() {
                true
            } else if i >= self.directory.len() {
                false
            } else {
                self.directory[i].id <= other.directory[j].id
            };
            let both: bool = i < self.directory.len() && j < other.directory.len()
                && self.directory[i].id == other.directory[j].id;
            let e = if take_a {
                self.directory[i]
            } else {
                other.directory[j]
            };
            proof {
                assert(ra.len() > 0 ==> ra[0] == ma.directory[i as int]);
                assert(rb.len() > 0 ==> rb[0] == mb.directory[j as int]);
                if take_a {
                    if both {
                        assert(merged_entries(ra, rb) == seq![(e, true)] + merged_entries(
                            ra.subrange(1, ra.len() as int),
                            rb.subrange(1, rb.len() as int),
                        ));
                    } else {
                        assert(merged_entries(ra, rb) == seq![(e, true)] + merged_entries(
                            ra.subrange(1, ra.len() as int),
                            rb,
                        ));
                    }
                } else {
                    assert(merged_entries(ra, rb) == seq![(e, false)] + merged_entries(
                        ra,
                        rb.subrange(1, rb.len() as int),
                    ));
                }
            }
            let ghost src = if take_a {
                ma
            } else {
                mb
            };
            let off = payload.len();
            if e.type_code != TypeCode::Null {
                let sp = e.offset as usize;
                let splen = if take_a {
                    aplen
                } else {
                    bplen
                };
                if sp > splen {
                    proof {
                        if rec_wf(ma) && rec_wf(mb) {
                            if take_a {
                                assert(ma.directory[i as int].offset <= ma.payload.len());
                            } else {
                                assert(mb.directory[j as int].offset <= mb.payload.len());
                            }
                        }
                    }
                    return Err(
                        ImprintError::BufferUnderflow { needed: sp, available: splen },
                    );
                }
                let stop = if take_a {
                    next_offset(&self.directory, sp, aplen)
                } else {
                    next_offset(&other.directory, sp, bplen)
                };
                let mut p: usize = sp;
                while p < stop
                    invariant
                        sp <= p <= stop,
                        take_a ==> stop <= aplen,
                        !take_a ==> stop <= bplen,
                        payload@ == merge_payload(ma, mb, done) + src.payload.subrange(
                            sp as int,
                            p as int,
                        ),
                    decreases stop - p,
                {
                    let byte = if take_a {
                        bytes_at(&self.payload, p)
                    } else {
                        bytes_at(&other.payload, p)
                    };
                    payload.push(byte);
                    assert(payload@ =~= merge_payload(ma, mb, done) + src.payload.subrange(
                        sp as int,
                        p + 1,
                    ));
                    p = p + 1;
                }
                proof {
                    assert(payload@ =~= merge_payload(ma, mb, done) + span_of(src, e));
                }
            } else {
                proof {
                    assert(span_of(src, e) =~= Seq::<u8>::empty());
                    assert(payload@ =~= merge_payload(ma, mb, done) + span_of(src, e));
                }
            }
            if payload.len() as u64 > MAX_U32 as u64 {
                proof {
                    let step: Seq<(DirectoryEntry, bool)> = seq![(e, take_a)];
                    lemma_merge_concat(ma, mb, done, step, 0);
                    assert(step.subrange(1, 1) =~= Seq::<(DirectoryEntry, bool)>::empty());
                    assert(merge_payload(ma, mb, Seq::<(DirectoryEntry, bool)>::empty())
                        =~= Seq::<u8>::empty());
                    assert(merge_payload(ma, mb, step) =~= span_of(src, e));
                    assert(payload@ =~= merge_payload(ma, mb, done + step));
                    let rest = merged_entries(
                        ma.directory.subrange(
                            if take_a {
                                i + 1
                            } else {
                                i as int
                            },
                            ma.directory.len() as int,
                        ),
                        mb.directory.subrange(
                            if !take_a || both {
                                j + 1
                            } else {
                                j as int
                            },
                            mb.directory.len() as int,
                        ),
                    );
                    assert(ma.directory.subrange(
                        if take_a {
                            i + 1
                        } else {
                            i as int
                        },
                        ma.directory.len() as int,
                    ) =~= (if take_a {
                        ra.subrange(1, ra.len() as int)
                    } else {
                        ra
                    }));
                    assert(mb.directory.subrange(
                        if !take_a || both {
                            j + 1
                        } else {
                            j as int
                        },
                        mb.directory.len() as int,
                    ) =~= (if !take_a || both {
                        rb.subrange(1, rb.len() as int)
                    } else {
                        rb
                    }));
                    assert(all =~= (done + step) + rest);
                    lemma_merge_concat(ma, mb, done + step, rest, 0);
                }
                return Err(ImprintError::SizeOverflow);
            }
            dir.push(DirectoryEntry { id: e.id, type_code: e.type_code, offset: off as u32 });
            proof {
                let step: Seq<(DirectoryEntry, bool)> = seq![(e, take_a)];
                lemma_merge_concat(ma, mb, done, step, 0);
                assert(step.subrange(1, 1) =~= Seq::<(DirectoryEntry, bool)>::empty());
                assert(merge_payload(ma, mb, Seq::<(DirectoryEntry, bool)>::empty()) =~= Seq::<
                    u8,
                >::empty());
                assert(merge_dir(
                    ma,
                    mb,
                    Seq::<(DirectoryEntry, bool)>::empty(),
                    merge_payload(ma, mb, done).len() + span_of(src, e).len() as int,
                ) =~= Seq::<DirectoryEntry>::empty());
                assert(merge_payload(ma, mb, step) =~= span_of(src, e));
                assert(merge_dir(ma, mb, step, merge_payload(ma, mb, done).len() as int) =~= seq![
                    DirectoryEntry { id: e.id, type_code: e.type_code, offset: off as u32 },
                ]);
                done = done + step;
                assert(payload@ =~= merge_payload(ma, mb, done));
                assert(dir@ =~= merge_dir(ma, mb, done, 0));
            }
            if take_a {
                i = i + 1;
            }
            if !take_a || both {
                j = j + 1;
            }
            proof {
                assert(ma.directory.subrange(i as int, ma.directory.len() as int) =~= if take_a {
                    ra.subrange(1, ra.len() as int)
                } else {
                    ra
                });
                assert(mb.directory.subrange(j as int, mb.directory.len() as int) =~= if !take_a
                    || both {
                    rb.subrange(1, rb.len() as int)
                } else {
                    rb
                });
                assert(all =~= done + merged_entries(
                    ma.directory.subrange(i as int, ma.directory.len() as int),
                    mb.directory.subrange(j as int, mb.directory.len() as int),
                ));
            }
        }
        proof {
            assert(ma.directory.subrange(i as int, ma.directory.len() as int) =~= Seq::<
                DirectoryEntry,
            >::empty());
            assert(mb.directory.subrange(j as int, mb.directory.len() as int) =~= Seq::<
                DirectoryEntry,
            >::empty());
            assert(merged_entries(Seq::empty(), Seq::empty()) =~= Seq::<
                (DirectoryEntry, bool),
            >::empty());
            assert(done + Seq::<(DirectoryEntry, bool)>::empty() =~= done);
            assert(done =~= all);
        }
        let header = Header {
            flags: self.header.flags,
            schema_id: self.header.schema_id,
            payload_size: payload.len() as u32,
        };
        Ok(ImprintRecord { header, directory: dir, payload: bytes_from_vec(payload) })
    }
}

/// Merge payloads and directories split over concatenation.
pub proof fn lemma_merge_concat(
    ma: RecModel,
    mb: RecModel,
    a: Seq<(DirectoryEntry, bool)>,
    b: Seq<(DirectoryEntry, bool)>,
    off: int,
)
    ensures
        merge_payload(ma, mb, a + b) == merge_payload(ma, mb, a) + merge_payload(ma, mb, b),
        merge_dir(ma, mb, a + b, off) == merge_dir(ma, mb, a, off) + merge_dir(
            ma,
            mb,
            b,
            off + merge_payload(ma, mb, a).len(),
        ),
    decreases a.len(),
{
    if a.len() == 0 {
        assert(a + b =~= b);
        assert(merge_payload(ma, mb, a) + merge_payload(ma, mb, b) =~= merge_payload(ma, mb, b));
        assert(merge_dir(ma, mb, a, off) + merge_dir(ma, mb, b, off) =~= merge_dir(ma, mb, b, off));
    } else {
        assert((a + b).subrange(1, (a + b).len() as int) =~= a.subrange(1, a.len() as int) + b);
        lemma_merge_concat(ma, mb, a.subrange(1, a.len() as int), b, off + span_of(
            if a[0].1 {
                ma
            } else {
                mb
            },
            a[0].0,
        ).len());
        assert(merge_payload(ma, mb, a) =~= span_of(
            if a[0].1 {
                ma
            } else {
                mb
            },
            a[0].0,
        ) + merge_payload(ma, mb, a.subrange(1, a.len() as int)));
        assert(merge_payload(ma, mb, a + b) =~= merge_payload(ma, mb, a) + merge_payload(
            ma,
            mb,
            b,
        ));
        assert(merge_dir(ma, mb, a + b, off) =~= merge_dir(ma, mb, a, off) + merge_dir(
            ma,
            mb,
            b,
            off + merge_payload(ma, mb, a).len(),
        ));
    }
}

} // verus!
