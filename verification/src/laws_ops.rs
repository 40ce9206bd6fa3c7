//! Laws of the structural operators: projection keeps exactly the
//! requested fields with their values and their bytes, and merge resolves
//! every id to the receiver's value where present, else the other's.

use vstd::prelude::*;
use crate::codec::MAX_U32;
use crate::codec::val_dec;
use crate::laws::lemma_val_dec_prefix;
use crate::ops::merge_dir;
use crate::ops::merge_payload;
use crate::ops::merge_spec;
use crate::ops::merged_entries;
use crate::ops::project_spec;
use crate::ops::req_contains;
use crate::ops::sel_entries;
use crate::ops::span_of;
use crate::ops::spans_dir;
use crate::ops::spans_payload;
use crate::ops::lemma_spans_payload_concat;
use crate::record::dir_find;
use crate::record::dir_sorted;
use crate::record::lemma_dir_find;
use crate::record::rec_wf;
use crate::record::span_len;
use crate::types::DirectoryEntry;
use crate::types::RecModel;
use crate::types::TypeCode;

verus! {

/// Everything selected comes from the directory.
pub proof fn lemma_sel_contains(d: Seq<DirectoryEntry>, req: Seq<u16>)
    ensures
        forall|e: DirectoryEntry| #[trigger]
            sel_entries(d, req).contains(e) ==> d.contains(e) && req_contains(req, e.id),
    decreases d.len(),
{
    if d.len() > 0 {
        let tail = d.subrange(1, d.len() as int);
        lemma_sel_contains(tail, req);
        assert forall|e: DirectoryEntry| #[trigger]
            sel_entries(d, req).contains(e) implies d.contains(e) && req_contains(req, e.id) by {
            let s = sel_entries(d, req);
            let i = choose|i: int| 0 <= i < s.len() && s[i] == e;
            if req_contains(req, d[0].id) && i == 0 {
                assert(d[0] == e);
            } else {
                let st = sel_entries(tail, req);
                if req_contains(req, d[0].id) {
                    assert(st[i - 1] == e);
                } else {
                    assert(s =~= st);
                    assert(st[i] == e);
                }
                assert(st.contains(e));
                let x = choose|x: int| 0 <= x < tail.len() && tail[x] == e;
                assert(d[x + 1] == e);
            }
        }
    }
}

/// In a sorted directory, looking an id up among the selected entries
/// finds the source entry exactly when the id was requested.
pub proof fn lemma_sel_find(d: Seq<DirectoryEntry>, req: Seq<u16>, id: u16)
    requires
        dir_sorted(d),
    ensures
        dir_find(sel_entries(d, req), id) == (if req_contains(req, id) {
            dir_find(d, id)
        } else {
            None
        }),
    decreases d.len(),
{
    lemma_sel_contains(d, req);
    if d.len() > 0 {
        let tail = d.subrange(1, d.len() as int);
        assert(dir_sorted(tail));
        lemma_sel_find(tail, req, id);
        let s = sel_entries(d, req);
        let st = sel_entries(tail, req);
        if req_contains(req, d[0].id) {
            assert(s == seq![d[0]] + st);
            assert(s[0] == d[0]);
            if d[0].id == id {
            } else {
                assert(s.subrange(1, s.len() as int) =~= st);
            }
        } else {
            assert(s =~= Seq::<DirectoryEntry>::empty() + st);
            assert(s =~= st);
            if d[0].id == id {
                // The id was at the head and was not requested; no later
                // entry carries it, so the selection lacks it.
                lemma_dir_find(s, id);
                match dir_find(s, id) {
                    Some(e) => {
                        assert(s.contains(e));
                        assert(tail.contains(e));
                        let x = choose|x: int| 0 <= x < tail.len() && tail[x] == e;
                        assert(d[0].id < d[x + 1].id);
                        assert(false);
                    },
                    None => {},
                }
                lemma_dir_find(d, id);
            }
        }
    }
}

/// The shape of the projected directory: same ids and kinds as the
/// selection, offsets the running span lengths.
pub proof fn lemma_spans_dir_index(m: RecModel, es: Seq<DirectoryEntry>, off: int)
    ensures
        spans_dir(m, es, off).len() == es.len(),
        forall|k: int|
            0 <= k < es.len() ==> #[trigger] spans_dir(m, es, off)[k] == (DirectoryEntry {
                id: es[k].id,
                type_code: es[k].type_code,
                offset: (off + spans_payload(m, es.subrange(0, k)).len()) as u32,
            }),
    decreases es.len(),
{
    if es.len() > 0 {
        let tail = es.subrange(1, es.len() as int);
        lemma_spans_dir_index(m, tail, off + span_of(m, es[0]).len());
        assert forall|k: int|
            0 <= k < es.len() implies #[trigger] spans_dir(m, es, off)[k] == (DirectoryEntry {
            id: es[k].id,
            type_code: es[k].type_code,
            offset: (off + spans_payload(m, es.subrange(0, k)).len()) as u32,
        }) by {
            if k == 0 {
                assert(es.subrange(0, 0) =~= Seq::<DirectoryEntry>::empty());
                assert(spans_payload(m, Seq::<DirectoryEntry>::empty()) =~= Seq::<u8>::empty());
            } else {
                assert(spans_dir(m, es, off)[k] == spans_dir(
                    m,
                    tail,
                    off + span_of(m, es[0]).len(),
                )[k - 1]);
                assert(tail[k - 1] == es[k]);
                assert(tail.subrange(0, k - 1) =~= es.subrange(1, k));
                assert(es.subrange(0, k) =~= seq![es[0]] + es.subrange(1, k));
                lemma_spans_payload_concat(m, seq![es[0]], es.subrange(1, k));
                crate::ops::lemma_spans_one(m, es[0], 0);
            }
        }
    }
}

/// In a well-formed record, the decode at an entry consumes exactly the
/// entry's span, and the span is the consumed prefix of the payload.
pub proof fn lemma_wf_entry_span(m: RecModel, x: int)
    requires
        rec_wf(m),
        0 <= x < m.directory.len(),
    ensures
        ({
            let e = m.directory[x];
            match val_dec(e.type_code, m.payload.skip(e.offset as int)) {
                Some(mc) => {
                    &&& mc.1 == span_of(m, e).len()
                    &&& span_of(m, e) =~= m.payload.skip(e.offset as int).subrange(0, mc.1)
                },
                None => false,
            }
        }),
{
    let e = m.directory[x];
    assert(m.directory[x].offset <= m.payload.len());
    match val_dec(e.type_code, m.payload.skip(e.offset as int)) {
        Some(mc) => {
            assert(mc.1 == span_len(m, x));
            if e.type_code == TypeCode::Null {
                assert(span_of(m, e) =~= m.payload.skip(e.offset as int).subrange(0, 0));
            } else {
                crate::laws::lemma_val_dec_sound(e.type_code, m.payload.skip(e.offset as int));
                assert(span_of(m, e) =~= m.payload.skip(e.offset as int).subrange(0, mc.1));
            }
        },
        None => {},
    }
}

/// Projection correctness (law): in the projection of a well-formed
/// record, every requested id that the source carries decodes to the
/// source's value; an id that was not requested, or that the source does
/// not carry, is absent.
#[verifier::rlimit(60)]
#[verifier::spinoff_prover]
pub proof fn lemma_projection_get(m: RecModel, req: Seq<u16>, id: u16)
    requires
        rec_wf(m),
        spans_payload(m, sel_entries(m.directory, req)).len() <= MAX_U32,
    ensures
        ({
            let p = project_spec(m, req);
            &&& (!req_contains(req, id) ==> dir_find(p.directory, id) is None)
            &&& (dir_find(m.directory, id) is None ==> dir_find(p.directory, id) is None)
            &&& ((req_contains(req, id) && dir_find(m.directory, id) is Some) ==> ({
                let e = dir_find(m.directory, id)->Some_0;
                match dir_find(p.directory, id) {
                    Some(e2) => {
                        &&& e2.type_code == e.type_code
                        &&& e2.offset <= p.payload.len()
                        &&& val_dec(e2.type_code, p.payload.skip(e2.offset as int)) == val_dec(
                            e.type_code,
                            m.payload.skip(e.offset as int),
                        )
                    },
                    None => false,
                }
            }))
        }),
{
    let p = project_spec(m, req);
    let es = sel_entries(m.directory, req);
    lemma_sel_find(m.directory, req, id);
    lemma_spans_dir_index(m, es, 0);
    lemma_dir_find(es, id);
    lemma_dir_find(p.directory, id);
    // The projected directory carries the selection's ids in order, so the
    // two lookups land on the same position.
    assert forall|k: int| 0 <= k < es.len() implies (#[trigger] p.directory[k]).id
        == es[k].id by {}
    if !req_contains(req, id) || dir_find(m.directory, id) is None {
        match dir_find(p.directory, id) {
            Some(e2) => {
                let k = choose|k: int| 0 <= k < p.directory.len() && p.directory[k] == e2;
                assert(es[k].id == id);
                lemma_dir_find_some_at(es, id, k);
                assert(false);
            },
            None => {},
        }
    } else {
        let e = dir_find(m.directory, id)->Some_0;
        lemma_dir_find(m.directory, id);
        let x = choose|x: int| 0 <= x < m.directory.len() && m.directory[x] == e;
        // Find the selection position carrying the id.
        assert(dir_find(es, id) == Some(e));
        let k = lemma_dir_find_index(es, id);
        assert(es[k] == e);
        let newoff = spans_payload(m, es.subrange(0, k)).len() as int;
        assert(p.directory[k] == DirectoryEntry {
            id: e.id,
            type_code: e.type_code,
            offset: newoff as u32,
        });
        lemma_dir_find_some_at(p.directory, id, k);
        // The projected payload at the new offset starts with the span.
        lemma_spans_payload_concat(m, es.subrange(0, k), es.subrange(k, es.len() as int));
        assert(es.subrange(0, k) + es.subrange(k, es.len() as int) =~= es);
        assert(es.subrange(k, es.len() as int)[0] == e);
        assert(spans_payload(m, es.subrange(k, es.len() as int)) =~= span_of(m, e)
            + spans_payload(m, es.subrange(k + 1, es.len() as int))) by {
            assert(es.subrange(k, es.len() as int).subrange(1, es.len() - k) =~= es.subrange(
                k + 1,
                es.len() as int,
            ));
        }
        assert(spans_payload(m, es.subrange(0, k)).len() + spans_payload(
            m,
            es.subrange(k, es.len() as int),
        ).len() == p.payload.len());
        assert(p.payload.skip(newoff) =~= span_of(m, e) + spans_payload(
            m,
            es.subrange(k + 1, es.len() as int),
        ));
        lemma_wf_entry_span(m, x);
        let mc = val_dec(e.type_code, m.payload.skip(e.offset as int))->Some_0;
        assert(p.payload.skip(newoff).subrange(0, mc.1) =~= m.payload.skip(
            e.offset as int,
        ).subrange(0, mc.1));
        lemma_val_dec_prefix(
            e.type_code,
            m.payload.skip(e.offset as int),
            p.payload.skip(newoff),
        );
    }
}

/// The position `dir_find` finds.
pub proof fn lemma_dir_find_index(d: Seq<DirectoryEntry>, id: u16) -> (k: int)
    requires
        dir_find(d, id) is Some,
    ensures
        0 <= k < d.len(),
        d[k] == dir_find(d, id)->Some_0,
        forall|j: int| 0 <= j < k ==> (#[trigger] d[j]).id != id,
    decreases d.len(),
{
    if d[0].id == id {
        0
    } else {
        let kt = lemma_dir_find_index(d.subrange(1, d.len() as int), id);
        assert(forall|j: int|
            1 <= j < kt + 1 ==> d[j] == d.subrange(1, d.len() as int)[j - 1]);
        kt + 1
    }
}

/// Where position `k` holds an entry carrying `id` and no earlier one
/// does, `dir_find` returns it.
pub proof fn lemma_dir_find_some_at(d: Seq<DirectoryEntry>, id: u16, k: int)
    requires
        0 <= k < d.len(),
        d[k].id == id,
        forall|j: int| 0 <= j < k ==> (#[trigger] d[j]).id != id,
    ensures
        dir_find(d, id) == Some(d[k]),
    decreases k,
{
    if k > 0 {
        let tail = d.subrange(1, d.len() as int);
        lemma_dir_find_some_at(tail, id, k - 1);
    }
}

/// Projection preserves bytes (law): each selected entry's byte span in
/// the projected payload is byte-equal to its span in the source payload.
pub proof fn lemma_projection_preserves_bytes(m: RecModel, req: Seq<u16>, k: int)
    requires
        0 <= k < sel_entries(m.directory, req).len(),
    ensures
        ({
            let es = sel_entries(m.directory, req);
            let p = project_spec(m, req);
            let newoff = spans_payload(m, es.subrange(0, k)).len() as int;
            p.payload.subrange(newoff, newoff + span_of(m, es[k]).len()) == span_of(m, es[k])
        }),
{
    let es = sel_entries(m.directory, req);
    let p = project_spec(m, req);
    let newoff = spans_payload(m, es.subrange(0, k)).len() as int;
    lemma_spans_payload_concat(m, es.subrange(0, k), es.subrange(k, es.len() as int));
    assert(es.subrange(0, k) + es.subrange(k, es.len() as int) =~= es);
    assert(es.subrange(k, es.len() as int)[0] == es[k]);
    assert(spans_payload(m, es.subrange(k, es.len() as int)) =~= span_of(m, es[k])
        + spans_payload(m, es.subrange(k + 1, es.len() as int))) by {
        assert(es.subrange(k, es.len() as int).subrange(1, es.len() - k) =~= es.subrange(
            k + 1,
            es.len() as int,
        ));
    }
    assert(p.payload.subrange(newoff, newoff + span_of(m, es[k]).len()) =~= span_of(m, es[k]));
}

/// The first merged entry carrying `id`, if any.
pub open spec fn tagged_find(es: Seq<(DirectoryEntry, bool)>, id: u16) -> Option<
    (DirectoryEntry, bool),
>
    decreases es.len(),
{
    if es.len() == 0 {
        None
    } else if es[0].0.id == id {
        Some(es[0])
    } else {
        tagged_find(es.subrange(1, es.len() as int), id)
    }
}

/// In a sorted directory whose head id exceeds `id`, no entry carries it.
proof fn lemma_dir_find_below_head(d: Seq<DirectoryEntry>, id: u16)
    requires
        dir_sorted(d),
        d.len() > 0 ==> d[0].id > id,
    ensures
        dir_find(d, id) is None,
{
    lemma_dir_find(d, id);
    match dir_find(d, id) {
        Some(e) => {
            let x = choose|x: int| 0 <= x < d.len() && d[x] == e;
            if x > 0 {
                assert(d[0].id < d[x].id);
            }
            assert(false);
        },
        None => {},
    }
}

/// The merged entry list resolves every id to the receiver's entry where
/// present, else the other record's.
pub proof fn lemma_merged_find(a: Seq<DirectoryEntry>, b: Seq<DirectoryEntry>, id: u16)
    requires
        dir_sorted(a),
        dir_sorted(b),
    ensures
        tagged_find(merged_entries(a, b), id) == (match (dir_find(a, id), dir_find(b, id)) {
            (Some(e), _) => Some((e, true)),
            (None, Some(e)) => Some((e, false)),
            (None, None) => None::<(DirectoryEntry, bool)>,
        }),
    decreases a.len() + b.len(),
{
    let es = merged_entries(a, b);
    if a.len() == 0 && b.len() == 0 {
    } else {
        let ta = if a.len() > 0 {
            a.subrange(1, a.len() as int)
        } else {
            a
        };
        let tb = if b.len() > 0 {
            b.subrange(1, b.len() as int)
        } else {
            b
        };
        assert(dir_sorted(ta) && dir_sorted(tb));
        if a.len() == 0 {
            assert(es == seq![(b[0], false)] + merged_entries(a, tb));
            assert(es.subrange(1, es.len() as int) =~= merged_entries(a, tb));
            lemma_merged_find(a, tb, id);
        } else if b.len() == 0 {
            assert(es == seq![(a[0], true)] + merged_entries(ta, b));
            assert(es.subrange(1, es.len() as int) =~= merged_entries(ta, b));
            lemma_merged_find(ta, b, id);
        } else if a[0].id < b[0].id {
            assert(es == seq![(a[0], true)] + merged_entries(ta, b));
            assert(es.subrange(1, es.len() as int) =~= merged_entries(ta, b));
            lemma_merged_find(ta, b, id);
            if a[0].id == id {
                // `b` cannot carry this id: its head is already greater.
                lemma_dir_find_below_head(b, id);
            }
        } else if a[0].id > b[0].id {
            assert(es == seq![(b[0], false)] + merged_entries(a, tb));
            assert(es.subrange(1, es.len() as int) =~= merged_entries(a, tb));
            lemma_merged_find(a, tb, id);
            if b[0].id == id {
                lemma_dir_find_below_head(a, id);
            }
        } else {
            assert(es == seq![(a[0], true)] + merged_entries(ta, tb));
            assert(es.subrange(1, es.len() as int) =~= merged_entries(ta, tb));
            lemma_merged_find(ta, tb, id);
        }
    }
}

/// The shape of the merged directory: the tagged entries' ids and kinds
/// in order, offsets the running span lengths.
pub proof fn lemma_merge_dir_index(
    ma: RecModel,
    mb: RecModel,
    es: Seq<(DirectoryEntry, bool)>,
    off: int,
)
    ensures
        merge_dir(ma, mb, es, off).len() == es.len(),
        forall|k: int|
            0 <= k < es.len() ==> #[trigger] merge_dir(ma, mb, es, off)[k] == (DirectoryEntry {
                id: es[k].0.id,
                type_code: es[k].0.type_code,
                offset: (off + merge_payload(ma, mb, es.subrange(0, k)).len()) as u32,
            }),
    decreases es.len(),
{
    if es.len() > 0 {
        let tail = es.subrange(1, es.len() as int);
        let step = span_of(
            if es[0].1 {
                ma
            } else {
                mb
            },
            es[0].0,
        ).len() as int;
        lemma_merge_dir_index(ma, mb, tail, off + step);
        assert forall|k: int|
            0 <= k < es.len() implies #[trigger] merge_dir(ma, mb, es, off)[k]
            == (DirectoryEntry {
            id: es[k].0.id,
            type_code: es[k].0.type_code,
            offset: (off + merge_payload(ma, mb, es.subrange(0, k)).len()) as u32,
        }) by {
            if k == 0 {
                assert(es.subrange(0, 0) =~= Seq::<(DirectoryEntry, bool)>::empty());
                assert(merge_payload(ma, mb, Seq::<(DirectoryEntry, bool)>::empty()) =~= Seq::<
                    u8,
                >::empty());
            } else {
                assert(merge_dir(ma, mb, es, off)[k] == merge_dir(ma, mb, tail, off + step)[k
                    - 1]);
                assert(tail[k - 1] == es[k]);
                assert(tail.subrange(0, k - 1) =~= es.subrange(1, k));
                assert(es.subrange(0, k) =~= seq![es[0]] + es.subrange(1, k));
                crate::ops::lemma_merge_concat(ma, mb, seq![es[0]], es.subrange(1, k), 0);
                assert(seq![es[0]].subrange(1, 1) =~= Seq::<(DirectoryEntry, bool)>::empty());
                assert(merge_payload(ma, mb, Seq::<(DirectoryEntry, bool)>::empty()) =~= Seq::<
                    u8,
                >::empty());
                assert(merge_payload(ma, mb, seq![es[0]]) =~= span_of(
                    if es[0].1 {
                        ma
                    } else {
                        mb
                    },
                    es[0].0,
                ));
            }
        }
    }
}

/// The position `tagged_find` finds.
proof fn lemma_tagged_find_index(es: Seq<(DirectoryEntry, bool)>, id: u16) -> (k: int)
    requires
        tagged_find(es, id) is Some,
    ensures
        0 <= k < es.len(),
        es[k] == tagged_find(es, id)->Some_0,
        es[k].0.id == id,
        forall|j: int| 0 <= j < k ==> (#[trigger] es[j]).0.id != id,
    decreases es.len(),
{
    if es[0].0.id == id {
        0
    } else {
        let kt = lemma_tagged_find_index(es.subrange(1, es.len() as int), id);
        assert(forall|j: int|
            1 <= j < kt + 1 ==> es[j] == es.subrange(1, es.len() as int)[j - 1]);
        kt + 1
    }
}

/// Merge law: in the merge of two well-formed records, every id present
/// in the receiver decodes to the receiver's value; an id present only in
/// the other record decodes to that record's value; an id in neither is
/// absent.
#[verifier::rlimit(100)]
#[verifier::spinoff_prover]
pub proof fn lemma_merge_get(ma: RecModel, mb: RecModel, id: u16)
    requires
        rec_wf(ma),
        rec_wf(mb),
        merge_payload(ma, mb, merged_entries(ma.directory, mb.directory)).len() <= MAX_U32,
    ensures
        ({
            let p = merge_spec(ma, mb);
            match (dir_find(ma.directory, id), dir_find(mb.directory, id)) {
                (None, None) => dir_find(p.directory, id) is None,
                (Some(e), _) => match dir_find(p.directory, id) {
                    Some(e2) => {
                        &&& e2.type_code == e.type_code
                        &&& e2.offset <= p.payload.len()
                        &&& val_dec(e2.type_code, p.payload.skip(e2.offset as int)) == val_dec(
                            e.type_code,
                            ma.payload.skip(e.offset as int),
                        )
                    },
                    None => false,
                },
                (None, Some(e)) => match dir_find(p.directory, id) {
                    Some(e2) => {
                        &&& e2.type_code == e.type_code
                        &&& e2.offset <= p.payload.len()
                        &&& val_dec(e2.type_code, p.payload.skip(e2.offset as int)) == val_dec(
                            e.type_code,
                            mb.payload.skip(e.offset as int),
                        )
                    },
                    None => false,
                },
            }
        }),
{
    let p = merge_spec(ma, mb);
    let es = merged_entries(ma.directory, mb.directory);
    lemma_merged_find(ma.directory, mb.directory, id);
    lemma_merge_dir_index(ma, mb, es, 0);
    lemma_dir_find(p.directory, id);
    if dir_find(ma.directory, id) is None && dir_find(mb.directory, id) is None {
        match dir_find(p.directory, id) {
            Some(e2) => {
                let k = lemma_dir_find_index(p.directory, id);
                assert(es[k].0.id == id);
                assert forall|j: int| 0 <= j < k implies (#[trigger] es[j]).0.id != id by {
                    assert(p.directory[j].id == es[j].0.id);
                }
                lemma_tagged_find_some_at(es, id, k);
                assert(false);
            },
            None => {},
        }
    } else {
        lemma_merge_get_found(ma, mb, id);
    }
}

/// The found case of [`lemma_merge_get`].
#[verifier::rlimit(100)]
#[verifier::spinoff_prover]
proof fn lemma_merge_get_found(ma: RecModel, mb: RecModel, id: u16)
    requires
        rec_wf(ma),
        rec_wf(mb),
        merge_payload(ma, mb, merged_entries(ma.directory, mb.directory)).len() <= MAX_U32,
        tagged_find(merged_entries(ma.directory, mb.directory), id) is Some,
    ensures
        ({
            let p = merge_spec(ma, mb);
            let tf = tagged_find(merged_entries(ma.directory, mb.directory), id)->Some_0;
            let src = if tf.1 {
                ma
            } else {
                mb
            };
            match dir_find(p.directory, id) {
                Some(e2) => {
                    &&& e2.type_code == tf.0.type_code
                    &&& e2.offset <= p.payload.len()
                    &&& val_dec(e2.type_code, p.payload.skip(e2.offset as int)) == val_dec(
                        tf.0.type_code,
                        src.payload.skip(tf.0.offset as int),
                    )
                },
                None => false,
            }
        }),
{
    let p = merge_spec(ma, mb);
    let es = merged_entries(ma.directory, mb.directory);
    lemma_merged_find(ma.directory, mb.directory, id);
    lemma_merge_dir_index(ma, mb, es, 0);
    let tf = tagged_find(es, id)->Some_0;
    let e = tf.0;
    let src = if tf.1 {
        ma
    } else {
        mb
    };
    let k = lemma_tagged_find_index(es, id);
    let newoff = merge_payload(ma, mb, es.subrange(0, k)).len() as int;
    crate::ops::lemma_merge_concat(ma, mb, es.subrange(0, k), es.subrange(
        k,
        es.len() as int,
    ), 0);
    assert(es.subrange(0, k) + es.subrange(k, es.len() as int) =~= es);
    assert(newoff <= p.payload.len());
    assert(p.directory[k] == DirectoryEntry {
        id: e.id,
        type_code: e.type_code,
        offset: newoff as u32,
    });
    assert forall|j: int| 0 <= j < k implies (#[trigger] p.directory[j]).id != id by {
        assert(p.directory[j] == merge_dir(ma, mb, es, 0)[j]);
        assert(es[j].0.id != id);
    }
    lemma_dir_find_some_at_tagged(p.directory, id, k);
    assert(es.subrange(k, es.len() as int)[0] == es[k]);
    assert(merge_payload(ma, mb, es.subrange(k, es.len() as int)) =~= span_of(src, e)
        + merge_payload(ma, mb, es.subrange(k + 1, es.len() as int))) by {
        assert(es.subrange(k, es.len() as int).subrange(1, es.len() - k) =~= es.subrange(
            k + 1,
            es.len() as int,
        ));
    }
    assert(p.payload.skip(newoff) =~= span_of(src, e) + merge_payload(
        ma,
        mb,
        es.subrange(k + 1, es.len() as int),
    ));
    // The entry comes from its source's directory.
    lemma_dir_find(ma.directory, id);
    lemma_dir_find(mb.directory, id);
    let x: int = if tf.1 {
        choose|x: int| 0 <= x < ma.directory.len() && ma.directory[x] == e
    } else {
        choose|x: int| 0 <= x < mb.directory.len() && mb.directory[x] == e
    };
    lemma_wf_entry_span(src, x);
    let mc = val_dec(e.type_code, src.payload.skip(e.offset as int))->Some_0;
    assert(p.payload.skip(newoff).subrange(0, mc.1) =~= src.payload.skip(
        e.offset as int,
    ).subrange(0, mc.1));
    lemma_val_dec_prefix(
        e.type_code,
        src.payload.skip(e.offset as int),
        p.payload.skip(newoff),
    );
}

/// `lemma_dir_find_some_at`, restated for use above.
proof fn lemma_dir_find_some_at_tagged(d: Seq<DirectoryEntry>, id: u16, k: int)
    requires
        0 <= k < d.len(),
        d[k].id == id,
        forall|j: int| 0 <= j < k ==> (#[trigger] d[j]).id != id,
    ensures
        dir_find(d, id) == Some(d[k]),
{
    lemma_dir_find_some_at(d, id, k);
}

/// Where position `k` holds a merged entry carrying `id` and no earlier
/// one does, `tagged_find` returns it.
proof fn lemma_tagged_find_some_at(es: Seq<(DirectoryEntry, bool)>, id: u16, k: int)
    requires
        0 <= k < es.len(),
        es[k].0.id == id,
        forall|j: int| 0 <= j < k ==> (#[trigger] es[j]).0.id != id,
    ensures
        tagged_find(es, id) == Some(es[k]),
    decreases k,
{
    if k > 0 {
        let tail = es.subrange(1, es.len() as int);
        lemma_tagged_find_some_at(tail, id, k - 1);
    }
}

} // verus!
