//! Reading back an append-only WAL segment, stopping cleanly at a crash-torn tail.

use vstd::prelude::*;
use vstd::slice::slice_subrange;
use super::record::{
    decode_record, first_record, law_cut_records_need_more, law_records_read_back, record_frame,
    aux_of, parse_aux_state, parse_map_put, parse_map_remove, put_of, remove_of, Decoded,
    DecodedView, RecordType, MAX_PAYLOAD,
};
use crate::bytes::copy_slice;
use crate::model::{lemma_views_empty, lemma_views_push, views};

verus! {

/// A record read from a segment.
#[derive(Clone, Debug, PartialEq, Eq)]
pub struct Record {
    pub rtype: RecordType,
    pub payload: Vec<u8>,
}

impl View for Record {
    type V = (RecordType, Seq<u8>);

    open spec fn view(&self) -> (RecordType, Seq<u8>) {
        (self.rtype, self.payload@)
    }
}

/// What recovery does to the store.
#[derive(Clone, Debug, PartialEq, Eq)]
pub enum StoreOp {
    /// Stores a value unless the store holds one with a newer stamp.
    PutMerge { map: String, key: Vec<u8>, value: Vec<u8>, ttl_ms: u64, stamp: u64 },
    Remove { map: String, key: Vec<u8> },
    /// Replaces the whole state of a structure that is not a map.
    InstallAux { kind: u8, name: String, state: Vec<u8> },
}

/// What a [`StoreOp`] holds.
pub enum StoreOpView {
    PutMerge { map: Seq<char>, key: Seq<u8>, value: Seq<u8>, ttl_ms: u64, stamp: u64 },
    Remove { map: Seq<char>, key: Seq<u8> },
    InstallAux { kind: u8, name: Seq<char>, state: Seq<u8> },
}

impl View for StoreOp {
    type V = StoreOpView;

    open spec fn view(&self) -> StoreOpView {
        match self {
            StoreOp::PutMerge { map, key, value, ttl_ms, stamp } => StoreOpView::PutMerge {
                map: map@,
                key: key@,
                value: value@,
                ttl_ms: *ttl_ms,
                stamp: *stamp,
            },
            StoreOp::Remove { map, key } => StoreOpView::Remove { map: map@, key: key@ },
            StoreOp::InstallAux { kind, name, state } => StoreOpView::InstallAux {
                kind: *kind,
                name: name@,
                state: state@,
            },
        }
    }
}

/// The records of a segment up to the first frame that is not whole or not sound.
pub open spec fn records_of(b: Seq<u8>) -> Seq<(RecordType, Seq<u8>)>
    decreases b.len(),
{
    match first_record(b) {
        DecodedView::Record { rtype, payload, consumed } => if 0 < consumed <= b.len() {
            seq![(rtype, payload)] + records_of(b.skip(consumed))
        } else {
            Seq::empty()
        },
        _ => Seq::empty(),
    }
}

/// The bytes of a segment that holds `records`.
pub open spec fn segment_bytes(records: Seq<(RecordType, Seq<u8>)>) -> Seq<u8>
    decreases records.len(),
{
    if records.len() == 0 {
        Seq::empty()
    } else {
        segment_bytes(records.drop_last()) + record_frame(records.last().0, records.last().1)
    }
}

/// What replaying a record does to the store; a payload that does not parse does nothing.
pub open spec fn record_op(r: (RecordType, Seq<u8>)) -> Option<StoreOpView> {
    match r.0 {
        RecordType::MapPut => match put_of(r.1) {
            Some((stamp, ttl_ms, map, key, value)) => Some(
                StoreOpView::PutMerge { map, key, value, ttl_ms, stamp },
            ),
            None => None,
        },
        RecordType::MapRemove => match remove_of(r.1) {
            Some((stamp, map, key)) => Some(StoreOpView::Remove { map, key }),
            None => None,
        },
        RecordType::AuxState => match aux_of(r.1) {
            Some((kind, name, state)) => Some(StoreOpView::InstallAux { kind, name, state }),
            None => None,
        },
    }
}

/// What replaying records does to the store, in order.
pub open spec fn replay_ops(records: Seq<(RecordType, Seq<u8>)>) -> Seq<StoreOpView>
    decreases records.len(),
{
    if records.len() == 0 {
        Seq::empty()
    } else {
        let before = replay_ops(records.drop_last());
        match record_op(records.last()) {
            Some(op) => before.push(op),
            None => before,
        }
    }
}

/// Reads every complete record of a segment, in order. A torn or partial final record ends the
/// read and is no error.
pub fn read_segment(bytes: &[u8]) -> (out: Vec<Record>)
    ensures
        views(out@) == records_of(bytes@),
{
    broadcast use {lemma_views_push, lemma_views_empty};

    let mut out: Vec<Record> = Vec::new();
    let mut off: usize = 0;
    let mut more: bool = true;
    assert(bytes@.skip(0) =~= bytes@);
    while more
        invariant
            off <= bytes@.len(),
            more ==> views(out@) + records_of(bytes@.skip(off as int)) =~= records_of(bytes@),
            !more ==> views(out@) == records_of(bytes@),
        decreases bytes@.len() - off + (if more { 1int } else { 0int }),
    {
        let ghost so_far = views(out@);
        let rest = slice_subrange(bytes, off, bytes.len());
        assert(rest@ =~= bytes@.skip(off as int));
        match decode_record(rest) {
            Decoded::Record { rtype, payload, consumed } => {
                let r = Record { rtype, payload: copy_slice(payload) };
                proof {
                    let next = bytes@.skip(off + consumed);
                    assert(rest@.skip(consumed as int) =~= next);
                    assert(so_far.push(r@) + records_of(next) =~= so_far + (seq![r@]
                        + records_of(next)));
                }
                out.push(r);
                off = off + consumed;
            },
            _ => {
                assert(so_far + Seq::<(RecordType, Seq<u8>)>::empty() =~= so_far);
                more = false;
            },
        }
    }
    out
}

/// What replaying one record does to the store.
pub fn op_of_record(r: &Record) -> (op: Option<StoreOp>)
    ensures
        match op {
            Some(o) => record_op(r@) == Some(o@),
            None => record_op(r@) is None,
        },
{
    match r.rtype {
        RecordType::MapPut => match parse_map_put(r.payload.as_slice()) {
            Some(m) => Some(
                StoreOp::PutMerge {
                    map: m.map.to_string(),
                    key: copy_slice(m.key),
                    value: copy_slice(m.value),
                    ttl_ms: m.ttl_ms,
                    stamp: m.stamp,
                },
            ),
            None => None,
        },
        RecordType::MapRemove => match parse_map_remove(r.payload.as_slice()) {
            Some(m) => Some(StoreOp::Remove { map: m.map.to_string(), key: copy_slice(m.key) }),
            None => None,
        },
        RecordType::AuxState => match parse_aux_state(r.payload.as_slice()) {
            Some(a) => Some(
                StoreOp::InstallAux {
                    kind: a.kind,
                    name: a.name.to_string(),
                    state: copy_slice(a.state),
                },
            ),
            None => None,
        },
    }
}

/// Appends what replaying a segment does to the store.
pub fn replay_segment(bytes: &[u8], ops: &mut Vec<StoreOp>)
    ensures
        views(final(ops)@) == views(old(ops)@) + replay_ops(records_of(bytes@)),
{
    broadcast use lemma_views_push;

    let records: Vec<Record> = read_segment(bytes);
    let ghost all = views(records@);
    let ghost before = views(ops@);
    let mut i: usize = 0;
    assert(all.take(0) =~= Seq::empty());
    assert(before + replay_ops(all.take(0)) =~= before);
    while i < records.len()
        invariant
            i <= records@.len(),
            all == views(records@),
            views(ops@) =~= before + replay_ops(all.take(i as int)),
        decreases records@.len() - i,
    {
        proof {
            let next = all.take(i + 1);
            assert(next.drop_last() =~= all.take(i as int));
            assert(next.last() == records@[i as int]@);
        }
        match op_of_record(&records[i]) {
            Some(op) => {
                let ghost so_far = views(ops@);
                ops.push(op);
                assert(views(ops@) =~= so_far.push(op@));
            },
            None => {},
        }
        i = i + 1;
    }
    assert(all.take(i as int) =~= all);
}

pub proof fn lemma_records_then(records: Seq<(RecordType, Seq<u8>)>, rest: Seq<u8>)
    requires
        forall|i: int| 0 <= i < records.len() ==> (#[trigger] records[i]).1.len() <= MAX_PAYLOAD,
    ensures
        records_of(segment_bytes(records) + rest) == records + records_of(rest),
    decreases records.len(),
{
    if records.len() == 0 {
        assert(segment_bytes(records) + rest =~= rest);
        assert(records + records_of(rest) =~= records_of(rest));
    } else {
        let init = records.drop_last();
        let r = records.last();
        let f = record_frame(r.0, r.1);
        assert(records[records.len() - 1] == r);
        assert forall|i: int| 0 <= i < init.len() implies (#[trigger] init[i]).1.len()
            <= MAX_PAYLOAD by {
            assert(records[i] == init[i]);
        }
        lemma_records_then(init, f + rest);
        law_records_read_back(r.0, r.1, rest);
        assert((f + rest).skip(f.len() as int) =~= rest);
        assert(segment_bytes(records) + rest =~= segment_bytes(init) + (f + rest));
        assert(records + records_of(rest) =~= init + (seq![r] + records_of(rest)));
    }
}

/// A segment reads back as the records that were appended to it, in order; a record that a crash
/// cut short is dropped, and nothing else.
pub proof fn law_segments_read_back(
    records: Seq<(RecordType, Seq<u8>)>,
    torn: (RecordType, Seq<u8>),
    cut: int,
)
    requires
        forall|i: int| 0 <= i < records.len() ==> (#[trigger] records[i]).1.len() <= MAX_PAYLOAD,
        torn.1.len() <= MAX_PAYLOAD,
        0 <= cut < record_frame(torn.0, torn.1).len(),
    ensures
        records_of(segment_bytes(records)) == records,
        records_of(segment_bytes(records) + record_frame(torn.0, torn.1).take(cut)) == records,
{
    let tail = record_frame(torn.0, torn.1).take(cut);
    lemma_records_then(records, Seq::empty());
    lemma_records_then(records, tail);
    law_cut_records_need_more(torn.0, torn.1, cut);
    assert(segment_bytes(records) + Seq::<u8>::empty() =~= segment_bytes(records));
    assert(records_of(tail) =~= Seq::empty());
    assert(records_of(Seq::empty()) =~= Seq::empty());
    assert(records + Seq::<(RecordType, Seq<u8>)>::empty() =~= records);
}

} // verus!
