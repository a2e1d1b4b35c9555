//! Structure-agnostic WAL record envelope.
//!
//! Frame: `[len: u32][crc32: u32][record_type: u16][payload: len-2 bytes]`. `len` counts
//! `record_type + payload`; `crc32` covers those same bytes, so that recovery detects a torn or
//! corrupt tail.

use vstd::prelude::*;
use vstd::slice::slice_subrange;
use vstd::utf8::encode_utf8;
use crate::bytes::{
    get_u16, get_u32, get_u64, lemma_ints_read_back, lemma_le_digits_len, put_slice, put_u16,
    put_u32, put_u64, u16_at, u16_le, u32_at, u32_le, u64_le,
};
use crate::checksum::{crc32, crc32_of};
use crate::text::{as_text, lemma_text_reads_back, text_bytes, text_of};
use crate::wire::{
    blob32, lemma_read_blob32, lemma_read_u64, lemma_read_u8, lemma_stands_split,
    lemma_stands_whole, put_blob32, read_blob32, read_u64, read_u8, text32,
};

verus! {

/// What kind of mutation a record carries.
#[derive(Clone, Copy, Debug, PartialEq, Eq, Structural)]
pub enum RecordType {
    MapPut,
    MapRemove,
    /// The whole state of a structure that is not a map.
    AuxState,
}

/// The on-disk identity of a record type.
pub open spec fn type_tag(t: RecordType) -> u16 {
    match t {
        RecordType::MapPut => 1,
        RecordType::MapRemove => 2,
        RecordType::AuxState => 3,
    }
}

pub open spec fn type_of_tag(v: u16) -> Option<RecordType> {
    if v == 1 {
        Some(RecordType::MapPut)
    } else if v == 2 {
        Some(RecordType::MapRemove)
    } else if v == 3 {
        Some(RecordType::AuxState)
    } else {
        None
    }
}

impl RecordType {
    fn from_u16(v: u16) -> (r: Option<RecordType>)
        ensures
            r == type_of_tag(v),
    {
        match v {
            1 => Some(RecordType::MapPut),
            2 => Some(RecordType::MapRemove),
            3 => Some(RecordType::AuxState),
            _ => None,
        }
    }

    fn to_u16(self) -> (v: u16)
        ensures
            v == type_tag(self),
    {
        match self {
            RecordType::MapPut => 1,
            RecordType::MapRemove => 2,
            RecordType::AuxState => 3,
        }
    }
}

/// Result of decoding the next record from a byte stream.
#[derive(Debug)]
pub enum Decoded<'a> {
    /// A complete record with a good checksum. `consumed` is the full frame length.
    Record { rtype: RecordType, payload: &'a [u8], consumed: usize },
    /// Not enough bytes yet for a full frame.
    NeedMore,
    /// A corrupt or torn frame (bad checksum, unknown type, or no room for a type): stop.
    Torn,
}

/// What a [`Decoded`] holds.
pub enum DecodedView {
    Record { rtype: RecordType, payload: Seq<u8>, consumed: int },
    NeedMore,
    Torn,
}

impl<'a> View for Decoded<'a> {
    type V = DecodedView;

    open spec fn view(&self) -> DecodedView {
        match self {
            Decoded::Record { rtype, payload, consumed } => DecodedView::Record {
                rtype: *rtype,
                payload: payload@,
                consumed: *consumed as int,
            },
            Decoded::NeedMore => DecodedView::NeedMore,
            Decoded::Torn => DecodedView::Torn,
        }
    }
}

/// `len` and `crc32`.
pub const HEADER: usize = 8;

/// The longest payload that a frame can hold.
pub const MAX_PAYLOAD: usize = 0xffff_fffd;

/// What the checksum of a record covers.
pub open spec fn record_body(t: RecordType, payload: Seq<u8>) -> Seq<u8> {
    u16_le(type_tag(t)) + payload
}

/// A body behind its length and checksum.
pub open spec fn sealed(body: Seq<u8>, crc: u32) -> Seq<u8> {
    u32_le(body.len() as u32) + u32_le(crc) + body
}

/// The frame of a record.
pub open spec fn record_frame(t: RecordType, payload: Seq<u8>) -> Seq<u8> {
    sealed(record_body(t, payload), crc32(record_body(t, payload)))
}

/// What a frame that is all there says, given the checksum of its body.
pub open spec fn judged(b: Seq<u8>, computed: u32) -> DecodedView {
    let end = HEADER + u32_at(b, 0);
    if computed != u32_at(b, 4) {
        DecodedView::Torn
    } else {
        match type_of_tag(u16_at(b, HEADER as int)) {
            Some(rtype) => DecodedView::Record {
                rtype,
                payload: b.subrange(HEADER + 2, end),
                consumed: end,
            },
            None => DecodedView::Torn,
        }
    }
}

/// Whether `b` starts with a whole frame, as far as its length says.
pub open spec fn is_whole(b: Seq<u8>) -> bool {
    b.len() >= HEADER && u32_at(b, 0) >= 2 && b.len() >= HEADER + u32_at(b, 0)
}

/// The record at the start of `b`.
pub open spec fn first_record(b: Seq<u8>) -> DecodedView {
    if b.len() < HEADER {
        DecodedView::NeedMore
    } else if u32_at(b, 0) < 2 {
        DecodedView::Torn
    } else if b.len() < HEADER + u32_at(b, 0) {
        DecodedView::NeedMore
    } else {
        judged(b, crc32(b.subrange(HEADER as int, HEADER + u32_at(b, 0))))
    }
}

/// Appends a body behind its length and the given checksum.
pub fn seal(buf: &mut Vec<u8>, body: &[u8], crc: u32)
    requires
        body@.len() <= u32::MAX,
    ensures
        final(buf)@ == old(buf)@ + sealed(body@, crc),
{
    put_u32(buf, body.len() as u32);
    put_u32(buf, crc);
    put_slice(buf, body);
    assert(buf@ =~= old(buf)@ + sealed(body@, crc));
}

/// Appends a framed record to `buf`.
fn frame(buf: &mut Vec<u8>, rtype: RecordType, payload: &[u8])
    requires
        payload@.len() <= MAX_PAYLOAD,
    ensures
        final(buf)@ == old(buf)@ + record_frame(rtype, payload@),
{
    broadcast use lemma_le_digits_len;

    let mut body: Vec<u8> = Vec::new();
    put_u16(&mut body, rtype.to_u16());
    put_slice(&mut body, payload);
    assert(body@ =~= record_body(rtype, payload@));
    let crc: u32 = crc32_of(body.as_slice());
    seal(buf, body.as_slice(), crc);
}

/// The payload `stamp | ttl_ms | map | key | value`.
pub open spec fn put_payload(
    stamp: u64,
    ttl_ms: u64,
    map: Seq<char>,
    key: Seq<u8>,
    value: Seq<u8>,
) -> Seq<u8> {
    u64_le(stamp) + u64_le(ttl_ms) + text32(map) + blob32(key) + blob32(value)
}

/// The payload `stamp | map | key`.
pub open spec fn remove_payload(stamp: u64, map: Seq<char>, key: Seq<u8>) -> Seq<u8> {
    u64_le(stamp) + text32(map) + blob32(key)
}

/// The payload `kind | name | state`.
pub open spec fn aux_payload(kind: u8, name: Seq<char>, state: Seq<u8>) -> Seq<u8> {
    seq![kind] + text32(name) + blob32(state)
}

/// Encodes a `MapPut` record into `buf`. Payload: `stamp | ttl_ms | map | key | value`.
pub fn encode_map_put(
    buf: &mut Vec<u8>,
    stamp: u64,
    ttl_ms: u64,
    map: &str,
    key: &[u8],
    value: &[u8],
)
    requires
        put_payload(stamp, ttl_ms, map@, key@, value@).len() <= MAX_PAYLOAD,
    ensures
        final(buf)@ == old(buf)@ + record_frame(
            RecordType::MapPut,
            put_payload(stamp, ttl_ms, map@, key@, value@),
        ),
{
    let mut p: Vec<u8> = Vec::new();
    put_u64(&mut p, stamp);
    put_u64(&mut p, ttl_ms);
    put_blob32(&mut p, text_bytes(map));
    put_blob32(&mut p, key);
    put_blob32(&mut p, value);
    assert(p@ =~= put_payload(stamp, ttl_ms, map@, key@, value@));
    frame(buf, RecordType::MapPut, p.as_slice());
}

/// Encodes a `MapRemove` record into `buf`. Payload: `stamp | map | key`.
pub fn encode_map_remove(buf: &mut Vec<u8>, stamp: u64, map: &str, key: &[u8])
    requires
        remove_payload(stamp, map@, key@).len() <= MAX_PAYLOAD,
    ensures
        final(buf)@ == old(buf)@ + record_frame(
            RecordType::MapRemove,
            remove_payload(stamp, map@, key@),
        ),
{
    let mut p: Vec<u8> = Vec::new();
    put_u64(&mut p, stamp);
    put_blob32(&mut p, text_bytes(map));
    put_blob32(&mut p, key);
    assert(p@ =~= remove_payload(stamp, map@, key@));
    frame(buf, RecordType::MapRemove, p.as_slice());
}

/// Encodes an `AuxState` record into `buf`. Payload: `kind | name | state`.
pub fn encode_aux_state(buf: &mut Vec<u8>, kind: u8, name: &str, state: &[u8])
    requires
        aux_payload(kind, name@, state@).len() <= MAX_PAYLOAD,
    ensures
        final(buf)@ == old(buf)@ + record_frame(
            RecordType::AuxState,
            aux_payload(kind, name@, state@),
        ),
{
    let mut p: Vec<u8> = Vec::new();
    p.push(kind);
    put_blob32(&mut p, text_bytes(name));
    put_blob32(&mut p, state);
    assert(p@ =~= aux_payload(kind, name@, state@));
    frame(buf, RecordType::AuxState, p.as_slice());
}

/// Reads a length-prefixed byte string at `off`; returns it and the offset behind it.
pub fn get_bytes<'a>(payload: &'a [u8], off: usize) -> (r: Option<(&'a [u8], usize)>)
    requires
        off <= payload@.len(),
    ensures
        match r {
            Some((b, next)) => next <= payload@.len() && read_blob32(payload@, off as int) == Some(
                (b@, next as int),
            ),
            None => read_blob32(payload@, off as int) is None,
        },
{
    let left: usize = payload.len() - off;
    if left < 4 {
        return None;
    }
    let n: usize = get_u32(payload, off) as usize;
    if n > left - 4 {
        return None;
    }
    let start: usize = off + 4;
    Some((slice_subrange(payload, start, start + n), start + n))
}

/// Decoded `MapPut` fields.
pub struct MapPut<'a> {
    pub stamp: u64,
    pub ttl_ms: u64,
    pub map: &'a str,
    pub key: &'a [u8],
    pub value: &'a [u8],
}

/// What a `MapPut` payload holds: stamp, lifetime, map, key, value.
pub open spec fn put_of(p: Seq<u8>) -> Option<(u64, u64, Seq<char>, Seq<u8>, Seq<u8>)> {
    match (read_u64(p, 0), read_u64(p, 8)) {
        (Some((stamp, _)), Some((ttl_ms, _))) => match read_blob32(p, 16) {
            None => None,
            Some((map, o1)) => match read_blob32(p, o1) {
                None => None,
                Some((key, o2)) => match (read_blob32(p, o2), text_of(map)) {
                    (Some((value, _)), Some(name)) => Some((stamp, ttl_ms, name, key, value)),
                    _ => None,
                },
            },
        },
        _ => None,
    }
}

/// Decoded `MapRemove` fields.
pub struct MapRemove<'a> {
    pub stamp: u64,
    pub map: &'a str,
    pub key: &'a [u8],
}

/// What a `MapRemove` payload holds: stamp, map, key.
pub open spec fn remove_of(p: Seq<u8>) -> Option<(u64, Seq<char>, Seq<u8>)> {
    match read_u64(p, 0) {
        None => None,
        Some((stamp, _)) => match read_blob32(p, 8) {
            None => None,
            Some((map, o1)) => match (read_blob32(p, o1), text_of(map)) {
                (Some((key, _)), Some(name)) => Some((stamp, name, key)),
                _ => None,
            },
        },
    }
}

/// Decoded `AuxState` fields.
pub struct AuxState<'a> {
    pub kind: u8,
    pub name: &'a str,
    pub state: &'a [u8],
}

/// What an `AuxState` payload holds: kind, name, state.
pub open spec fn aux_of(p: Seq<u8>) -> Option<(u8, Seq<char>, Seq<u8>)> {
    match read_u8(p, 0) {
        None => None,
        Some((kind, _)) => match read_blob32(p, 1) {
            None => None,
            Some((name, o1)) => match (read_blob32(p, o1), text_of(name)) {
                (Some((state, _)), Some(name)) => Some((kind, name, state)),
                _ => None,
            },
        },
    }
}

pub fn parse_map_put<'a>(payload: &'a [u8]) -> (r: Option<MapPut<'a>>)
    ensures
        match r {
            Some(m) => put_of(payload@) == Some((m.stamp, m.ttl_ms, m.map@, m.key@, m.value@)),
            None => put_of(payload@) is None,
        },
{
    if payload.len() < 16 {
        return None;
    }
    let stamp: u64 = get_u64(payload, 0);
    let ttl_ms: u64 = get_u64(payload, 8);
    let (map, o1) = match get_bytes(payload, 16) {
        Some(x) => x,
        None => {
            return None;
        },
    };
    let (key, o2) = match get_bytes(payload, o1) {
        Some(x) => x,
        None => {
            return None;
        },
    };
    let (value, o3) = match get_bytes(payload, o2) {
        Some(x) => x,
        None => {
            return None;
        },
    };
    match as_text(map) {
        Some(map) => Some(MapPut { stamp, ttl_ms, map, key, value }),
        None => None,
    }
}

pub fn parse_map_remove<'a>(payload: &'a [u8]) -> (r: Option<MapRemove<'a>>)
    ensures
        match r {
            Some(m) => remove_of(payload@) == Some((m.stamp, m.map@, m.key@)),
            None => remove_of(payload@) is None,
        },
{
    if payload.len() < 8 {
        return None;
    }
    let stamp: u64 = get_u64(payload, 0);
    let (map, o1) = match get_bytes(payload, 8) {
        Some(x) => x,
        None => {
            return None;
        },
    };
    let (key, o2) = match get_bytes(payload, o1) {
        Some(x) => x,
        None => {
            return None;
        },
    };
    match as_text(map) {
        Some(map) => Some(MapRemove { stamp, map, key }),
        None => None,
    }
}

pub fn parse_aux_state<'a>(payload: &'a [u8]) -> (r: Option<AuxState<'a>>)
    ensures
        match r {
            Some(a) => aux_of(payload@) == Some((a.kind, a.name@, a.state@)),
            None => aux_of(payload@) is None,
        },
{
    if payload.len() < 1 {
        return None;
    }
    let kind: u8 = payload[0];
    let (name, o1) = match get_bytes(payload, 1) {
        Some(x) => x,
        None => {
            return None;
        },
    };
    let (state, o2) = match get_bytes(payload, o1) {
        Some(x) => x,
        None => {
            return None;
        },
    };
    match as_text(name) {
        Some(name) => Some(AuxState { kind, name, state }),
        None => None,
    }
}

/// What a whole frame says, given the checksum of its body.
pub fn judge_record<'a>(bytes: &'a [u8], computed: u32) -> (d: Decoded<'a>)
    requires
        is_whole(bytes@),
    ensures
        d@ == judged(bytes@, computed),
{
    let len: usize = bytes.len();
    let end: usize = HEADER + get_u32(bytes, 0) as usize;
    if computed != get_u32(bytes, 4) {
        return Decoded::Torn;
    }
    match RecordType::from_u16(get_u16(bytes, HEADER)) {
        Some(rtype) => Decoded::Record {
            rtype,
            payload: slice_subrange(bytes, HEADER + 2, end),
            consumed: end,
        },
        None => Decoded::Torn,
    }
}

/// Decodes the next record at the start of `bytes`.
pub fn decode_record<'a>(bytes: &'a [u8]) -> (d: Decoded<'a>)
    ensures
        d@ == first_record(bytes@),
{
    if bytes.len() < HEADER {
        return Decoded::NeedMore;
    }
    let body_len: usize = get_u32(bytes, 0) as usize;
    if body_len < 2 {
        return Decoded::Torn;
    }
    if bytes.len() - HEADER < body_len {
        return Decoded::NeedMore;
    }
    let body = slice_subrange(bytes, HEADER, HEADER + body_len);
    judge_record(bytes, crc32_of(body))
}

/// A frame decodes to its record, whatever stands behind it.
pub proof fn law_records_read_back(t: RecordType, payload: Seq<u8>, rest: Seq<u8>)
    requires
        payload.len() <= MAX_PAYLOAD,
    ensures
        first_record(record_frame(t, payload) + rest) == (DecodedView::Record {
            rtype: t,
            payload,
            consumed: record_frame(t, payload).len() as int,
        }),
{
    broadcast use lemma_le_digits_len;

    let body = record_body(t, payload);
    let b = record_frame(t, payload) + rest;
    let end = record_frame(t, payload).len() as int;
    lemma_ints_read_back(type_tag(t), body.len() as u32, 0, 0, 0);
    lemma_ints_read_back(0, crc32(body), 0, 0, 0);
    assert(b.subrange(0, 4) =~= u32_le(body.len() as u32));
    assert(b.subrange(4, 8) =~= u32_le(crc32(body)));
    assert(b.subrange(8, end) =~= body);
    assert(b.subrange(8, 10) =~= u16_le(type_tag(t)));
    assert(b.subrange(10, end) =~= payload);
}

/// A frame that is cut anywhere asks for more bytes.
pub proof fn law_cut_records_need_more(t: RecordType, payload: Seq<u8>, cut: int)
    requires
        payload.len() <= MAX_PAYLOAD,
        0 <= cut < record_frame(t, payload).len(),
    ensures
        first_record(record_frame(t, payload).take(cut)) == DecodedView::NeedMore,
{
    broadcast use lemma_le_digits_len;

    let body = record_body(t, payload);
    let b = record_frame(t, payload).take(cut);
    if cut >= 8 {
        lemma_ints_read_back(0, body.len() as u32, 0, 0, 0);
        assert(b.subrange(0, 4) =~= u32_le(body.len() as u32));
    }
}

/// A frame whose body no longer has the checksum that stands in front of it is torn.
pub proof fn law_changed_records_are_torn(body: Seq<u8>, changed: Seq<u8>, rest: Seq<u8>)
    requires
        2 <= body.len() == changed.len() <= u32::MAX,
        crc32(changed) != crc32(body),
    ensures
        first_record(sealed(changed, crc32(body)) + rest) == DecodedView::Torn,
{
    broadcast use lemma_le_digits_len;

    let b = sealed(changed, crc32(body)) + rest;
    lemma_ints_read_back(0, changed.len() as u32, 0, 0, 0);
    lemma_ints_read_back(0, crc32(body), 0, 0, 0);
    assert(b.subrange(0, 4) =~= u32_le(changed.len() as u32));
    assert(b.subrange(4, 8) =~= u32_le(crc32(body)));
    assert(b.subrange(8, 8 + changed.len() as int) =~= changed);
}

/// The payloads parse back to what they were written from.
pub proof fn law_payloads_read_back(
    stamp: u64,
    ttl_ms: u64,
    name: Seq<char>,
    key: Seq<u8>,
    value: Seq<u8>,
    kind: u8,
)
    requires
        encode_utf8(name).len() <= u32::MAX,
        key.len() <= u32::MAX,
        value.len() <= u32::MAX,
    ensures
        put_of(put_payload(stamp, ttl_ms, name, key, value)) == Some(
            (stamp, ttl_ms, name, key, value),
        ),
        remove_of(remove_payload(stamp, name, key)) == Some((stamp, name, key)),
        aux_of(aux_payload(kind, name, value)) == Some((kind, name, value)),
{
    broadcast use lemma_le_digits_len;

    let n = encode_utf8(name);
    lemma_text_reads_back(name);
    let p = put_payload(stamp, ttl_ms, name, key, value);
    lemma_stands_whole(p);
    let a1 = u64_le(stamp) + u64_le(ttl_ms);
    let a2 = a1 + text32(name);
    let a3 = a2 + blob32(key);
    lemma_stands_split(p, 0, a3, blob32(value));
    lemma_stands_split(p, 0, a2, blob32(key));
    lemma_stands_split(p, 0, a1, text32(name));
    lemma_stands_split(p, 0, u64_le(stamp), u64_le(ttl_ms));
    lemma_read_u64(p, 0, stamp);
    lemma_read_u64(p, 8, ttl_ms);
    lemma_read_blob32(p, 16, n);
    lemma_read_blob32(p, a2.len() as int, key);
    lemma_read_blob32(p, a3.len() as int, value);
    let r = remove_payload(stamp, name, key);
    lemma_stands_whole(r);
    let b1 = u64_le(stamp) + text32(name);
    lemma_stands_split(r, 0, b1, blob32(key));
    lemma_stands_split(r, 0, u64_le(stamp), text32(name));
    lemma_read_u64(r, 0, stamp);
    lemma_read_blob32(r, 8, n);
    lemma_read_blob32(r, b1.len() as int, key);
    let x = aux_payload(kind, name, value);
    lemma_stands_whole(x);
    let c1 = seq![kind] + text32(name);
    lemma_stands_split(x, 0, c1, blob32(value));
    lemma_stands_split(x, 0, seq![kind], text32(name));
    lemma_read_u8(x, 0, kind);
    lemma_read_blob32(x, 1, n);
    lemma_read_blob32(x, c1.len() as int, value);
}

/// The bytes of records: the length of the body and its checksum, four bytes each, then the body: a
/// type of two bytes and the payload.
pub proof fn law_record_layout(payload: Seq<u8>, map: Seq<char>, key: Seq<u8>, value: Seq<u8>, stamp: u64, ttl_ms: u64, kind: u8)
    ensures
        record_body(RecordType::MapPut, payload) == u16_le(1) + payload,
        record_body(RecordType::MapRemove, payload) == u16_le(2) + payload,
        record_body(RecordType::AuxState, payload) == u16_le(3) + payload,
        ({
            let body = record_body(RecordType::MapPut, payload);
            record_frame(RecordType::MapPut, payload) == u32_le(body.len() as u32) + u32_le(
                crc32(body),
            ) + body
        }),
        put_payload(stamp, ttl_ms, map, key, value) == u64_le(stamp) + u64_le(ttl_ms) + text32(map)
            + blob32(key) + blob32(value),
        remove_payload(stamp, map, key) == u64_le(stamp) + text32(map) + blob32(key),
        aux_payload(kind, map, value) == seq![kind] + text32(map) + blob32(value),
{
}

} // verus!
