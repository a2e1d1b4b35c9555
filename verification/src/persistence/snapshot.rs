//! Sectioned snapshot: a header followed by typed sections.
//!
//! One section holds the map entries, one the other structures; unknown section types are skipped
//! on load. The bytes are meant to be installed atomically: written to a temporary file, synced,
//! then renamed.

use vstd::prelude::*;
use vstd::slice::slice_subrange;
use vstd::utf8::encode_utf8;
use super::record::get_bytes;
use super::wal::{StoreOp, StoreOpView};
use crate::bytes::{
    copy_slice, get_u16, get_u32, get_u64, lemma_ints_read_back, lemma_le_digits_len, put_slice,
    put_u16, put_u32, put_u64, u16_at, u16_le, u32_at, u32_le, u64_le,
};
use crate::model::{lemma_views_empty, lemma_views_push, views};
use crate::text::{as_text, lemma_text_reads_back, text_bytes, text_of};
use crate::wire::{
    blob32, lemma_read_blob32, lemma_read_u32, lemma_read_u64, lemma_read_u8, lemma_stands_split,
    lemma_stands_whole, put_blob32, read_blob32, read_u64, read_u8, stands_at, text32,
};

verus! {

pub const VERSION: u16 = 1;

pub const SECTION_MAP_ENTRIES: u16 = 1;

pub const SECTION_AUX: u16 = 2;

/// The first bytes of every snapshot.
pub open spec fn magic() -> Seq<u8> {
    seq![0x42u8, 0x53, 0x4e, 0x50]
}

/// A map entry with its stamp: map, key, value, stamp.
pub type StampedEntry = (String, Vec<u8>, Vec<u8>, u64);

/// What a [`StampedEntry`] holds.
pub type StampedView = (Seq<char>, Seq<u8>, Seq<u8>, u64);

/// A structure that is not a map: kind, name, state.
pub type AuxEntry = (u8, String, Vec<u8>);

/// What an [`AuxEntry`] holds.
pub type AuxView = (u8, Seq<char>, Seq<u8>);

/// Why a snapshot cannot be loaded.
#[derive(Clone, Copy, Debug, PartialEq, Eq, Structural)]
pub enum SnapshotError {
    /// The file does not start like a snapshot.
    BadMagic,
}

pub open spec fn section(stype: u16, body: Seq<u8>) -> Seq<u8> {
    u16_le(stype) + u32_le(body.len() as u32) + body
}

pub open spec fn map_entry_bytes(e: StampedView) -> Seq<u8> {
    text32(e.0) + blob32(e.1) + blob32(e.2) + u64_le(e.3)
}

pub open spec fn map_entries_bytes(es: Seq<StampedView>) -> Seq<u8>
    decreases es.len(),
{
    if es.len() == 0 {
        Seq::empty()
    } else {
        map_entries_bytes(es.drop_last()) + map_entry_bytes(es.last())
    }
}

pub open spec fn aux_entry_bytes(e: AuxView) -> Seq<u8> {
    seq![e.0] + text32(e.1) + blob32(e.2)
}

pub open spec fn aux_entries_bytes(es: Seq<AuxView>) -> Seq<u8>
    decreases es.len(),
{
    if es.len() == 0 {
        Seq::empty()
    } else {
        aux_entries_bytes(es.drop_last()) + aux_entry_bytes(es.last())
    }
}

pub open spec fn map_section(es: Seq<StampedView>) -> Seq<u8> {
    u32_le(es.len() as u32) + map_entries_bytes(es)
}

pub open spec fn aux_section(es: Seq<AuxView>) -> Seq<u8> {
    u32_le(es.len() as u32) + aux_entries_bytes(es)
}

/// The bytes of a snapshot.
pub open spec fn snapshot_bytes(entries: Seq<StampedView>, aux: Seq<AuxView>) -> Seq<u8> {
    magic() + u16_le(VERSION) + section(SECTION_MAP_ENTRIES, map_section(entries)) + section(
        SECTION_AUX,
        aux_section(aux),
    )
}

/// The fields of the map entry at `p` (the name still as bytes), and the position behind it.
pub open spec fn read_map_entry(b: Seq<u8>, p: int) -> Option<
    (Seq<u8>, Seq<u8>, Seq<u8>, u64, int),
> {
    match read_blob32(b, p) {
        None => None,
        Some((map, o1)) => match read_blob32(b, o1) {
            None => None,
            Some((key, o2)) => match read_blob32(b, o2) {
                None => None,
                Some((value, o3)) => match read_u64(b, o3) {
                    None => None,
                    Some((stamp, o4)) => Some((map, key, value, stamp, o4)),
                },
            },
        },
    }
}

/// What loading `n` map entries from `p` on does to the store: it stops where an entry is short,
/// and passes over one whose name is no text.
pub open spec fn map_entry_ops(b: Seq<u8>, p: int, n: nat) -> Seq<StoreOpView>
    decreases n,
{
    if n == 0 {
        Seq::empty()
    } else {
        match read_map_entry(b, p) {
            None => Seq::empty(),
            Some((map, key, value, stamp, q)) => (match text_of(map) {
                Some(map) => seq![StoreOpView::PutMerge { map, key, value, ttl_ms: 0, stamp }],
                None => Seq::empty(),
            }) + map_entry_ops(b, q, (n - 1) as nat),
        }
    }
}

/// The fields of the structure at `p` (the name still as bytes), and the position behind it.
pub open spec fn read_aux_entry(b: Seq<u8>, p: int) -> Option<(u8, Seq<u8>, Seq<u8>, int)> {
    match read_u8(b, p) {
        None => None,
        Some((kind, o0)) => match read_blob32(b, o0) {
            None => None,
            Some((name, o1)) => match read_blob32(b, o1) {
                None => None,
                Some((state, o2)) => Some((kind, name, state, o2)),
            },
        },
    }
}

/// What loading `n` structures from `p` on does to the store.
pub open spec fn aux_entry_ops(b: Seq<u8>, p: int, n: nat) -> Seq<StoreOpView>
    decreases n,
{
    if n == 0 {
        Seq::empty()
    } else {
        match read_aux_entry(b, p) {
            None => Seq::empty(),
            Some((kind, name, state, q)) => (match text_of(name) {
                Some(name) => seq![StoreOpView::InstallAux { kind, name, state }],
                None => Seq::empty(),
            }) + aux_entry_ops(b, q, (n - 1) as nat),
        }
    }
}

/// What loading one section does to the store.
pub open spec fn section_ops(stype: u16, body: Seq<u8>) -> Seq<StoreOpView> {
    if body.len() < 4 {
        Seq::empty()
    } else if stype == SECTION_MAP_ENTRIES {
        map_entry_ops(body, 4, u32_at(body, 0) as nat)
    } else if stype == SECTION_AUX {
        aux_entry_ops(body, 4, u32_at(body, 0) as nat)
    } else {
        Seq::empty()
    }
}

/// What loading a series of sections does to the store; a truncated section ends it.
pub open spec fn sections_ops(d: Seq<u8>) -> Seq<StoreOpView>
    decreases d.len(),
{
    if d.len() < 6 || 6 + u32_at(d, 2) > d.len() {
        Seq::empty()
    } else {
        let end = 6 + u32_at(d, 2);
        section_ops(u16_at(d, 0), d.subrange(6, end)) + sections_ops(d.skip(end))
    }
}

/// What loading a snapshot does to the store.
pub open spec fn snapshot_ops(d: Seq<u8>) -> Result<Seq<StoreOpView>, SnapshotError> {
    if d.len() < 6 || d.take(4) != magic() {
        Err(SnapshotError::BadMagic)
    } else {
        Ok(sections_ops(d.skip(6)))
    }
}

fn put_section(buf: &mut Vec<u8>, stype: u16, body: &[u8])
    ensures
        final(buf)@ == old(buf)@ + section(stype, body@),
{
    put_u16(buf, stype);
    put_u32(buf, body.len() as u32);
    put_slice(buf, body);
    assert(buf@ =~= old(buf)@ + section(stype, body@));
}

/// The bytes of a snapshot of the store's map entries and other structures.
pub fn write_snapshot(entries: &Vec<StampedEntry>, aux: &Vec<AuxEntry>) -> (buf: Vec<u8>)
    ensures
        buf@ == snapshot_bytes(views(entries@), views(aux@)),
{
    let ghost es = views(entries@);
    let ghost xs = views(aux@);
    let mut buf: Vec<u8> = Vec::new();
    buf.push(0x42);
    buf.push(0x53);
    buf.push(0x4e);
    buf.push(0x50);
    assert(buf@ =~= magic());
    put_u16(&mut buf, VERSION);
    let mut sec: Vec<u8> = Vec::new();
    put_u32(&mut sec, entries.len() as u32);
    let ghost head = sec@;
    assert(head =~= u32_le(es.len() as u32));
    assert(head + map_entries_bytes(es.take(0)) =~= head);
    let mut i: usize = 0;
    while i < entries.len()
        invariant
            i <= entries@.len(),
            es == views(entries@),
            sec@ =~= head + map_entries_bytes(es.take(i as int)),
        decreases entries@.len() - i,
    {
        let e = &entries[i];
        let ghost before = sec@;
        put_blob32(&mut sec, text_bytes(e.0.as_str()));
        put_blob32(&mut sec, e.1.as_slice());
        put_blob32(&mut sec, e.2.as_slice());
        put_u64(&mut sec, e.3);
        proof {
            let next = es.take(i + 1);
            assert(next.drop_last() =~= es.take(i as int));
            assert(next.last() == entries@[i as int]@);
            assert(sec@ =~= before + map_entry_bytes(next.last()));
        }
        i = i + 1;
    }
    assert(es.take(i as int) =~= es);
    put_section(&mut buf, SECTION_MAP_ENTRIES, sec.as_slice());
    let mut asec: Vec<u8> = Vec::new();
    put_u32(&mut asec, aux.len() as u32);
    let ghost ahead = asec@;
    assert(ahead =~= u32_le(xs.len() as u32));
    assert(ahead + aux_entries_bytes(xs.take(0)) =~= ahead);
    let mut k: usize = 0;
    while k < aux.len()
        invariant
            k <= aux@.len(),
            xs == views(aux@),
            asec@ =~= ahead + aux_entries_bytes(xs.take(k as int)),
        decreases aux@.len() - k,
    {
        let e = &aux[k];
        let ghost before = asec@;
        asec.push(e.0);
        put_blob32(&mut asec, text_bytes(e.1.as_str()));
        put_blob32(&mut asec, e.2.as_slice());
        proof {
            let next = xs.take(k + 1);
            assert(next.drop_last() =~= xs.take(k as int));
            assert(next.last() == aux@[k as int]@);
            assert(asec@ =~= before + aux_entry_bytes(next.last()));
        }
        k = k + 1;
    }
    assert(xs.take(k as int) =~= xs);
    put_section(&mut buf, SECTION_AUX, asec.as_slice());
    buf
}

fn load_map_entries(body: &[u8], ops: &mut Vec<StoreOp>)
    ensures
        views(final(ops)@) == views(old(ops)@) + section_ops(SECTION_MAP_ENTRIES, body@),
{
    broadcast use lemma_views_push;

    let ghost before = views(ops@);
    let ghost none = Seq::<StoreOpView>::empty();
    assert(before + none =~= before);
    if body.len() < 4 {
        return;
    }
    let count: u32 = get_u32(body, 0);
    let ghost all = map_entry_ops(body@, 4, count as nat);
    let mut off: usize = 4;
    let mut left: u32 = count;
    while left > 0
        invariant
            off <= body@.len(),
            none == Seq::<StoreOpView>::empty(),
            views(ops@) + map_entry_ops(body@, off as int, left as nat) =~= before + all,
        ensures
            views(ops@) =~= before + all,
        decreases left,
    {
        let ghost so_far = views(ops@);
        let (map, o1) = match get_bytes(body, off) {
            Some(x) => x,
            None => {
                break;
            },
        };
        let (key, o2) = match get_bytes(body, o1) {
            Some(x) => x,
            None => {
                break;
            },
        };
        let (value, o3) = match get_bytes(body, o2) {
            Some(x) => x,
            None => {
                break;
            },
        };
        if body.len() - o3 < 8 {
            break;
        }
        let stamp: u64 = get_u64(body, o3);
        let ghost rest = map_entry_ops(body@, o3 + 8, (left - 1) as nat);
        match as_text(map) {
            Some(m) => {
                let op = StoreOp::PutMerge {
                    map: m.to_string(),
                    key: copy_slice(key),
                    value: copy_slice(value),
                    ttl_ms: 0,
                    stamp,
                };
                assert(so_far.push(op@) + rest =~= so_far + (seq![op@] + rest));
                ops.push(op);
            },
            None => {
                assert(none + rest =~= rest);
            },
        }
        off = o3 + 8;
        left = left - 1;
    }
}

fn load_aux(body: &[u8], ops: &mut Vec<StoreOp>)
    ensures
        views(final(ops)@) == views(old(ops)@) + section_ops(SECTION_AUX, body@),
{
    broadcast use lemma_views_push;

    let ghost before = views(ops@);
    let ghost none = Seq::<StoreOpView>::empty();
    assert(before + none =~= before);
    if body.len() < 4 {
        return;
    }
    let count: u32 = get_u32(body, 0);
    let ghost all = aux_entry_ops(body@, 4, count as nat);
    let mut off: usize = 4;
    let mut left: u32 = count;
    while left > 0
        invariant
            off <= body@.len(),
            none == Seq::<StoreOpView>::empty(),
            views(ops@) + aux_entry_ops(body@, off as int, left as nat) =~= before + all,
        ensures
            views(ops@) =~= before + all,
        decreases left,
    {
        let ghost so_far = views(ops@);
        if off >= body.len() {
            break;
        }
        let kind: u8 = body[off];
        let (name, o1) = match get_bytes(body, off + 1) {
            Some(x) => x,
            None => {
                break;
            },
        };
        let (state, o2) = match get_bytes(body, o1) {
            Some(x) => x,
            None => {
                break;
            },
        };
        let ghost rest = aux_entry_ops(body@, o2 as int, (left - 1) as nat);
        match as_text(name) {
            Some(n) => {
                let op = StoreOp::InstallAux { kind, name: n.to_string(), state: copy_slice(state) };
                assert(so_far.push(op@) + rest =~= so_far + (seq![op@] + rest));
                ops.push(op);
            },
            None => {
                assert(none + rest =~= rest);
            },
        }
        off = o2;
        left = left - 1;
    }
}

/// What loading a snapshot does to the store, in order.
pub fn load_snapshot(data: &[u8]) -> (r: Result<Vec<StoreOp>, SnapshotError>)
    ensures
        match r {
            Ok(ops) => snapshot_ops(data@) == Ok::<Seq<StoreOpView>, SnapshotError>(views(ops@)),
            Err(e) => snapshot_ops(data@) == Err::<Seq<StoreOpView>, SnapshotError>(e),
        },
{
    broadcast use {lemma_views_push, lemma_views_empty};

    if data.len() < 6 {
        return Err(SnapshotError::BadMagic);
    }
    if data[0] != 0x42 || data[1] != 0x53 || data[2] != 0x4e || data[3] != 0x50 {
        assert(data@.take(4)[0] == data@[0] && data@.take(4)[1] == data@[1] && data@.take(4)[2]
            == data@[2] && data@.take(4)[3] == data@[3]);
        assert(magic()[0] == 0x42 && magic()[1] == 0x53 && magic()[2] == 0x4e && magic()[3]
            == 0x50);
        return Err(SnapshotError::BadMagic);
    }
    assert(data@.take(4) =~= magic());
    let mut ops: Vec<StoreOp> = Vec::new();
    let mut off: usize = 6;
    let ghost all = sections_ops(data@.skip(6));
    let ghost none = Seq::<StoreOpView>::empty();
    assert(views(ops@) + all =~= all);
    while data.len() - off >= 6
        invariant
            6 <= off <= data@.len(),
            none == Seq::<StoreOpView>::empty(),
            views(ops@) + sections_ops(data@.skip(off as int)) =~= all,
        ensures
            views(ops@) =~= all,
        decreases data@.len() - off,
    {
        let ghost so_far = views(ops@);
        let ghost rest = data@.skip(off as int);
        assert(rest.subrange(0, 2) =~= data@.subrange(off as int, off + 2));
        assert(rest.subrange(2, 6) =~= data@.subrange(off + 2, off + 6));
        let stype: u16 = get_u16(data, off);
        let slen: usize = get_u32(data, off + 2) as usize;
        if slen > data.len() - off - 6 {
            assert(so_far + none =~= so_far);
            break;
        }
        let end: usize = off + 6 + slen;
        let body = slice_subrange(data, off + 6, end);
        assert(body@ =~= rest.subrange(6, 6 + slen as int));
        assert(rest.skip(6 + slen as int) =~= data@.skip(end as int));
        if stype == SECTION_MAP_ENTRIES {
            load_map_entries(body, &mut ops);
        } else if stype == SECTION_AUX {
            load_aux(body, &mut ops);
        }
        proof {
            let done = section_ops(stype, body@);
            let later = sections_ops(data@.skip(end as int));
            assert(so_far + none =~= so_far);
            assert(views(ops@) == so_far + done);
            assert(so_far + done + later =~= so_far + (done + later));
        }
        off = end;
    }
    Ok(ops)
}

/// Whether every count and length of a snapshot has a field that holds it.
pub open spec fn fits(entries: Seq<StampedView>, aux: Seq<AuxView>) -> bool {
    &&& entries.len() <= u32::MAX
    &&& aux.len() <= u32::MAX
    &&& map_section(entries).len() <= u32::MAX
    &&& aux_section(aux).len() <= u32::MAX
    &&& forall|i: int|
        0 <= i < entries.len() ==> encode_utf8((#[trigger] entries[i]).0).len() <= u32::MAX
            && entries[i].1.len() <= u32::MAX && entries[i].2.len() <= u32::MAX
    &&& forall|i: int|
        0 <= i < aux.len() ==> encode_utf8((#[trigger] aux[i]).1).len() <= u32::MAX
            && aux[i].2.len() <= u32::MAX
}

/// What loading `entries` back does to the store.
pub open spec fn put_ops(entries: Seq<StampedView>) -> Seq<StoreOpView> {
    Seq::new(
        entries.len(),
        |i: int|
            StoreOpView::PutMerge {
                map: entries[i].0,
                key: entries[i].1,
                value: entries[i].2,
                ttl_ms: 0,
                stamp: entries[i].3,
            },
    )
}

/// What loading `aux` back does to the store.
pub open spec fn install_ops(aux: Seq<AuxView>) -> Seq<StoreOpView> {
    Seq::new(
        aux.len(),
        |i: int|
            StoreOpView::InstallAux { kind: aux[i].0, name: aux[i].1, state: aux[i].2 },
    )
}

proof fn lemma_map_entries_split(es: Seq<StampedView>)
    requires
        es.len() > 0,
    ensures
        map_entries_bytes(es) == map_entry_bytes(es[0]) + map_entries_bytes(es.skip(1)),
    decreases es.len(),
{
    if es.len() == 1 {
        assert(es.drop_last() =~= Seq::empty());
        assert(es.skip(1) =~= Seq::empty());
        assert(map_entries_bytes(es) =~= map_entry_bytes(es[0]) + map_entries_bytes(es.skip(1)));
    } else {
        lemma_map_entries_split(es.drop_last());
        assert(es.drop_last().skip(1) =~= es.skip(1).drop_last());
        assert(map_entries_bytes(es) =~= map_entry_bytes(es[0]) + map_entries_bytes(es.skip(1)));
    }
}

proof fn lemma_aux_entries_split(es: Seq<AuxView>)
    requires
        es.len() > 0,
    ensures
        aux_entries_bytes(es) == aux_entry_bytes(es[0]) + aux_entries_bytes(es.skip(1)),
    decreases es.len(),
{
    if es.len() == 1 {
        assert(es.drop_last() =~= Seq::empty());
        assert(es.skip(1) =~= Seq::empty());
        assert(aux_entries_bytes(es) =~= aux_entry_bytes(es[0]) + aux_entries_bytes(es.skip(1)));
    } else {
        lemma_aux_entries_split(es.drop_last());
        assert(es.drop_last().skip(1) =~= es.skip(1).drop_last());
        assert(aux_entries_bytes(es) =~= aux_entry_bytes(es[0]) + aux_entries_bytes(es.skip(1)));
    }
}

proof fn lemma_map_entry_ops(b: Seq<u8>, p: int, es: Seq<StampedView>)
    requires
        stands_at(b, p, map_entries_bytes(es)),
        forall|i: int|
            0 <= i < es.len() ==> encode_utf8((#[trigger] es[i]).0).len() <= u32::MAX
                && es[i].1.len() <= u32::MAX && es[i].2.len() <= u32::MAX,
    ensures
        map_entry_ops(b, p, es.len()) == put_ops(es),
    decreases es.len(),
{
    broadcast use lemma_le_digits_len;

    if es.len() == 0 {
        assert(put_ops(es) =~= Seq::empty());
    } else {
        let e = es[0];
        let rest = es.skip(1);
        lemma_map_entries_split(es);
        lemma_stands_split(b, p, map_entry_bytes(e), map_entries_bytes(rest));
        let a1 = text32(e.0);
        let a2 = a1 + blob32(e.1);
        let a3 = a2 + blob32(e.2);
        lemma_stands_split(b, p, a3, u64_le(e.3));
        lemma_stands_split(b, p, a2, blob32(e.2));
        lemma_stands_split(b, p, a1, blob32(e.1));
        lemma_read_blob32(b, p, encode_utf8(e.0));
        lemma_read_blob32(b, p + a1.len(), e.1);
        lemma_read_blob32(b, p + a2.len(), e.2);
        lemma_read_u64(b, p + a3.len(), e.3);
        lemma_text_reads_back(e.0);
        assert forall|i: int| 0 <= i < rest.len() implies encode_utf8(
            (#[trigger] rest[i]).0,
        ).len() <= u32::MAX && rest[i].1.len() <= u32::MAX && rest[i].2.len() <= u32::MAX by {
            assert(es[i + 1] == rest[i]);
        }
        lemma_map_entry_ops(b, p + map_entry_bytes(e).len(), rest);
        assert(put_ops(es) =~= seq![put_ops(es)[0]] + put_ops(rest));
    }
}

proof fn lemma_aux_entry_ops(b: Seq<u8>, p: int, es: Seq<AuxView>)
    requires
        stands_at(b, p, aux_entries_bytes(es)),
        forall|i: int|
            0 <= i < es.len() ==> encode_utf8((#[trigger] es[i]).1).len() <= u32::MAX
                && es[i].2.len() <= u32::MAX,
    ensures
        aux_entry_ops(b, p, es.len()) == install_ops(es),
    decreases es.len(),
{
    broadcast use lemma_le_digits_len;

    if es.len() == 0 {
        assert(install_ops(es) =~= Seq::empty());
    } else {
        let e = es[0];
        let rest = es.skip(1);
        lemma_aux_entries_split(es);
        lemma_stands_split(b, p, aux_entry_bytes(e), aux_entries_bytes(rest));
        let a0 = seq![e.0];
        let a1 = a0 + text32(e.1);
        lemma_stands_split(b, p, a1, blob32(e.2));
        lemma_stands_split(b, p, a0, text32(e.1));
        lemma_read_u8(b, p, e.0);
        lemma_read_blob32(b, p + 1, encode_utf8(e.1));
        lemma_read_blob32(b, p + a1.len(), e.2);
        lemma_text_reads_back(e.1);
        assert forall|i: int| 0 <= i < rest.len() implies encode_utf8(
            (#[trigger] rest[i]).1,
        ).len() <= u32::MAX && rest[i].2.len() <= u32::MAX by {
            assert(es[i + 1] == rest[i]);
        }
        lemma_aux_entry_ops(b, p + aux_entry_bytes(e).len(), rest);
        assert(install_ops(es) =~= seq![install_ops(es)[0]] + install_ops(rest));
    }
}

proof fn lemma_section_then(stype: u16, body: Seq<u8>, rest: Seq<u8>)
    requires
        body.len() <= u32::MAX,
    ensures
        sections_ops(section(stype, body) + rest) == section_ops(stype, body) + sections_ops(rest),
{
    broadcast use lemma_le_digits_len;

    let d = section(stype, body) + rest;
    let end = 6 + body.len() as int;
    lemma_ints_read_back(stype, body.len() as u32, 0, 0, 0);
    assert(d.subrange(0, 2) =~= u16_le(stype));
    assert(d.subrange(2, 6) =~= u32_le(body.len() as u32));
    assert(d.subrange(6, end) =~= body);
    assert(d.skip(end) =~= rest);
}

/// A snapshot loads back as what was written: every map entry and every other structure, in
/// order.
pub proof fn law_snapshots_read_back(entries: Seq<StampedView>, aux: Seq<AuxView>)
    requires
        fits(entries, aux),
    ensures
        snapshot_ops(snapshot_bytes(entries, aux)) == Ok::<Seq<StoreOpView>, SnapshotError>(
            put_ops(entries) + install_ops(aux),
        ),
{
    broadcast use lemma_le_digits_len;

    let d = snapshot_bytes(entries, aux);
    let ms = map_section(entries);
    let xs = aux_section(aux);
    let s1 = section(SECTION_MAP_ENTRIES, ms);
    let s2 = section(SECTION_AUX, xs);
    let none = Seq::<u8>::empty();
    assert(d.take(4) =~= magic());
    assert(d.skip(6) =~= s1 + s2);
    lemma_section_then(SECTION_MAP_ENTRIES, ms, s2);
    assert(s2 + none =~= s2);
    lemma_section_then(SECTION_AUX, xs, none);
    let n = u32_le(entries.len() as u32);
    lemma_stands_whole(ms);
    lemma_stands_split(ms, 0, n, map_entries_bytes(entries));
    lemma_read_u32(ms, 0, entries.len() as u32);
    lemma_map_entry_ops(ms, 4, entries);
    let m = u32_le(aux.len() as u32);
    lemma_stands_whole(xs);
    lemma_stands_split(xs, 0, m, aux_entries_bytes(aux));
    lemma_read_u32(xs, 0, aux.len() as u32);
    lemma_aux_entry_ops(xs, 4, aux);
    assert(sections_ops(none) =~= Seq::empty());
    assert(put_ops(entries) + (install_ops(aux) + Seq::<StoreOpView>::empty()) =~= put_ops(entries)
        + install_ops(aux));
}

/// The bytes of a snapshot: `BSNP`, the version, the map entries and the other structures, each
/// section behind its type and length, each list behind its number. Bytes that do not start so are
/// refused, and what stands in a section of another type is passed over.
pub proof fn law_snapshot_layout(
    entries: Seq<StampedView>,
    aux: Seq<AuxView>,
    e: StampedView,
    x: AuxView,
    d: Seq<u8>,
    stype: u16,
    body: Seq<u8>,
    rest: Seq<u8>,
)
    ensures
        ({
            let ms = u32_le(entries.len() as u32) + map_entries_bytes(entries);
            let xs = u32_le(aux.len() as u32) + aux_entries_bytes(aux);
            snapshot_bytes(entries, aux) == seq![0x42u8, 0x53, 0x4e, 0x50] + u16_le(1) + u16_le(1)
                + u32_le(ms.len() as u32) + ms + u16_le(2) + u32_le(xs.len() as u32) + xs
        }),
        map_entries_bytes(Seq::empty()) == Seq::<u8>::empty(),
        map_entries_bytes(entries.push(e)) == map_entries_bytes(entries) + text32(e.0) + blob32(e.1)
            + blob32(e.2) + u64_le(e.3),
        aux_entries_bytes(Seq::empty()) == Seq::<u8>::empty(),
        aux_entries_bytes(aux.push(x)) == aux_entries_bytes(aux) + seq![x.0] + text32(x.1) + blob32(
            x.2,
        ),
        d.len() >= 6 && d[0] == 0x42 && d[1] == 0x53 && d[2] == 0x4e && d[3] == 0x50
            <==> snapshot_ops(d) is Ok,
        body.len() <= u32::MAX && stype != 1 && stype != 2 ==> sections_ops(
            u16_le(stype) + u32_le(body.len() as u32) + body + rest,
        ) == sections_ops(rest),
{
    broadcast use lemma_le_digits_len;

    let ms = map_section(entries);
    let xs = aux_section(aux);
    assert(snapshot_bytes(entries, aux) =~= seq![0x42u8, 0x53, 0x4e, 0x50] + u16_le(1) + u16_le(1)
        + u32_le(ms.len() as u32) + ms + u16_le(2) + u32_le(xs.len() as u32) + xs);
    assert(entries.push(e).drop_last() =~= entries);
    assert(aux.push(x).drop_last() =~= aux);
    assert(map_entries_bytes(entries.push(e)) =~= map_entries_bytes(entries) + text32(e.0) + blob32(
        e.1,
    ) + blob32(e.2) + u64_le(e.3));
    assert(aux_entries_bytes(aux.push(x)) =~= aux_entries_bytes(aux) + seq![x.0] + text32(x.1)
        + blob32(x.2));
    if d.len() >= 6 {
        if d[0] == 0x42 && d[1] == 0x53 && d[2] == 0x4e && d[3] == 0x50 {
            assert(d.take(4) =~= magic());
        } else {
            assert(d.take(4)[0] == d[0] && d.take(4)[1] == d[1]);
            assert(d.take(4)[2] == d[2] && d.take(4)[3] == d[3]);
            assert(magic()[0] == 0x42 && magic()[1] == 0x53 && magic()[2] == 0x4e && magic()[3]
                == 0x50);
        }
    }
    if body.len() <= u32::MAX && stype != 1 && stype != 2 {
        lemma_section_then(stype, body, rest);
        assert(section_ops(stype, body) + sections_ops(rest) =~= sections_ops(rest));
    }
}

} // verus!
