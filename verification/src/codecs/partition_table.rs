//! The partition table: which partitions each member owns.
//!
//! Begin, one frame of packed partition ids (`i32`) per member, end, then one frame of packed
//! member UUIDs (17 bytes each), in the same order.

use vstd::prelude::*;
use super::layout::{begin_frame, begin_view, end_frame, end_view};
use crate::bytes::{
    i32_at, i32_le, lemma_ints_read_back, lemma_le_digits_len, put_i32, put_i64,
};
use crate::model::{lemma_views_push, views};
use crate::protocol::fixed::{uuid_at, uuid_bytes};
use crate::protocol::frame::{Frame, FrameView};

verus! {

/// A member and the partitions it owns.
pub type Ownership = ((i64, i64), Vec<i32>);

/// What an [`Ownership`] holds.
pub type OwnershipView = ((i64, i64), Seq<i32>);

/// Packed integers.
pub open spec fn packed_ints(s: Seq<i32>) -> Seq<u8>
    decreases s.len(),
{
    if s.len() == 0 {
        Seq::empty()
    } else {
        packed_ints(s.drop_last()) + i32_le(s.last())
    }
}

/// Packed UUIDs of the members.
pub open spec fn packed_uuids(es: Seq<OwnershipView>) -> Seq<u8>
    decreases es.len(),
{
    if es.len() == 0 {
        Seq::empty()
    } else {
        packed_uuids(es.drop_last()) + uuid_bytes(Some(es.last().0))
    }
}

pub open spec fn value_frames(es: Seq<OwnershipView>) -> Seq<FrameView> {
    Seq::new(es.len(), |i: int| FrameView { flags: 0, content: packed_ints(es[i].1) })
}

pub open spec fn table_frames(es: Seq<OwnershipView>) -> Seq<FrameView> {
    seq![begin_view()] + value_frames(es) + seq![end_view()] + seq![
        FrameView { flags: 0, content: packed_uuids(es) },
    ]
}

fn pack_ints(s: &Vec<i32>) -> (b: Vec<u8>)
    ensures
        b@ == packed_ints(s@),
{
    let mut b: Vec<u8> = Vec::new();
    let mut i: usize = 0;
    while i < s.len()
        invariant
            i <= s@.len(),
            b@ == packed_ints(s@.take(i as int)),
        decreases s@.len() - i,
    {
        put_i32(&mut b, s[i]);
        proof {
            let next = s@.take(i + 1);
            assert(next.drop_last() =~= s@.take(i as int));
            assert(next.last() == s@[i as int]);
        }
        i = i + 1;
    }
    assert(s@.take(i as int) =~= s@);
    b
}

pub fn encode(out: &mut Vec<Frame>, entries: &[Ownership])
    ensures
        views(final(out)@) == views(old(out)@) + table_frames(views(entries@)),
{
    broadcast use lemma_views_push;

    let ghost before = views(out@);
    let ghost es = views(entries@);
    out.push(begin_frame());
    let ghost head = before + seq![begin_view()];
    assert(views(out@) =~= head);
    let mut keys: Vec<u8> = Vec::new();
    let mut i: usize = 0;
    while i < entries.len()
        invariant
            i <= entries@.len(),
            es == views(entries@),
            views(out@) =~= head + value_frames(es).take(i as int),
            keys@ == packed_uuids(es.take(i as int)),
        decreases entries@.len() - i,
    {
        let e = &entries[i];
        let ghost so_far = views(out@);
        let ghost packed = keys@;
        assert(es[i as int] == entries@[i as int]@);
        let f = Frame { flags: 0, content: pack_ints(&e.1) };
        out.push(f);
        assert(views(out@) =~= so_far.push(f@));
        keys.push(0);
        put_i64(&mut keys, e.0.0);
        put_i64(&mut keys, e.0.1);
        proof {
            let next = es.take(i + 1);
            assert(next.drop_last() =~= es.take(i as int));
            assert(next.last() == es[i as int]);
            assert(keys@ =~= packed + uuid_bytes(Some(es[i as int].0)));
        }
        i = i + 1;
    }
    assert(value_frames(es).take(i as int) =~= value_frames(es));
    assert(es.take(i as int) =~= es);
    out.push(end_frame());
    out.push(Frame { flags: 0, content: keys });
    assert(views(out@) =~= before + table_frames(es));
}

proof fn lemma_packed_ints(s: Seq<i32>, i: int)
    requires
        0 <= i < s.len(),
    ensures
        packed_ints(s).len() == 4 * s.len(),
        packed_ints(s).subrange(4 * i, 4 * i + 4) == i32_le(s[i]),
    decreases s.len(),
{
    broadcast use lemma_le_digits_len;

    let init = s.drop_last();
    if init.len() > 0 {
        lemma_packed_ints(
            init,
            if i < init.len() {
                i
            } else {
                0
            },
        );
    }
    if i < init.len() {
        assert(packed_ints(s).subrange(4 * i, 4 * i + 4) =~= packed_ints(init).subrange(
            4 * i,
            4 * i + 4,
        ));
    } else {
        assert(init.len() == 0 ==> packed_ints(init) =~= Seq::empty());
        assert(packed_ints(s).subrange(4 * i, 4 * i + 4) =~= i32_le(s[i]));
    }
}

proof fn lemma_packed_uuids(es: Seq<OwnershipView>, i: int)
    requires
        0 <= i < es.len(),
    ensures
        packed_uuids(es).len() == 17 * es.len(),
        packed_uuids(es).subrange(17 * i, 17 * i + 17) == uuid_bytes(Some(es[i].0)),
    decreases es.len(),
{
    broadcast use lemma_le_digits_len;

    let init = es.drop_last();
    if init.len() > 0 {
        lemma_packed_uuids(
            init,
            if i < init.len() {
                i
            } else {
                0
            },
        );
    }
    if i < init.len() {
        assert(packed_uuids(es).subrange(17 * i, 17 * i + 17) =~= packed_uuids(init).subrange(
            17 * i,
            17 * i + 17,
        ));
    } else {
        assert(init.len() == 0 ==> packed_uuids(init) =~= Seq::empty());
        assert(packed_uuids(es).subrange(17 * i, 17 * i + 17) =~= uuid_bytes(Some(es[i].0)));
    }
}

/// Keys and values line up: member `i` is read at its place in the key frame, and its partitions,
/// if it has any, in value frame `i`. Neither frame holds anything else.
pub proof fn law_table_reads_back(es: Seq<OwnershipView>, i: int)
    requires
        0 <= i < es.len(),
    ensures
        table_frames(es)[es.len() as int + 2].content.len() == 17 * es.len(),
        uuid_at(table_frames(es)[es.len() as int + 2].content, 17 * i) == Some(es[i].0),
        table_frames(es)[i + 1].content.len() == 4 * es[i].1.len(),
        forall|j: int|
            0 <= j < es[i].1.len() ==> i32_at(table_frames(es)[i + 1].content, 4 * j) == (
            #[trigger] es[i].1[j]),
{
    broadcast use lemma_le_digits_len;

    let keys = packed_uuids(es);
    let (msb, lsb) = es[i].0;
    lemma_packed_uuids(es, i);
    lemma_ints_read_back(0, 0, 0, 0, msb);
    lemma_ints_read_back(0, 0, 0, 0, lsb);
    let u = keys.subrange(17 * i, 17 * i + 17);
    assert(u[0] == keys[17 * i]);
    assert(keys.subrange(17 * i + 1, 17 * i + 9) =~= u.subrange(1, 9));
    assert(keys.subrange(17 * i + 9, 17 * i + 17) =~= u.subrange(9, 17));
    assert(u.subrange(1, 9) =~= crate::bytes::i64_le(msb));
    assert(u.subrange(9, 17) =~= crate::bytes::i64_le(lsb));
    if es[i].1.len() > 0 {
        lemma_packed_ints(es[i].1, 0);
    }
    assert forall|j: int| 0 <= j < es[i].1.len() implies i32_at(
        table_frames(es)[i + 1].content,
        4 * j,
    ) == (#[trigger] es[i].1[j]) by {
        lemma_packed_ints(es[i].1, j);
        lemma_ints_read_back(0, 0, 0, es[i].1[j], 0);
    }
}

} // verus!
