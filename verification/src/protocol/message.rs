//! Accessors over a message's initial frame header.
//!
//! Offsets in the initial frame's content: type @0 (`i32`), correlation id @4 (`i64`), partition
//! id @12 (`i32`, requests) or backup acknowledgements @12 (`u8`, responses).

use vstd::prelude::*;
use super::fixed::{read_i32_le, read_i64_le, write_i64_le};
use super::frame::{Frame, FrameView};
use crate::bytes::{i32_at, i64_at, i64_le, lemma_ints_read_back, lemma_le_digits_len, overwrite};
use crate::model::views;

verus! {

/// Whether there is an initial frame with a content of at least `n` bytes.
pub open spec fn has_header(frames: Seq<Frame>, n: int) -> bool {
    frames.len() > 0 && frames[0].content@.len() >= n
}

pub fn msg_type(frames: &[Frame]) -> (t: i32)
    requires
        has_header(frames@, 4),
    ensures
        t == i32_at(frames@[0].content@, 0),
{
    read_i32_le(frames[0].content.as_slice(), 0)
}

pub fn correlation_id(frames: &[Frame]) -> (id: i64)
    requires
        has_header(frames@, 12),
    ensures
        id == i64_at(frames@[0].content@, 4),
{
    read_i64_le(frames[0].content.as_slice(), 4)
}

/// The first frame with another correlation id.
pub open spec fn with_correlation(f: FrameView, id: i64) -> FrameView {
    FrameView { content: overwrite(f.content, 4, i64_le(id)), ..f }
}

pub fn set_correlation_id(frames: &mut [Frame], id: i64)
    requires
        has_header(old(frames)@, 12),
    ensures
        views(final(frames)@) == views(old(frames)@).update(
            0,
            with_correlation(old(frames)@[0]@, id),
        ),
{
    let ghost before = frames@;
    let mut f: Frame = frames[0].duplicate();
    write_i64_le(f.content.as_mut_slice(), 4, id);
    frames[0] = f;
    assert(views(frames@) =~= views(before).update(0, with_correlation(before[0]@, id)));
}

pub fn partition_id(frames: &[Frame]) -> (id: i32)
    requires
        has_header(frames@, 16),
    ensures
        id == i32_at(frames@[0].content@, 12),
{
    read_i32_le(frames[0].content.as_slice(), 12)
}

/// The correlation id that was set is the one that is read; the type and partition stay.
pub proof fn law_correlation_reads_back(f: FrameView, id: i64)
    requires
        f.content.len() >= 16,
    ensures
        i64_at(with_correlation(f, id).content, 4) == id,
        i32_at(with_correlation(f, id).content, 0) == i32_at(f.content, 0),
        i32_at(with_correlation(f, id).content, 12) == i32_at(f.content, 12),
{
    broadcast use lemma_le_digits_len;

    let c = with_correlation(f, id).content;
    lemma_ints_read_back(0, 0, 0, 0, id);
    assert(c.subrange(4, 12) =~= i64_le(id));
    assert(c.subrange(0, 4) =~= f.content.subrange(0, 4));
    assert(c.subrange(12, 16) =~= f.content.subrange(12, 16));
}

} // verus!
