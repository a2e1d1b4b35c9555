//! Frames and messages on the wire.
//!
//! A frame is `[length: i32][flags: u16][content]`, little-endian, where the length counts the
//! whole frame. A message is a series of frames; the last one carries the `IS_FINAL` flag.

use vstd::prelude::*;
use crate::bytes::{
    copy_range, copy_slice, get_i32, get_u16, i32_at, i32_le, lemma_ints_read_back,
    lemma_le_digits_len, put_i32, put_slice, put_u16, u16_at, u16_le,
};
use crate::model::{lemma_views_empty, lemma_views_push, views};

verus! {

pub const BEGIN_FRAGMENT: u16 = 0x8000;

pub const END_FRAGMENT: u16 = 0x4000;

/// Both fragment bits: the message is not fragmented.
pub const UNFRAGMENTED: u16 = 0xc000;

/// The last frame of a message.
pub const IS_FINAL: u16 = 0x2000;

/// The start of a composite value.
pub const BEGIN_DS: u16 = 0x1000;

/// The end of a composite value.
pub const END_DS: u16 = 0x0800;

pub const IS_NULL: u16 = 0x0400;

/// Length and flags.
pub const FRAME_HEADER: usize = 6;

/// The longest content that a frame's length field can count.
pub const MAX_CONTENT: usize = 0x7fff_fff9;

#[derive(Clone, Debug, PartialEq, Eq)]
pub struct Frame {
    pub flags: u16,
    pub content: Vec<u8>,
}

/// What a [`Frame`] holds.
pub struct FrameView {
    pub flags: u16,
    pub content: Seq<u8>,
}

impl View for Frame {
    type V = FrameView;

    open spec fn view(&self) -> FrameView {
        FrameView { flags: self.flags, content: self.content@ }
    }
}

impl FrameView {
    pub open spec fn is_null(self) -> bool {
        self.flags & IS_NULL != 0
    }

    pub open spec fn is_final(self) -> bool {
        self.flags & IS_FINAL != 0
    }
}

impl Frame {
    pub fn is_null(&self) -> (b: bool)
        ensures
            b == self@.is_null(),
    {
        self.flags & IS_NULL != 0
    }

    pub fn is_final(&self) -> (b: bool)
        ensures
            b == self@.is_final(),
    {
        self.flags & IS_FINAL != 0
    }

    /// An owned copy.
    pub fn duplicate(&self) -> (f: Frame)
        ensures
            f@ == self@,
    {
        Frame { flags: self.flags, content: copy_slice(self.content.as_slice()) }
    }
}

/// The bytes of a frame.
pub open spec fn frame_bytes(f: FrameView) -> Seq<u8> {
    i32_le((f.content.len() + FRAME_HEADER) as i32) + u16_le(f.flags) + f.content
}

/// The bytes of frames one after the other.
pub open spec fn frames_bytes(fs: Seq<FrameView>) -> Seq<u8>
    decreases fs.len(),
{
    if fs.len() == 0 {
        Seq::empty()
    } else {
        frames_bytes(fs.drop_last()) + frame_bytes(fs.last())
    }
}

/// A frame marked as the last one.
pub open spec fn finished(f: FrameView) -> FrameView {
    FrameView { flags: f.flags | IS_FINAL, ..f }
}

/// Frames with the last one marked.
pub open spec fn terminated(fs: Seq<FrameView>) -> Seq<FrameView> {
    if fs.len() == 0 {
        fs
    } else {
        fs.drop_last().push(finished(fs.last()))
    }
}

/// The bytes of a message.
pub open spec fn message_bytes(fs: Seq<FrameView>) -> Seq<u8> {
    frames_bytes(terminated(fs))
}

/// The frame at the start of `b` and its length on the wire.
pub open spec fn first_frame(b: Seq<u8>) -> Option<(FrameView, int)> {
    if b.len() < FRAME_HEADER || i32_at(b, 0) < FRAME_HEADER || i32_at(b, 0) > b.len() {
        None
    } else {
        let n = i32_at(b, 0) as int;
        Some((FrameView { flags: u16_at(b, 4), content: b.subrange(FRAME_HEADER as int, n) }, n))
    }
}

/// The message at the start of `b` and its length on the wire, if it is all there.
pub open spec fn first_message(b: Seq<u8>) -> Option<(Seq<FrameView>, int)>
    decreases b.len(),
{
    match first_frame(b) {
        None => None,
        Some((f, n)) => if f.is_final() {
            Some((seq![f], n))
        } else {
            match first_message(b.skip(n)) {
                None => None,
                Some((fs, m)) => Some((seq![f] + fs, n + m)),
            }
        },
    }
}

/// Whether every frame's content fits its length field.
pub open spec fn sendable(fs: Seq<FrameView>) -> bool {
    forall|i: int| 0 <= i < fs.len() ==> (#[trigger] fs[i]).content.len() <= MAX_CONTENT
}

fn put_frame(out: &mut Vec<u8>, flags: u16, content: &[u8])
    requires
        content@.len() <= MAX_CONTENT,
    ensures
        final(out)@ == old(out)@ + frame_bytes(FrameView { flags, content: content@ }),
{
    put_i32(out, (content.len() + FRAME_HEADER) as i32);
    put_u16(out, flags);
    put_slice(out, content);
    assert(out@ =~= old(out)@ + frame_bytes(FrameView { flags, content: content@ }));
}

/// The wire bytes of a message: its frames, the last one marked `IS_FINAL`.
pub fn write_message(frames: &[Frame]) -> (out: Vec<u8>)
    requires
        sendable(views(frames@)),
    ensures
        out@ == message_bytes(views(frames@)),
{
    let ghost fs = views(frames@);
    let mut out: Vec<u8> = Vec::new();
    let n: usize = frames.len();
    if n == 0 {
        return out;
    }
    let mut i: usize = 0;
    while i < n - 1
        invariant
            i <= n - 1,
            n == frames@.len(),
            fs == views(frames@),
            sendable(fs),
            out@ == frames_bytes(fs.take(i as int)),
        decreases n - i,
    {
        assert(fs[i as int] == frames@[i as int]@);
        put_frame(&mut out, frames[i].flags, frames[i].content.as_slice());
        proof {
            let next = fs.take(i + 1);
            assert(next.drop_last() =~= fs.take(i as int));
            assert(next.last() == frames@[i as int]@);
        }
        i = i + 1;
    }
    assert(fs[n - 1] == frames@[n - 1]@);
    put_frame(&mut out, frames[n - 1].flags | IS_FINAL, frames[n - 1].content.as_slice());
    proof {
        let t = terminated(fs);
        assert(fs.take(n - 1) =~= fs.drop_last());
        assert(t.drop_last() =~= fs.drop_last());
        assert(t.last() == finished(fs.last()));
    }
    out
}

/// The message at the start of `bytes` and its length on the wire; `None` if it is not all there.
pub fn read_message(bytes: &[u8]) -> (r: Option<(Vec<Frame>, usize)>)
    ensures
        match r {
            Some((frames, used)) => used <= bytes@.len() && first_message(bytes@) == Some(
                (views(frames@), used as int),
            ),
            None => first_message(bytes@) is None,
        },
{
    broadcast use {lemma_views_push, lemma_views_empty};

    let mut frames: Vec<Frame> = Vec::new();
    let mut off: usize = 0;
    assert(bytes@.skip(0) =~= bytes@);
    loop
        invariant
            off <= bytes@.len(),
            match first_message(bytes@.skip(off as int)) {
                None => first_message(bytes@) is None,
                Some((fs, m)) => first_message(bytes@) == Some((views(frames@) + fs, off + m)),
            },
        decreases bytes@.len() - off,
    {
        let ghost rest = bytes@.skip(off as int);
        let ghost so_far = views(frames@);
        let left: usize = bytes.len() - off;
        if left < FRAME_HEADER {
            return None;
        }
        assert(rest.subrange(0, 4) =~= bytes@.subrange(off as int, off + 4));
        assert(rest.subrange(4, 6) =~= bytes@.subrange(off + 4, off + 6));
        let n: i32 = get_i32(bytes, off);
        if n < 6 || n as usize > left {
            return None;
        }
        let n: usize = n as usize;
        let flags: u16 = get_u16(bytes, off + 4);
        let f = Frame { flags, content: copy_range(bytes, off + FRAME_HEADER, off + n) };
        assert(f@.content =~= rest.subrange(FRAME_HEADER as int, n as int));
        assert(first_frame(rest) == Some((f@, n as int)));
        assert(rest.skip(n as int) =~= bytes@.skip(off + n));
        let last: bool = f.is_final();
        frames.push(f);
        off = off + n;
        if last {
            assert(views(frames@) =~= so_far + seq![f@]);
            return Some((frames, off));
        }
        proof {
            if let Some((fs, m)) = first_message(bytes@.skip(off as int)) {
                assert(so_far.push(f@) + fs =~= so_far + (seq![f@] + fs));
            }
        }
    }
}

proof fn lemma_first_frame(f: FrameView, rest: Seq<u8>)
    requires
        f.content.len() <= MAX_CONTENT,
    ensures
        first_frame(frame_bytes(f) + rest) == Some((f, frame_bytes(f).len() as int)),
{
    broadcast use lemma_le_digits_len;

    let b = frame_bytes(f) + rest;
    let n = (f.content.len() + FRAME_HEADER) as i32;
    lemma_ints_read_back(f.flags, 0, 0, n, 0);
    assert(b.subrange(0, 4) =~= i32_le(n));
    assert(b.subrange(4, 6) =~= u16_le(f.flags));
    assert(b.subrange(6, n as int) =~= f.content);
}

proof fn lemma_frames_split(fs: Seq<FrameView>)
    requires
        fs.len() > 0,
    ensures
        frames_bytes(fs) == frame_bytes(fs[0]) + frames_bytes(fs.skip(1)),
    decreases fs.len(),
{
    if fs.len() == 1 {
        assert(fs.drop_last() =~= Seq::empty());
        assert(fs.skip(1) =~= Seq::empty());
        assert(frames_bytes(fs) =~= frame_bytes(fs[0]) + frames_bytes(fs.skip(1)));
    } else {
        lemma_frames_split(fs.drop_last());
        assert(fs.drop_last().skip(1) =~= fs.skip(1).drop_last());
        assert(frames_bytes(fs) =~= frame_bytes(fs[0]) + frames_bytes(fs.skip(1)));
    }
}

proof fn lemma_frames_read(fs: Seq<FrameView>, rest: Seq<u8>)
    requires
        fs.len() > 0,
        sendable(fs),
        forall|i: int| 0 <= i < fs.len() - 1 ==> !(#[trigger] fs[i]).is_final(),
        fs.last().is_final(),
    ensures
        first_message(frames_bytes(fs) + rest) == Some((fs, frames_bytes(fs).len() as int)),
    decreases fs.len(),
{
    let f = fs[0];
    let more = fs.skip(1);
    let b = frames_bytes(fs) + rest;
    lemma_frames_split(fs);
    assert(b =~= frame_bytes(f) + (frames_bytes(more) + rest));
    lemma_first_frame(f, frames_bytes(more) + rest);
    assert(b.skip(frame_bytes(f).len() as int) =~= frames_bytes(more) + rest);
    if fs.len() == 1 {
        assert(fs =~= seq![f]);
        assert(more =~= Seq::empty());
        assert(frames_bytes(fs) =~= frame_bytes(f));
    } else {
        assert forall|i: int| 0 <= i < more.len() - 1 implies !(#[trigger] more[i]).is_final() by {
            assert(more[i] == fs[i + 1]);
        }
        assert forall|i: int| 0 <= i < more.len() implies (#[trigger] more[i]).content.len()
            <= MAX_CONTENT by {
            assert(more[i] == fs[i + 1]);
        }
        assert(more.last() == fs.last());
        lemma_frames_read(more, rest);
        assert(seq![f] + more =~= fs);
    }
}

/// A message that was written is read back frame by frame, whatever stands behind it on the wire;
/// the last frame carries the final mark.
pub proof fn law_messages_read_back(fs: Seq<FrameView>, rest: Seq<u8>)
    requires
        fs.len() > 0,
        sendable(fs),
        forall|i: int| 0 <= i < fs.len() ==> !(#[trigger] fs[i]).is_final(),
    ensures
        first_message(message_bytes(fs) + rest) == Some(
            (terminated(fs), message_bytes(fs).len() as int),
        ),
{
    let t = terminated(fs);
    let flags = fs.last().flags;
    assert((flags | 0x2000u16) & 0x2000u16 != 0) by (bit_vector);
    assert(t.last() == finished(fs.last()));
    assert forall|i: int| 0 <= i < t.len() - 1 implies !(#[trigger] t[i]).is_final() by {
        assert(t[i] == fs[i]);
    }
    assert forall|i: int| 0 <= i < t.len() implies (#[trigger] t[i]).content.len()
        <= MAX_CONTENT by {
        assert(fs[i].content == t[i].content);
    }
    lemma_frames_read(t, rest);
}

/// The flags of frames, and their bytes: the length of the whole frame, the flags, the content.
pub proof fn law_frame_layout(f: FrameView)
    ensures
        BEGIN_FRAGMENT == 0x8000 && END_FRAGMENT == 0x4000 && UNFRAGMENTED == 0xc000,
        IS_FINAL == 0x2000 && BEGIN_DS == 0x1000 && END_DS == 0x0800 && IS_NULL == 0x0400,
        frame_bytes(f) == i32_le((f.content.len() + 6) as i32) + u16_le(f.flags) + f.content,
{
}

} // verus!
