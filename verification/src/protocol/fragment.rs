//! Inbound message fragment reassembly.
//!
//! A large client message is split into fragments. Each fragment is a message whose first frame is
//! a fragmentation frame: its content starts with an 8-byte fragmentation id, its flags carry
//! `BEGIN_FRAGMENT`, `END_FRAGMENT`, or neither for a middle fragment. The receiver drops the
//! fragmentation frame and joins the other frames across fragments of one id until the end
//! fragment arrives.

use vstd::prelude::*;
use super::frame::{
    first_message, law_messages_read_back, message_bytes, read_message, sendable, terminated,
    write_message, Frame, FrameView, END_FRAGMENT, IS_FINAL, MAX_CONTENT,
};
use crate::bytes::{get_u64, lemma_ints_read_back, lemma_le_digits_len, u64_at, u64_le};
use crate::model::{lemma_views_push, views};
use crate::table::Table;

verus! {

/// The frames collected for one fragmented message.
pub struct Partial {
    frames: Vec<Frame>,
}

impl View for Partial {
    type V = Seq<FrameView>;

    closed spec fn view(&self) -> Seq<FrameView> {
        views(self.frames@)
    }
}

/// A frame without the mark that ended its fragment.
pub open spec fn unfinished(f: FrameView) -> FrameView {
    FrameView { flags: f.flags & !IS_FINAL, ..f }
}

/// The frames of a fragment behind its fragmentation frame, without the final mark.
pub open spec fn carried_frames(frames: Seq<FrameView>) -> Seq<FrameView> {
    Seq::new((frames.len() - 1) as nat, |i: int| unfinished(frames[i + 1]))
}

pub open spec fn collected(partial: Map<u64, Seq<FrameView>>, id: u64) -> Seq<FrameView> {
    if partial.contains_key(id) {
        partial[id]
    } else {
        Seq::empty()
    }
}

/// What a fragment with these frames does: the collected frames, and the assembled message if it
/// is the end fragment.
pub open spec fn pushed(partial: Map<u64, Seq<FrameView>>, frames: Seq<FrameView>) -> (
    Map<u64, Seq<FrameView>>,
    Option<Seq<u8>>,
) {
    let id = u64_at(frames[0].content, 0);
    let all = collected(partial, id) + carried_frames(frames);
    if frames[0].flags & END_FRAGMENT != 0 {
        (partial.remove(id), Some(message_bytes(all)))
    } else {
        (partial.insert(id, all), None)
    }
}

/// Whether bytes that hold a message start with a frame that can bear a fragmentation id.
pub open spec fn is_fragment(b: Seq<u8>) -> bool {
    first_message(b) matches Some((frames, _)) ==> frames[0].content.len() >= 8
}

/// Collects fragments until messages are whole.
pub struct Reassembler {
    partial: Table<u64, Partial>,
}

impl View for Reassembler {
    type V = Map<u64, Seq<FrameView>>;

    closed spec fn view(&self) -> Map<u64, Seq<FrameView>> {
        self.partial@
    }
}

impl Default for Reassembler {
    fn default() -> (r: Reassembler)
        ensures
            r@ == Map::<u64, Seq<FrameView>>::empty(),
    {
        Reassembler::new()
    }
}

/// Every frame on the wire is short enough to be sent again.
proof fn lemma_read_is_sendable(b: Seq<u8>)
    ensures
        first_message(b) matches Some((fs, n)) ==> sendable(fs) && fs.len() > 0,
    decreases b.len(),
{
    if let Some((f, n)) = super::frame::first_frame(b) {
        if !f.is_final() {
            lemma_read_is_sendable(b.skip(n));
            if let Some((fs, m)) = first_message(b.skip(n)) {
                let all = seq![f] + fs;
                assert forall|i: int| 0 <= i < all.len() implies (
                #[trigger] all[i]).content.len() <= MAX_CONTENT by {
                    if i > 0 {
                        assert(all[i] == fs[i - 1]);
                    }
                }
            }
        }
    }
}

impl Reassembler {
    pub fn new() -> (r: Reassembler)
        ensures
            r@ == Map::<u64, Seq<FrameView>>::empty(),
            r.sound(),
    {
        Reassembler { partial: Table::new() }
    }

    /// Every collected frame can be sent again.
    pub open spec fn sound(&self) -> bool {
        forall|id: u64| #[trigger] self@.contains_key(id) ==> sendable(self@[id])
    }

    /// Whether `push` can take these bytes: if they hold a message, its first frame bears a
    /// fragmentation id.
    pub fn accepts(fragment: &[u8]) -> (b: bool)
        ensures
            b == is_fragment(fragment@),
    {
        proof {
            lemma_read_is_sendable(fragment@);
        }
        match read_message(fragment) {
            Some((frames, used)) => {
                assert(views(frames@)[0] == frames@[0]@);
                frames[0].content.len() >= 8
            },
            None => true,
        }
    }

    /// Feeds one fragment's wire bytes. Returns the assembled message's wire bytes once the end
    /// fragment has arrived.
    pub fn push(&mut self, fragment: &[u8]) -> (r: Option<Vec<u8>>)
        requires
            old(self).sound(),
            is_fragment(fragment@),
        ensures
            final(self).sound(),
            match first_message(fragment@) {
                None => final(self)@ == old(self)@ && r is None,
                Some((frames, n)) => {
                    let p = pushed(old(self)@, frames);
                    &&& final(self)@ == p.0
                    &&& match r {
                        Some(b) => p.1 == Some(b@),
                        None => p.1 is None,
                    }
                },
            },
    {
        broadcast use lemma_views_push;

        proof {
            lemma_read_is_sendable(fragment@);
        }
        let ghost before = self@;
        let frames: Vec<Frame> = match read_message(fragment) {
            Some((frames, used)) => frames,
            None => {
                return None;
            },
        };
        let ghost fs = views(frames@);
        assert(fs[0] == frames@[0]@);
        let flags: u16 = frames[0].flags;
        let id: u64 = get_u64(frames[0].content.as_slice(), 0);
        let ghost start = collected(before, id);
        let mut entry: Vec<Frame> = match self.partial.remove(&id) {
            Some(p) => p.frames,
            None => Vec::new(),
        };
        assert(views(entry@) =~= start);
        let mut i: usize = 1;
        while i < frames.len()
            invariant
                1 <= i <= frames@.len(),
                fs == views(frames@),
                sendable(fs),
                sendable(start),
                views(entry@) =~= start + carried_frames(fs).take(i - 1),
                sendable(views(entry@)),
            decreases frames@.len() - i,
        {
            let f = Frame {
                flags: frames[i].flags & !IS_FINAL,
                content: crate::bytes::copy_slice(frames[i].content.as_slice()),
            };
            let ghost so_far = views(entry@);
            assert(fs[i as int] == frames@[i as int]@);
            assert(f@ == carried_frames(fs)[i - 1]);
            entry.push(f);
            assert(views(entry@) =~= so_far.push(f@));
            assert(sendable(views(entry@))) by {
                assert forall|k: int| 0 <= k < views(entry@).len() implies (
                #[trigger] views(entry@)[k]).content.len() <= MAX_CONTENT by {
                    if k < so_far.len() {
                        assert(so_far[k] == views(entry@)[k]);
                    }
                }
            }
            i = i + 1;
        }
        assert(carried_frames(fs).take(i - 1) =~= carried_frames(fs));
        if flags & END_FRAGMENT != 0 {
            Some(write_message(entry.as_slice()))
        } else {
            let p = Partial { frames: entry };
            self.partial.insert(id, p);
            assert(self@ =~= pushed(before, fs).0);
            None
        }
    }
}

/// What a fragment's wire bytes do; bytes that hold no message do nothing.
pub open spec fn pushed_bytes(partial: Map<u64, Seq<FrameView>>, b: Seq<u8>) -> (
    Map<u64, Seq<FrameView>>,
    Option<Seq<u8>>,
) {
    match first_message(b) {
        Some((frames, _)) => pushed(partial, frames),
        None => (partial, None),
    }
}

/// What is collected after pushing all of a stream, one after the other.
pub open spec fn fed(partial: Map<u64, Seq<FrameView>>, stream: Seq<Seq<u8>>) -> Map<
    u64,
    Seq<FrameView>,
>
    decreases stream.len(),
{
    if stream.len() == 0 {
        partial
    } else {
        pushed_bytes(fed(partial, stream.drop_last()), stream.last()).0
    }
}

/// Whether bytes hold a fragment of message `id`.
pub open spec fn is_of(b: Seq<u8>, id: u64) -> bool {
    first_message(b) matches Some((frames, _)) && u64_at(frames[0].content, 0) == id
}

/// What a stream holds of message `id`, or what it holds of others.
pub open spec fn part(stream: Seq<Seq<u8>>, id: u64, own: bool) -> Seq<Seq<u8>>
    decreases stream.len(),
{
    if stream.len() == 0 {
        Seq::empty()
    } else {
        let before = part(stream.drop_last(), id, own);
        if is_of(stream.last(), id) == own {
            before.push(stream.last())
        } else {
            before
        }
    }
}

/// What pushing a stream returns for the fragments of message `id`, or for the others.
pub open spec fn answers(
    partial: Map<u64, Seq<FrameView>>,
    stream: Seq<Seq<u8>>,
    id: u64,
    own: bool,
) -> Seq<Option<Seq<u8>>>
    decreases stream.len(),
{
    if stream.len() == 0 {
        Seq::empty()
    } else {
        let before = answers(partial, stream.drop_last(), id, own);
        if is_of(stream.last(), id) == own {
            before.push(pushed_bytes(fed(partial, stream.drop_last()), stream.last()).1)
        } else {
            before
        }
    }
}

/// The wire bytes of a fragment of message `id`.
pub open spec fn fragment_bytes(id: u64, flags: u16, chunk: Seq<FrameView>) -> Seq<u8> {
    message_bytes(seq![FrameView { flags, content: u64_le(id) }] + chunk)
}

/// The fragments of a message whose frames are cut into chunks; the last one is the end.
pub open spec fn fragments(id: u64, flags: Seq<u16>, chunks: Seq<Seq<FrameView>>) -> Seq<Seq<u8>> {
    Seq::new(chunks.len(), |i: int| fragment_bytes(id, flags[i], chunks[i]))
}

/// Whether the flags mark the last fragment, and no other, as the end.
pub open spec fn ends_last(flags: Seq<u16>) -> bool {
    forall|i: int|
        0 <= i < flags.len() ==> (#[trigger] flags[i]) & IS_FINAL == 0 && (flags[i] & END_FRAGMENT
            != 0) == (i == flags.len() - 1)
}

/// Whether frames can be sent and none ends a message.
pub open spec fn inner_frames(fs: Seq<FrameView>) -> bool {
    sendable(fs) && forall|i: int| 0 <= i < fs.len() ==> !(#[trigger] fs[i]).is_final()
}

/// All the frames of chunks, in order.
pub open spec fn whole(chunks: Seq<Seq<FrameView>>) -> Seq<FrameView>
    decreases chunks.len(),
{
    if chunks.len() == 0 {
        Seq::empty()
    } else {
        whole(chunks.drop_last()) + chunks.last()
    }
}

/// A fragment is read as its fragmentation frame and its chunk.
proof fn lemma_fragment(id: u64, flags: u16, chunk: Seq<FrameView>)
    requires
        flags & IS_FINAL == 0,
        inner_frames(chunk),
    ensures
        first_message(fragment_bytes(id, flags, chunk)) matches Some((frames, _)) && frames.len()
            > 0 && u64_at(frames[0].content, 0) == id && (frames[0].flags & END_FRAGMENT != 0) == (
        flags & END_FRAGMENT != 0) && carried_frames(frames) == chunk,
{
    broadcast use lemma_le_digits_len;

    let head = FrameView { flags, content: u64_le(id) };
    let all = seq![head] + chunk;
    assert forall|i: int| 0 <= i < all.len() implies !(#[trigger] all[i]).is_final()
        && all[i].content.len() <= MAX_CONTENT by {
        if i > 0 {
            assert(all[i] == chunk[i - 1]);
        }
    }
    law_messages_read_back(all, Seq::empty());
    assert(message_bytes(all) + Seq::<u8>::empty() =~= message_bytes(all));
    let frames = terminated(all);
    lemma_ints_read_back(0, 0, id, 0, 0);
    assert(u64_le(id).subrange(0, 8) =~= u64_le(id));
    assert((flags | 0x2000u16) & 0x4000u16 == flags & 0x4000u16) by (bit_vector);
    assert forall|i: int| 0 <= i < chunk.len() implies unfinished(#[trigger] frames[i + 1])
        == chunk[i] by {
        let f = chunk[i].flags;
        assert(all[i + 1] == chunk[i]);
        assert(!chunk[i].is_final());
        assert(f & 0x2000u16 == 0 ==> (f | 0x2000u16) & !0x2000u16 == f && f & !0x2000u16 == f)
            by (bit_vector);
    }
    assert(carried_frames(frames) =~= chunk);
}

/// A fragment of another message leaves what is collected of this one.
proof fn lemma_other_pushed(partial: Map<u64, Seq<FrameView>>, id: u64, b: Seq<u8>)
    requires
        !is_of(b, id),
    ensures
        pushed_bytes(partial, b).0.remove(id) == pushed_bytes(partial.remove(id), b).0,
        pushed_bytes(partial, b).1 == pushed_bytes(partial.remove(id), b).1,
        collected(pushed_bytes(partial, b).0, id) == collected(partial, id),
        pushed_bytes(partial, b).0.contains_key(id) == partial.contains_key(id),
{
    if let Some((frames, n)) = first_message(b) {
        let other = u64_at(frames[0].content, 0);
        assert(collected(partial, other) == collected(partial.remove(id), other));
    }
    assert(pushed_bytes(partial, b).0.remove(id) =~= pushed_bytes(partial.remove(id), b).0);
}

/// While no fragment of message `id` is the end, its frames are collected, and the others are
/// answered as if it were not there.
proof fn lemma_collecting(
    partial: Map<u64, Seq<FrameView>>,
    id: u64,
    flags: Seq<u16>,
    chunks: Seq<Seq<FrameView>>,
    stream: Seq<Seq<u8>>,
)
    requires
        !partial.contains_key(id),
        flags.len() == chunks.len(),
        forall|i: int|
            0 <= i < flags.len() ==> (#[trigger] flags[i]) & IS_FINAL == 0 && flags[i]
                & END_FRAGMENT == 0,
        forall|i: int| 0 <= i < chunks.len() ==> inner_frames(#[trigger] chunks[i]),
        part(stream, id, true) == fragments(id, flags, chunks),
    ensures
        fed(partial, stream).remove(id) == fed(partial, part(stream, id, false)),
        collected(fed(partial, stream), id) == whole(chunks),
        answers(partial, stream, id, true).len() == chunks.len(),
        forall|i: int|
            0 <= i < chunks.len() ==> (#[trigger] answers(partial, stream, id, true)[i]) is None,
        answers(partial, stream, id, false) == answers(
            partial,
            part(stream, id, false),
            id,
            false,
        ),
    decreases stream.len(),
{
    if stream.len() == 0 {
        assert(partial.remove(id) =~= partial);
        assert(chunks.len() == fragments(id, flags, chunks).len());
    } else {
        let init = stream.drop_last();
        let b = stream.last();
        let before = fed(partial, init);
        let all = fragments(id, flags, chunks);
        if is_of(b, id) {
            let n = chunks.len() - 1;
            assert(all.len() == part(init, id, true).len() + 1);
            assert(all[n] == b);
            let f = flags.drop_last();
            let c = chunks.drop_last();
            assert(fragments(id, f, c) =~= all.drop_last());
            assert(part(init, id, true) =~= all.drop_last());
            assert forall|i: int| 0 <= i < f.len() implies (#[trigger] f[i]) & IS_FINAL == 0
                && f[i] & END_FRAGMENT == 0 by {
                assert(f[i] == flags[i]);
            }
            assert forall|i: int| 0 <= i < c.len() implies inner_frames(#[trigger] c[i]) by {
                assert(c[i] == chunks[i]);
            }
            lemma_collecting(partial, id, f, c, init);
            assert(flags[n] & IS_FINAL == 0);
            lemma_fragment(id, flags[n], chunks[n]);
            assert(fed(partial, stream).remove(id) =~= before.remove(id));
            assert(whole(chunks) == whole(c) + chunks[n]);
        } else {
            assert(part(init, id, true) =~= all);
            lemma_collecting(partial, id, flags, chunks, init);
            lemma_other_pushed(before, id, b);
            let rest = part(init, id, false);
            assert(rest.push(b).drop_last() =~= rest);
        }
    }
}

/// A fragmented message is reassembled, whatever fragments of other messages come in between: its
/// fragments are answered with nothing until the end fragment arrives; that one is answered with
/// the bytes of all the frames that were cut up, in order, and nothing of the message is kept. The
/// other messages are collected and answered as if its fragments had not been there.
pub proof fn law_fragments_reassemble(
    partial: Map<u64, Seq<FrameView>>,
    id: u64,
    flags: Seq<u16>,
    chunks: Seq<Seq<FrameView>>,
    stream: Seq<Seq<u8>>,
)
    requires
        !partial.contains_key(id),
        flags.len() == chunks.len(),
        chunks.len() > 0,
        ends_last(flags),
        forall|i: int| 0 <= i < chunks.len() ==> inner_frames(#[trigger] chunks[i]),
        part(stream, id, true) == fragments(id, flags, chunks),
    ensures
        ({
            let own = answers(partial, stream, id, true);
            let others = part(stream, id, false);
            &&& own.len() == chunks.len()
            &&& forall|i: int| 0 <= i < own.len() - 1 ==> (#[trigger] own[i]) is None
            &&& own.last() == Some(message_bytes(whole(chunks)))
            &&& !fed(partial, stream).contains_key(id)
            &&& fed(partial, stream) == fed(partial, others)
            &&& answers(partial, stream, id, false) == answers(partial, others, id, false)
        }),
    decreases stream.len(),
{
    let all = fragments(id, flags, chunks);
    assert(stream.len() > 0) by {
        assert(all.len() > 0);
    }
    let init = stream.drop_last();
    let b = stream.last();
    let before = fed(partial, init);
    if is_of(b, id) {
        let n = chunks.len() - 1;
        let f = flags.drop_last();
        let c = chunks.drop_last();
        assert(all.len() == part(init, id, true).len() + 1);
        assert(all[n] == b);
        assert(fragments(id, f, c) =~= all.drop_last());
        assert(part(init, id, true) =~= all.drop_last());
        assert forall|i: int| 0 <= i < f.len() implies (#[trigger] f[i]) & IS_FINAL == 0 && f[i]
            & END_FRAGMENT == 0 by {
            assert(f[i] == flags[i]);
        }
        assert forall|i: int| 0 <= i < c.len() implies inner_frames(#[trigger] c[i]) by {
            assert(c[i] == chunks[i]);
        }
        lemma_collecting(partial, id, f, c, init);
        assert(flags[n] & IS_FINAL == 0);
        lemma_fragment(id, flags[n], chunks[n]);
        assert(whole(chunks) == whole(c) + chunks[n]);
        let own = answers(partial, stream, id, true);
        assert forall|i: int| 0 <= i < own.len() - 1 implies (#[trigger] own[i]) is None by {
            assert(own[i] == answers(partial, init, id, true)[i]);
        }
    } else {
        assert(part(init, id, true) =~= all);
        law_fragments_reassemble(partial, id, flags, chunks, init);
        lemma_other_pushed(before, id, b);
        assert(before.remove(id) =~= before);
        let after = fed(partial, stream);
        assert(after.remove(id) =~= after);
        let rest = part(init, id, false);
        assert(rest.push(b).drop_last() =~= rest);
    }
}

} // verus!
