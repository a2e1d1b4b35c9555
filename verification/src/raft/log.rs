//! The Raft log: an ordered sequence of entries (1-based index) plus the persistent term and vote.
//!
//! A log is in memory by default. A durable log also says, after each change, what has to be put
//! on disk before the node may answer: entries are framed (`[len][crc32][term][index][cmd]`) and
//! appended to a segment, a conflict truncation rewrites the segment, and the term and vote live
//! in a small meta file. [`RaftLog::recover`] rebuilds the log from those two files and drops a
//! torn tail.

use vstd::prelude::*;
use vstd::slice::slice_subrange;
use crate::bytes::{
    copy_range, copy_slice, get_u32, get_u64, lemma_ints_read_back, lemma_le_digits_len,
    put_slice, put_u32, put_u64, same_bytes, u32_at, u32_le, u64_at, u64_le,
};
use crate::checksum::{crc32, crc32_of};
use crate::model::{lemma_views_empty, lemma_views_push, views};

verus! {

/// One replicated log entry.
#[derive(Clone, Debug, PartialEq, Eq)]
pub struct Entry {
    pub term: u64,
    pub index: u64,
    pub command: Vec<u8>,
}

/// What an [`Entry`] holds.
pub struct EntryView {
    pub term: u64,
    pub index: u64,
    pub command: Seq<u8>,
}

impl View for Entry {
    type V = EntryView;

    open spec fn view(&self) -> EntryView {
        EntryView { term: self.term, index: self.index, command: self.command@ }
    }
}

impl Entry {
    /// An owned copy.
    pub fn duplicate(&self) -> (e: Entry)
        ensures
            e@ == self@,
    {
        Entry { term: self.term, index: self.index, command: copy_slice(self.command.as_slice()) }
    }
}

/// A change that a durable log wants on disk. Each one must be on disk before the next message
/// leaves the node.
#[derive(Clone, Debug, PartialEq, Eq)]
pub enum DiskWrite {
    /// Append these bytes to the segment.
    Append(Vec<u8>),
    /// Replace the segment by these bytes.
    Rewrite(Vec<u8>),
    /// Replace the meta file by these bytes.
    Meta(Vec<u8>),
}

/// What a [`DiskWrite`] holds.
pub enum DiskWriteView {
    Append(Seq<u8>),
    Rewrite(Seq<u8>),
    Meta(Seq<u8>),
}

impl View for DiskWrite {
    type V = DiskWriteView;

    open spec fn view(&self) -> DiskWriteView {
        match self {
            DiskWrite::Append(b) => DiskWriteView::Append(b@),
            DiskWrite::Rewrite(b) => DiskWriteView::Rewrite(b@),
            DiskWrite::Meta(b) => DiskWriteView::Meta(b@),
        }
    }
}

impl DiskWrite {
    /// An owned copy.
    pub fn duplicate(&self) -> (w: DiskWrite)
        ensures
            w@ == self@,
    {
        match self {
            DiskWrite::Append(b) => DiskWrite::Append(copy_slice(b.as_slice())),
            DiskWrite::Rewrite(b) => DiskWrite::Rewrite(copy_slice(b.as_slice())),
            DiskWrite::Meta(b) => DiskWrite::Meta(copy_slice(b.as_slice())),
        }
    }
}

/// The contents of a durable log's two files.
pub struct Disk {
    pub segment: Seq<u8>,
    pub meta: Seq<u8>,
}

impl Disk {
    /// The files after one write.
    pub open spec fn after(self, w: DiskWriteView) -> Disk {
        match w {
            DiskWriteView::Append(b) => Disk { segment: self.segment + b, ..self },
            DiskWriteView::Rewrite(b) => Disk { segment: b, ..self },
            DiskWriteView::Meta(b) => Disk { meta: b, ..self },
        }
    }

    /// The files after a series of writes.
    pub open spec fn after_all(self, ws: Seq<DiskWriteView>) -> Disk
        decreases ws.len(),
    {
        if ws.len() == 0 {
            self
        } else {
            self.after_all(ws.drop_last()).after(ws.last())
        }
    }
}

/// The longest command that one frame of the segment can hold.
pub const MAX_COMMAND: usize = 0xffff_ffeb;

/// What a [`RaftLog`] holds: the live entries, the boundary of the compacted prefix, the
/// persistent term and vote, and the disk writes not yet handed out.
pub struct LogView {
    pub entries: Seq<EntryView>,
    pub term: u64,
    pub vote: Option<usize>,
    pub snapshot_index: u64,
    pub snapshot_term: u64,
    pub durable: bool,
    pub writes: Seq<DiskWriteView>,
}

impl LogView {
    /// Live entry `j` has index `snapshot_index + 1 + j`; the next index is still a `u64`; and a
    /// durable log holds only commands that a frame can carry.
    pub open spec fn wf(self) -> bool {
        &&& self.snapshot_index + self.entries.len() < u64::MAX
        &&& forall|j: int|
            0 <= j < self.entries.len() ==> (#[trigger] self.entries[j]).index
                == self.snapshot_index + 1 + j
        &&& self.durable ==> forall|j: int|
            0 <= j < self.entries.len() ==> (#[trigger] self.entries[j]).command.len()
                <= MAX_COMMAND
    }

    pub open spec fn last_index(self) -> u64 {
        if self.entries.len() > 0 {
            self.entries.last().index
        } else {
            self.snapshot_index
        }
    }

    pub open spec fn last_term(self) -> u64 {
        if self.entries.len() > 0 {
            self.entries.last().term
        } else {
            self.snapshot_term
        }
    }

    /// Whether the entry at `index` is live.
    pub open spec fn is_live(self, index: u64) -> bool {
        self.snapshot_index < index <= self.snapshot_index + self.entries.len()
    }

    /// The live entry at `index`.
    pub open spec fn live(self, index: u64) -> EntryView {
        self.entries[index - self.snapshot_index - 1]
    }

    pub open spec fn term_at(self, index: u64) -> u64 {
        if index == 0 {
            0
        } else if index == self.snapshot_index {
            self.snapshot_term
        } else if self.is_live(index) {
            self.live(index).term
        } else {
            0
        }
    }

    pub open spec fn command_at(self, index: u64) -> Option<Seq<u8>> {
        if self.is_live(index) {
            Some(self.live(index).command)
        } else {
            None
        }
    }

    /// How many live entries come before index `from`.
    pub open spec fn live_before(self, from: u64) -> int {
        if from <= self.snapshot_index {
            0
        } else if from - self.snapshot_index - 1 > self.entries.len() {
            self.entries.len() as int
        } else {
            from - self.snapshot_index - 1
        }
    }

    pub open spec fn entries_from(self, from: u64) -> Seq<EntryView> {
        self.entries.skip(self.live_before(from))
    }

    /// The log with its prefix up to `up_to` folded away, where `up_to` is live and the log is
    /// not durable.
    pub open spec fn compacted(self, up_to: u64) -> LogView {
        if self.durable || !self.is_live(up_to) {
            self
        } else {
            LogView {
                entries: self.entries.skip(up_to - self.snapshot_index),
                snapshot_index: up_to,
                snapshot_term: self.live(up_to).term,
                ..self
            }
        }
    }

    /// The log with `w` added to the outstanding writes, if it is durable.
    pub open spec fn writing(self, w: DiskWriteView) -> LogView {
        if self.durable {
            LogView { writes: self.writes.push(w), ..self }
        } else {
            self
        }
    }

    /// The log with `e` appended.
    pub open spec fn appended(self, e: EntryView) -> LogView {
        LogView { entries: self.entries.push(e), ..self }.writing(DiskWriteView::Append(frame(e)))
    }

    /// The log without its live entries from `index` on.
    pub open spec fn truncated(self, index: u64) -> LogView {
        let kept = self.entries.take(self.live_before(index));
        LogView { entries: kept, ..self }.writing(DiskWriteView::Rewrite(segment_image(kept)))
    }

    /// The log with another persistent term and vote.
    pub open spec fn with_term_vote(self, term: u64, vote: Option<usize>) -> LogView {
        LogView { term, vote, ..self }.writing(DiskWriteView::Meta(meta_image(term, vote)))
    }

    /// The last index counts the live entries from the snapshot on.
    pub proof fn lemma_last_index(self)
        requires
            self.wf(),
        ensures
            self.last_index() == self.snapshot_index + self.entries.len(),
    {
    }

    /// Whether `e` may be appended: it is the next index, and fits.
    pub open spec fn takes(self, e: EntryView) -> bool {
        &&& e.index == self.last_index() + 1
        &&& e.index < u64::MAX
        &&& self.durable ==> e.command.len() <= MAX_COMMAND
    }
}

/// What the checksum of a frame covers.
pub open spec fn frame_body(e: EntryView) -> Seq<u8> {
    u64_le(e.term) + u64_le(e.index) + e.command
}

/// A frame: the length of what follows it, the checksum, the body.
pub open spec fn sealed(body: Seq<u8>, crc: u32) -> Seq<u8> {
    u32_le((body.len() + 4) as u32) + u32_le(crc) + body
}

/// The frame that holds `e`.
pub open spec fn frame(e: EntryView) -> Seq<u8> {
    sealed(frame_body(e), crc32(frame_body(e)))
}

/// The segment that holds `entries`.
pub open spec fn segment_image(entries: Seq<EntryView>) -> Seq<u8>
    decreases entries.len(),
{
    if entries.len() == 0 {
        Seq::empty()
    } else {
        segment_image(entries.drop_last()) + frame(entries.last())
    }
}

/// The checksum and the end of the whole frame that `b` starts with, if it starts with one.
pub open spec fn first_frame(b: Seq<u8>) -> Option<(u32, int)> {
    if b.len() < 8 || u32_at(b, 0) < 20 || 4 + u32_at(b, 0) > b.len() {
        None
    } else {
        Some((u32_at(b, 4), 4 + u32_at(b, 0)))
    }
}

/// The entry that a frame's body holds.
pub open spec fn body_entry(body: Seq<u8>) -> EntryView {
    EntryView { term: u64_at(body, 0), index: u64_at(body, 8), command: body.skip(16) }
}

/// The entries of a segment up to the first frame that is short or fails its checksum.
pub open spec fn read_segment(b: Seq<u8>) -> Seq<EntryView>
    decreases b.len(),
{
    match first_frame(b) {
        None => Seq::empty(),
        Some((crc, end)) => {
            let body = b.subrange(8, end);
            if crc32(body) != crc {
                Seq::empty()
            } else {
                seq![body_entry(body)] + read_segment(b.skip(end))
            }
        },
    }
}

/// The meta file that holds `term` and `vote`.
pub open spec fn meta_image(term: u64, vote: Option<usize>) -> Seq<u8> {
    u64_le(term) + (match vote {
        Some(v) => seq![1u8] + u64_le(v as u64),
        None => seq![0u8] + u64_le(0),
    })
}

/// The term and vote that a meta file holds; a short file holds none.
pub open spec fn read_meta(b: Seq<u8>) -> (u64, Option<usize>) {
    if b.len() < 17 {
        (0, None)
    } else {
        (
            u64_at(b, 0),
            if b[8] != 0 {
                Some(u64_at(b, 9) as usize)
            } else {
                None
            },
        )
    }
}

/// Raft log with an optional compacted prefix. Live entries cover the indices after
/// `snapshot_index`; everything at or before it has been folded into the state machine.
pub struct RaftLog {
    entries: Vec<Entry>,
    term: u64,
    vote: Option<usize>,
    durable: bool,
    snapshot_index: u64,
    snapshot_term: u64,
    writes: Vec<DiskWrite>,
}

impl View for RaftLog {
    type V = LogView;

    closed spec fn view(&self) -> LogView {
        LogView {
            entries: views(self.entries@),
            term: self.term,
            vote: self.vote,
            snapshot_index: self.snapshot_index,
            snapshot_term: self.snapshot_term,
            durable: self.durable,
            writes: views(self.writes@),
        }
    }
}

impl Default for RaftLog {
    fn default() -> (l: RaftLog)
        ensures
            l@ == empty_log(),
            l@.wf(),
    {
        RaftLog::new()
    }
}

/// A log with nothing in it, in memory.
pub open spec fn empty_log() -> LogView {
    LogView {
        entries: Seq::empty(),
        term: 0,
        vote: None,
        snapshot_index: 0,
        snapshot_term: 0,
        durable: false,
        writes: Seq::empty(),
    }
}

/// What a durable log starts from, given the contents of its two files.
pub open spec fn recovered_log(segment: Seq<u8>, meta: Seq<u8>) -> LogView {
    let entries = read_segment(segment);
    LogView {
        entries,
        term: read_meta(meta).0,
        vote: read_meta(meta).1,
        durable: true,
        writes: if segment_image(entries) == segment {
            Seq::empty()
        } else {
            seq![DiskWriteView::Rewrite(segment_image(entries))]
        },
        ..empty_log()
    }
}

impl RaftLog {
    pub fn new() -> (l: RaftLog)
        ensures
            l@ == empty_log(),
            l@.wf(),
    {
        let l = RaftLog {
            entries: Vec::new(),
            term: 0,
            vote: None,
            durable: false,
            snapshot_index: 0,
            snapshot_term: 0,
            writes: Vec::new(),
        };
        assert(l@.entries =~= Seq::empty());
        assert(l@.writes =~= Seq::empty());
        l
    }

    /// A durable log with what its two files hold (a missing file holds nothing). Entries after a
    /// torn or corrupt frame are dropped; the segment is then rewritten without them, so that what
    /// is appended next can be read back.
    pub fn recover(segment: &[u8], meta: &[u8]) -> (l: RaftLog)
        ensures
            l@ == recovered_log(segment@, meta@),
    {
        broadcast use lemma_views_push;

        let entries = parse_segment(segment);
        let (term, vote) = parse_meta(meta);
        proof {
            lemma_read_commands_fit(segment@);
            assert forall|j: int| 0 <= j < entries@.len() implies (
            #[trigger] entries@[j]).command@.len() <= MAX_COMMAND by {
                assert(views(entries@)[j] == entries@[j]@);
            }
        }
        let image: Vec<u8> = encode_segment(&entries);
        let mut writes: Vec<DiskWrite> = Vec::new();
        assert(views(writes@) =~= Seq::empty());
        if !same_bytes(image.as_slice(), segment) {
            writes.push(DiskWrite::Rewrite(image));
        }
        RaftLog {
            entries,
            term,
            vote,
            durable: true,
            snapshot_index: 0,
            snapshot_term: 0,
            writes,
        }
    }

    /// Whether the entries are numbered without a gap and leave room for another one, as in every
    /// log that was written by appending.
    pub fn is_sound(&self) -> (b: bool)
        ensures
            b == self@.wf(),
    {
        let n: usize = self.entries.len();
        if self.snapshot_index >= u64::MAX - n as u64 {
            return false;
        }
        let mut i: usize = 0;
        while i < n
            invariant
                i <= n,
                n == self.entries@.len(),
                self.snapshot_index + n < u64::MAX,
                forall|j: int|
                    0 <= j < i ==> (#[trigger] self@.entries[j]).index == self.snapshot_index + 1
                        + j,
                self.durable ==> forall|j: int|
                    0 <= j < i ==> (#[trigger] self@.entries[j]).command.len() <= MAX_COMMAND,
            decreases n - i,
        {
            assert(self@.entries[i as int] == self.entries@[i as int]@);
            if self.entries[i].index != self.snapshot_index + 1 + i as u64 {
                return false;
            }
            if self.durable && self.entries[i].command.len() > MAX_COMMAND {
                return false;
            }
            i = i + 1;
        }
        true
    }

    /// Last index included in a snapshot (0 when nothing was compacted).
    pub fn snapshot_index(&self) -> (i: u64)
        ensures
            i == self@.snapshot_index,
    {
        self.snapshot_index
    }

    /// Position of `index` among the live entries.
    fn pos(&self, index: u64) -> (p: Option<usize>)
        requires
            self@.wf(),
        ensures
            p == (if self@.is_live(index) {
                Some((index - self@.snapshot_index - 1) as usize)
            } else {
                None
            }),
            p matches Some(i) ==> i == index - self@.snapshot_index - 1 && i < self.entries@.len(),
    {
        if index <= self.snapshot_index {
            return None;
        }
        let off: u64 = index - self.snapshot_index - 1;
        if off < self.entries.len() as u64 {
            Some(off as usize)
        } else {
            None
        }
    }

    /// Index of the last entry (the snapshot index if no entry is live).
    pub fn last_index(&self) -> (i: u64)
        ensures
            i == self@.last_index(),
    {
        let n: usize = self.entries.len();
        if n > 0 {
            assert(self@.entries.last() == self.entries@[n - 1]@);
            self.entries[n - 1].index
        } else {
            self.snapshot_index
        }
    }

    /// Term of the last entry (the snapshot term if no entry is live).
    pub fn last_term(&self) -> (t: u64)
        ensures
            t == self@.last_term(),
    {
        let n: usize = self.entries.len();
        if n > 0 {
            assert(self@.entries.last() == self.entries@[n - 1]@);
            self.entries[n - 1].term
        } else {
            self.snapshot_term
        }
    }

    /// Term of the entry at `index`: 0 before the log, the snapshot term at the boundary, the
    /// entry's own term if it is live, else 0.
    pub fn term_at(&self, index: u64) -> (t: u64)
        requires
            self@.wf(),
        ensures
            t == self@.term_at(index),
    {
        if index == 0 {
            return 0;
        }
        if index == self.snapshot_index {
            return self.snapshot_term;
        }
        match self.pos(index) {
            Some(p) => self.entries[p].term,
            None => 0,
        }
    }

    /// The command at `index`, if its entry is live.
    pub fn command_at(&self, index: u64) -> (c: Option<&[u8]>)
        requires
            self@.wf(),
        ensures
            match c {
                Some(b) => self@.command_at(index) == Some(b@),
                None => self@.command_at(index) is None,
            },
    {
        match self.pos(index) {
            Some(p) => Some(self.entries[p].command.as_slice()),
            None => None,
        }
    }

    /// How many live entries come before `from`.
    fn count_before(&self, from: u64) -> (n: usize)
        requires
            self@.wf(),
        ensures
            n == self@.live_before(from),
            n <= self.entries@.len(),
    {
        if from <= self.snapshot_index {
            return 0;
        }
        let off: u64 = from - self.snapshot_index - 1;
        if off < self.entries.len() as u64 {
            off as usize
        } else {
            self.entries.len()
        }
    }

    /// All live entries with an index of at least `from`.
    pub fn entries_from(&self, from: u64) -> (r: Vec<Entry>)
        requires
            self@.wf(),
        ensures
            views(r@) == self@.entries_from(from),
    {
        broadcast use lemma_views_push;

        let start: usize = self.count_before(from);
        let mut out: Vec<Entry> = Vec::new();
        let mut i: usize = start;
        while i < self.entries.len()
            invariant
                start <= i <= self.entries@.len(),
                views(out@) =~= self@.entries.subrange(start as int, i as int),
            decreases self.entries@.len() - i,
        {
            let e = self.entries[i].duplicate();
            proof {
                assert(self@.entries[i as int] == e@);
                assert(self@.entries.subrange(start as int, i + 1) =~= self@.entries.subrange(
                    start as int,
                    i as int,
                ).push(e@));
            }
            out.push(e);
            i = i + 1;
        }
        assert(views(out@) =~= self@.entries_from(from));
        out
    }

    /// Discards the entries at or before `up_to`, which the state machine holds. Nothing happens
    /// if `up_to` is not a live index, or if the log is durable.
    pub fn compact(&mut self, up_to: u64)
        requires
            old(self)@.wf(),
        ensures
            final(self)@ == old(self)@.compacted(up_to),
            final(self)@.wf(),
    {
        if self.durable || up_to <= self.snapshot_index || up_to > self.last_index() {
            return;
        }
        let ghost before = self@;
        proof {
            before.lemma_last_index();
        }
        let up_to_term: u64 = self.term_at(up_to);
        let live: usize = self.entries.len();
        assert(before.live_before(up_to) < live);
        let drop: usize = self.count_before(up_to) + 1;
        let kept: Vec<Entry> = self.entries.split_off(drop);
        self.entries = kept;
        self.snapshot_index = up_to;
        self.snapshot_term = up_to_term;
        assert(self@.entries =~= before.entries.skip(drop as int));
    }

    /// Appends an entry, which must be the next one.
    pub fn append(&mut self, e: Entry)
        requires
            old(self)@.wf(),
            old(self)@.takes(e@),
        ensures
            final(self)@ == old(self)@.appended(e@),
            final(self)@.wf(),
    {
        broadcast use lemma_views_push;

        let ghost before = self@;
        if self.durable {
            let framed: Vec<u8> = frame_entry(&e);
            self.writes.push(DiskWrite::Append(framed));
        }
        self.entries.push(e);
        assert(self@ == before.appended(e@));
    }

    /// Drops all live entries with an index of at least `index` (conflict truncation).
    pub fn truncate_from(&mut self, index: u64)
        requires
            old(self)@.wf(),
        ensures
            final(self)@ == old(self)@.truncated(index),
            final(self)@.wf(),
    {
        broadcast use lemma_views_push;

        let ghost before = self@;
        let keep: usize = self.count_before(index);
        self.entries.truncate(keep);
        assert(views(self.entries@) =~= before.entries.take(keep as int));
        if self.durable {
            assert forall|j: int| 0 <= j < self.entries@.len() implies (
            #[trigger] self.entries@[j]).command@.len() <= MAX_COMMAND by {
                assert(before.entries[j] == self.entries@[j]@);
            }
            let image: Vec<u8> = encode_segment(&self.entries);
            self.writes.push(DiskWrite::Rewrite(image));
        }
    }

    /// Number of live entries.
    pub fn len(&self) -> (n: usize)
        ensures
            n == self@.entries.len(),
    {
        self.entries.len()
    }

    pub fn is_empty(&self) -> (b: bool)
        ensures
            b == (self@.entries.len() == 0),
    {
        self.entries.len() == 0
    }

    /// Records the term and vote that must outlive a crash.
    pub fn persist_term_vote(&mut self, term: u64, vote: Option<usize>)
        ensures
            final(self)@ == old(self)@.with_term_vote(term, vote),
    {
        broadcast use lemma_views_push;

        self.term = term;
        self.vote = vote;
        if self.durable {
            self.writes.push(DiskWrite::Meta(encode_meta(term, vote)));
        }
    }

    pub fn persisted_term(&self) -> (t: u64)
        ensures
            t == self@.term,
    {
        self.term
    }

    pub fn persisted_vote(&self) -> (v: Option<usize>)
        ensures
            v == self@.vote,
    {
        self.vote
    }

    pub fn is_durable(&self) -> (b: bool)
        ensures
            b == self@.durable,
    {
        self.durable
    }

    /// An owned copy.
    pub fn duplicate(&self) -> (l: RaftLog)
        ensures
            l@ == self@,
    {
        let mut entries: Vec<Entry> = Vec::new();
        let mut i: usize = 0;
        while i < self.entries.len()
            invariant
                i <= self.entries@.len(),
                entries@.len() == i,
                forall|j: int| 0 <= j < i ==> (#[trigger] entries@[j])@ == self.entries@[j]@,
            decreases self.entries@.len() - i,
        {
            entries.push(self.entries[i].duplicate());
            i = i + 1;
        }
        let mut writes: Vec<DiskWrite> = Vec::new();
        let mut k: usize = 0;
        while k < self.writes.len()
            invariant
                k <= self.writes@.len(),
                writes@.len() == k,
                forall|j: int| 0 <= j < k ==> (#[trigger] writes@[j])@ == self.writes@[j]@,
            decreases self.writes@.len() - k,
        {
            writes.push(self.writes[k].duplicate());
            k = k + 1;
        }
        let l = RaftLog {
            entries,
            term: self.term,
            vote: self.vote,
            durable: self.durable,
            snapshot_index: self.snapshot_index,
            snapshot_term: self.snapshot_term,
            writes,
        };
        assert(l@.entries =~= self@.entries);
        assert(l@.writes =~= self@.writes);
        l
    }

    /// Hands out the writes that are not on disk yet, oldest first.
    pub fn take_writes(&mut self) -> (w: Vec<DiskWrite>)
        ensures
            views(w@) == old(self)@.writes,
            final(self)@ == (LogView { writes: Seq::empty(), ..old(self)@ }),
    {
        let mut w: Vec<DiskWrite> = Vec::new();
        std::mem::swap(&mut w, &mut self.writes);
        assert(self@.writes =~= Seq::empty());
        w
    }
}

/// A frame around `body`, given its checksum: `[len:u32][crc32:u32][body]`, where `len` counts
/// what follows it.
pub fn seal_body(body: &[u8], crc: u32) -> (out: Vec<u8>)
    requires
        body@.len() + 4 <= u32::MAX,
    ensures
        out@ == sealed(body@, crc),
{
    let mut out: Vec<u8> = Vec::new();
    put_u32(&mut out, body.len() as u32 + 4);
    put_u32(&mut out, crc);
    put_slice(&mut out, body);
    assert(out@ =~= sealed(body@, crc));
    out
}

/// Frames one entry: `[len:u32][crc32:u32][term:u64][index:u64][cmd]`, where the checksum covers
/// `term|index|cmd`.
pub fn frame_entry(e: &Entry) -> (out: Vec<u8>)
    requires
        e@.command.len() <= MAX_COMMAND,
    ensures
        out@ == frame(e@),
{
    broadcast use lemma_le_digits_len;

    let mut body: Vec<u8> = Vec::new();
    put_u64(&mut body, e.term);
    put_u64(&mut body, e.index);
    put_slice(&mut body, e.command.as_slice());
    assert(body@ =~= frame_body(e@));
    let crc: u32 = crc32_of(body.as_slice());
    seal_body(body.as_slice(), crc)
}

/// The segment that holds `entries`.
pub fn encode_segment(entries: &Vec<Entry>) -> (out: Vec<u8>)
    requires
        forall|j: int|
            0 <= j < entries@.len() ==> (#[trigger] entries@[j]).command@.len() <= MAX_COMMAND,
    ensures
        out@ == segment_image(views(entries@)),
{
    let mut out: Vec<u8> = Vec::new();
    let mut i: usize = 0;
    while i < entries.len()
        invariant
            i <= entries@.len(),
            out@ == segment_image(views(entries@).take(i as int)),
            forall|j: int|
                0 <= j < entries@.len() ==> (#[trigger] entries@[j]).command@.len() <= MAX_COMMAND,
        decreases entries@.len() - i,
    {
        let framed: Vec<u8> = frame_entry(&entries[i]);
        put_slice(&mut out, framed.as_slice());
        proof {
            let next = views(entries@).take(i + 1);
            assert(next.drop_last() =~= views(entries@).take(i as int));
        }
        i = i + 1;
    }
    assert(views(entries@).take(i as int) =~= views(entries@));
    out
}

/// The checksum and the end of the whole frame at `off`, if there is one.
pub fn split_frame(buf: &[u8], off: usize) -> (r: Option<(u32, usize)>)
    requires
        off <= buf@.len(),
    ensures
        match r {
            Some((crc, end)) => end <= buf@.len() && first_frame(buf@.skip(off as int)) == Some(
                (crc, end - off),
            ),
            None => first_frame(buf@.skip(off as int)) is None,
        },
{
    let left: usize = buf.len() - off;
    if left < 8 {
        return None;
    }
    let ghost rest = buf@.skip(off as int);
    assert(rest.subrange(0, 4) =~= buf@.subrange(off as int, off + 4));
    assert(rest.subrange(4, 8) =~= buf@.subrange(off + 4, off + 8));
    let len: u32 = get_u32(buf, off);
    if len < 20 || len as usize > left - 4 {
        return None;
    }
    Some((get_u32(buf, off + 4), off + 4 + len as usize))
}

/// The entry in the body of a frame.
pub fn decode_body(body: &[u8]) -> (e: Entry)
    requires
        body@.len() >= 16,
    ensures
        e@ == body_entry(body@),
{
    let command: Vec<u8> = copy_range(body, 16, body.len());
    assert(command@ =~= body@.skip(16));
    Entry { term: get_u64(body, 0), index: get_u64(body, 8), command }
}

/// Reads the entries of a segment and stops cleanly at a torn, short or corrupt tail.
pub fn parse_segment(buf: &[u8]) -> (out: Vec<Entry>)
    ensures
        views(out@) == read_segment(buf@),
{
    broadcast use {lemma_views_push, lemma_views_empty};

    let mut out: Vec<Entry> = Vec::new();
    let mut off: usize = 0;
    let mut more: bool = true;
    assert(buf@.skip(0) =~= buf@);
    while more
        invariant
            off <= buf@.len(),
            more ==> views(out@) + read_segment(buf@.skip(off as int)) =~= read_segment(buf@),
            !more ==> views(out@) == read_segment(buf@),
        decreases buf@.len() - off + (if more { 1int } else { 0int }),
    {
        let ghost rest = buf@.skip(off as int);
        let ghost so_far = views(out@);
        match split_frame(buf, off) {
            None => {
                more = false;
                assert(so_far + Seq::<EntryView>::empty() =~= so_far);
            },
            Some((crc, end)) => {
                let body = slice_subrange(buf, off + 8, end);
                assert(body@ =~= rest.subrange(8, end - off));
                if crc32_of(body) != crc {
                    more = false;
                    assert(so_far + Seq::<EntryView>::empty() =~= so_far);
                } else {
                    let e = decode_body(body);
                    assert(rest.skip(end - off) =~= buf@.skip(end as int));
                    assert(so_far.push(e@) + read_segment(buf@.skip(end as int)) =~= so_far + (
                    seq![e@] + read_segment(buf@.skip(end as int))));
                    out.push(e);
                    off = end;
                }
            },
        }
    }
    out
}

/// The meta file that holds `term` and `vote`: `[term:u64][has_vote:u8][vote:u64]`.
pub fn encode_meta(term: u64, vote: Option<usize>) -> (out: Vec<u8>)
    ensures
        out@ == meta_image(term, vote),
{
    let mut out: Vec<u8> = Vec::new();
    put_u64(&mut out, term);
    match vote {
        Some(v) => {
            out.push(1);
            put_u64(&mut out, v as u64);
        },
        None => {
            out.push(0);
            put_u64(&mut out, 0);
        },
    }
    assert(out@ =~= meta_image(term, vote));
    out
}

/// The term and vote that a meta file holds (`(0, None)` if it is short).
pub fn parse_meta(buf: &[u8]) -> (r: (u64, Option<usize>))
    ensures
        r == read_meta(buf@),
{
    if buf.len() < 17 {
        return (0, None);
    }
    let term: u64 = get_u64(buf, 0);
    let vote: Option<usize> = if buf[8] != 0 {
        Some(get_u64(buf, 9) as usize)
    } else {
        None
    };
    (term, vote)
}

/// Every entry that a segment holds fits in a frame.
pub proof fn lemma_read_commands_fit(b: Seq<u8>)
    ensures
        forall|j: int|
            0 <= j < read_segment(b).len() ==> (#[trigger] read_segment(b)[j]).command.len()
                <= MAX_COMMAND,
    decreases b.len(),
{
    if let Some((crc, end)) = first_frame(b) {
        lemma_read_commands_fit(b.skip(end));
        let rest = read_segment(b.skip(end));
        assert forall|j: int| 0 <= j < read_segment(b).len() implies (
        #[trigger] read_segment(b)[j]).command.len() <= MAX_COMMAND by {
            if j > 0 {
                assert(read_segment(b)[j] == rest[j - 1]);
            }
        }
    }
}

/// A segment that starts with the frame of `e` is read as `e` and then the rest.
proof fn lemma_read_frame(e: EntryView, rest: Seq<u8>)
    requires
        e.command.len() <= MAX_COMMAND,
    ensures
        read_segment(frame(e) + rest) == seq![e] + read_segment(rest),
{
    broadcast use lemma_le_digits_len;

    let body = frame_body(e);
    let len = (body.len() + 4) as u32;
    let b = frame(e) + rest;
    let end = frame(e).len() as int;
    lemma_ints_read_back(0, len, e.term, 0, 0);
    lemma_ints_read_back(0, crc32(body), e.index, 0, 0);
    assert(b.subrange(0, 4) =~= u32_le(len));
    assert(b.subrange(4, 8) =~= u32_le(crc32(body)));
    assert(b.subrange(8, end) =~= body);
    assert(body.subrange(0, 8) =~= u64_le(e.term));
    assert(body.subrange(8, 16) =~= u64_le(e.index));
    assert(body.skip(16) =~= e.command);
    assert(b.skip(end) =~= rest);
    assert(first_frame(b) == Some((crc32(body), end)));
}

/// What a segment holds is what was put in it, and whatever stands behind is read after it.
proof fn lemma_read_image(entries: Seq<EntryView>, rest: Seq<u8>)
    requires
        forall|j: int|
            0 <= j < entries.len() ==> (#[trigger] entries[j]).command.len() <= MAX_COMMAND,
    ensures
        read_segment(segment_image(entries) + rest) == entries + read_segment(rest),
    decreases entries.len(),
{
    if entries.len() == 0 {
        assert(segment_image(entries) + rest =~= rest);
        assert(entries + read_segment(rest) =~= read_segment(rest));
    } else {
        let init = entries.drop_last();
        let e = entries.last();
        lemma_read_image(init, frame(e) + rest);
        lemma_read_frame(e, rest);
        assert(segment_image(entries) + rest =~= segment_image(init) + (frame(e) + rest));
        assert(entries + read_segment(rest) =~= init + (seq![e] + read_segment(rest)));
    }
}

/// The entries of a segment, and the whole frames before a torn one, are all recovered: a crash in
/// the middle of writing one frame loses that frame and nothing else.
pub proof fn law_torn_tail_is_dropped(entries: Seq<EntryView>, torn: EntryView, cut: int)
    requires
        forall|j: int|
            0 <= j < entries.len() ==> (#[trigger] entries[j]).command.len() <= MAX_COMMAND,
        torn.command.len() <= MAX_COMMAND,
        0 <= cut < frame(torn).len(),
    ensures
        read_segment(segment_image(entries) + frame(torn).take(cut)) == entries,
{
    broadcast use lemma_le_digits_len;

    let tail = frame(torn).take(cut);
    let len = (frame_body(torn).len() + 4) as u32;
    lemma_read_image(entries, tail);
    if cut >= 8 {
        lemma_ints_read_back(0, len, 0, 0, 0);
        assert(tail.subrange(0, 4) =~= u32_le(len));
    }
    assert(read_segment(tail) =~= Seq::empty());
    assert(entries + Seq::<EntryView>::empty() =~= entries);
}

/// A segment reads back as the entries that it was written from.
pub proof fn law_segment_reads_back(entries: Seq<EntryView>)
    requires
        forall|j: int|
            0 <= j < entries.len() ==> (#[trigger] entries[j]).command.len() <= MAX_COMMAND,
    ensures
        read_segment(segment_image(entries)) == entries,
{
    lemma_read_image(entries, Seq::empty());
    assert(segment_image(entries) + Seq::<u8>::empty() =~= segment_image(entries));
    assert(entries + read_segment(Seq::empty()) =~= entries);
}

/// The meta file reads back as the term and vote that it was written from.
pub proof fn law_meta_reads_back(term: u64, vote: Option<usize>)
    ensures
        read_meta(meta_image(term, vote)) == (term, vote),
{
    broadcast use lemma_le_digits_len;

    let b = meta_image(term, vote);
    let v: u64 = match vote {
        Some(v) => v as u64,
        None => 0,
    };
    lemma_ints_read_back(0, 0, term, 0, 0);
    lemma_ints_read_back(0, 0, v, 0, 0);
    assert(b.subrange(0, 8) =~= u64_le(term));
    assert(b.subrange(9, 17) =~= u64_le(v));
}

/// Once its writes are made, the files hold what the log holds.
pub open spec fn mirrored(disk: Disk, log: LogView) -> bool {
    let d = disk.after_all(log.writes);
    &&& d.segment == segment_image(log.entries)
    &&& read_meta(d.meta) == (log.term, log.vote)
}

/// Every change of a durable log keeps its files in step with it.
pub proof fn law_writes_mirror_the_log(
    disk: Disk,
    log: LogView,
    e: EntryView,
    index: u64,
    term: u64,
    vote: Option<usize>,
)
    requires
        log.durable,
        mirrored(disk, log),
    ensures
        mirrored(disk, log.appended(e)),
        mirrored(disk, log.truncated(index)),
        mirrored(disk, log.with_term_vote(term, vote)),
{
    law_meta_reads_back(term, vote);
    let a = log.appended(e);
    assert(a.writes.drop_last() =~= log.writes);
    assert(a.entries.drop_last() =~= log.entries);
    let t = log.truncated(index);
    assert(t.writes.drop_last() =~= log.writes);
    let m = log.with_term_vote(term, vote);
    assert(m.writes.drop_last() =~= log.writes);
}

/// A log recovered from its own files is the log, whatever the crash tore off the last append;
/// and its files are in step with it again.
pub proof fn law_recovery_restores_the_log(disk: Disk, log: LogView, torn: EntryView, cut: int)
    requires
        log.wf(),
        log.durable,
        log.snapshot_index == 0,
        mirrored(disk, log),
        torn.command.len() <= MAX_COMMAND,
        0 <= cut < frame(torn).len(),
    ensures
        ({
            let d = disk.after_all(log.writes);
            let crashed = Disk { segment: d.segment + frame(torn).take(cut), ..d };
            let r = recovered_log(crashed.segment, crashed.meta);
            &&& r.entries == log.entries
            &&& r.term == log.term
            &&& r.vote == log.vote
            &&& r.wf()
            &&& mirrored(crashed, r)
        }),
{
    let d = disk.after_all(log.writes);
    let crashed = Disk { segment: d.segment + frame(torn).take(cut), ..d };
    law_torn_tail_is_dropped(log.entries, torn, cut);
    let r = recovered_log(crashed.segment, crashed.meta);
    reveal_with_fuel(Disk::after_all, 2);
    if r.writes.len() > 0 {
        assert(r.writes.drop_last() =~= Seq::empty());
    }
}

/// The bytes of a segment's frame: the length of what follows it and the checksum, four bytes each,
/// then term, index and command.
pub proof fn law_frame_layout(e: EntryView)
    ensures
        ({
            let body = u64_le(e.term) + u64_le(e.index) + e.command;
            frame(e) == u32_le((body.len() + 4) as u32) + u32_le(crc32(body)) + body
        }),
{
}

} // verus!
